//! A map from string keys to arbitrary values, backed by a vector of
//! key-value pairs with pairwise-distinct keys.  Its view is a
//! `Map<Seq<char>, V::V>`, so contracts elsewhere speak of mathematical maps.

use vstd::prelude::*;

verus! {

/// The mathematical map described by a sequence of key-value pairs,
/// later pairs winning over earlier ones.
pub open spec fn map_of<V: View>(s: Seq<(String, V)>) -> Map<Seq<char>, V::V>
    decreases s.len(),
{
    if s.len() == 0 {
        Map::empty()
    } else {
        map_of(s.drop_last()).insert(s.last().0@, s.last().1@)
    }
}

/// The keys of the pair sequence are pairwise distinct.
pub open spec fn distinct_keys<V>(s: Seq<(String, V)>) -> bool {
    forall|i: int, j: int| 0 <= i < j < s.len() ==> s[i].0@ != s[j].0@
}

/// Some pair of the sequence carries the key `k`.
pub open spec fn has_key<V>(s: Seq<(String, V)>, k: Seq<char>) -> bool {
    exists|i: int| 0 <= i < s.len() && s[i].0@ == k
}

/// Some string of the sequence reads `k`.
pub open spec fn contains_str(keys: Seq<String>, k: Seq<char>) -> bool {
    exists|i: int| 0 <= i < keys.len() && keys[i]@ == k
}

pub proof fn lemma_map_of_dom<V: View>(s: Seq<(String, V)>)
    ensures
        forall|k: Seq<char>| #[trigger] map_of(s).contains_key(k) <==> has_key(s, k),
    decreases s.len(),
{
    if s.len() > 0 {
        lemma_map_of_dom(s.drop_last());
        assert forall|k: Seq<char>| #[trigger] map_of(s).contains_key(k) implies has_key(s, k) by {
            if k == s.last().0@ {
                assert(s[s.len() - 1].0@ == k);
            } else {
                assert(map_of(s.drop_last()).contains_key(k));
                let i = choose|i: int| 0 <= i < s.drop_last().len() && s.drop_last()[i].0@ == k;
                assert(s[i].0@ == k);
            }
        }
        assert forall|k: Seq<char>| has_key(s, k) implies #[trigger] map_of(s).contains_key(k) by {
            let i = choose|i: int| 0 <= i < s.len() && s[i].0@ == k;
            if i < s.len() - 1 {
                assert(s.drop_last()[i].0@ == k);
                assert(has_key(s.drop_last(), k));
                assert(map_of(s.drop_last()).contains_key(k));
            } else {
                assert(k == s.last().0@);
            }
        }
    }
}

pub proof fn lemma_map_of_finite<V: View>(s: Seq<(String, V)>)
    ensures
        map_of(s).dom().finite(),
    decreases s.len(),
{
    if s.len() > 0 {
        lemma_map_of_finite(s.drop_last());
    }
}

/// With distinct keys, each pair of the sequence is in the map.
pub proof fn lemma_map_of_index<V: View>(s: Seq<(String, V)>, i: int)
    requires
        distinct_keys(s),
        0 <= i < s.len(),
    ensures
        map_of(s).contains_pair(s[i].0@, s[i].1@),
    decreases s.len(),
{
    if i == s.len() - 1 {
    } else {
        lemma_map_of_index(s.drop_last(), i);
        assert(s.drop_last()[i] == s[i]);
    }
}

pub proof fn lemma_map_of_len<V: View>(s: Seq<(String, V)>)
    requires
        distinct_keys(s),
    ensures
        map_of(s).dom().len() == s.len(),
    decreases s.len(),
{
    if s.len() > 0 {
        lemma_map_of_len(s.drop_last());
        lemma_map_of_dom(s.drop_last());
        lemma_map_of_finite(s.drop_last());
        assert(!has_key(s.drop_last(), s.last().0@)) by {
            if has_key(s.drop_last(), s.last().0@) {
                let i = choose|i: int|
                    0 <= i < s.drop_last().len() && s.drop_last()[i].0@ == s.last().0@;
                assert(s[i].0@ == s[s.len() - 1].0@);
            }
        }
        assert(map_of(s).dom() =~= map_of(s.drop_last()).dom().insert(s.last().0@));
    }
}

/// Appending a pair inserts its key.
pub proof fn lemma_map_of_push<V: View>(s: Seq<(String, V)>, p: (String, V))
    ensures
        map_of(s.push(p)) == map_of(s).insert(p.0@, p.1@),
{
    assert(s.push(p).drop_last() =~= s);
    assert(s.push(p).last() == p);
}

/// Removing the pair at `i` removes its key, provided keys are distinct.
pub proof fn lemma_map_of_remove<V: View>(s: Seq<(String, V)>, i: int)
    requires
        distinct_keys(s),
        0 <= i < s.len(),
    ensures
        map_of(s.remove(i)) == map_of(s).remove(s[i].0@),
    decreases s.len(),
{
    let k = s[i].0@;
    if i == s.len() - 1 {
        assert(s.remove(i) =~= s.drop_last());
        lemma_map_of_dom(s.drop_last());
        assert(!has_key(s.drop_last(), k)) by {
            if has_key(s.drop_last(), k) {
                let j = choose|j: int|
                    0 <= j < s.drop_last().len() && s.drop_last()[j].0@ == k;
                assert(s[j].0@ == s[i].0@);
            }
        }
        assert(map_of(s.drop_last()) =~= map_of(s.drop_last()).insert(s.last().0@, s.last().1@).remove(k));
    } else {
        lemma_map_of_remove(s.drop_last(), i);
        assert(s.remove(i).drop_last() =~= s.drop_last().remove(i));
        assert(s.remove(i).last() == s.last());
        assert(s.last().0@ != k);
        assert(map_of(s.remove(i)) == map_of(s.drop_last()).remove(k).insert(s.last().0@, s.last().1@));
        assert(map_of(s.drop_last()).remove(k).insert(s.last().0@, s.last().1@)
            =~= map_of(s.drop_last()).insert(s.last().0@, s.last().1@).remove(k));
    }
}

/// A map from string keys to values of `V`, with a `Map<Seq<char>, V::V>`
/// view.  Lookups are linear scans; keys are kept pairwise distinct.
pub struct StrMap<V: View> {
    pairs: Vec<(String, V)>,
}

impl<V: View> View for StrMap<V> {
    type V = Map<Seq<char>, V::V>;

    closed spec fn view(&self) -> Map<Seq<char>, V::V> {
        map_of(self.pairs@)
    }
}

impl<V: View> StrMap<V> {
    #[verifier::type_invariant]
    spec fn wf(self) -> bool {
        distinct_keys(self.pairs@)
    }

    pub fn new() -> (r: Self)
        ensures
            r@ == Map::<Seq<char>, V::V>::empty(),
    {
        StrMap { pairs: Vec::new() }
    }

    /// The index of the pair carrying `key`, if one does.
    fn find(&self, key: &String) -> (r: Option<usize>)
        ensures
            match r {
                Some(i) => i < self.pairs@.len() && self.pairs@[i as int].0@ == key@,
                None => !has_key(self.pairs@, key@),
            },
    {
        let n = self.pairs.len();
        let mut i: usize = 0;
        while i < n
            invariant
                n == self.pairs@.len(),
                i <= n,
                forall|j: int| 0 <= j < i ==> self.pairs@[j].0@ != key@,
            decreases n - i,
        {
            if self.pairs[i].0 == *key {
                return Some(i);
            }
            i = i + 1;
        }
        None
    }

    pub fn len(&self) -> (r: usize)
        ensures
            r == self@.dom().len(),
    {
        proof {
            use_type_invariant(self);
            lemma_map_of_len(self.pairs@);
        }
        self.pairs.len()
    }

    pub fn is_empty(&self) -> (r: bool)
        ensures
            r <==> self@ == Map::<Seq<char>, V::V>::empty(),
    {
        proof {
            use_type_invariant(self);
            lemma_map_of_len(self.pairs@);
            lemma_map_of_finite(self.pairs@);
            if self.pairs@.len() == 0 {
                assert(self@ =~= Map::<Seq<char>, V::V>::empty());
            } else {
                vstd::set_lib::lemma_set_empty_equivalency_len(self@.dom());
                assert(self@.dom() != Set::<Seq<char>>::empty());
                assert(self@ != Map::<Seq<char>, V::V>::empty());
            }
        }
        self.pairs.len() == 0
    }

    pub fn contains_key(&self, key: &String) -> (r: bool)
        ensures
            r == self@.contains_key(key@),
    {
        proof {
            use_type_invariant(self);
            lemma_map_of_dom(self.pairs@);
        }
        match self.find(key) {
            Some(_) => true,
            None => false,
        }
    }

    pub fn get(&self, key: &String) -> (r: Option<&V>)
        ensures
            match r {
                Some(v) => self@.contains_key(key@) && v@ == self@[key@],
                None => !self@.contains_key(key@),
            },
    {
        proof {
            use_type_invariant(self);
            lemma_map_of_dom(self.pairs@);
        }
        match self.find(key) {
            Some(i) => {
                proof {
                    lemma_map_of_index(self.pairs@, i as int);
                }
                Some(&self.pairs[i].1)
            },
            None => None,
        }
    }

    pub fn insert(&mut self, key: String, value: V)
        ensures
            final(self)@ == old(self)@.insert(key@, value@),
    {
        proof {
            use_type_invariant(&*self);
        }
        let idx = self.find(&key);
        let ghost s0 = self.pairs@;
        let mut pairs: Vec<(String, V)> = Vec::new();
        core::mem::swap(&mut pairs, &mut self.pairs);
        match idx {
            Some(i) => {
                pairs.remove(i);
                proof {
                    lemma_map_of_remove(s0, i as int);
                    assert(distinct_keys(pairs@)) by {
                        assert(forall|x: int| 0 <= x < pairs@.len() ==> pairs@[x] == (if x < i {
                            s0[x]
                        } else {
                            s0[x + 1]
                        }));
                    }
                    lemma_map_of_dom(pairs@);
                    assert(!has_key(pairs@, key@)) by {
                        if has_key(pairs@, key@) {
                            let j = choose|j: int| 0 <= j < pairs@.len() && pairs@[j].0@ == key@;
                            if j < i {
                                assert(s0[j].0@ == s0[i as int].0@);
                            } else {
                                assert(s0[j + 1].0@ == s0[i as int].0@);
                            }
                        }
                    }
                }
            },
            None => {
                proof {
                    lemma_map_of_dom(s0);
                    assert(map_of(s0).remove(key@) =~= map_of(s0));
                }
            },
        }
        let ghost s1 = pairs@;
        proof {
            lemma_map_of_push(s1, (key, value));
            assert(distinct_keys(s1.push((key, value)))) by {
                assert(forall|x: int| 0 <= x < s1.len() ==> s1.push((key, value))[x] == s1[x]);
            }
            assert(map_of(s1).insert(key@, value@) =~= map_of(s0).insert(key@, value@));
        }
        pairs.push((key, value));
        self.pairs = pairs;
    }

    pub fn remove(&mut self, key: &String)
        ensures
            final(self)@ == old(self)@.remove(key@),
    {
        proof {
            use_type_invariant(&*self);
        }
        let idx = self.find(key);
        let ghost s0 = self.pairs@;
        let mut pairs: Vec<(String, V)> = Vec::new();
        core::mem::swap(&mut pairs, &mut self.pairs);
        match idx {
            Some(i) => {
                pairs.remove(i);
                proof {
                    lemma_map_of_remove(s0, i as int);
                    assert(distinct_keys(pairs@)) by {
                        assert(forall|x: int| 0 <= x < pairs@.len() ==> pairs@[x] == (if x < i {
                            s0[x]
                        } else {
                            s0[x + 1]
                        }));
                    }
                }
            },
            None => {
                proof {
                    lemma_map_of_dom(s0);
                    assert(map_of(s0).remove(key@) =~= map_of(s0));
                }
            },
        }
        self.pairs = pairs;
    }

    pub fn clear(&mut self)
        ensures
            final(self)@ == Map::<Seq<char>, V::V>::empty(),
    {
        let mut pairs: Vec<(String, V)> = Vec::new();
        core::mem::swap(&mut pairs, &mut self.pairs);
    }

    /// The keys, one occurrence each, in the map's internal order.
    pub fn keys(&self) -> (r: Vec<String>)
        ensures
            r@.len() == self@.dom().len(),
            forall|i: int| 0 <= i < r@.len() ==> self@.contains_key(#[trigger] r@[i]@),
            forall|i: int, j: int| 0 <= i < j < r@.len() ==> r@[i]@ != r@[j]@,
            forall|k: Seq<char>| #[trigger] self@.contains_key(k)
                ==> exists|i: int| 0 <= i < r@.len() && r@[i]@ == k,
    {
        proof {
            use_type_invariant(self);
            lemma_map_of_dom(self.pairs@);
            lemma_map_of_len(self.pairs@);
        }
        let n = self.pairs.len();
        let mut r: Vec<String> = Vec::new();
        let mut i: usize = 0;
        while i < n
            invariant
                n == self.pairs@.len(),
                i <= n,
                r@.len() == i,
                forall|j: int| 0 <= j < i ==> r@[j] == self.pairs@[j].0,
            decreases n - i,
        {
            r.push(self.pairs[i].0.clone());
            i = i + 1;
        }
        proof {
            assert forall|k: Seq<char>| #[trigger] self@.contains_key(k)
                implies exists|i2: int| 0 <= i2 < r@.len() && r@[i2]@ == k by {
                let j = choose|j: int| 0 <= j < self.pairs@.len() && self.pairs@[j].0@ == k;
                assert(r@[j]@ == k);
            }
        }
        r
    }

    /// Dissolve the map into its pairs.  The returned sequence has
    /// pairwise-distinct keys and `map_of` it is the map's view.
    pub fn into_pairs(self) -> (r: Vec<(String, V)>)
        ensures
            distinct_keys(r@),
            map_of(r@) == self@,
    {
        proof {
            use_type_invariant(&self);
        }
        let StrMap { pairs } = self;
        pairs
    }
}

} // verus!
