//! The in-memory authoritative cache: a plain string-to-bytes map that
//! serves every read and accepts every write synchronously.  The
//! surrounding process wraps a value of this type in a reader/writer lock
//! and mirrors each mutation onto the persistence worker's queue; the map
//! itself holds the whole read/write semantics.

use vstd::prelude::*;
use crate::smap::{StrMap, map_of, contains_str};
use vstd::string::StrSliceExecFns;

verus! {

/// The set of key views carried by a list of keys.
pub open spec fn key_set(keys: Seq<String>) -> Set<Seq<char>> {
    Set::new(|k: Seq<char>| contains_str(keys, k))
}

/// The keys of `m` that start with `prefix`.  An empty prefix matches
/// every key.
pub open spec fn prefixed_keys(m: Map<Seq<char>, Seq<u8>>, prefix: Seq<char>) -> Set<Seq<char>> {
    Set::new(|k: Seq<char>| m.contains_key(k) && prefix.is_prefix_of(k))
}

/// Some run of the predicate accepts a key reading `k`.
pub open spec fn accepted_by<F: Fn(String) -> bool>(filter: F, k: Seq<char>) -> bool {
    exists|ks: String| ks@ == k && call_ensures(filter, (ks,), true)
}

/// Some run of the predicate rejects a key reading `k`.
pub open spec fn rejected_by<F: Fn(String) -> bool>(filter: F, k: Seq<char>) -> bool {
    exists|ks: String| ks@ == k && call_ensures(filter, (ks,), false)
}

/// Whether `prefix` is a character prefix of `s`.
fn str_has_prefix(s: &String, prefix: &String) -> (r: bool)
    ensures
        r == prefix@.is_prefix_of(s@),
{
    let sl = s.as_str().unicode_len();
    let pl = prefix.as_str().unicode_len();
    if pl > sl {
        return false;
    }
    let mut i: usize = 0;
    while i < pl
        invariant
            i <= pl,
            pl == prefix@.len(),
            pl <= sl,
            sl == s@.len(),
            forall|j: int| 0 <= j < i ==> s@[j] == prefix@[j],
        decreases pl - i,
    {
        if s.as_str().get_char(i) != prefix.as_str().get_char(i) {
            proof {
                if prefix@.is_prefix_of(s@) {
                    assert(prefix@[i as int] == s@.subrange(0, pl as int)[i as int]);
                }
            }
            return false;
        }
        i = i + 1;
    }
    proof {
        assert(prefix@ =~= s@.subrange(0, pl as int));
    }
    true
}

/// Clone a list of keys, element for element.
fn clone_keys(keys: &Vec<String>) -> (r: Vec<String>)
    ensures
        r@ == keys@,
{
    let n = keys.len();
    let mut r: Vec<String> = Vec::new();
    let mut i: usize = 0;
    while i < n
        invariant
            n == keys@.len(),
            i <= n,
            r@.len() == i,
            forall|j: int| 0 <= j < i ==> r@[j] == keys@[j],
        decreases n - i,
    {
        r.push(keys[i].clone());
        i = i + 1;
    }
    proof {
        assert(r@ =~= keys@);
    }
    r
}

/// The in-memory key-value map: the single source of truth for reads.
/// None of its operations can fail.
pub struct MenoryDb {
    mem: StrMap<Vec<u8>>,
}

impl View for MenoryDb {
    type V = Map<Seq<char>, Seq<u8>>;

    closed spec fn view(&self) -> Map<Seq<char>, Seq<u8>> {
        self.mem@
    }
}

impl MenoryDb {
    /// A cache holding exactly the given entries, as loaded at store-open
    /// time from the durable backend.
    pub fn new(mem: StrMap<Vec<u8>>) -> (r: Self)
        ensures
            r@ == mem@,
    {
        MenoryDb { mem }
    }

    /// All keys accepted by the caller-supplied predicate.  Every returned
    /// key is present and was accepted by a run of the predicate; every
    /// present key was either returned or rejected by a run.
    pub fn scan_keys<F: Fn(String) -> bool>(&self, filter: F) -> (r: Vec<String>)
        requires
            forall|k: String| #[trigger] call_requires(filter, (k,)),
        ensures
            forall|i: int| 0 <= i < r@.len() ==> self@.contains_key(#[trigger] r@[i]@),
            forall|i: int, j: int| 0 <= i < j < r@.len() ==> r@[i]@ != r@[j]@,
            forall|i: int| 0 <= i < r@.len() ==> accepted_by(filter, #[trigger] r@[i]@),
            forall|k: Seq<char>| #[trigger] self@.contains_key(k)
                ==> contains_str(r@, k) || rejected_by(filter, k),
    {
        let ks = self.mem.keys();
        let n = ks.len();
        let mut r: Vec<String> = Vec::new();
        let ghost mut accepts: Seq<String> = Seq::empty();
        let ghost mut verdicts: Map<int, (String, bool)> = Map::empty();
        let mut i: usize = 0;
        while i < n
            invariant
                n == ks@.len(),
                forall|j: int| 0 <= j < n ==> self@.contains_key(#[trigger] ks@[j]@),
                forall|x: int, y: int| 0 <= x < y < n ==> ks@[x]@ != ks@[y]@,
                forall|k: String| #[trigger] call_requires(filter, (k,)),
                i <= n,
                accepts.len() == r@.len(),
                forall|x: int| 0 <= x < r@.len() ==> exists|j: int|
                    0 <= j < i && #[trigger] r@[x]@ == ks@[j]@,
                forall|x: int, y: int| 0 <= x < y < r@.len() ==> r@[x]@ != r@[y]@,
                forall|x: int| 0 <= x < r@.len() ==> (#[trigger] accepts[x])@ == r@[x]@
                    && call_ensures(filter, (accepts[x],), true),
                forall|j: int| 0 <= j < i ==> #[trigger] verdicts.contains_key(j)
                    && verdicts[j].0@ == ks@[j]@
                    && call_ensures(filter, (verdicts[j].0,), verdicts[j].1),
                forall|j: int| 0 <= j < i && (#[trigger] verdicts[j]).1
                    ==> contains_str(r@, ks@[j]@),
            decreases n - i,
        {
            let ghost r0 = r@;
            let key = ks[i].clone();
            let ghost gk = key;
            let keep = filter(key);
            proof {
                assert(call_ensures(filter, (gk,), keep));
                verdicts = verdicts.insert(i as int, (gk, keep));
            }
            if keep {
                let key2 = ks[i].clone();
                proof {
                    assert(!contains_str(r0, ks@[i as int]@)) by {
                        if contains_str(r0, ks@[i as int]@) {
                            let x = choose|x: int| 0 <= x < r0.len() && r0[x]@ == ks@[i as int]@;
                            let j = choose|j: int| 0 <= j < i && r0[x]@ == ks@[j]@;
                            assert(ks@[j]@ == ks@[i as int]@);
                        }
                    }
                    accepts = accepts.push(gk);
                }
                r.push(key2);
            }
            proof {
                assert forall|j: int| 0 <= j < i + 1 && (#[trigger] verdicts[j]).1
                    implies contains_str(r@, ks@[j]@) by {
                    if j < i {
                        assert(contains_str(r0, ks@[j]@));
                        let x = choose|x: int| 0 <= x < r0.len() && r0[x]@ == ks@[j]@;
                        assert(r@[x]@ == ks@[j]@);
                    } else {
                        assert(r@[r@.len() - 1]@ == ks@[i as int]@);
                    }
                }
            }
            i = i + 1;
        }
        proof {
            assert forall|x: int| 0 <= x < r@.len()
                implies accepted_by(filter, #[trigger] r@[x]@) by {
                assert(accepts[x]@ == r@[x]@ && call_ensures(filter, (accepts[x],), true));
            }
            assert forall|k: Seq<char>| #[trigger] self@.contains_key(k)
                implies contains_str(r@, k) || rejected_by(filter, k) by {
                let j = choose|j: int| 0 <= j < n && ks@[j]@ == k;
                assert(verdicts.contains_key(j));
                if verdicts[j].1 {
                    assert(contains_str(r@, ks@[j]@));
                } else {
                    assert(verdicts[j].0@ == k
                        && call_ensures(filter, (verdicts[j].0,), false));
                }
            }
        }
        r
    }

    /// The value stored under `key`, if any.  Never touches durable I/O.
    pub fn get(&self, key: &String) -> (r: Option<Vec<u8>>)
        ensures
            match r {
                Some(v) => self@.contains_key(key@) && v@ == self@[key@],
                None => !self@.contains_key(key@),
            },
    {
        match self.mem.get(key) {
            Some(v) => Some(vstd::slice::slice_to_vec(v.as_slice())),
            None => None,
        }
    }

    /// The present subset of the requested keys, with their values.
    pub fn get_many(&self, keys: Vec<String>) -> (r: StrMap<Vec<u8>>)
        ensures
            r@ == self@.restrict(key_set(keys@)),
    {
        let n = keys.len();
        let mut r: StrMap<Vec<u8>> = StrMap::new();
        let mut i: usize = 0;
        proof {
            assert(r@ =~= self@.restrict(key_set(keys@.take(0))));
        }
        while i < n
            invariant
                n == keys@.len(),
                i <= n,
                r@ == self@.restrict(key_set(keys@.take(i as int))),
            decreases n - i,
        {
            let key = keys[i].clone();
            let ghost r0 = r@;
            match self.mem.get(&key) {
                Some(v) => {
                    let value = vstd::slice::slice_to_vec(v.as_slice());
                    r.insert(key, value);
                },
                None => {},
            }
            proof {
                assert(key_set(keys@.take(i + 1)) =~= key_set(keys@.take(i as int)).insert(
                    keys@[i as int]@,
                )) by {
                    assert forall|k: Seq<char>| contains_str(keys@.take(i + 1), k)
                        implies key_set(keys@.take(i as int)).insert(keys@[i as int]@).contains(k)
                        by {
                        let x = choose|x: int|
                            0 <= x < keys@.take(i + 1).len() && (#[trigger] keys@.take(i + 1)[x])@
                                == k;
                        if x < i {
                            assert(keys@.take(i as int)[x]@ == k);
                        }
                    }
                    assert forall|k: Seq<char>|
                        key_set(keys@.take(i as int)).insert(keys@[i as int]@).contains(k)
                        implies contains_str(keys@.take(i + 1), k) by {
                        if k == keys@[i as int]@ {
                            assert(keys@.take(i + 1)[i as int]@ == k);
                        } else {
                            let x = choose|x: int|
                                0 <= x < keys@.take(i as int).len()
                                    && (#[trigger] keys@.take(i as int)[x])@ == k;
                            assert(keys@.take(i + 1)[x]@ == k);
                        }
                    }
                }
                assert(r@ =~= self@.restrict(key_set(keys@.take(i + 1))));
            }
            i = i + 1;
        }
        proof {
            assert(keys@.take(n as int) =~= keys@);
        }
        r
    }

    /// Store `value` under `key`, overwriting any prior value.
    pub fn set(&mut self, key: String, value: Vec<u8>)
        ensures
            final(self)@ == old(self)@.insert(key@, value@),
    {
        self.mem.insert(key, value);
    }

    /// Store a batch of entries, later pairs winning over earlier ones.
    pub fn set_many(&mut self, data: Vec<(String, Vec<u8>)>)
        ensures
            final(self)@ == old(self)@.union_prefer_right(map_of(data@)),
    {
        let ghost m0 = self.mem@;
        let n = data.len();
        let mut i: usize = 0;
        proof {
            assert(m0 =~= m0.union_prefer_right(map_of(data@.take(0))));
        }
        while i < n
            invariant
                n == data@.len(),
                i <= n,
                self.mem@ == m0.union_prefer_right(map_of(data@.take(i as int))),
            decreases n - i,
        {
            let key = data[i].0.clone();
            let value = vstd::slice::slice_to_vec(data[i].1.as_slice());
            proof {
                let t1 = data@.take(i + 1);
                assert(t1.drop_last() =~= data@.take(i as int));
                assert(t1.last() == data@[i as int]);
                assert(m0.union_prefer_right(map_of(data@.take(i as int))).insert(
                    data@[i as int].0@,
                    data@[i as int].1@,
                ) =~= m0.union_prefer_right(map_of(t1)));
            }
            self.mem.insert(key, value);
            i = i + 1;
        }
        proof {
            assert(data@.take(n as int) =~= data@);
        }
    }

    /// Remove the entry under `key`, if any.
    pub fn delete(&mut self, key: &String)
        ensures
            final(self)@ == old(self)@.remove(key@),
    {
        self.mem.remove(key);
    }

    /// Remove every listed key that is present.
    pub fn delete_many(&mut self, keys: Vec<String>)
        ensures
            final(self)@ == old(self)@.remove_keys(key_set(keys@)),
    {
        let ghost m0 = self.mem@;
        let n = keys.len();
        let mut i: usize = 0;
        proof {
            assert(m0 =~= m0.remove_keys(key_set(keys@.take(0))));
        }
        while i < n
            invariant
                n == keys@.len(),
                i <= n,
                self.mem@ == m0.remove_keys(key_set(keys@.take(i as int))),
            decreases n - i,
        {
            self.mem.remove(&keys[i]);
            proof {
                assert forall|k: Seq<char>| contains_str(keys@.take(i + 1), k)
                    implies (contains_str(keys@.take(i as int), k) || keys@[i as int]@ == k) by {
                    let x = choose|x: int|
                        0 <= x < keys@.take(i + 1).len() && (#[trigger] keys@.take(i + 1)[x])@
                            == k;
                    if x < i {
                        assert(keys@.take(i as int)[x]@ == k);
                    }
                }
                assert forall|k: Seq<char>| contains_str(keys@.take(i as int), k)
                    implies contains_str(keys@.take(i + 1), k) by {
                    let x = choose|x: int|
                        0 <= x < keys@.take(i as int).len()
                            && (#[trigger] keys@.take(i as int)[x])@ == k;
                    assert(keys@.take(i + 1)[x]@ == k);
                }
                assert(keys@.take(i + 1)[i as int]@ == keys@[i as int]@);
                assert(m0.remove_keys(key_set(keys@.take(i as int))).remove(keys@[i as int]@)
                    =~= m0.remove_keys(key_set(keys@.take(i + 1))));
            }
            i = i + 1;
        }
        proof {
            assert(keys@.take(n as int) =~= keys@);
        }
    }

    /// Remove every entry.
    pub fn delete_all(&mut self)
        ensures
            final(self)@ == Map::<Seq<char>, Seq<u8>>::empty(),
    {
        self.mem.clear();
    }

    /// All present keys that start with `prefix`, one occurrence each.
    pub fn keys_with_prefix(&self, prefix: &String) -> (r: Vec<String>)
        ensures
            forall|i: int| 0 <= i < r@.len()
                ==> self@.contains_key(#[trigger] r@[i]@) && prefix@.is_prefix_of(r@[i]@),
            forall|i: int, j: int| 0 <= i < j < r@.len() ==> r@[i]@ != r@[j]@,
            forall|k: Seq<char>| #[trigger] prefixed_keys(self@, prefix@).contains(k)
                ==> contains_str(r@, k),
    {
        let ks = self.mem.keys();
        let n = ks.len();
        let mut r: Vec<String> = Vec::new();
        let mut i: usize = 0;
        while i < n
            invariant
                n == ks@.len(),
                forall|j: int| 0 <= j < n ==> self@.contains_key(#[trigger] ks@[j]@),
                forall|x: int, y: int| 0 <= x < y < n ==> ks@[x]@ != ks@[y]@,
                i <= n,
                forall|x: int| 0 <= x < r@.len() ==> exists|j: int|
                    0 <= j < i && #[trigger] r@[x]@ == ks@[j]@,
                forall|x: int| 0 <= x < r@.len()
                    ==> self@.contains_key(#[trigger] r@[x]@) && prefix@.is_prefix_of(r@[x]@),
                forall|x: int, y: int| 0 <= x < y < r@.len() ==> r@[x]@ != r@[y]@,
                forall|j: int| 0 <= j < i && prefix@.is_prefix_of(#[trigger] ks@[j]@)
                    ==> contains_str(r@, ks@[j]@),
            decreases n - i,
        {
            let ghost r0 = r@;
            if str_has_prefix(&ks[i], prefix) {
                let key = ks[i].clone();
                proof {
                    assert(!contains_str(r0, ks@[i as int]@)) by {
                        if contains_str(r0, ks@[i as int]@) {
                            let x = choose|x: int| 0 <= x < r0.len() && r0[x]@ == ks@[i as int]@;
                            let j = choose|j: int| 0 <= j < i && r0[x]@ == ks@[j]@;
                            assert(ks@[j]@ == ks@[i as int]@);
                        }
                    }
                }
                r.push(key);
            }
            proof {
                assert forall|j: int| 0 <= j < i + 1 && prefix@.is_prefix_of(#[trigger] ks@[j]@)
                    implies contains_str(r@, ks@[j]@) by {
                    if j < i {
                        assert(contains_str(r0, ks@[j]@));
                        let x = choose|x: int| 0 <= x < r0.len() && r0[x]@ == ks@[j]@;
                        assert(r@[x]@ == ks@[j]@);
                    } else {
                        assert(r@[r@.len() - 1]@ == ks@[i as int]@);
                    }
                }
            }
            i = i + 1;
        }
        proof {
            assert forall|k: Seq<char>| #[trigger] prefixed_keys(self@, prefix@).contains(k)
                implies contains_str(r@, k) by {
                let j = choose|j: int| 0 <= j < n && ks@[j]@ == k;
                assert(prefix@.is_prefix_of(ks@[j]@));
                assert(contains_str(r@, ks@[j]@));
            }
        }
        r
    }

    /// Remove every entry whose key starts with `prefix` (an empty prefix
    /// removes everything) and report the removed keys, so the caller can
    /// mirror the same deletions onto the persistence queue.
    pub fn delete_with_prefix(&mut self, prefix: &String) -> (removed: Vec<String>)
        ensures
            final(self)@ == old(self)@.remove_keys(prefixed_keys(old(self)@, prefix@)),
            forall|i: int| 0 <= i < removed@.len()
                ==> old(self)@.contains_key(#[trigger] removed@[i]@)
                    && prefix@.is_prefix_of(removed@[i]@),
            forall|i: int, j: int| 0 <= i < j < removed@.len() ==> removed@[i]@ != removed@[j]@,
            forall|k: Seq<char>| #[trigger] prefixed_keys(old(self)@, prefix@).contains(k)
                ==> contains_str(removed@, k),
    {
        let ks = self.keys_with_prefix(prefix);
        let ks2 = clone_keys(&ks);
        let ghost m0 = self@;
        self.delete_many(ks2);
        proof {
            assert(key_set(ks@) =~= prefixed_keys(m0, prefix@)) by {
                assert forall|k: Seq<char>| key_set(ks@).contains(k)
                    implies prefixed_keys(m0, prefix@).contains(k) by {
                    let x = choose|x: int| 0 <= x < ks@.len() && ks@[x]@ == k;
                }
            }
        }
        ks
    }
}

impl Default for MenoryDb {
    /// An empty cache.
    fn default() -> (r: Self)
        ensures
            r@ == Map::<Seq<char>, Seq<u8>>::empty(),
    {
        MenoryDb { mem: StrMap::new() }
    }
}

/// Law: read-your-writes.  After storing `v` under `k`, a lookup of `k`
/// immediately finds `v`: `set` ensures the view becomes
/// `old@.insert(k, v)`, and `get` returns exactly the view's entry.
pub proof fn lemma_read_your_writes(db: Map<Seq<char>, Seq<u8>>, k: Seq<char>, v: Seq<u8>)
    ensures
        db.insert(k, v).contains_key(k),
        db.insert(k, v)[k] == v,
{
}

/// Law: delete-then-get.  After removing `k`, a lookup of `k` immediately
/// reports it absent: `delete` ensures the view becomes `old@.remove(k)`,
/// and `get` returns `None` exactly on absent keys.
pub proof fn lemma_delete_then_get(db: Map<Seq<char>, Seq<u8>>, k: Seq<char>)
    ensures
        !db.remove(k).contains_key(k),
{
}

} // verus!
