//! The mutation-operation model and the write-coalescing merger: a burst of
//! operations is folded into one net effect (a final value per touched key,
//! or a pending deletion, plus a global clear flag) so the background worker
//! can flush the minimum amount of work to the durable backend.

use vstd::prelude::*;
use crate::smap::{StrMap, map_of, distinct_keys, contains_str};

verus! {

/// One discrete change request submitted against the store.
pub enum DbOp {
    Insert { key: String, value: Vec<u8> },
    InsertMany { data: Vec<(String, Vec<u8>)> },
    Delete { key: String },
    DeleteMany { keys: Vec<String> },
    DeleteAll,
}

/// The per-key pending state inside the merger: a value still to be
/// written, or a deletion still to be applied.
enum Pending {
    Put(Vec<u8>),
    Del,
}

impl View for Pending {
    type V = Option<Seq<u8>>;

    closed spec fn view(&self) -> Option<Seq<u8>> {
        match self {
            Pending::Put(v) => Some(v@),
            Pending::Del => None,
        }
    }
}

/// The net effect of a merge window, ready to flush: `clear` first wipes
/// everything, then `insert` writes its entries and `delete` removes its
/// keys.  `insert` keys and `delete` keys are disjoint.
pub struct DbOps {
    pub clear: bool,
    pub insert: StrMap<Vec<u8>>,
    pub delete: Vec<String>,
}

/// The pending entries contributed by a batch of upserts, later pairs
/// winning over earlier ones.
pub open spec fn upsert_entries(data: Seq<(String, Vec<u8>)>) -> Map<Seq<char>, Option<Seq<u8>>>
    decreases data.len(),
{
    if data.len() == 0 {
        Map::empty()
    } else {
        upsert_entries(data.drop_last()).insert(data.last().0@, Some(data.last().1@))
    }
}

/// The pending entries contributed by a batch of deletions.
pub open spec fn delete_entries(keys: Seq<String>) -> Map<Seq<char>, Option<Seq<u8>>>
    decreases keys.len(),
{
    if keys.len() == 0 {
        Map::empty()
    } else {
        delete_entries(keys.drop_last()).insert(keys.last()@, None)
    }
}

/// Folds a time-ordered burst of operations into a minimal net effect:
/// per key the last observed operation wins, and a clear discards all
/// pending state recorded before it while later operations still apply.
pub struct DbOpMerger {
    need_clear: bool,
    ops: StrMap<Pending>,
}

impl DbOpMerger {
    /// The pending per-key state: `Some(v)` is a value to write, `None` a
    /// deletion to apply.
    pub closed spec fn pending(self) -> Map<Seq<char>, Option<Seq<u8>>> {
        self.ops@
    }

    /// Whether a clear must be applied before the pending entries.
    pub closed spec fn clear_pending(self) -> bool {
        self.need_clear
    }

    pub fn new() -> (r: Self)
        ensures
            r.pending() == Map::<Seq<char>, Option<Seq<u8>>>::empty(),
            !r.clear_pending(),
    {
        DbOpMerger { need_clear: false, ops: StrMap::new() }
    }

    /// Nothing is pending: flushing now would perform no durable work.
    pub fn is_empty(&self) -> (r: bool)
        ensures
            r == (!self.clear_pending() && self.pending() == Map::<Seq<char>, Option<Seq<u8>>>::empty()),
    {
        !self.need_clear && self.ops.is_empty()
    }

    /// Fold one more operation into the pending state.  Inserts and deletes
    /// overwrite any prior pending state of their key (last write wins);
    /// a clear discards all previously pending entries and raises the
    /// clear flag, so that operations merged after it still take effect.
    pub fn merge(&mut self, op: DbOp)
        ensures
            match op {
                DbOp::Insert { key, value } => {
                    &&& final(self).pending() == old(self).pending().insert(key@, Some(value@))
                    &&& final(self).clear_pending() == old(self).clear_pending()
                },
                DbOp::InsertMany { data } => {
                    &&& final(self).pending() == old(self).pending().union_prefer_right(
                        upsert_entries(data@),
                    )
                    &&& final(self).clear_pending() == old(self).clear_pending()
                },
                DbOp::Delete { key } => {
                    &&& final(self).pending() == old(self).pending().insert(key@, None)
                    &&& final(self).clear_pending() == old(self).clear_pending()
                },
                DbOp::DeleteMany { keys } => {
                    &&& final(self).pending() == old(self).pending().union_prefer_right(
                        delete_entries(keys@),
                    )
                    &&& final(self).clear_pending() == old(self).clear_pending()
                },
                DbOp::DeleteAll => {
                    &&& final(self).pending() == Map::<Seq<char>, Option<Seq<u8>>>::empty()
                    &&& final(self).clear_pending()
                },
            },
    {
        match op {
            DbOp::Insert { key, value } => {
                self.ops.insert(key, Pending::Put(value));
            },
            DbOp::InsertMany { data } => {
                let ghost p0 = self.ops@;
                let n = data.len();
                let mut i: usize = 0;
                while i < n
                    invariant
                        n == data@.len(),
                        i <= n,
                        self.need_clear == old(self).need_clear,
                        self.ops@ == p0.union_prefer_right(upsert_entries(data@.take(i as int))),
                    decreases n - i,
                {
                    let key = data[i].0.clone();
                    let value = vstd::slice::slice_to_vec(data[i].1.as_slice());
                    proof {
                        let t1 = data@.take(i as int + 1);
                        assert(t1.drop_last() =~= data@.take(i as int));
                        assert(t1.last() == data@[i as int]);
                        assert(p0.union_prefer_right(upsert_entries(data@.take(i as int))).insert(
                            data@[i as int].0@,
                            Some(data@[i as int].1@),
                        ) =~= p0.union_prefer_right(upsert_entries(t1)));
                    }
                    self.ops.insert(key, Pending::Put(value));
                    i = i + 1;
                }
                proof {
                    assert(data@.take(n as int) =~= data@);
                }
            },
            DbOp::Delete { key } => {
                self.ops.insert(key, Pending::Del);
            },
            DbOp::DeleteMany { keys } => {
                let ghost p0 = self.ops@;
                let n = keys.len();
                let mut i: usize = 0;
                while i < n
                    invariant
                        n == keys@.len(),
                        i <= n,
                        self.need_clear == old(self).need_clear,
                        self.ops@ == p0.union_prefer_right(delete_entries(keys@.take(i as int))),
                    decreases n - i,
                {
                    let key = keys[i].clone();
                    proof {
                        let t1 = keys@.take(i as int + 1);
                        assert(t1.drop_last() =~= keys@.take(i as int));
                        assert(t1.last() == keys@[i as int]);
                        assert(p0.union_prefer_right(delete_entries(keys@.take(i as int))).insert(
                            keys@[i as int]@,
                            None::<Seq<u8>>,
                        ) =~= p0.union_prefer_right(delete_entries(t1)));
                    }
                    self.ops.insert(key, Pending::Del);
                    i = i + 1;
                }
                proof {
                    assert(keys@.take(n as int) =~= keys@);
                }
            },
            DbOp::DeleteAll => {
                self.ops.clear();
                self.need_clear = true;
            },
        }
    }

    /// Consume the merger and hand out the net effect: every key whose last
    /// pending state is a value lands in `insert`, every key whose last
    /// pending state is a deletion lands in `delete`, and the two are
    /// disjoint.
    pub fn into_ops(self) -> (r: DbOps)
        ensures
            r.clear == self.clear_pending(),
            forall|k: Seq<char>| #[trigger] r.insert@.contains_key(k)
                <==> (self.pending().contains_key(k) && self.pending()[k] is Some),
            forall|k: Seq<char>| #[trigger] r.insert@.contains_key(k)
                ==> self.pending()[k] == Some(r.insert@[k]),
            forall|k: Seq<char>| #[trigger] contains_str(r.delete@, k)
                <==> (self.pending().contains_key(k) && self.pending()[k] is None),
            forall|i: int, j: int| 0 <= i < j < r.delete@.len() ==> r.delete@[i]@ != r.delete@[j]@,
            forall|k: Seq<char>| #[trigger] contains_str(r.delete@, k) ==> !r.insert@.contains_key(k),
    {
        let DbOpMerger { need_clear, ops } = self;
        let ghost pending0 = ops@;
        let pairs = ops.into_pairs();
        let ghost s = pairs@;
        proof {
            crate::smap::lemma_map_of_dom(s);
        }
        let n = pairs.len();
        let mut ins: StrMap<Vec<u8>> = StrMap::new();
        let mut dels: Vec<String> = Vec::new();
        let mut i: usize = 0;
        while i < n
            invariant
                n == s.len(),
                pairs@ == s,
                i <= n,
                distinct_keys(s),
                map_of(s) == pending0,
                forall|j: int| 0 <= j < i && s[j].1@ is Some
                    ==> #[trigger] ins@.contains_pair(s[j].0@, s[j].1@->Some_0),
                forall|k: Seq<char>| #[trigger] ins@.contains_key(k)
                    ==> exists|j: int| 0 <= j < i && s[j].0@ == k && s[j].1@ is Some,
                forall|j: int| 0 <= j < i && s[j].1@ is None
                    ==> #[trigger] contains_str(dels@, s[j].0@),
                forall|k: Seq<char>| #[trigger] contains_str(dels@, k)
                    ==> exists|j: int| 0 <= j < i && s[j].0@ == k && s[j].1@ is None,
                forall|x: int, y: int| 0 <= x < y < dels@.len() ==> dels@[x]@ != dels@[y]@,
            decreases n - i,
        {
            let key = pairs[i].0.clone();
            match &pairs[i].1 {
                Pending::Put(v) => {
                    let value = vstd::slice::slice_to_vec(v.as_slice());
                    let ghost ins0 = ins@;
                    proof {
                        assert(s[i as int].1@ is Some);
                        assert(key@ == s[i as int].0@);
                        assert(value@ == s[i as int].1@->Some_0);
                    }
                    ins.insert(key, value);
                    proof {
                        assert(ins@ == ins0.insert(s[i as int].0@, s[i as int].1@->Some_0));
                        assert forall|j: int| 0 <= j < i + 1 && s[j].1@ is Some
                            implies #[trigger] ins@.contains_pair(s[j].0@, s[j].1@->Some_0) by {
                            if j < i {
                                assert(s[j].0@ != s[i as int].0@);
                                assert(ins0.contains_pair(s[j].0@, s[j].1@->Some_0));
                            }
                        }
                        assert forall|k2: Seq<char>| #[trigger] ins@.contains_key(k2)
                            implies exists|j: int|
                                0 <= j < i + 1 && s[j].0@ == k2 && s[j].1@ is Some by {
                            if k2 == key@ {
                                assert(0 <= i < i + 1 && s[i as int].0@ == k2
                                    && s[i as int].1@ is Some);
                            } else {
                                assert(ins0.contains_key(k2));
                                let j = choose|j: int|
                                    0 <= j < i && s[j].0@ == k2 && s[j].1@ is Some;
                                assert(0 <= j < i + 1 && s[j].0@ == k2 && s[j].1@ is Some);
                            }
                        }
                    }
                },
                Pending::Del => {
                    let ghost dels0 = dels@;
                    proof {
                        assert(s[i as int].1@ is None);
                        assert(!contains_str(dels0, s[i as int].0@)) by {
                            if contains_str(dels0, s[i as int].0@) {
                                let j = choose|j: int|
                                    0 <= j < i && s[j].0@ == s[i as int].0@ && s[j].1@ is None;
                                assert(s[j].0@ == s[i as int].0@);
                            }
                        }
                    }
                    dels.push(key);
                    proof {
                        assert(dels@ == dels0.push(key));
                        assert forall|j: int| 0 <= j < i + 1 && s[j].1@ is Some
                            implies #[trigger] ins@.contains_pair(s[j].0@, s[j].1@->Some_0) by {
                            assert(j != i);
                            assert(ins@.contains_pair(s[j].0@, s[j].1@->Some_0));
                        }
                        assert forall|x: int, y: int| 0 <= x < y < dels@.len()
                            implies dels@[x]@ != dels@[y]@ by {
                            if y == dels@.len() - 1 {
                                if dels@[x]@ == key@ {
                                    assert(dels0[x]@ == key@);
                                    assert(contains_str(dels0, s[i as int].0@));
                                }
                            }
                        }
                        assert forall|j: int| 0 <= j < i + 1 && s[j].1@ is None
                            implies #[trigger] contains_str(dels@, s[j].0@) by {
                            if j < i {
                                assert(contains_str(dels0, s[j].0@));
                                let x = choose|x: int|
                                    0 <= x < dels0.len() && dels0[x]@ == s[j].0@;
                                assert(dels@[x]@ == s[j].0@);
                            } else {
                                assert(dels@[dels@.len() - 1]@ == s[j].0@);
                            }
                        }
                        assert forall|k2: Seq<char>| #[trigger] contains_str(dels@, k2)
                            implies exists|j: int|
                                0 <= j < i + 1 && s[j].0@ == k2 && s[j].1@ is None by {
                            let x = choose|x: int| 0 <= x < dels@.len() && dels@[x]@ == k2;
                            if x < dels0.len() {
                                assert(contains_str(dels0, k2));
                                let j = choose|j: int|
                                    0 <= j < i && s[j].0@ == k2 && s[j].1@ is None;
                                assert(0 <= j < i + 1 && s[j].0@ == k2 && s[j].1@ is None);
                            } else {
                                assert(0 <= i < i + 1 && s[i as int].0@ == k2
                                    && s[i as int].1@ is None);
                            }
                        }
                    }
                },
            }
            i = i + 1;
        }
        proof {
            assert forall|k: Seq<char>| #[trigger] ins@.contains_key(k)
                implies (pending0.contains_key(k) && pending0[k] is Some) by {
                let j = choose|j: int| 0 <= j < n && s[j].0@ == k && s[j].1@ is Some;
                crate::smap::lemma_map_of_index(s, j);
            }
            assert forall|k: Seq<char>|
                (pending0.contains_key(k) && pending0[k] is Some)
                implies #[trigger] ins@.contains_key(k) by {
                assert(crate::smap::has_key(s, k));
                let j = choose|j: int| 0 <= j < s.len() && s[j].0@ == k;
                crate::smap::lemma_map_of_index(s, j);
                assert(s[j].1@ is Some);
                assert(ins@.contains_pair(s[j].0@, s[j].1@->Some_0));
            }
            assert forall|k: Seq<char>| #[trigger] ins@.contains_key(k)
                implies pending0[k] == Some(ins@[k]) by {
                let j = choose|j: int| 0 <= j < n && s[j].0@ == k && s[j].1@ is Some;
                crate::smap::lemma_map_of_index(s, j);
                assert(ins@.contains_pair(s[j].0@, s[j].1@->Some_0));
            }
            assert forall|k: Seq<char>| #[trigger] contains_str(dels@, k)
                implies (pending0.contains_key(k) && pending0[k] is None) by {
                let j = choose|j: int| 0 <= j < n && s[j].0@ == k && s[j].1@ is None;
                crate::smap::lemma_map_of_index(s, j);
            }
            assert forall|k: Seq<char>|
                (pending0.contains_key(k) && pending0[k] is None)
                implies #[trigger] contains_str(dels@, k) by {
                assert(crate::smap::has_key(s, k));
                let j = choose|j: int| 0 <= j < s.len() && s[j].0@ == k;
                crate::smap::lemma_map_of_index(s, j);
                assert(s[j].1@ is None);
            }
        }
        DbOps { clear: need_clear, insert: ins, delete: dels }
    }
}

impl Default for DbOpMerger {
    /// A fresh merger with nothing pending.
    fn default() -> (r: Self)
        ensures
            r.pending() == Map::<Seq<char>, Option<Seq<u8>>>::empty(),
            !r.clear_pending(),
    {
        DbOpMerger::new()
    }
}

/// Law: within one merge window the last write to a key wins.  Merging
/// `Insert(k, a)`, `Insert(k, b)`, `Delete(k)`, `Insert(k, c)` leaves the
/// key pending with value `c` — exactly as if only the final insert had
/// been merged — so `into_ops` puts `k -> c` among the upserts and leaves
/// `k` out of the deletions.
pub proof fn lemma_merge_last_write_wins(
    m0: DbOpMerger,
    k: Seq<char>,
    a: Seq<u8>,
    b: Seq<u8>,
    c: Seq<u8>,
)
    ensures
        ({
            let p = m0.pending().insert(k, Some(a)).insert(k, Some(b)).insert(k, None).insert(
                k,
                Some(c),
            );
            &&& p == m0.pending().insert(k, Some(c))
            &&& p.contains_key(k)
            &&& p[k] == Some(c)
        }),
{
    let p = m0.pending().insert(k, Some(a)).insert(k, Some(b)).insert(k, None).insert(k, Some(c));
    assert(p =~= m0.pending().insert(k, Some(c)));
}

/// Law: a clear discards what was merged before it and keeps what is
/// merged after it.  Merging `Insert(k1, x)`, `Clear`, `Insert(k2, y)`
/// into a fresh merger leaves the clear flag raised and exactly `k2 -> y`
/// pending; `k1` is gone (when distinct from `k2`).
pub proof fn lemma_clear_then_insert(
    m0: DbOpMerger,
    k1: Seq<char>,
    x: Seq<u8>,
    k2: Seq<char>,
    y: Seq<u8>,
)
    requires
        m0.pending() == Map::<Seq<char>, Option<Seq<u8>>>::empty(),
        !m0.clear_pending(),
    ensures
        ({
            let p = Map::<Seq<char>, Option<Seq<u8>>>::empty().insert(k2, Some(y));
            &&& p.contains_key(k2)
            &&& p[k2] == Some(y)
            &&& k1 != k2 ==> !p.contains_key(k1)
        }),
{
}

} // verus!
