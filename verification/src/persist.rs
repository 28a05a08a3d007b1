//! The durable side of the store: the key-to-identifier mapping, the
//! translation of a merged net effect into per-unit storage actions, and
//! the bootstrap that recovers the cache from the backend's directory.
//!
//! The backend keeps one stored unit per key in a flat directory, the
//! unit named by a url-encoded form of the key.  The process around this
//! crate performs the actual file reads and writes; everything it acts on
//! — which units to write, with what contents, in what order, and which
//! directory entries seed the cache — is computed and specified here.
//! A directory is modelled as a map from unit name to contents, and a
//! flush as a fold of single-unit actions over it, each action either
//! performed or failed by the backend.

use vstd::prelude::*;
use crate::ops::{DbOpMerger, DbOps};
use crate::smap::{StrMap, has_key, contains_str};

verus! {

/// The identifier under which the backend stores a key's value: a
/// function of the key's characters alone.
pub uninterp spec fn file_name_of(key: Seq<char>) -> Seq<char>;

/// The key recovered from a stored unit's identifier, if it inverts to
/// one: a function of the identifier's characters alone.
pub uninterp spec fn key_of_file(name: Seq<char>) -> Option<Seq<char>>;

/// Relies on `form_urlencoded::Serializer` (`new`, `append_key_only`,
/// `finish`): the returned identifier depends on the key's characters
/// alone, and `form_urlencoded::parse` inverts it for non-empty keys —
/// the serializer percent-encodes every byte outside `[A-Za-z0-9*\-._]`
/// (space as `+`), so the output holds no separator, and `parse` of it
/// percent-decodes that single name back.  An empty key encodes to the
/// empty string, of which `parse` yields nothing.
#[verifier::external_body]
fn key2file(key: &String) -> (r: String)
    ensures
        r@ == file_name_of(key@),
        key@.len() > 0 ==> key_of_file(r@) == Some(key@),
{
    form_urlencoded::Serializer::new(String::new()).append_key_only(key.as_str()).finish()
}

/// Relies on `form_urlencoded::parse`: the first name it finds in the
/// identifier (percent-decoded, `+` as space) depends on the
/// identifier's characters alone, and an identifier without one — the
/// empty string — yields nothing.
#[verifier::external_body]
fn file2key(name: &String) -> (r: Option<String>)
    ensures
        r is Some <==> key_of_file(name@) is Some,
        r matches Some(k) ==> key_of_file(name@) == Some(k@),
{
    let mut parse = form_urlencoded::parse(name.as_bytes());
    match parse.next() {
        Some(data) => Some(data.0.into_owned()),
        None => None,
    }
}

/// One physical storage action against the backend's directory.
pub enum FileAction {
    /// Write `contents` to the unit called `name`, overwriting it.
    WriteFile { name: String, contents: Vec<u8> },
    /// Remove the unit called `name`; an absent unit is a no-op.
    RemoveFile { name: String },
    /// Remove every unit.
    RemoveAll,
}

/// Whether the action reads or writes the unit called `name`.
pub open spec fn touches(a: FileAction, name: Seq<char>) -> bool {
    match a {
        FileAction::WriteFile { name: n, contents } => n@ == name,
        FileAction::RemoveFile { name: n } => n@ == name,
        FileAction::RemoveAll => true,
    }
}

/// The directory after one action; `ok` says whether the backend
/// performed it, a failed action leaving the directory as it was.
pub open spec fn apply_action(
    dir: Map<Seq<char>, Seq<u8>>,
    a: FileAction,
    ok: bool,
) -> Map<Seq<char>, Seq<u8>> {
    if !ok {
        dir
    } else {
        match a {
            FileAction::WriteFile { name, contents } => dir.insert(name@, contents@),
            FileAction::RemoveFile { name } => dir.remove(name@),
            FileAction::RemoveAll => Map::empty(),
        }
    }
}

/// The directory after a whole plan, applied action by action, each
/// either performed or failed independently of the others.
pub open spec fn apply_actions(
    dir: Map<Seq<char>, Seq<u8>>,
    plan: Seq<FileAction>,
    ok: Seq<bool>,
) -> Map<Seq<char>, Seq<u8>>
    decreases plan.len(),
{
    if plan.len() == 0 {
        dir
    } else {
        apply_action(apply_actions(dir, plan.drop_last(), ok.drop_last()), plan.last(), ok.last())
    }
}

/// Law: durable failure isolation.  What a flush leaves in one key's
/// stored unit depends only on the fates of the actions touching that
/// unit: flipping other actions between success and failure — one key's
/// write failing, say — changes nothing about this unit.
pub proof fn lemma_flush_failure_isolation(
    dir: Map<Seq<char>, Seq<u8>>,
    plan: Seq<FileAction>,
    ok1: Seq<bool>,
    ok2: Seq<bool>,
    name: Seq<char>,
)
    requires
        ok1.len() == plan.len(),
        ok2.len() == plan.len(),
        forall|i: int| 0 <= i < plan.len() && touches(#[trigger] plan[i], name) ==> ok1[i] == ok2[i],
    ensures
        apply_actions(dir, plan, ok1).contains_key(name) == apply_actions(
            dir,
            plan,
            ok2,
        ).contains_key(name),
        apply_actions(dir, plan, ok1).contains_key(name) ==> apply_actions(dir, plan, ok1)[name]
            == apply_actions(dir, plan, ok2)[name],
    decreases plan.len(),
{
    if plan.len() > 0 {
        assert(forall|i: int| 0 <= i < plan.drop_last().len() ==> #[trigger] plan.drop_last()[i]
            == plan[i]);
        lemma_flush_failure_isolation(dir, plan.drop_last(), ok1.drop_last(), ok2.drop_last(), name);
        if touches(plan.last(), name) {
            assert(plan[plan.len() - 1] == plan.last());
            assert(ok1.last() == ok2.last());
        }
    }
}

/// Law: a successful write whose unit no later action of the plan
/// touches is durably visible after the flush, whatever became of the
/// other actions.
pub proof fn lemma_successful_write_lands(
    dir: Map<Seq<char>, Seq<u8>>,
    plan: Seq<FileAction>,
    ok: Seq<bool>,
    i: int,
    name: String,
    contents: Vec<u8>,
)
    requires
        ok.len() == plan.len(),
        0 <= i < plan.len(),
        plan[i] == (FileAction::WriteFile { name, contents }),
        ok[i],
        forall|j: int| i < j < plan.len() ==> !touches(#[trigger] plan[j], name@),
    ensures
        apply_actions(dir, plan, ok).contains_key(name@),
        apply_actions(dir, plan, ok)[name@] == contents@,
    decreases plan.len(),
{
    if i == plan.len() - 1 {
        assert(plan.last() == plan[i]);
    } else {
        assert(forall|j: int| 0 <= j < plan.drop_last().len() ==> #[trigger] plan.drop_last()[j]
            == plan[j]);
        lemma_successful_write_lands(dir, plan.drop_last(), ok.drop_last(), i, name, contents);
        assert(plan[plan.len() - 1] == plan.last());
        assert(!touches(plan.last(), name@));
    }
}

/// The cache contents recovered from a directory listing: each unit
/// whose identifier inverts to a key seeds that key with the unit's
/// contents, later entries winning; the rest are skipped.
pub open spec fn bootstrap_map(files: Seq<(String, Vec<u8>)>) -> Map<Seq<char>, Seq<u8>>
    decreases files.len(),
{
    if files.len() == 0 {
        Map::empty()
    } else {
        match key_of_file(files.last().0@) {
            Some(k) => bootstrap_map(files.drop_last()).insert(k, files.last().1@),
            None => bootstrap_map(files.drop_last()),
        }
    }
}

/// Build the cache's initial contents from the backend's directory
/// listing, inverting each unit's identifier back to a key and silently
/// skipping identifiers that invert to nothing.
pub fn bootstrap_from_files(files: &Vec<(String, Vec<u8>)>) -> (r: StrMap<Vec<u8>>)
    ensures
        r@ == bootstrap_map(files@),
{
    let n = files.len();
    let mut r: StrMap<Vec<u8>> = StrMap::new();
    let mut i: usize = 0;
    proof {
        assert(r@ =~= bootstrap_map(files@.take(0)));
    }
    while i < n
        invariant
            n == files@.len(),
            i <= n,
            r@ == bootstrap_map(files@.take(i as int)),
        decreases n - i,
    {
        proof {
            let t1 = files@.take(i + 1);
            assert(t1.drop_last() =~= files@.take(i as int));
            assert(t1.last() == files@[i as int]);
        }
        match file2key(&files[i].0) {
            Some(key) => {
                let contents = vstd::slice::slice_to_vec(files[i].1.as_slice());
                r.insert(key, contents);
            },
            None => {},
        }
        i = i + 1;
    }
    proof {
        assert(files@.take(n as int) =~= files@);
    }
    r
}

/// The index of the first upsert action in a plan: the clear, when one
/// is pending, comes first.
pub open spec fn plan_base(clear: bool) -> int {
    if clear { 1int } else { 0int }
}

/// The action writes the pair's value to the unit named by its key.
pub open spec fn write_action_for(a: FileAction, kv: (String, Vec<u8>)) -> bool {
    a is WriteFile && a->WriteFile_name@ == file_name_of(kv.0@) && a->WriteFile_contents@
        == kv.1@
}

/// The action removes the unit named by the key.
pub open spec fn remove_action_for(a: FileAction, k: String) -> bool {
    a is RemoveFile && a->RemoveFile_name@ == file_name_of(k@)
}

/// Translate a net effect into the per-unit storage actions of one
/// flush, in the order the worker applies them: the clear first, then
/// one write per upsert, then one remove per deletion, each unit named
/// by its key's identifier (which, for a non-empty key, inverts back to
/// the key at bootstrap).
pub fn plan_actions(clear: bool, upserts: Vec<(String, Vec<u8>)>, deletes: &Vec<String>) -> (r:
    Vec<FileAction>)
    ensures
        r@.len() == plan_base(clear) + upserts@.len() + deletes@.len(),
        clear ==> r@.len() > 0 && r@[0] is RemoveAll,
        forall|i: int| 0 <= i < upserts@.len()
            ==> #[trigger] write_action_for(r@[plan_base(clear) + i], upserts@[i]),
        forall|i: int| 0 <= i < deletes@.len() ==> #[trigger] remove_action_for(
            r@[plan_base(clear) + upserts@.len() + i],
            deletes@[i],
        ),
        forall|i: int| 0 <= i < upserts@.len() && upserts@[i].0@.len() > 0 ==> key_of_file(
            #[trigger] file_name_of(upserts@[i].0@),
        ) == Some(upserts@[i].0@),
        forall|i: int| 0 <= i < deletes@.len() && deletes@[i]@.len() > 0 ==> key_of_file(
            #[trigger] file_name_of(deletes@[i]@),
        ) == Some(deletes@[i]@),
{
    let ghost base: int = plan_base(clear);
    let mut r: Vec<FileAction> = Vec::new();
    if clear {
        r.push(FileAction::RemoveAll);
    }
    let nu = upserts.len();
    let mut i: usize = 0;
    while i < nu
        invariant
            base == plan_base(clear),
            nu == upserts@.len(),
            i <= nu,
            r@.len() == base + i,
            clear ==> r@.len() > 0 && r@[0] is RemoveAll,
            forall|j: int| 0 <= j < i
                ==> #[trigger] write_action_for(r@[base + j], upserts@[j]),
            forall|j: int| 0 <= j < i && upserts@[j].0@.len() > 0 ==> key_of_file(
                #[trigger] file_name_of(upserts@[j].0@),
            ) == Some(upserts@[j].0@),
        decreases nu - i,
    {
        let ghost r0 = r@;
        let name = key2file(&upserts[i].0);
        let contents = vstd::slice::slice_to_vec(upserts[i].1.as_slice());
        let ghost gname = name;
        let ghost gcontents = contents;
        r.push(FileAction::WriteFile { name, contents });
        proof {
            assert(r@ == r0.push(FileAction::WriteFile { name: gname, contents: gcontents }));
            assert forall|j: int| 0 <= j < i + 1
                implies #[trigger] write_action_for(r@[base + j], upserts@[j]) by {
                if j < i {
                    assert(r@[base + j] == r0[base + j]);
                    assert(write_action_for(r0[base + j], upserts@[j]));
                } else {
                    assert(r@[base + j] == (FileAction::WriteFile {
                        name: gname,
                        contents: gcontents,
                    }));
                }
            }
        }
        i = i + 1;
    }
    let nd = deletes.len();
    let ghost rups = r@;
    let mut i2: usize = 0;
    while i2 < nd
        invariant
            base == plan_base(clear),
            nu == upserts@.len(),
            nd == deletes@.len(),
            i2 <= nd,
            r@.len() == base + nu + i2,
            rups.len() == base + nu,
            forall|j: int| 0 <= j < base + nu ==> #[trigger] r@[j] == rups[j],
            clear ==> r@.len() > 0 && r@[0] is RemoveAll,
            forall|j: int| 0 <= j < nu
                ==> #[trigger] write_action_for(rups[base + j], upserts@[j]),
            forall|j: int| 0 <= j < nu && upserts@[j].0@.len() > 0 ==> key_of_file(
                #[trigger] file_name_of(upserts@[j].0@),
            ) == Some(upserts@[j].0@),
            forall|j: int| 0 <= j < i2
                ==> #[trigger] remove_action_for(r@[base + nu + j], deletes@[j]),
            forall|j: int| 0 <= j < i2 && deletes@[j]@.len() > 0 ==> key_of_file(
                #[trigger] file_name_of(deletes@[j]@),
            ) == Some(deletes@[j]@),
        decreases nd - i2,
    {
        let ghost r0 = r@;
        let name = key2file(&deletes[i2]);
        let ghost gname = name;
        r.push(FileAction::RemoveFile { name });
        proof {
            assert(r@ == r0.push(FileAction::RemoveFile { name: gname }));
            assert forall|j: int| 0 <= j < base + nu implies #[trigger] r@[j] == rups[j] by {
                assert(r@[j] == r0[j]);
            }
            assert forall|j: int| 0 <= j < i2 + 1
                implies #[trigger] remove_action_for(r@[base + nu + j], deletes@[j]) by {
                if j < i2 {
                    assert(r@[base + nu + j] == r0[base + nu + j]);
                    assert(remove_action_for(r0[base + nu + j], deletes@[j]));
                } else {
                    assert(r@[base + nu + j] == (FileAction::RemoveFile { name: gname }));
                }
            }
        }
        i2 = i2 + 1;
    }
    proof {
        assert forall|j: int| 0 <= j < nu
            implies #[trigger] write_action_for(r@[base + j], upserts@[j]) by {
            assert(r@[base + j] == rups[base + j]);
            assert(write_action_for(rups[base + j], upserts@[j]));
        }
    }
    r
}

/// A write of `v` to `k`'s unit stands somewhere in the plan.
pub open spec fn plan_writes(plan: Seq<FileAction>, k: Seq<char>, v: Seq<u8>) -> bool {
    exists|i: int| 0 <= i < plan.len() && (#[trigger] plan[i]) is WriteFile
        && plan[i]->WriteFile_name@ == file_name_of(k) && plan[i]->WriteFile_contents@ == v
}

/// A removal of `k`'s unit stands somewhere in the plan.
pub open spec fn plan_removes(plan: Seq<FileAction>, k: Seq<char>) -> bool {
    exists|i: int| 0 <= i < plan.len() && (#[trigger] plan[i]) is RemoveFile
        && plan[i]->RemoveFile_name@ == file_name_of(k)
}

/// The pending state calls for writing `contents` to the unit `name`.
pub open spec fn write_planned_for(
    pending: Map<Seq<char>, Option<Seq<u8>>>,
    name: Seq<char>,
    contents: Seq<u8>,
) -> bool {
    exists|k: Seq<char>|
        #![trigger file_name_of(k)]
        pending.contains_key(k) && pending[k] == Some(contents) && name == file_name_of(k)
}

/// The pending state calls for removing the unit `name`.
pub open spec fn remove_planned_for(
    pending: Map<Seq<char>, Option<Seq<u8>>>,
    name: Seq<char>,
) -> bool {
    exists|k: Seq<char>|
        #![trigger file_name_of(k)]
        pending.contains_key(k) && pending[k] is None && name == file_name_of(k)
}

/// One flush decision of the background worker.  If nothing is pending —
/// no mutation reached the merger within the window — the cycle is a
/// no-op: no plan is produced and the backend sees zero durable work.
/// Otherwise the whole pending state is taken, leaving the merger empty
/// for the next window, and turned into this cycle's storage actions:
/// the clear first (and only first), then exactly one write per pending
/// value and one removal per pending deletion, nothing else.
pub fn flush_plan(m: &mut DbOpMerger) -> (r: Option<Vec<FileAction>>)
    ensures
        r is None <==> (!old(m).clear_pending() && old(m).pending() == Map::<
            Seq<char>,
            Option<Seq<u8>>,
        >::empty()),
        r is None ==> *final(m) == *old(m),
        !final(m).clear_pending(),
        final(m).pending() == Map::<Seq<char>, Option<Seq<u8>>>::empty(),
        r matches Some(plan) ==> plan@.len() > 0,
        r matches Some(plan) ==> (plan@[0] is RemoveAll <==> old(m).clear_pending()),
        r matches Some(plan) ==> forall|k: Seq<char>, v: Seq<u8>|
            old(m).pending().contains_key(k) && old(m).pending()[k] == Some(v)
                ==> #[trigger] plan_writes(plan@, k, v),
        r matches Some(plan) ==> forall|k: Seq<char>|
            old(m).pending().contains_key(k) && old(m).pending()[k] is None
                ==> #[trigger] plan_removes(plan@, k),
        r matches Some(plan) ==> forall|i: int| 0 <= i < plan@.len() ==> match #[trigger] plan@[i] {
            FileAction::WriteFile { name, contents } => write_planned_for(
                old(m).pending(),
                name@,
                contents@,
            ),
            FileAction::RemoveFile { name } => remove_planned_for(old(m).pending(), name@),
            FileAction::RemoveAll => old(m).clear_pending() && i == 0,
        },
        r matches Some(plan) ==> forall|k: Seq<char>|
            old(m).pending().contains_key(k) && k.len() > 0 ==> key_of_file(
                #[trigger] file_name_of(k),
            ) == Some(k),
{
    if m.is_empty() {
        return None;
    }
    let mut taken = DbOpMerger::new();
    core::mem::swap(&mut taken, m);
    let ghost pending0 = taken.pending();
    let ghost clear0 = taken.clear_pending();
    let ops = taken.into_ops();
    let DbOps { clear, insert, delete } = ops;
    let ghost ins_view = insert@;
    let pairs = insert.into_pairs();
    let ghost ps = pairs@;
    let plan = plan_actions(clear, pairs, &delete);
    proof {
        let base = plan_base(clear0);
        let psn = ps.len() as int;
        let dn = delete@.len() as int;
        crate::smap::lemma_map_of_dom(ps);
        // Nothing pending would have meant an idle cycle.
        if !clear0 && plan@.len() == 0 {
            assert(ps.len() == 0 && delete@.len() == 0);
            assert forall|k: Seq<char>| !(#[trigger] pending0.contains_key(k)) by {
                if pending0.contains_key(k) {
                    if pending0[k] is Some {
                        assert(ins_view.contains_key(k));
                        assert(has_key(ps, k));
                    } else {
                        assert(contains_str(delete@, k));
                    }
                }
            }
            assert(pending0 =~= Map::<Seq<char>, Option<Seq<u8>>>::empty());
            assert(false);
        }
        // The head of the plan is the clear exactly when one is pending.
        if !clear0 {
            if ps.len() > 0 {
                assert(write_action_for(plan@[base + 0], ps[0]));
            } else if delete@.len() > 0 {
                assert(remove_action_for(plan@[base + psn + 0], delete@[0]));
            }
        }
        // Every pending entry has its action in the plan.
        assert forall|k: Seq<char>, v: Seq<u8>|
            pending0.contains_key(k) && pending0[k] == Some(v)
            implies #[trigger] plan_writes(plan@, k, v) by {
            assert(ins_view.contains_key(k));
            assert(has_key(ps, k));
            let j = choose|j: int| 0 <= j < ps.len() && ps[j].0@ == k;
            crate::smap::lemma_map_of_index(ps, j);
            assert(ps[j].1@ == v);
            assert(write_action_for(plan@[base + j], ps[j]));
            assert(plan@[base + j] is WriteFile);
        }
        assert forall|k: Seq<char>|
            pending0.contains_key(k) && pending0[k] is None
            implies #[trigger] plan_removes(plan@, k) by {
            assert(contains_str(delete@, k));
            let x = choose|x: int| 0 <= x < delete@.len() && delete@[x]@ == k;
            assert(remove_action_for(plan@[base + psn + x], delete@[x]));
            assert(plan@[base + psn + x] is RemoveFile);
        }
        // Every action in the plan serves a pending entry.
        assert forall|i: int| 0 <= i < plan@.len() implies match #[trigger] plan@[i] {
            FileAction::WriteFile { name, contents } => write_planned_for(
                pending0,
                name@,
                contents@,
            ),
            FileAction::RemoveFile { name } => remove_planned_for(pending0, name@),
            FileAction::RemoveAll => clear0 && i == 0,
        } by {
            if clear0 && i == 0 {
            } else if i < base + psn {
                let j = i - base;
                assert(write_action_for(plan@[base + j], ps[j]));
                crate::smap::lemma_map_of_index(ps, j);
                let kk = ps[j].0@;
                assert(ins_view.contains_key(kk) && ins_view[kk] == ps[j].1@);
                assert(pending0.contains_key(kk) && pending0[kk] == Some(ps[j].1@));
                assert(plan@[i]->WriteFile_name@ == file_name_of(kk));
                assert(write_planned_for(pending0, plan@[i]->WriteFile_name@,
                    plan@[i]->WriteFile_contents@));
            } else {
                let x = i - base - psn;
                assert(remove_action_for(plan@[base + psn + x], delete@[x]));
                let kk = delete@[x]@;
                assert(contains_str(delete@, kk));
                assert(pending0.contains_key(kk) && pending0[kk] is None);
                assert(plan@[i]->RemoveFile_name@ == file_name_of(kk));
                assert(remove_planned_for(pending0, plan@[i]->RemoveFile_name@));
            }
        }
        // Identifiers of non-empty pending keys invert at bootstrap.
        assert forall|k: Seq<char>|
            pending0.contains_key(k) && k.len() > 0
            implies key_of_file(#[trigger] file_name_of(k)) == Some(k) by {
            if pending0[k] is Some {
                assert(ins_view.contains_key(k));
                assert(has_key(ps, k));
                let j = choose|j: int| 0 <= j < ps.len() && ps[j].0@ == k;
                assert(key_of_file(file_name_of(ps[j].0@)) == Some(ps[j].0@));
            } else {
                assert(contains_str(delete@, k));
                let x = choose|x: int| 0 <= x < delete@.len() && delete@[x]@ == k;
                assert(key_of_file(file_name_of(delete@[x]@)) == Some(delete@[x]@));
            }
        }
    }
    Some(plan)
}

/// Law: bootstrap recovery.  A unit whose identifier inverts to `k`, and
/// after which no listed unit's identifier inverts to `k`, seeds the
/// reopened cache with exactly that unit's contents under `k`.  Together
/// with `lemma_successful_write_lands` and `key2file`'s round-trip
/// guarantee this closes the persist-then-reopen loop for every
/// non-empty key.
pub proof fn lemma_bootstrap_recovers(files: Seq<(String, Vec<u8>)>, i: int, k: Seq<char>)
    requires
        0 <= i < files.len(),
        key_of_file(files[i].0@) == Some(k),
        forall|j: int| i < j < files.len() ==> key_of_file((#[trigger] files[j]).0@) != Some(k),
    ensures
        bootstrap_map(files).contains_key(k),
        bootstrap_map(files)[k] == files[i].1@,
    decreases files.len(),
{
    if i == files.len() - 1 {
        assert(files.last() == files[i]);
    } else {
        assert(forall|j: int| 0 <= j < files.drop_last().len() ==> #[trigger] files.drop_last()[j]
            == files[j]);
        lemma_bootstrap_recovers(files.drop_last(), i, k);
        assert(files[files.len() - 1] == files.last());
        assert(key_of_file(files.last().0@) != Some(k));
    }
}

/// The listing enumerates the directory: each unit once, with its
/// contents.
pub open spec fn lists_dir(files: Seq<(String, Vec<u8>)>, dir: Map<Seq<char>, Seq<u8>>) -> bool {
    &&& forall|i: int| 0 <= i < files.len() ==> dir.contains_key((#[trigger] files[i]).0@)
        && dir[files[i].0@] == files[i].1@
    &&& forall|n: Seq<char>| #[trigger] dir.contains_key(n) ==> exists|i: int|
        0 <= i < files.len() && files[i].0@ == n
    &&& forall|i: int, j: int| 0 <= i < j < files.len() ==> files[i].0@ != files[j].0@
}

/// Law: persist-then-reopen round trip.  If a flush left `v` in `k`'s
/// stored unit (`lemma_successful_write_lands` gives that from a
/// successful write), the unit's identifier inverts to `k` (which
/// `key2file` guarantees for every non-empty key), and no other unit of
/// the directory inverts to `k`, then bootstrapping a fresh store from
/// any listing of that directory yields `v` under `k` again, with no
/// explicit write.
pub proof fn lemma_round_trip_through_backend(
    files: Seq<(String, Vec<u8>)>,
    dir: Map<Seq<char>, Seq<u8>>,
    k: Seq<char>,
    v: Seq<u8>,
)
    requires
        lists_dir(files, dir),
        dir.contains_key(file_name_of(k)),
        dir[file_name_of(k)] == v,
        key_of_file(file_name_of(k)) == Some(k),
        forall|n: Seq<char>| #[trigger] dir.contains_key(n) && n != file_name_of(k)
            ==> key_of_file(n) != Some(k),
    ensures
        bootstrap_map(files).contains_key(k),
        bootstrap_map(files)[k] == v,
{
    let i = choose|i: int| 0 <= i < files.len() && files[i].0@ == file_name_of(k);
    assert(dir.contains_key(files[i].0@) && dir[files[i].0@] == files[i].1@);
    assert forall|j: int| i < j < files.len()
        implies key_of_file((#[trigger] files[j]).0@) != Some(k) by {
        assert(dir.contains_key(files[j].0@));
        assert(files[j].0@ != files[i].0@);
    }
    lemma_bootstrap_recovers(files, i, k);
}

} // verus!
