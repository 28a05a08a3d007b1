use async_kvdb::memdb::MenoryDb;
use async_kvdb::ops::{DbOp, DbOpMerger};
use async_kvdb::persist::{bootstrap_from_files, flush_plan, plan_actions, FileAction};
use async_kvdb::smap::StrMap;

fn s(x: &str) -> String {
    String::from(x)
}

/// A simulated backend directory: applies a plan file by file, failing
/// the writes and removes whose unit name is listed in `fail`.
fn apply_plan(dir: &mut Vec<(String, Vec<u8>)>, plan: &[FileAction], fail: &[&str]) {
    for action in plan {
        match action {
            FileAction::WriteFile { name, contents } => {
                if fail.contains(&name.as_str()) {
                    continue;
                }
                dir.retain(|(n, _)| n != name);
                dir.push((name.clone(), contents.clone()));
            }
            FileAction::RemoveFile { name } => {
                if fail.contains(&name.as_str()) {
                    continue;
                }
                dir.retain(|(n, _)| n != name);
            }
            FileAction::RemoveAll => {
                dir.clear();
            }
        }
    }
}

#[test]
fn empty() {
    let op_merger = DbOpMerger::default();
    assert!(op_merger.is_empty());
}

#[test]
fn read_your_writes() {
    let mut db = MenoryDb::default();
    assert_eq!(db.get(&s("k")), None);
    db.set(s("k"), vec![1, 2, 3]);
    assert_eq!(db.get(&s("k")), Some(vec![1, 2, 3]));
    db.set(s("k"), vec![9]);
    assert_eq!(db.get(&s("k")), Some(vec![9]));
}

#[test]
fn delete_then_get() {
    let mut db = MenoryDb::default();
    db.set(s("k"), vec![1]);
    db.delete(&s("k"));
    assert_eq!(db.get(&s("k")), None);
    db.delete(&s("missing"));
    assert_eq!(db.get(&s("missing")), None);
}

#[test]
fn set_many_later_pair_wins() {
    let mut db = MenoryDb::default();
    db.set_many(vec![(s("a"), vec![1]), (s("b"), vec![2]), (s("a"), vec![3])]);
    assert_eq!(db.get(&s("a")), Some(vec![3]));
    assert_eq!(db.get(&s("b")), Some(vec![2]));
}

#[test]
fn get_many_returns_present_subset() {
    let mut db = MenoryDb::default();
    db.set(s("a"), vec![1]);
    db.set(s("b"), vec![2]);
    let r = db.get_many(vec![s("a"), s("c")]);
    assert_eq!(r.len(), 1);
    assert_eq!(r.get(&s("a")), Some(&vec![1u8]));
    assert_eq!(r.get(&s("c")), None);
}

#[test]
fn delete_many_removes_listed_keys() {
    let mut db = MenoryDb::default();
    db.set(s("a"), vec![1]);
    db.set(s("b"), vec![2]);
    db.set(s("c"), vec![3]);
    db.delete_many(vec![s("a"), s("c"), s("zz")]);
    assert_eq!(db.get(&s("a")), None);
    assert_eq!(db.get(&s("b")), Some(vec![2]));
    assert_eq!(db.get(&s("c")), None);
}

#[test]
fn delete_all_empties_the_cache() {
    let mut db = MenoryDb::default();
    db.set(s("a"), vec![1]);
    db.set(s("b"), vec![2]);
    db.delete_all();
    assert_eq!(db.get(&s("a")), None);
    assert_eq!(db.get(&s("b")), None);
}

#[test]
fn scan_keys_applies_the_predicate() {
    let mut db = MenoryDb::default();
    db.set(s("a/1"), vec![1]);
    db.set(s("a/2"), vec![2]);
    db.set(s("b/1"), vec![3]);
    let mut found = db.scan_keys(|k: String| k.starts_with("a/"));
    found.sort();
    assert_eq!(found, vec![s("a/1"), s("a/2")]);
    let all = db.scan_keys(|_k: String| true);
    assert_eq!(all.len(), 3);
    let none = db.scan_keys(|_k: String| false);
    assert!(none.is_empty());
}

#[test]
fn keys_with_prefix_lists_exactly_the_matches() {
    let mut db = MenoryDb::default();
    db.set(s("a/1"), vec![1]);
    db.set(s("ab"), vec![2]);
    db.set(s("b"), vec![3]);
    let mut found = db.keys_with_prefix(&s("a"));
    found.sort();
    assert_eq!(found, vec![s("a/1"), s("ab")]);
}

#[test]
fn merge_last_write_wins() {
    let mut merger = DbOpMerger::new();
    merger.merge(DbOp::Insert { key: s("k"), value: b"a".to_vec() });
    merger.merge(DbOp::Insert { key: s("k"), value: b"b".to_vec() });
    merger.merge(DbOp::Delete { key: s("k") });
    merger.merge(DbOp::Insert { key: s("k"), value: b"c".to_vec() });
    let ops = merger.into_ops();
    assert!(!ops.clear);
    assert_eq!(ops.insert.get(&s("k")), Some(&b"c".to_vec()));
    assert!(ops.delete.is_empty());
}

#[test]
fn merge_delete_overrides_insert() {
    let mut merger = DbOpMerger::new();
    merger.merge(DbOp::Insert { key: s("k"), value: vec![1] });
    merger.merge(DbOp::Delete { key: s("k") });
    let ops = merger.into_ops();
    assert!(!ops.clear);
    assert_eq!(ops.insert.len(), 0);
    assert_eq!(ops.delete, vec![s("k")]);
}

#[test]
fn clear_then_insert_keeps_only_later_entries() {
    let mut merger = DbOpMerger::new();
    merger.merge(DbOp::Insert { key: s("k1"), value: b"x".to_vec() });
    merger.merge(DbOp::DeleteAll);
    merger.merge(DbOp::Insert { key: s("k2"), value: b"y".to_vec() });
    let ops = merger.into_ops();
    assert!(ops.clear);
    assert_eq!(ops.insert.len(), 1);
    assert_eq!(ops.insert.get(&s("k1")), None);
    assert_eq!(ops.insert.get(&s("k2")), Some(&b"y".to_vec()));
    assert!(ops.delete.is_empty());
}

#[test]
fn merge_bulk_ops() {
    let mut merger = DbOpMerger::new();
    merger.merge(DbOp::InsertMany {
        data: vec![(s("a"), vec![1]), (s("b"), vec![2]), (s("c"), vec![3])],
    });
    merger.merge(DbOp::DeleteMany { keys: vec![s("b"), s("d")] });
    let ops = merger.into_ops();
    assert!(!ops.clear);
    assert_eq!(ops.insert.len(), 2);
    assert_eq!(ops.insert.get(&s("a")), Some(&vec![1u8]));
    assert_eq!(ops.insert.get(&s("c")), Some(&vec![3u8]));
    let mut dels = ops.delete.clone();
    dels.sort();
    assert_eq!(dels, vec![s("b"), s("d")]);
}

#[test]
fn idle_flush_is_a_noop() {
    let mut merger = DbOpMerger::new();
    assert!(flush_plan(&mut merger).is_none());
    merger.merge(DbOp::Insert { key: s("k"), value: vec![1] });
    assert!(flush_plan(&mut merger).is_some());
    // the flush drained everything: the next window is idle again
    assert!(merger.is_empty());
    assert!(flush_plan(&mut merger).is_none());
}

#[test]
fn flush_plan_puts_the_clear_first() {
    let mut merger = DbOpMerger::new();
    merger.merge(DbOp::Insert { key: s("k"), value: vec![1] });
    merger.merge(DbOp::DeleteAll);
    merger.merge(DbOp::Insert { key: s("k2"), value: vec![2] });
    let plan = flush_plan(&mut merger).unwrap();
    assert!(matches!(plan[0], FileAction::RemoveAll));
    assert_eq!(plan.len(), 2);
    match &plan[1] {
        FileAction::WriteFile { contents, .. } => assert_eq!(contents, &vec![2u8]),
        other => panic!("expected a write, got {:?}", other_kind(other)),
    }
}

fn other_kind(a: &FileAction) -> &'static str {
    match a {
        FileAction::WriteFile { .. } => "write",
        FileAction::RemoveFile { .. } => "remove",
        FileAction::RemoveAll => "remove-all",
    }
}

#[test]
fn bootstrap_round_trip() {
    // keys that force real encoding: unchanged under the identity map
    // they would collide with the form syntax and fail to parse back
    let key = s("a&b=c d");
    let value = vec![0u8, 255, 7];
    let mut db = MenoryDb::default();
    let mut merger = DbOpMerger::new();
    db.set(key.clone(), value.clone());
    merger.merge(DbOp::Insert { key: key.clone(), value: value.clone() });
    let plan = flush_plan(&mut merger).unwrap();
    let mut dir: Vec<(String, Vec<u8>)> = Vec::new();
    apply_plan(&mut dir, &plan, &[]);
    assert_eq!(dir.len(), 1);
    assert_ne!(dir[0].0, key, "the stored unit's name is the encoded key");
    // close and reopen: a fresh cache seeded from the directory
    let reopened = MenoryDb::new(bootstrap_from_files(&dir));
    assert_eq!(reopened.get(&key), Some(value));
}

#[test]
fn bootstrap_decodes_identifiers() {
    // "%41" is the encoded form of "A"
    let dir = vec![(s("%41"), vec![5u8])];
    let db = MenoryDb::new(bootstrap_from_files(&dir));
    assert_eq!(db.get(&s("A")), Some(vec![5]));
    assert_eq!(db.get(&s("%41")), None);
}

#[test]
fn bootstrap_skips_unrecognized_identifiers() {
    let dir = vec![(s(""), vec![1u8]), (s("good"), vec![2u8])];
    let db = MenoryDb::new(bootstrap_from_files(&dir));
    assert_eq!(db.get(&s("good")), Some(vec![2]));
    assert_eq!(db.get(&s("")), None);
}

#[test]
fn bootstrap_of_empty_value_round_trips() {
    let mut merger = DbOpMerger::new();
    merger.merge(DbOp::Insert { key: s("empty"), value: vec![] });
    let plan = flush_plan(&mut merger).unwrap();
    let mut dir: Vec<(String, Vec<u8>)> = Vec::new();
    apply_plan(&mut dir, &plan, &[]);
    let db = MenoryDb::new(bootstrap_from_files(&dir));
    assert_eq!(db.get(&s("empty")), Some(vec![]));
}

#[test]
fn prefix_delete_memory_and_durable() {
    let mut db = MenoryDb::default();
    let mut merger = DbOpMerger::new();
    let mut dir: Vec<(String, Vec<u8>)> = Vec::new();
    for (k, v) in [(s("a/1"), vec![1u8]), (s("a/2"), vec![2u8]), (s("b/1"), vec![3u8])] {
        db.set(k.clone(), v.clone());
        merger.merge(DbOp::Insert { key: k, value: v });
    }
    apply_plan(&mut dir, &flush_plan(&mut merger).unwrap(), &[]);
    assert_eq!(dir.len(), 3);

    let removed = db.delete_with_prefix(&s("a/"));
    assert_eq!(removed.len(), 2);
    assert_eq!(db.get(&s("a/1")), None);
    assert_eq!(db.get(&s("a/2")), None);
    assert_eq!(db.get(&s("b/1")), Some(vec![3]));

    merger.merge(DbOp::DeleteMany { keys: removed });
    apply_plan(&mut dir, &flush_plan(&mut merger).unwrap(), &[]);
    let reopened = MenoryDb::new(bootstrap_from_files(&dir));
    assert_eq!(reopened.get(&s("a/1")), None);
    assert_eq!(reopened.get(&s("a/2")), None);
    assert_eq!(reopened.get(&s("b/1")), Some(vec![3]));
}

#[test]
fn empty_prefix_deletes_everything() {
    let mut db = MenoryDb::default();
    db.set(s("a"), vec![1]);
    db.set(s("b"), vec![2]);
    let removed = db.delete_with_prefix(&s(""));
    assert_eq!(removed.len(), 2);
    assert_eq!(db.get(&s("a")), None);
    assert_eq!(db.get(&s("b")), None);
}

#[test]
fn durable_failure_isolation() {
    let mut merger = DbOpMerger::new();
    merger.merge(DbOp::Insert { key: s("k1"), value: vec![1] });
    merger.merge(DbOp::Insert { key: s("k2"), value: vec![2] });
    let plan = flush_plan(&mut merger).unwrap();
    // the backend fails the write of k1's unit (its name is "k1": all
    // its characters encode to themselves)
    let mut dir: Vec<(String, Vec<u8>)> = Vec::new();
    apply_plan(&mut dir, &plan, &["k1"]);
    let reopened = MenoryDb::new(bootstrap_from_files(&dir));
    assert_eq!(reopened.get(&s("k1")), None);
    assert_eq!(reopened.get(&s("k2")), Some(vec![2]));
}

#[test]
fn plan_actions_orders_clear_writes_removes() {
    let plan = plan_actions(
        true,
        vec![(s("a"), vec![1])],
        &vec![s("b")],
    );
    assert_eq!(plan.len(), 3);
    assert!(matches!(plan[0], FileAction::RemoveAll));
    assert!(matches!(plan[1], FileAction::WriteFile { .. }));
    assert!(matches!(plan[2], FileAction::RemoveFile { .. }));
}

#[test]
fn strmap_basics() {
    let mut m: StrMap<Vec<u8>> = StrMap::new();
    assert!(m.is_empty());
    m.insert(s("x"), vec![1]);
    m.insert(s("x"), vec![2]);
    m.insert(s("y"), vec![3]);
    assert_eq!(m.len(), 2);
    assert!(m.contains_key(&s("x")));
    assert_eq!(m.get(&s("x")), Some(&vec![2u8]));
    m.remove(&s("x"));
    assert_eq!(m.get(&s("x")), None);
    let mut keys = m.keys();
    keys.sort();
    assert_eq!(keys, vec![s("y")]);
    m.clear();
    assert!(m.is_empty());
}
