use multitree_db::basic_db::Db;
use multitree_db::command::Command;
use multitree_db::compacting_tree::{CompactingTree, Cursor as MergeCursor};
use multitree_db::imp::{Db as FacadeDb, DbConfig};
use multitree_db::index::{Generation, Index, Value};
use multitree_db::key::{compare_bytes, Key};
use multitree_db::log::Log;
use multitree_db::tree::Tree;
use multitree_db::types::{Address, Batch, BatchCommit, Commit, DbError};

fn k(s: &str) -> Key {
    Key::new(s.as_bytes().to_vec())
}

fn fresh(names: &[&str]) -> Db {
    let logs: Vec<(String, Log<Command>)> = names.iter().map(|n| (n.to_string(), Log::new())).collect();
    let mut db = Db::new(logs, Log::new());
    db.init().unwrap();
    db
}

#[test]
fn keys_compare_by_bytes() {
    assert_eq!(compare_bytes(&b"a".to_vec(), &b"b".to_vec()), -1);
    assert_eq!(compare_bytes(&b"b".to_vec(), &b"a".to_vec()), 1);
    assert_eq!(compare_bytes(&b"ab".to_vec(), &b"ab".to_vec()), 0);
    assert_eq!(compare_bytes(&b"a".to_vec(), &b"ab".to_vec()), -1);
    assert_eq!(compare_bytes(&Vec::new(), &b"a".to_vec()), -1);
    assert!(k("k").lt(&k("z")));
    assert!(!k("z").lt(&k("k")));
    assert!(k("k").eq_key(&k("k")));
}

#[test]
fn index_reads_newest_version_below_generation() {
    let mut index = Index::new();
    index.add_version(&k("k"), 0, Value::Written(Address(1)));
    index.add_version(&k("k"), 2, Value::Deleted(Address(5)));
    index.add_version(&k("k"), 4, Value::Written(Address(9)));
    assert_eq!(index.read(Generation(0), &k("k")), None);
    assert_eq!(index.read(Generation(1), &k("k")), Some(Value::Written(Address(1))));
    assert_eq!(index.read(Generation(3), &k("k")), Some(Value::Deleted(Address(5))));
    assert_eq!(index.read(Generation(5), &k("k")), Some(Value::Written(Address(9))));
    assert_eq!(index.read(Generation(5), &k("other")), None);
}

#[test]
fn index_version_at_same_commit_replaces() {
    let mut index = Index::new();
    index.add_version(&k("k"), 3, Value::Written(Address(1)));
    index.add_version(&k("k"), 3, Value::Written(Address(2)));
    assert_eq!(index.read(Generation(4), &k("k")), Some(Value::Written(Address(2))));
}

#[test]
fn index_delete_range_is_half_open() {
    let mut index = Index::new();
    for (i, name) in ["a", "b", "c"].iter().enumerate() {
        index.add_version(&k(name), 0, Value::Written(Address(i)));
    }
    index.delete_range(&k("a"), &k("c"), 1, Address(7));
    assert_eq!(index.read(Generation(2), &k("a")), Some(Value::Deleted(Address(7))));
    assert_eq!(index.read(Generation(2), &k("b")), Some(Value::Deleted(Address(7))));
    assert_eq!(index.read(Generation(2), &k("c")), Some(Value::Written(Address(2))));
    assert_eq!(index.read(Generation(1), &k("a")), Some(Value::Written(Address(0))));
}

#[test]
fn index_cursor_skips_deleted_and_orders_keys() {
    let mut index = Index::new();
    index.add_version(&k("m"), 0, Value::Written(Address(0)));
    index.add_version(&k("c"), 0, Value::Written(Address(1)));
    index.add_version(&k("x"), 0, Value::Written(Address(2)));
    index.add_version(&k("m"), 1, Value::Deleted(Address(3)));
    let mut cursor = index.cursor(Generation(2));
    assert!(!cursor.valid());
    cursor.seek_first();
    let mut forward = Vec::new();
    while cursor.valid() {
        forward.push(cursor.key().0);
        cursor.next();
    }
    assert_eq!(forward, vec![b"c".to_vec(), b"x".to_vec()]);
    cursor.seek_last();
    let mut backward = Vec::new();
    while cursor.valid() {
        backward.push(cursor.key().0);
        cursor.prev();
    }
    backward.reverse();
    assert_eq!(forward, backward);
    cursor.seek_key(&k("d"));
    assert_eq!(cursor.key().0, b"x".to_vec());
    cursor.seek_key_rev(&k("d"));
    assert_eq!(cursor.key().0, b"c".to_vec());
    cursor.seek_key_rev(&k("a"));
    assert!(!cursor.valid());
    cursor.seek_key(&k("y"));
    assert!(!cursor.valid());
}

#[test]
fn db_cursor_round_trip() {
    let names = ["a"];
    let mut db = fresh(&names);
    let bw = db.batch().unwrap();
    for key in ["q", "b", "m"] {
        bw.write(&mut db, "a", k(key), key.as_bytes().to_vec()).unwrap();
    }
    bw.delete(&mut db, "a", k("m")).unwrap();
    let bc = bw.new_batch_commit_number(&mut db).unwrap();
    bw.ready_commit(&mut db, "a", bc).unwrap();
    bw.commit(&mut db, bc).unwrap();
    let view = db.view();
    let mut cursor = view.cursor(&db, "a");
    cursor.seek_first();
    let mut forward = Vec::new();
    while cursor.valid() {
        forward.push((cursor.key().0, cursor.value(&db).unwrap()));
        cursor.next();
    }
    assert_eq!(forward, vec![(b"b".to_vec(), b"b".to_vec()), (b"q".to_vec(), b"q".to_vec())]);
    cursor.seek_last();
    let mut backward = Vec::new();
    while cursor.valid() {
        backward.push((cursor.key().0, cursor.value(&db).unwrap()));
        cursor.prev();
    }
    backward.reverse();
    assert_eq!(forward, backward);
    cursor.seek_key(k("c"));
    assert_eq!(cursor.key().0, b"q".to_vec());
    cursor.seek_key_rev(k("c"));
    assert_eq!(cursor.key().0, b"b".to_vec());
}

#[test]
fn value_at_non_write_is_unexpected() {
    let tree = Tree::new(Log::from_records(vec![Command::Open { batch: Batch(0) }]));
    assert_eq!(tree.value_at(Address(0)), Err(DbError::UnexpectedRecord));
    assert_eq!(tree.value_at(Address(3)), Err(DbError::UnexpectedRecord));
}

#[test]
fn merge_cursor_prefers_newer_on_equal_keys() {
    let mut newer = Index::new();
    newer.add_version(&k("b"), 0, Value::Written(Address(10)));
    newer.add_version(&k("d"), 0, Value::Written(Address(11)));
    let mut older = Index::new();
    older.add_version(&k("a"), 0, Value::Written(Address(20)));
    older.add_version(&k("b"), 0, Value::Written(Address(21)));
    let mut cursor = MergeCursor::new(newer.cursor(Generation(1)), older.cursor(Generation(1)));
    cursor.seek_first();
    let mut seen = Vec::new();
    while cursor.valid() {
        seen.push((cursor.key().0, cursor.address()));
        cursor.next();
    }
    assert_eq!(
        seen,
        vec![
            (b"a".to_vec(), (false, Address(20))),
            (b"b".to_vec(), (true, Address(10))),
            (b"d".to_vec(), (true, Address(11))),
        ]
    );
    cursor.seek_last();
    assert_eq!(cursor.key().0, b"d".to_vec());
    cursor.prev();
    assert_eq!(cursor.address(), (true, Address(10)));
}

#[test]
fn compaction_claims_and_releases() {
    let mut tree = CompactingTree::new(Log::new());
    assert_eq!(tree.compact(Commit(1)), Ok(true));
    assert!(tree.start_compaction());
    assert!(!tree.start_compaction());
    assert_eq!(tree.compact(Commit(1)), Ok(false));
    assert_eq!(tree.finish_compaction(Commit(1)), Ok(()));
    assert!(tree.start_compaction());
}

#[test]
fn facade_commit_runs_two_phases() {
    let config = DbConfig { dir: "data".to_string(), trees: vec!["a".to_string(), "b".to_string()] };
    let logs = vec![("a".to_string(), Log::new()), ("b".to_string(), Log::new())];
    let mut db = FacadeDb::open(&config, logs, Log::new()).unwrap();
    let batch = db.write_batch().unwrap();
    batch.tree("a").write(&batch, &mut db, b"k", b"v1").unwrap();
    batch.tree("b").write(&batch, &mut db, b"k", b"v2").unwrap();
    batch.commit(&mut db).unwrap();
    batch.close(&mut db);
    let view = db.read_view();
    assert_eq!(view.tree("a").read(&view, &db, b"k").unwrap(), Some(b"v1".to_vec()));
    assert_eq!(view.tree("b").read(&view, &db, b"k").unwrap(), Some(b"v2".to_vec()));
    let mut cursor = view.tree("a").cursor(&view, &db);
    cursor.seek_first();
    assert!(cursor.valid());
    assert_eq!(cursor.key_value(&db).unwrap(), (b"k".to_vec(), b"v1".to_vec()));
    assert_eq!(db.inner().next_commit(), 1);
}

#[test]
fn facade_commit_reports_ready_failure() {
    let config = DbConfig { dir: "data".to_string(), trees: vec!["a".to_string(), "b".to_string()] };
    let logs = vec![("a".to_string(), Log::new()), ("b".to_string(), Log::new())];
    let mut db = FacadeDb::open(&config, logs, Log::new()).unwrap();
    let batch = db.write_batch().unwrap();
    batch.tree("b").write(&batch, &mut db, b"k", b"v").unwrap();
    db.set_tree_log_writable("a", false);
    assert_eq!(batch.commit(&mut db), Err(DbError::ReadyCommitFailed));
    assert_eq!(db.inner().next_commit(), 0);
    assert_eq!(db.inner().view_commit_limit(), 0);
    db.set_tree_log_writable("a", true);
    batch.abort(&mut db);
    assert_eq!(db.inner().next_batch_commit(), 2);
    let view = db.read_view();
    assert_eq!(view.tree("b").read(&view, &db, b"k").unwrap(), None);
}

#[test]
fn facade_rejects_reserved_or_mismatched_trees() {
    let config = DbConfig { dir: "data".to_string(), trees: vec!["commits".to_string()] };
    let logs = vec![("commits".to_string(), Log::new())];
    assert!(matches!(FacadeDb::open(&config, logs, Log::new()), Err(DbError::Config)));
    let config = DbConfig { dir: "data".to_string(), trees: vec!["a".to_string()] };
    let logs = vec![("a".to_string(), Log::new()), ("b".to_string(), Log::new())];
    assert!(matches!(FacadeDb::open(&config, logs, Log::new()), Err(DbError::Config)));
    let config = DbConfig { dir: "data".to_string(), trees: vec!["a".to_string(), "a".to_string()] };
    let logs = vec![("a".to_string(), Log::new()), ("a".to_string(), Log::new())];
    assert!(matches!(FacadeDb::open(&config, logs, Log::new()), Err(DbError::Config)));
}

fn committed_tree(writes: &[(&str, &str)], deletes: &[&str]) -> Tree {
    let mut tree = Tree::new(Log::new());
    for (key, value) in writes {
        tree.write(Batch(0), k(key), value.as_bytes().to_vec()).unwrap();
    }
    for key in deletes {
        tree.delete(Batch(0), k(key)).unwrap();
    }
    tree.ready_commit(Batch(0), BatchCommit(0)).unwrap();
    tree.commit(Batch(0), BatchCommit(0), Commit(0));
    tree
}

#[test]
fn compaction_keeps_live_keys_only() {
    let tree = committed_tree(&[("a", "1"), ("b", "2"), ("c", "3")], &["b"]);
    let mut ct = CompactingTree::from_tree(tree);
    assert_eq!(ct.read(Commit(1), &k("a")).unwrap(), Some(b"1".to_vec()));
    assert_eq!(ct.compact(Commit(1)), Ok(true));
    assert_eq!(ct.read(Commit(1), &k("a")).unwrap(), Some(b"1".to_vec()));
    assert_eq!(ct.read(Commit(1), &k("b")).unwrap(), None);
    assert_eq!(ct.read(Commit(1), &k("c")).unwrap(), Some(b"3".to_vec()));
    assert_eq!(ct.active().log_len(), 0);
}

#[test]
fn tree_read_sees_only_earlier_commits() {
    let tree = committed_tree(&[("k", "v")], &[]);
    assert_eq!(tree.read(Commit(0), &k("k")).unwrap(), None);
    assert_eq!(tree.read(Commit(1), &k("k")).unwrap(), Some(b"v".to_vec()));
    assert_eq!(tree.status(Commit(1), &k("k")), Some(Value::Written(Address(0))));
}

#[test]
fn compaction_keeps_deletions_over_older_writes() {
    let tree = committed_tree(&[("a", "1"), ("b", "2")], &[]);
    let mut ct = CompactingTree::from_tree(tree);
    assert_eq!(ct.compact(Commit(1)), Ok(true));
    let mut active = ct.replace_active(Tree::new(Log::new()));
    active.delete(Batch(1), k("a")).unwrap();
    active.ready_commit(Batch(1), BatchCommit(1)).unwrap();
    active.commit(Batch(1), BatchCommit(1), Commit(1));
    let _ = ct.replace_active(active);
    assert_eq!(ct.read(Commit(2), &k("a")).unwrap(), None);
    assert_eq!(ct.compact(Commit(2)), Ok(true));
    assert_eq!(ct.read(Commit(2), &k("a")).unwrap(), None);
    assert_eq!(ct.read(Commit(2), &k("b")).unwrap(), Some(b"2".to_vec()));
}

#[test]
fn facade_abort_and_close_reach_every_tree() {
    let config = DbConfig { dir: "data".to_string(), trees: vec!["a".to_string(), "b".to_string()] };
    let logs = vec![("a".to_string(), Log::new()), ("b".to_string(), Log::new())];
    let mut db = FacadeDb::open(&config, logs, Log::new()).unwrap();
    let batch = db.write_batch().unwrap();
    batch.abort(&mut db);
    batch.close(&mut db);
    assert_eq!(db.inner().next_batch_commit(), 1);
    let (logs, _) = db.into_inner().into_logs();
    for (_, log) in logs.iter() {
        assert_eq!(log.len(), 2);
    }
}

#[test]
fn facade_accepts_logs_in_any_order() {
    let config = DbConfig { dir: "data".to_string(), trees: vec!["a".to_string(), "b".to_string()] };
    let logs = vec![("b".to_string(), Log::new()), ("a".to_string(), Log::new())];
    assert!(FacadeDb::open(&config, logs, Log::new()).is_ok());
    let logs = vec![("b".to_string(), Log::new()), ("c".to_string(), Log::new())];
    assert!(matches!(FacadeDb::open(&config, logs, Log::new()), Err(DbError::Config)));
}

#[test]
fn facade_open_reports_corrupt_logs() {
    let config = DbConfig { dir: "data".to_string(), trees: vec!["a".to_string()] };
    let tree_log = Log::from_records(vec![Command::Open { batch: Batch(u64::MAX) }]);
    let logs = vec![("a".to_string(), tree_log)];
    assert!(matches!(FacadeDb::open(&config, logs, Log::new()), Err(DbError::CorruptLog)));
}
