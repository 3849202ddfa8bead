use multitree_db::basic_db::{BatchWriter, Db};
use multitree_db::command::{Command, CommitRecord};
use multitree_db::key::Key;
use multitree_db::log::Log;
use multitree_db::types::{Batch, BatchCommit, Commit, DbError};

fn k(s: &str) -> Key {
    Key::new(s.as_bytes().to_vec())
}

fn fresh(names: &[&str]) -> Db {
    let logs: Vec<(String, Log<Command>)> = names.iter().map(|n| (n.to_string(), Log::new())).collect();
    let mut db = Db::new(logs, Log::new());
    db.init().unwrap();
    db
}

fn ready_all(bw: &BatchWriter, db: &mut Db, names: &[&str]) -> BatchCommit {
    let bc = bw.new_batch_commit_number(db).unwrap();
    for n in names {
        bw.ready_commit(db, n, bc).unwrap();
    }
    bc
}

fn close_all(bw: &BatchWriter, db: &mut Db, names: &[&str]) {
    for n in names {
        bw.close(db, n).unwrap();
    }
}

fn read(db: &Db, tree: &str, key: &str) -> Option<Vec<u8>> {
    db.view().read(db, tree, &k(key)).unwrap()
}

#[test]
fn two_trees_commit_and_counters() {
    let names = ["a", "b"];
    let mut db = fresh(&names);
    let bw = db.batch().unwrap();
    assert_eq!(bw.number(), Batch(0));
    bw.open(&mut db, "a").unwrap();
    bw.open(&mut db, "b").unwrap();
    bw.write(&mut db, "a", k("k"), b"v1".to_vec()).unwrap();
    bw.write(&mut db, "b", k("k"), b"v2".to_vec()).unwrap();
    let bc = ready_all(&bw, &mut db, &names);
    assert_eq!(bc, BatchCommit(0));
    bw.commit(&mut db, bc).unwrap();
    close_all(&bw, &mut db, &names);
    assert_eq!(read(&db, "a", "k"), Some(b"v1".to_vec()));
    assert_eq!(read(&db, "b", "k"), Some(b"v2".to_vec()));
    assert_eq!(db.next_batch(), 1);
    assert_eq!(db.next_batch_commit(), 1);
    assert_eq!(db.next_commit(), 1);
    assert_eq!(db.view_commit_limit(), 1);
}

#[test]
fn failed_master_commit_then_retry() {
    let names = ["a"];
    let mut db = fresh(&names);
    let bw = db.batch().unwrap();
    bw.write(&mut db, "a", k("k"), b"v1".to_vec()).unwrap();
    let bc = ready_all(&bw, &mut db, &names);
    db.set_commit_log_writable(false);
    assert_eq!(bw.commit(&mut db, bc), Err(DbError::CommitMasterWriteFailed));
    close_all(&bw, &mut db, &names);
    assert_eq!(read(&db, "a", "k"), None);
    assert_eq!(db.view_commit_limit(), 0);

    db.set_commit_log_writable(true);
    let bw1 = db.batch().unwrap();
    assert_eq!(bw1.number(), Batch(1));
    bw1.write(&mut db, "a", k("k"), b"v1".to_vec()).unwrap();
    let bc1 = ready_all(&bw1, &mut db, &names);
    bw1.commit(&mut db, bc1).unwrap();
    close_all(&bw1, &mut db, &names);
    assert_eq!(read(&db, "a", "k"), Some(b"v1".to_vec()));
}

#[test]
fn view_taken_before_commit_sees_nothing() {
    let names = ["a"];
    let mut db = fresh(&names);
    let v0 = db.view();
    assert_eq!(v0.commit_limit(), Commit(0));
    let bw = db.batch().unwrap();
    bw.write(&mut db, "a", k("k"), b"v1".to_vec()).unwrap();
    let bc = ready_all(&bw, &mut db, &names);
    bw.commit(&mut db, bc).unwrap();
    close_all(&bw, &mut db, &names);
    assert_eq!(v0.read(&db, "a", &k("k")).unwrap(), None);
    let v1 = db.view();
    assert_eq!(v1.read(&db, "a", &k("k")).unwrap(), Some(b"v1".to_vec()));
}

#[test]
fn rolled_back_save_point_is_dropped() {
    let names = ["a"];
    let mut db = fresh(&names);
    let bw = db.batch().unwrap();
    bw.push_save_point(&mut db, "a").unwrap();
    bw.write(&mut db, "a", k("k"), b"x".to_vec()).unwrap();
    bw.rollback_save_point(&mut db, "a").unwrap();
    let bc = ready_all(&bw, &mut db, &names);
    bw.commit(&mut db, bc).unwrap();
    close_all(&bw, &mut db, &names);
    assert_eq!(read(&db, "a", "k"), None);
}

#[test]
fn popped_save_point_keeps_changes() {
    let names = ["a"];
    let mut db = fresh(&names);
    let bw = db.batch().unwrap();
    bw.push_save_point(&mut db, "a").unwrap();
    bw.write(&mut db, "a", k("k"), b"x".to_vec()).unwrap();
    bw.pop_save_point(&mut db, "a").unwrap();
    let bc = ready_all(&bw, &mut db, &names);
    bw.commit(&mut db, bc).unwrap();
    close_all(&bw, &mut db, &names);
    assert_eq!(read(&db, "a", "k"), Some(b"x".to_vec()));
}

#[test]
fn delete_range_tombstones_earlier_write() {
    let names = ["a"];
    let mut db = fresh(&names);
    let bw = db.batch().unwrap();
    bw.write(&mut db, "a", k("k"), b"v".to_vec()).unwrap();
    bw.delete_range(&mut db, "a", k("a"), k("z")).unwrap();
    let bc = ready_all(&bw, &mut db, &names);
    bw.commit(&mut db, bc).unwrap();
    close_all(&bw, &mut db, &names);
    assert_eq!(read(&db, "a", "k"), None);
}

#[test]
fn empty_delete_range_is_a_no_op() {
    let names = ["a"];
    let mut db = fresh(&names);
    let bw = db.batch().unwrap();
    bw.write(&mut db, "a", k("k"), b"v".to_vec()).unwrap();
    bw.delete_range(&mut db, "a", k("k"), k("k")).unwrap();
    let bc = ready_all(&bw, &mut db, &names);
    bw.commit(&mut db, bc).unwrap();
    assert_eq!(read(&db, "a", "k"), Some(b"v".to_vec()));
}

#[test]
fn later_write_in_batch_wins() {
    let names = ["a"];
    let mut db = fresh(&names);
    let bw = db.batch().unwrap();
    bw.write(&mut db, "a", k("k"), b"first".to_vec()).unwrap();
    bw.write(&mut db, "a", k("k"), b"second".to_vec()).unwrap();
    let bc = ready_all(&bw, &mut db, &names);
    bw.commit(&mut db, bc).unwrap();
    assert_eq!(read(&db, "a", "k"), Some(b"second".to_vec()));
}

#[test]
fn delete_hides_older_commit() {
    let names = ["a"];
    let mut db = fresh(&names);
    let bw = db.batch().unwrap();
    bw.write(&mut db, "a", k("k"), b"v".to_vec()).unwrap();
    let bc = ready_all(&bw, &mut db, &names);
    bw.commit(&mut db, bc).unwrap();
    close_all(&bw, &mut db, &names);
    let before = db.view();
    let bw2 = db.batch().unwrap();
    bw2.delete(&mut db, "a", k("k")).unwrap();
    let bc2 = ready_all(&bw2, &mut db, &names);
    bw2.commit(&mut db, bc2).unwrap();
    assert_eq!(read(&db, "a", "k"), None);
    assert_eq!(before.read(&db, "a", &k("k")).unwrap(), Some(b"v".to_vec()));
}

#[test]
fn crash_before_master_commit_recovers_as_aborted() {
    let names = ["a"];
    let mut db = fresh(&names);
    let bw = db.batch().unwrap();
    bw.open(&mut db, "a").unwrap();
    bw.write(&mut db, "a", k("k"), b"v1".to_vec()).unwrap();
    let _bc = ready_all(&bw, &mut db, &names);
    let (logs, commit_log) = db.into_logs();
    let mut again = Db::new(logs, commit_log);
    again.init().unwrap();
    assert_eq!(read(&again, "a", "k"), None);
    assert_eq!(again.next_commit(), 0);
    assert_eq!(again.view_commit_limit(), 0);
}

#[test]
fn recovery_rebuilds_committed_state() {
    let names = ["a", "b"];
    let mut db = fresh(&names);
    let bw = db.batch().unwrap();
    bw.write(&mut db, "a", k("k"), b"v1".to_vec()).unwrap();
    bw.write(&mut db, "b", k("j"), b"v2".to_vec()).unwrap();
    let bc = ready_all(&bw, &mut db, &names);
    bw.commit(&mut db, bc).unwrap();
    close_all(&bw, &mut db, &names);
    let (logs, commit_log) = db.into_logs();
    let mut again = Db::new(logs, commit_log);
    again.init().unwrap();
    assert_eq!(read(&again, "a", "k"), Some(b"v1".to_vec()));
    assert_eq!(read(&again, "b", "j"), Some(b"v2".to_vec()));
    assert_eq!(again.next_batch(), 1);
    assert_eq!(again.next_batch_commit(), 1);
    assert_eq!(again.next_commit(), 1);
    assert_eq!(again.view_commit_limit(), 1);
}

#[test]
fn crash_matches_clean_shutdown_indexes() {
    let names = ["a"];
    let mut clean = fresh(&names);
    let bw = clean.batch().unwrap();
    bw.write(&mut clean, "a", k("k"), b"v1".to_vec()).unwrap();
    let bc = ready_all(&bw, &mut clean, &names);
    bw.commit(&mut clean, bc).unwrap();
    close_all(&bw, &mut clean, &names);
    let (logs, commit_log) = clean.into_logs();
    let mut clean = Db::new(logs, commit_log);
    clean.init().unwrap();

    let mut crashed = fresh(&names);
    let bw = crashed.batch().unwrap();
    bw.write(&mut crashed, "a", k("k"), b"v1".to_vec()).unwrap();
    let bc = ready_all(&bw, &mut crashed, &names);
    bw.commit(&mut crashed, bc).unwrap();
    close_all(&bw, &mut crashed, &names);
    let bw2 = crashed.batch().unwrap();
    bw2.write(&mut crashed, "a", k("k"), b"v2".to_vec()).unwrap();
    let _ = ready_all(&bw2, &mut crashed, &names);
    let (logs, commit_log) = crashed.into_logs();
    let mut crashed = Db::new(logs, commit_log);
    crashed.init().unwrap();

    assert_eq!(read(&clean, "a", "k"), read(&crashed, "a", "k"));
    assert_eq!(clean.next_commit(), crashed.next_commit());
    assert_eq!(clean.view_commit_limit(), crashed.view_commit_limit());
}

#[test]
fn empty_batch_commits_and_advances() {
    let names = ["a"];
    let mut db = fresh(&names);
    let bw = db.batch().unwrap();
    let bc = ready_all(&bw, &mut db, &names);
    bw.commit(&mut db, bc).unwrap();
    assert_eq!(db.next_commit(), 1);
    assert_eq!(db.view_commit_limit(), 1);
}

#[test]
fn view_limit_grows_with_each_commit() {
    let names = ["a"];
    let mut db = fresh(&names);
    for i in 0..3u64 {
        let bw = db.batch().unwrap();
        bw.write(&mut db, "a", k("k"), vec![i as u8]).unwrap();
        let bc = ready_all(&bw, &mut db, &names);
        bw.commit(&mut db, bc).unwrap();
        close_all(&bw, &mut db, &names);
        assert_eq!(db.view_commit_limit(), i + 1);
    }
    assert_eq!(read(&db, "a", "k"), Some(vec![2u8]));
}

#[test]
fn second_commit_of_batch_is_refused() {
    let names = ["a"];
    let mut db = fresh(&names);
    let bw = db.batch().unwrap();
    let bc = ready_all(&bw, &mut db, &names);
    bw.commit(&mut db, bc).unwrap();
    let bc2 = ready_all(&bw, &mut db, &names);
    assert_eq!(bw.commit(&mut db, bc2), Err(DbError::AlreadyCommitted));
    assert_eq!(db.next_commit(), 1);
}

#[test]
fn commit_without_ready_is_refused() {
    let names = ["a"];
    let mut db = fresh(&names);
    let bw = db.batch().unwrap();
    bw.write(&mut db, "a", k("k"), b"v".to_vec()).unwrap();
    let bc = bw.new_batch_commit_number(&mut db).unwrap();
    assert_eq!(bw.commit(&mut db, bc), Err(DbError::NotReady));
}

#[test]
fn aborted_batch_commit_is_refused() {
    let names = ["a"];
    let mut db = fresh(&names);
    let bw = db.batch().unwrap();
    bw.write(&mut db, "a", k("k"), b"v".to_vec()).unwrap();
    let bc = ready_all(&bw, &mut db, &names);
    bw.abort_commit(&mut db, "a", bc).unwrap();
    assert_eq!(bw.commit(&mut db, bc), Err(DbError::NotReady));
}

#[test]
fn write_to_read_only_log_fails() {
    let names = ["a"];
    let mut db = fresh(&names);
    db.set_tree_log_writable("a", false);
    let bw = db.batch().unwrap();
    assert_eq!(bw.write(&mut db, "a", k("k"), b"v".to_vec()), Err(DbError::LogIo));
    assert_eq!(db.sync(), Err(DbError::LogIo));
    let bc = bw.new_batch_commit_number(&mut db).unwrap();
    assert_eq!(bw.ready_commit(&mut db, "a", bc), Err(DbError::ReadyCommitFailed));
    assert_eq!(bw.close(&mut db, "a"), Err(DbError::LogIo));
}

#[test]
fn sync_succeeds_on_writable_logs() {
    let db = fresh(&["a", "b"]);
    assert_eq!(db.sync(), Ok(()));
}

#[test]
fn unknown_key_reads_none() {
    let db = fresh(&["a"]);
    assert_eq!(read(&db, "a", "missing"), None);
}

#[test]
fn master_commit_without_ready_is_corrupt() {
    let tree_log = Log::from_records(vec![
        Command::Open { batch: Batch(0) },
        Command::Write { batch: Batch(0), key: k("k"), value: b"v".to_vec() },
    ]);
    let commit_log = Log::from_records(vec![CommitRecord {
        batch: Batch(0),
        batch_commit: BatchCommit(0),
        commit: Commit(0),
    }]);
    let mut db = Db::new(vec![("a".to_string(), tree_log)], commit_log);
    assert_eq!(db.init(), Err(DbError::CorruptLog));
}

#[test]
fn out_of_order_master_commits_are_corrupt() {
    let commit_log = Log::from_records(vec![
        CommitRecord { batch: Batch(0), batch_commit: BatchCommit(0), commit: Commit(1) },
        CommitRecord { batch: Batch(1), batch_commit: BatchCommit(1), commit: Commit(0) },
    ]);
    let mut db = Db::new(vec![("a".to_string(), Log::new())], commit_log);
    assert_eq!(db.init(), Err(DbError::CorruptLog));
}

#[test]
fn recovery_replays_logged_commit() {
    let tree_log = Log::from_records(vec![
        Command::Open { batch: Batch(4) },
        Command::Write { batch: Batch(4), key: k("k"), value: b"v".to_vec() },
        Command::ReadyCommit { batch: Batch(4), batch_commit: BatchCommit(6) },
        Command::Close { batch: Batch(4) },
    ]);
    let commit_log = Log::from_records(vec![CommitRecord {
        batch: Batch(4),
        batch_commit: BatchCommit(6),
        commit: Commit(2),
    }]);
    let mut db = Db::new(vec![("a".to_string(), tree_log)], commit_log);
    db.init().unwrap();
    assert_eq!(read(&db, "a", "k"), Some(b"v".to_vec()));
    assert_eq!(db.next_batch(), 5);
    assert_eq!(db.next_batch_commit(), 7);
    assert_eq!(db.next_commit(), 3);
    assert_eq!(db.view_commit_limit(), 3);
}

#[test]
fn exhausted_commit_counter_overflows() {
    let commit_log = Log::from_records(vec![CommitRecord {
        batch: Batch(0),
        batch_commit: BatchCommit(0),
        commit: Commit(u64::MAX - 1),
    }]);
    let mut db = Db::new(vec![("a".to_string(), Log::new())], commit_log);
    db.init().unwrap();
    assert_eq!(db.next_commit(), u64::MAX);
    let bw = db.batch().unwrap();
    let bc = bw.new_batch_commit_number(&mut db).unwrap();
    assert_eq!(bw.commit(&mut db, bc), Err(DbError::Overflow));
}

#[test]
fn reserved_batch_number_is_corrupt() {
    let tree_log = Log::from_records(vec![Command::Open { batch: Batch(u64::MAX) }]);
    let mut db = Db::new(vec![("a".to_string(), tree_log)], Log::new());
    assert_eq!(db.init(), Err(DbError::CorruptLog));
}
