use vstd::prelude::*;
use crate::basic_db::{self as bdb, committed_before, logs_recoverable};
use crate::loader::{entries_of_log, recovered};
use crate::batch_player::{OpV, has_op, lemma_replay_ready_suffix, replay_spec, without_batch};
use crate::tree::apply_ops;
use crate::command::{Command, CommitRecord};
use crate::key::Key;
use crate::log::Log;
use crate::index::{last_position, next_position, prev_position};
use crate::key::{key_le, key_lt};
use crate::tree::{opt_bytes, read_spec, value_at};
use crate::types::{Batch, BatchCommit, Commit, DbError};

verus! {

/// Where a database lives and which trees it holds.
pub struct DbConfig {
    pub dir: String,
    pub trees: Vec<String>,
}

/// A database opened from its configuration.
pub struct Db {
    inner: bdb::Db,
}

/// A write batch over every tree of a database.
pub struct WriteBatch {
    inner: bdb::BatchWriter,
}

/// A read snapshot of a database.
pub struct ReadView {
    inner: bdb::ViewReader,
}

/// One tree of a write batch.
pub struct WriteTree {
    tree: String,
}

/// One tree of a read view.
pub struct ReadTree {
    tree: String,
}

/// A cursor over one tree of a read view.
pub struct Cursor {
    inner: bdb::Cursor,
}

/// The name of the commit log, which no tree may take.
pub open spec fn reserved_name() -> Seq<char> {
    "commits"@
}

/// There is one log for each configured tree and no other, under distinct
/// names other than the reserved one; the order may differ.
pub open spec fn config_matches(config: Seq<Seq<char>>, logs: Seq<Seq<char>>) -> bool {
    &&& config.len() == logs.len()
    &&& forall|i: int, j: int| 0 <= i < j < config.len() ==> config[i] != config[j]
    &&& forall|i: int, j: int| 0 <= i < j < logs.len() ==> logs[i] != logs[j]
    &&& forall|i: int| 0 <= i < logs.len() ==> logs[i] != reserved_name()
    &&& forall|i: int| 0 <= i < config.len() ==> logs.contains(#[trigger] config[i])
}

fn is_reserved(name: &String) -> (r: bool)
    ensures
        r == (name@ == reserved_name()),
{
    let reserved = "commits".to_owned();
    *name == reserved
}

/// Checks that the logs are those of the configured trees, in order, under
/// distinct names other than the reserved one.
fn check_config(config: &Vec<String>, tree_logs: &Vec<(String, Log<Command>)>) -> (r: bool)
    ensures
        r == config_matches(config@.map_values(|s: String| s@), tree_logs@.map_values(|e: (String, Log<Command>)| e.0@)),
{
    let ghost cs = config@.map_values(|s: String| s@);
    let ghost ls = tree_logs@.map_values(|e: (String, Log<Command>)| e.0@);
    if config.len() != tree_logs.len() {
        return false;
    }
    let mut i: usize = 0;
    while i < tree_logs.len()
        invariant
            config@.len() == tree_logs@.len(),
            ls == tree_logs@.map_values(|e: (String, Log<Command>)| e.0@),
            i <= tree_logs@.len(),
            forall|x: int, y: int| 0 <= x < y < i ==> ls[x] != ls[y],
            forall|x: int| 0 <= x < i ==> ls[x] != reserved_name(),
        decreases tree_logs@.len() - i,
    {
        let name = &tree_logs[i].0;
        assert(ls[i as int] == name@);
        if is_reserved(name) {
            return false;
        }
        let mut j: usize = 0;
        while j < i
            invariant
                i < tree_logs@.len(),
                ls == tree_logs@.map_values(|e: (String, Log<Command>)| e.0@),
                j <= i,
                name@ == ls[i as int],
                forall|y: int| 0 <= y < j ==> ls[y] != ls[i as int],
            decreases i - j,
        {
            assert(ls[j as int] == tree_logs@[j as int].0@);
            if tree_logs[j].0 == *name {
                return false;
            }
            j = j + 1;
        }
        i = i + 1;
    }
    let mut i: usize = 0;
    while i < config.len()
        invariant
            config@.len() == tree_logs@.len(),
            cs == config@.map_values(|s: String| s@),
            ls == tree_logs@.map_values(|e: (String, Log<Command>)| e.0@),
            i <= config@.len(),
            forall|x: int, y: int| 0 <= x < y < ls.len() ==> ls[x] != ls[y],
            forall|x: int| 0 <= x < ls.len() ==> ls[x] != reserved_name(),
            forall|x: int, y: int| 0 <= x < y < i ==> cs[x] != cs[y],
            forall|x: int| 0 <= x < i ==> ls.contains(#[trigger] cs[x]),
        decreases config@.len() - i,
    {
        let name = &config[i];
        assert(cs[i as int] == name@);
        let mut j: usize = 0;
        while j < i
            invariant
                i < config@.len(),
                cs == config@.map_values(|s: String| s@),
                j <= i,
                name@ == cs[i as int],
                forall|y: int| 0 <= y < j ==> cs[y] != cs[i as int],
            decreases i - j,
        {
            assert(cs[j as int] == config@[j as int]@);
            if config[j] == *name {
                return false;
            }
            j = j + 1;
        }
        let mut found = false;
        let mut j: usize = 0;
        while j < tree_logs.len() && !found
            invariant
                i < config@.len(),
                ls == tree_logs@.map_values(|e: (String, Log<Command>)| e.0@),
                j <= tree_logs@.len(),
                name@ == cs[i as int],
                forall|y: int| 0 <= y < j ==> ls[y] != cs[i as int],
                found ==> ls.contains(cs[i as int]),
            decreases tree_logs@.len() - j, if found { 0int } else { 1int },
        {
            assert(ls[j as int] == tree_logs@[j as int].0@);
            if tree_logs[j].0 == *name {
                found = true;
            } else {
                j = j + 1;
            }
        }
        if !found {
            assert(!ls.contains(cs[i as int]));
            return false;
        }
        i = i + 1;
    }
    true
}

/// `after` is `before` with one more record, one that `is_it` accepts.
pub open spec fn appended_record(before: Seq<Command>, after: Seq<Command>, is_it: spec_fn(Command) -> bool) -> bool {
    &&& after.len() == before.len() + 1
    &&& after.drop_last() == before
    &&& is_it(after.last())
}

pub open spec fn is_write_of(c: Command, b: Batch, k: Seq<u8>, v: Seq<u8>) -> bool {
    match c {
        Command::Write { batch, key, value } => batch == b && key@ == k && value@ == v,
        _ => false,
    }
}

pub open spec fn is_delete_of(c: Command, b: Batch, k: Seq<u8>) -> bool {
    match c {
        Command::Delete { batch, key } => batch == b && key@ == k,
        _ => false,
    }
}

pub open spec fn is_delete_range_of(c: Command, b: Batch, s: Seq<u8>, e: Seq<u8>) -> bool {
    match c {
        Command::DeleteRange { batch, start_key, end_key } => batch == b && start_key@ == s && end_key@ == e,
        _ => false,
    }
}

/// The entry that declaring `bc` ready for batch `b` records in tree `t`.
pub open spec fn ready_entry(t: crate::tree::Tree, b: Batch, bc: BatchCommit) -> crate::batch_player::EntryV {
    crate::batch_player::EntryV { batch: b.0, op: OpV::Ready(bc.0), address: crate::types::Address(t.log_records().len() as usize) }
}

/// No tree of the batch has withdrawn batch commit `bc` already.
pub open spec fn no_abort(d: bdb::Db, b: Batch, bc: u64) -> bool {
    forall|t: int| 0 <= t < d.trees().len() ==> !has_op((#[trigger] d.trees()[t]).player(), b.0, OpV::Abort(bc))
}

impl Db {
    pub closed spec fn inner_spec(&self) -> bdb::Db {
        self.inner
    }

    pub open spec fn wf(&self) -> bool {
        self.inner_spec().wf() && self.inner_spec().is_initialized()
    }

    /// Opens a database from one log per configured tree, in configuration
    /// order, and the commit log, recovering its state.
    pub fn open(
        config: &DbConfig,
        tree_logs: Vec<(String, Log<Command>)>,
        commit_log: Log<CommitRecord>,
    ) -> (r: Result<Db, DbError>)
        ensures
            !config_matches(config.trees@.map_values(|s: String| s@), tree_logs@.map_values(|e: (String, Log<Command>)| e.0@))
                ==> r == Err::<Db, DbError>(DbError::Config),
            config_matches(config.trees@.map_values(|s: String| s@), tree_logs@.map_values(|e: (String, Log<Command>)| e.0@))
                ==> r.is_ok() == logs_recoverable(
                    tree_logs@.map_values(|e: (String, Log<Command>)| e.1.records()),
                    commit_log.records(),
                ),
            config_matches(config.trees@.map_values(|s: String| s@), tree_logs@.map_values(|e: (String, Log<Command>)| e.0@))
                && r.is_err() ==> r == Err::<Db, DbError>(DbError::CorruptLog),
            r.is_ok() ==> r.unwrap().wf()
                && r.unwrap().inner_spec().names() == tree_logs@.map_values(|e: (String, Log<Command>)| e.0@)
                && r.unwrap().inner_spec().commit_records() == commit_log.records()
                && r.unwrap().inner_spec().trees().len() == tree_logs@.len()
                && r.unwrap().inner_spec().next_commit_spec() == (if commit_log.records().len() == 0 { 0 } else {
                    commit_log.records().last().commit.0 + 1
                })
                && r.unwrap().inner_spec().view_limit() == r.unwrap().inner_spec().next_commit_spec()
                && forall|t: int| 0 <= t < tree_logs@.len() ==> (#[trigger] r.unwrap().inner_spec().trees()[t]).index_view()
                    == recovered(entries_of_log(tree_logs@[t].1.records()), commit_log.records())
                    && r.unwrap().inner_spec().trees()[t].log_records() == tree_logs@[t].1.records(),
    {
        if !check_config(&config.trees, &tree_logs) {
            return Err(DbError::Config);
        }
        proof {
            let ls = tree_logs@.map_values(|e: (String, Log<Command>)| e.0@);
            assert forall|i: int, j: int| 0 <= i < j < tree_logs@.len() implies tree_logs@[i].0@ != tree_logs@[j].0@ by {
                assert(ls[i] == tree_logs@[i].0@);
                assert(ls[j] == tree_logs@[j].0@);
            }
        }
        let ghost logs = tree_logs@.map_values(|e: (String, Log<Command>)| e.1.records());
        let ghost tl = tree_logs@;
        let mut inner = bdb::Db::new(tree_logs, commit_log);
        proof {
            assert forall|t: int| 0 <= t < logs.len() implies #[trigger] logs[t] == inner.trees()[t].log_records() by {
                assert(logs[t] == tl[t].1.records());
            }
            inner.lemma_recoverable_logs(logs);
        }
        match inner.init() {
            Ok(()) => Ok(Db { inner }),
            Err(e) => Err(e),
        }
    }

    /// Starts a write batch.
    pub fn write_batch(&mut self) -> (r: Result<WriteBatch, DbError>)
        requires
            old(self).wf(),
        ensures
            final(self).wf(),
            r.is_ok() ==> r.unwrap().batch_spec().0 == old(self).inner_spec().next_batch_spec(),
            r.is_ok() == (old(self).inner_spec().next_batch_spec() < u64::MAX),
    {
        match self.inner.batch() {
            Ok(inner) => Ok(WriteBatch { inner }),
            Err(e) => Err(e),
        }
    }

    /// Takes a read snapshot at the current view limit.
    pub fn read_view(&self) -> (r: ReadView)
        requires
            self.wf(),
        ensures
            r.limit_spec() == self.inner_spec().view_limit(),
    {
        ReadView { inner: self.inner.view() }
    }

    pub fn sync(&self) -> (r: Result<(), DbError>)
        requires
            self.wf(),
        ensures
            r.is_ok() == forall|t: int| 0 <= t < self.inner_spec().trees().len()
                ==> (#[trigger] self.inner_spec().trees()[t]).log_writable(),
    {
        self.inner.sync()
    }

    /// Makes the log of tree `tree` accept or refuse appends.
    pub fn set_tree_log_writable(&mut self, tree: &str, writable: bool)
        requires
            old(self).wf(),
            old(self).inner_spec().has_tree(tree@),
        ensures
            final(self).wf(),
            final(self).inner_spec().tree_named(tree@).log_writable() == writable,
    {
        self.inner.set_tree_log_writable(tree, writable);
    }

    pub fn into_inner(self) -> (r: bdb::Db)
        ensures
            r == self.inner_spec(),
    {
        self.inner
    }

    pub fn inner(&self) -> (r: &bdb::Db)
        ensures
            *r == self.inner_spec(),
    {
        &self.inner
    }
}

impl WriteBatch {
    pub closed spec fn batch_spec(&self) -> Batch {
        self.inner.number_spec()
    }

    pub fn tree(&self, tree: &str) -> (r: WriteTree)
        ensures
            r.name_spec() == tree@,
    {
        WriteTree { tree: tree.to_owned() }
    }

    /// Runs the two-phase commit: draws a batch commit number, declares it
    /// ready in every tree (withdrawing it from the remaining trees once one
    /// fails), and, if every tree is ready, commits the batch.
    pub fn commit(&self, db: &mut Db) -> (r: Result<(), DbError>)
        requires
            old(db).wf(),
        ensures
            final(db).wf(),
            r.is_ok() ==> final(db).inner_spec().commit_records() == old(db).inner_spec().commit_records().push(
                CommitRecord {
                    batch: self.batch_spec(),
                    batch_commit: BatchCommit(old(db).inner_spec().next_batch_commit_spec()),
                    commit: Commit(old(db).inner_spec().next_commit_spec()),
                },
            ) && final(db).inner_spec().view_limit() == old(db).inner_spec().next_commit_spec() + 1,
            r.is_err() ==> final(db).inner_spec().commit_records() == old(db).inner_spec().commit_records()
                && final(db).inner_spec().view_limit() == old(db).inner_spec().view_limit(),
            old(db).inner_spec().next_batch_commit_spec() == u64::MAX ==> r == Err::<(), DbError>(DbError::Overflow),
            old(db).inner_spec().next_batch_commit_spec() < u64::MAX
                && !(forall|t: int| 0 <= t < old(db).inner_spec().trees().len()
                    ==> (#[trigger] old(db).inner_spec().trees()[t]).log_writable())
                ==> r == Err::<(), DbError>(DbError::ReadyCommitFailed),
            old(db).inner_spec().next_batch_commit_spec() < u64::MAX
                && (forall|t: int| 0 <= t < old(db).inner_spec().trees().len()
                    ==> (#[trigger] old(db).inner_spec().trees()[t]).log_writable())
                && old(db).inner_spec().commit_log_writable()
                && old(db).inner_spec().next_commit_spec() < u64::MAX
                && !committed_before(old(db).inner_spec(), self.batch_spec())
                && no_abort(old(db).inner_spec(), self.batch_spec(), old(db).inner_spec().next_batch_commit_spec())
                ==> r.is_ok(),
            old(db).inner_spec().next_batch_commit_spec() < u64::MAX
                ==> final(db).inner_spec().next_batch_commit_spec() == old(db).inner_spec().next_batch_commit_spec() + 1,
            final(db).inner_spec().trees().len() == old(db).inner_spec().trees().len(),
            r.is_ok() ==> forall|t: int| 0 <= t < old(db).inner_spec().trees().len() ==> {
                let t0 = old(db).inner_spec().trees()[t];
                let t1 = #[trigger] final(db).inner_spec().trees()[t];
                let bc = BatchCommit(old(db).inner_spec().next_batch_commit_spec());
                &&& t1.log_records() == t0.log_records().push(Command::ReadyCommit { batch: self.batch_spec(), batch_commit: bc })
                &&& t1.index_view() == apply_ops(t0.index_view(), replay_spec(t0.player(), self.batch_spec().0, bc.0),
                    old(db).inner_spec().next_commit_spec())
            },
            r.is_err() ==> forall|t: int| 0 <= t < old(db).inner_spec().trees().len() ==> {
                let t0 = old(db).inner_spec().trees()[t];
                let t1 = #[trigger] final(db).inner_spec().trees()[t];
                let bc = BatchCommit(old(db).inner_spec().next_batch_commit_spec());
                &&& t1.index_view() == t0.index_view()
                &&& t1.log_records() == t0.log_records()
                    || t1.log_records() == t0.log_records().push(Command::ReadyCommit { batch: self.batch_spec(), batch_commit: bc })
                    || t1.log_records() == t0.log_records().push(Command::AbortCommit { batch: self.batch_spec(), batch_commit: bc })
            },
    {
        let ghost d0 = db.inner;
        let batch_commit = match self.inner.new_batch_commit_number(&mut db.inner) {
            Ok(bc) => bc,
            Err(e) => {
                return Err(e);
            },
        };
        let ghost d1 = db.inner;
        let b = self.inner.number();
        let n = db.inner.tree_count();
        let mut failed = false;
        let mut t: usize = 0;
        while t < n
            invariant
                n == d1.trees().len(),
                t <= n,
                db.inner.wf(),
                db.inner.is_initialized(),
                b == self.inner.number_spec(),
                batch_commit.0 == d0.next_batch_commit_spec(),
                db.inner.trees().len() == d1.trees().len(),
                db.inner.commit_records() == d1.commit_records(),
                db.inner.commit_log_writable() == d1.commit_log_writable(),
                db.inner.next_commit_spec() == d1.next_commit_spec(),
                db.inner.next_batch_spec() == d1.next_batch_spec(),
                db.inner.next_batch_commit_spec() == d1.next_batch_commit_spec(),
                db.inner.view_limit() == d1.view_limit(),
                d1.trees() == d0.trees(),
                forall|x: int| t <= x < n ==> #[trigger] db.inner.trees()[x] == d1.trees()[x],
                !failed <==> forall|x: int| 0 <= x < t ==> (#[trigger] d1.trees()[x]).log_writable(),
                !failed && no_abort(d0, b, batch_commit.0) ==> forall|x: int| 0 <= x < t
                    ==> crate::batch_player::ready_spec((#[trigger] db.inner.trees()[x]).player(), b.0, batch_commit.0),
                forall|x: int| 0 <= x < t ==> {
                    let t0 = d1.trees()[x];
                    let t1 = #[trigger] db.inner.trees()[x];
                    &&& t1.index_view() == t0.index_view()
                    &&& t1.log_records() == t0.log_records()
                        || t1.log_records() == t0.log_records().push(Command::ReadyCommit { batch: b, batch_commit })
                        || t1.log_records() == t0.log_records().push(Command::AbortCommit { batch: b, batch_commit })
                    &&& !failed ==> t1.log_records() == t0.log_records().push(Command::ReadyCommit { batch: b, batch_commit })
                        && t1.player() == t0.player().push(ready_entry(t0, b, batch_commit))
                },
            decreases n - t,
        {
            let ghost before = db.inner;
            if !failed {
                let res = self.inner.ready_commit_at(&mut db.inner, t, batch_commit);
                if res.is_err() {
                    failed = true;
                } else {
                    proof {
                        let old_entries = d1.trees()[t as int].player();
                        let new_entries = db.inner.trees()[t as int].player();
                        let e = crate::batch_player::EntryV {
                            batch: b.0,
                            op: OpV::Ready(batch_commit.0),
                            address: crate::types::Address(d1.trees()[t as int].log_records().len() as usize),
                        };
                        assert(new_entries == old_entries.push(e));
                        assert(new_entries[new_entries.len() - 1] == e);
                        if no_abort(d0, b, batch_commit.0) {
                            assert(!has_op(old_entries, b.0, OpV::Abort(batch_commit.0)));
                            if has_op(new_entries, b.0, OpV::Abort(batch_commit.0)) {
                                let i = choose|i: int| 0 <= i < new_entries.len() && (#[trigger] new_entries[i]).batch == b.0
                                    && new_entries[i].op == OpV::Abort(batch_commit.0);
                                assert(new_entries[i] == old_entries[i]);
                            }
                            assert(has_op(new_entries, b.0, OpV::Ready(batch_commit.0)));
                        }
                    }
                }
            } else {
                let _ = self.inner.abort_commit_at(&mut db.inner, t, batch_commit);
            }
            proof {
                assert forall|x: int| 0 <= x < db.inner.trees().len() && x != t implies
                    #[trigger] db.inner.trees()[x] == before.trees()[x] by {}
            }
            t = t + 1;
        }
        if failed {
            return Err(DbError::ReadyCommitFailed);
        }
        let ghost mid = db.inner;
        proof {
            assert forall|x: int| 0 <= x < n implies
                replay_spec((#[trigger] mid.trees()[x]).player(), b.0, batch_commit.0)
                == replay_spec(d1.trees()[x].player(), b.0, batch_commit.0) by {
                lemma_replay_ready_suffix(d1.trees()[x].player(), ready_entry(d1.trees()[x], b, batch_commit), b.0, batch_commit.0);
            }
        }
        proof {
            if no_abort(d0, b, batch_commit.0) {
                assert forall|x: int| 0 <= x < db.inner.trees().len() implies
                    crate::batch_player::ready_spec((#[trigger] db.inner.trees()[x]).player(), b.0, batch_commit.0) by {}
            }
            if committed_before(db.inner, b) {
                let i = choose|i: int| 0 <= i < db.inner.commit_records().len() && (#[trigger] db.inner.commit_records()[i]).batch == b;
                assert(d0.commit_records()[i].batch == b);
            }
        }
        self.inner.commit(&mut db.inner, batch_commit)
    }

    /// Withdraws a fresh batch commit number from every tree; a tree whose
    /// log refuses the record is passed over.
    pub fn abort(&self, db: &mut Db)
        requires
            old(db).wf(),
        ensures
            final(db).wf(),
            final(db).inner_spec().commit_records() == old(db).inner_spec().commit_records(),
            final(db).inner_spec().view_limit() == old(db).inner_spec().view_limit(),
            final(db).inner_spec().next_commit_spec() == old(db).inner_spec().next_commit_spec(),
            old(db).inner_spec().next_batch_commit_spec() == u64::MAX ==> *final(db) == *old(db),
            old(db).inner_spec().next_batch_commit_spec() < u64::MAX ==>
                final(db).inner_spec().next_batch_commit_spec() == old(db).inner_spec().next_batch_commit_spec() + 1
                && final(db).inner_spec().trees().len() == old(db).inner_spec().trees().len()
                && forall|t: int| 0 <= t < old(db).inner_spec().trees().len() ==> {
                    let t0 = old(db).inner_spec().trees()[t];
                    let t1 = #[trigger] final(db).inner_spec().trees()[t];
                    &&& t1.index_view() == t0.index_view()
                    &&& t1.log_records() == if t0.log_writable() {
                        t0.log_records().push(Command::AbortCommit {
                            batch: self.batch_spec(),
                            batch_commit: BatchCommit(old(db).inner_spec().next_batch_commit_spec()),
                        })
                    } else {
                        t0.log_records()
                    }
                },
    {
        let batch_commit = match self.inner.new_batch_commit_number(&mut db.inner) {
            Ok(bc) => bc,
            Err(_) => {
                return;
            },
        };
        let ghost d1 = db.inner;
        let n = db.inner.tree_count();
        let mut t: usize = 0;
        while t < n
            invariant
                n == db.inner.trees().len(),
                n == d1.trees().len(),
                t <= n,
                db.inner.wf(),
                db.inner.is_initialized(),
                db.inner.commit_records() == d1.commit_records(),
                db.inner.view_limit() == d1.view_limit(),
                db.inner.next_commit_spec() == d1.next_commit_spec(),
                db.inner.next_batch_commit_spec() == d1.next_batch_commit_spec(),
                d1.trees() == old(db).inner_spec().trees(),
                d1.next_batch_commit_spec() == old(db).inner_spec().next_batch_commit_spec() + 1,
                batch_commit.0 == old(db).inner_spec().next_batch_commit_spec(),
                forall|x: int| t <= x < n ==> #[trigger] db.inner.trees()[x] == d1.trees()[x],
                forall|x: int| 0 <= x < t ==> {
                    let t0 = d1.trees()[x];
                    let t1 = #[trigger] db.inner.trees()[x];
                    &&& t1.index_view() == t0.index_view()
                    &&& t1.log_records() == if t0.log_writable() {
                        t0.log_records().push(Command::AbortCommit { batch: self.batch_spec(), batch_commit })
                    } else {
                        t0.log_records()
                    }
                },
            decreases n - t,
        {
            let ghost before = db.inner;
            let _ = self.inner.abort_commit_at(&mut db.inner, t, batch_commit);
            proof {
                assert forall|x: int| 0 <= x < db.inner.trees().len() && x != t implies
                    #[trigger] db.inner.trees()[x] == before.trees()[x] by {}
            }
            t = t + 1;
        }
    }

    /// Closes the batch in every tree; a tree whose log refuses the record
    /// still drops the batch's scratch.
    pub fn close(self, db: &mut Db)
        requires
            old(db).wf(),
        ensures
            final(db).wf(),
            final(db).inner_spec().commit_records() == old(db).inner_spec().commit_records(),
            final(db).inner_spec().view_limit() == old(db).inner_spec().view_limit(),
            final(db).inner_spec().trees().len() == old(db).inner_spec().trees().len(),
            forall|t: int| 0 <= t < old(db).inner_spec().trees().len() ==> {
                let t0 = old(db).inner_spec().trees()[t];
                let t1 = #[trigger] final(db).inner_spec().trees()[t];
                &&& t1.index_view() == t0.index_view()
                &&& t1.player() == without_batch(t0.player(), self.batch_spec().0)
                &&& t1.log_records() == if t0.log_writable() {
                    t0.log_records().push(Command::Close { batch: self.batch_spec() })
                } else {
                    t0.log_records()
                }
            },
    {
        let n = db.inner.tree_count();
        let mut t: usize = 0;
        while t < n
            invariant
                n == db.inner.trees().len(),
                n == old(db).inner_spec().trees().len(),
                t <= n,
                db.inner.wf(),
                db.inner.is_initialized(),
                db.inner.commit_records() == old(db).inner_spec().commit_records(),
                db.inner.view_limit() == old(db).inner_spec().view_limit(),
                forall|x: int| t <= x < n ==> #[trigger] db.inner.trees()[x] == old(db).inner_spec().trees()[x],
                forall|x: int| 0 <= x < t ==> {
                    let t0 = old(db).inner_spec().trees()[x];
                    let t1 = #[trigger] db.inner.trees()[x];
                    &&& t1.index_view() == t0.index_view()
                    &&& t1.player() == without_batch(t0.player(), self.batch_spec().0)
                    &&& t1.log_records() == if t0.log_writable() {
                        t0.log_records().push(Command::Close { batch: self.batch_spec() })
                    } else {
                        t0.log_records()
                    }
                },
            decreases n - t,
        {
            let ghost before = db.inner;
            let _ = self.inner.close_at(&mut db.inner, t);
            proof {
                assert forall|x: int| 0 <= x < db.inner.trees().len() && x != t implies
                    #[trigger] db.inner.trees()[x] == before.trees()[x] by {}
            }
            t = t + 1;
        }
    }
}

impl ReadView {
    pub closed spec fn limit_spec(&self) -> u64 {
        self.inner.commit_limit_spec().0
    }

    pub fn tree(&self, tree: &str) -> (r: ReadTree)
        ensures
            r.name_spec() == tree@,
    {
        ReadTree { tree: tree.to_owned() }
    }
}

impl WriteTree {
    pub closed spec fn name_spec(&self) -> Seq<char> {
        self.tree@
    }

    /// Writes `value` under `key` in this tree.
    pub fn write(&self, batch: &WriteBatch, db: &mut Db, key: &[u8], value: &[u8]) -> (r: Result<(), DbError>)
        requires
            old(db).wf(),
            old(db).inner_spec().has_tree(self.name_spec()),
        ensures
            final(db).wf(),
            bdb::same_but_tree(old(db).inner_spec(), final(db).inner_spec(), old(db).inner_spec().tree_pos(self.name_spec())),
            final(db).inner_spec().trees()[old(db).inner_spec().tree_pos(self.name_spec())].index_view()
                == old(db).inner_spec().tree_named(self.name_spec()).index_view(),
            r.is_ok() == old(db).inner_spec().tree_named(self.name_spec()).log_writable(),
            r.is_err() ==> final(db).inner_spec().trees()[old(db).inner_spec().tree_pos(self.name_spec())].log_records()
                == old(db).inner_spec().tree_named(self.name_spec()).log_records(),
            r.is_ok() ==> appended_record(
                old(db).inner_spec().tree_named(self.name_spec()).log_records(),
                final(db).inner_spec().trees()[old(db).inner_spec().tree_pos(self.name_spec())].log_records(),
                |c: Command| is_write_of(c, batch.batch_spec(), key@, value@),
            ),
    {
        let k = Key::new(slice_to_vec(key));
        let v = slice_to_vec(value);
        let ghost pos = db.inner.tree_pos(self.name_spec());
        let ghost before = db.inner.trees()[pos].log_records();
        let res = batch.inner.write(&mut db.inner, self.tree.as_str(), k, v);
        proof {
            let after = db.inner.trees()[pos].log_records();
            if res.is_ok() {
                assert(after.drop_last() =~= before);
                assert(after.last() == after[after.len() - 1]);
            }
        }
        res
    }

    /// Deletes `key` in this tree.
    pub fn delete(&self, batch: &WriteBatch, db: &mut Db, key: &[u8]) -> (r: Result<(), DbError>)
        requires
            old(db).wf(),
            old(db).inner_spec().has_tree(self.name_spec()),
        ensures
            final(db).wf(),
            bdb::same_but_tree(old(db).inner_spec(), final(db).inner_spec(), old(db).inner_spec().tree_pos(self.name_spec())),
            final(db).inner_spec().trees()[old(db).inner_spec().tree_pos(self.name_spec())].index_view()
                == old(db).inner_spec().tree_named(self.name_spec()).index_view(),
            r.is_ok() == old(db).inner_spec().tree_named(self.name_spec()).log_writable(),
            r.is_err() ==> final(db).inner_spec().trees()[old(db).inner_spec().tree_pos(self.name_spec())].log_records()
                == old(db).inner_spec().tree_named(self.name_spec()).log_records(),
            r.is_ok() ==> appended_record(
                old(db).inner_spec().tree_named(self.name_spec()).log_records(),
                final(db).inner_spec().trees()[old(db).inner_spec().tree_pos(self.name_spec())].log_records(),
                |c: Command| is_delete_of(c, batch.batch_spec(), key@),
            ),
    {
        let k = Key::new(slice_to_vec(key));
        let ghost pos = db.inner.tree_pos(self.name_spec());
        let ghost before = db.inner.trees()[pos].log_records();
        let res = batch.inner.delete(&mut db.inner, self.tree.as_str(), k);
        proof {
            let after = db.inner.trees()[pos].log_records();
            if res.is_ok() {
                assert(after.drop_last() =~= before);
                assert(after.last() == after[after.len() - 1]);
            }
        }
        res
    }

    /// Deletes every key in `[start_key, end_key)` in this tree.
    pub fn delete_range(&self, batch: &WriteBatch, db: &mut Db, start_key: &[u8], end_key: &[u8]) -> (r: Result<(), DbError>)
        requires
            old(db).wf(),
            old(db).inner_spec().has_tree(self.name_spec()),
        ensures
            final(db).wf(),
            bdb::same_but_tree(old(db).inner_spec(), final(db).inner_spec(), old(db).inner_spec().tree_pos(self.name_spec())),
            final(db).inner_spec().trees()[old(db).inner_spec().tree_pos(self.name_spec())].index_view()
                == old(db).inner_spec().tree_named(self.name_spec()).index_view(),
            r.is_ok() == old(db).inner_spec().tree_named(self.name_spec()).log_writable(),
            r.is_err() ==> final(db).inner_spec().trees()[old(db).inner_spec().tree_pos(self.name_spec())].log_records()
                == old(db).inner_spec().tree_named(self.name_spec()).log_records(),
            r.is_ok() ==> appended_record(
                old(db).inner_spec().tree_named(self.name_spec()).log_records(),
                final(db).inner_spec().trees()[old(db).inner_spec().tree_pos(self.name_spec())].log_records(),
                |c: Command| is_delete_range_of(c, batch.batch_spec(), start_key@, end_key@),
            ),
    {
        let s = Key::new(slice_to_vec(start_key));
        let e = Key::new(slice_to_vec(end_key));
        let ghost pos = db.inner.tree_pos(self.name_spec());
        let ghost before = db.inner.trees()[pos].log_records();
        let res = batch.inner.delete_range(&mut db.inner, self.tree.as_str(), s, e);
        proof {
            let after = db.inner.trees()[pos].log_records();
            if res.is_ok() {
                assert(after.drop_last() =~= before);
                assert(after.last() == after[after.len() - 1]);
            }
        }
        res
    }
}

impl ReadTree {
    pub closed spec fn name_spec(&self) -> Seq<char> {
        self.tree@
    }

    /// Reads `key` in this tree as of the view.
    pub fn read(&self, view: &ReadView, db: &Db, key: &[u8]) -> (r: Result<Option<Vec<u8>>, DbError>)
        requires
            db.wf(),
            db.inner_spec().has_tree(self.name_spec()),
        ensures
            r.is_ok(),
            opt_bytes(r.unwrap()) == read_spec(
                db.inner_spec().tree_named(self.name_spec()).index_view(),
                db.inner_spec().tree_named(self.name_spec()).log_records(),
                view.limit_spec(),
                key@,
            ),
    {
        let k = Key::new(slice_to_vec(key));
        view.inner.read(&db.inner, self.tree.as_str(), &k)
    }

    /// A cursor over this tree as of the view.
    pub fn cursor(&self, view: &ReadView, db: &Db) -> (r: Cursor)
        requires
            db.wf(),
            db.inner_spec().has_tree(self.name_spec()),
        ensures
            r.wf(),
            !r.is_valid(),
            r.inner_spec().tree_spec() == db.inner_spec().tree_pos(self.name_spec()),
            crate::index::snapshot_of(
                db.inner_spec().tree_named(self.name_spec()).index_view(),
                view.limit_spec(),
                r.inner_spec().entries(),
            ),
    {
        Cursor { inner: view.inner.cursor(&db.inner, self.tree.as_str()) }
    }
}

impl Cursor {
    pub closed spec fn inner_spec(&self) -> bdb::Cursor {
        self.inner
    }

    pub open spec fn wf(&self) -> bool {
        self.inner_spec().wf()
    }

    pub open spec fn is_valid(&self) -> bool {
        self.inner_spec().is_valid()
    }

    pub fn valid(&self) -> (r: bool)
        requires
            self.wf(),
        ensures
            r == self.is_valid(),
    {
        self.inner.valid()
    }

    pub fn next(&mut self)
        requires
            old(self).wf(),
        ensures
            final(self).wf(),
            final(self).inner_spec().entries() == old(self).inner_spec().entries(),
            final(self).inner_spec().tree_spec() == old(self).inner_spec().tree_spec(),
            final(self).inner_spec().position()
                == next_position(old(self).inner_spec().entries().len() as int, old(self).inner_spec().position()),
    {
        self.inner.next()
    }

    pub fn prev(&mut self)
        requires
            old(self).wf(),
        ensures
            final(self).wf(),
            final(self).inner_spec().entries() == old(self).inner_spec().entries(),
            final(self).inner_spec().tree_spec() == old(self).inner_spec().tree_spec(),
            final(self).inner_spec().position()
                == prev_position(old(self).inner_spec().entries().len() as int, old(self).inner_spec().position()),
    {
        self.inner.prev()
    }

    /// The key and value under the cursor.
    pub fn key_value(&self, db: &Db) -> (r: Result<(Vec<u8>, Vec<u8>), DbError>)
        requires
            self.wf(),
            self.is_valid(),
            db.wf(),
        ensures
            ({
                let e = self.inner_spec().entries()[self.inner_spec().position()];
                let t = self.inner_spec().tree_spec();
                let trees = db.inner_spec().trees();
                &&& t < trees.len() && e.1.0 < trees[t].log_records().len() && trees[t].log_records()[e.1.0 as int] is Write
                    ==> r.is_ok() && r.unwrap().0@ == e.0 && r.unwrap().1@ == value_at(trees[t].log_records(), e.1)
                &&& !(t < trees.len() && e.1.0 < trees[t].log_records().len() && trees[t].log_records()[e.1.0 as int] is Write)
                    ==> r == Err::<(Vec<u8>, Vec<u8>), DbError>(DbError::UnexpectedRecord)
            }),
    {
        let k = self.inner.key();
        if self.inner.tree_index() >= db.inner.tree_count() {
            return Err(DbError::UnexpectedRecord);
        }
        match self.inner.value(&db.inner) {
            Ok(v) => Ok((k.0, v)),
            Err(e) => Err(e),
        }
    }

    pub fn seek_first(&mut self)
        requires
            old(self).wf(),
        ensures
            final(self).wf(),
            final(self).inner_spec().entries() == old(self).inner_spec().entries(),
            final(self).inner_spec().tree_spec() == old(self).inner_spec().tree_spec(),
            final(self).inner_spec().position() == 0,
    {
        self.inner.seek_first()
    }

    pub fn seek_last(&mut self)
        requires
            old(self).wf(),
        ensures
            final(self).wf(),
            final(self).inner_spec().entries() == old(self).inner_spec().entries(),
            final(self).inner_spec().tree_spec() == old(self).inner_spec().tree_spec(),
            final(self).inner_spec().position() == last_position(old(self).inner_spec().entries().len() as int),
    {
        self.inner.seek_last()
    }

    /// Moves to the first key not below `key`.
    pub fn seek_key(&mut self, key: &[u8])
        requires
            old(self).wf(),
        ensures
            final(self).wf(),
            final(self).inner_spec().entries() == old(self).inner_spec().entries(),
            final(self).inner_spec().tree_spec() == old(self).inner_spec().tree_spec(),
            forall|j: int| 0 <= j < final(self).inner_spec().position()
                ==> key_lt(#[trigger] final(self).inner_spec().entries()[j].0, key@),
            final(self).is_valid() ==> key_le(key@, final(self).inner_spec().entries()[final(self).inner_spec().position()].0),
    {
        self.inner.seek_key(Key::new(slice_to_vec(key)))
    }

    /// Moves to the last key not above `key`; invalid if there is none.
    pub fn seek_key_rev(&mut self, key: &[u8])
        requires
            old(self).wf(),
        ensures
            final(self).wf(),
            final(self).inner_spec().entries() == old(self).inner_spec().entries(),
            final(self).inner_spec().tree_spec() == old(self).inner_spec().tree_spec(),
            final(self).is_valid() ==> key_le(final(self).inner_spec().entries()[final(self).inner_spec().position()].0, key@),
            !final(self).is_valid() ==> forall|j: int| 0 <= j < final(self).inner_spec().entries().len()
                ==> key_lt(key@, #[trigger] final(self).inner_spec().entries()[j].0),
    {
        self.inner.seek_key_rev(Key::new(slice_to_vec(key)))
    }
}

/// An owned copy of a byte slice.
fn slice_to_vec(s: &[u8]) -> (r: Vec<u8>)
    ensures
        r@ == s@,
{
    let mut out: Vec<u8> = Vec::new();
    let mut i: usize = 0;
    while i < s.len()
        invariant
            i <= s@.len(),
            out@ == s@.subrange(0, i as int),
        decreases s@.len() - i,
    {
        out.push(s[i]);
        i = i + 1;
        assert(out@ =~= s@.subrange(0, i as int));
    }
    assert(out@ =~= s@);
    out
}

} // verus!
