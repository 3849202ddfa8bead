use vstd::prelude::*;
use crate::batch_player::{ready_spec, replay_spec};
use crate::command::{Command, CommitRecord};
use crate::index::{self, History, map_before, map_below};
use crate::key::{Key, key_le, key_lt};
use crate::loader::{all_ready, commits_ok, entries_of_log, recovered};
use crate::log::Log;
use crate::tree::{self, Tree, apply_ops, appended, opt_bytes, read_spec};
use crate::types::{Batch, BatchCommit, Commit, DbError};

verus! {

/// The batch commit number a record names, if any.
pub open spec fn batch_commit_of(cmd: Command) -> Option<u64> {
    match cmd {
        Command::ReadyCommit { batch_commit, .. } => Some(batch_commit.0),
        Command::AbortCommit { batch_commit, .. } => Some(batch_commit.0),
        _ => None,
    }
}

/// A database of named trees sharing one commit log.
pub struct Db {
    initialized: bool,
    next_batch: u64,
    next_batch_commit: u64,
    next_commit: u64,
    view_commit_limit: u64,
    names: Vec<String>,
    trees: Vec<Tree>,
    commit_log: Log<CommitRecord>,
}

/// A write batch across all trees of a database.
pub struct BatchWriter {
    batch: Batch,
}

/// A snapshot of a database at one commit limit.
pub struct ViewReader {
    commit_limit: Commit,
}

/// A cursor over one tree of a view.
pub struct Cursor {
    tree: usize,
    tree_cursor: tree::Cursor,
}

/// The tree logs `logs` and master commits `cs` can be recovered: master
/// commits are ordered, no identifier is the reserved largest value, and every
/// tree declared each master commit ready.
pub open spec fn logs_recoverable(logs: Seq<Seq<Command>>, cs: Seq<CommitRecord>) -> bool {
    &&& commits_ok(cs)
    &&& forall|i: int| 0 <= i < cs.len() ==> (#[trigger] cs[i]).batch.0 < u64::MAX
        && cs[i].batch_commit.0 < u64::MAX && cs[i].commit.0 < u64::MAX
    &&& forall|t: int, i: int| 0 <= t < logs.len() && 0 <= i < logs[t].len()
        ==> (#[trigger] logs[t][i]).batch_of().0 < u64::MAX
            && match batch_commit_of(logs[t][i]) {
                Some(x) => x < u64::MAX,
                None => true,
            }
    &&& forall|t: int| 0 <= t < logs.len() ==> all_ready(entries_of_log(#[trigger] logs[t]), cs)
}

/// `d1` is `d0` with only the batch counter changed.
pub open spec fn same_but_batch(d0: Db, d1: Db) -> bool {
    &&& d1.is_initialized() == d0.is_initialized()
    &&& d1.next_batch_commit_spec() == d0.next_batch_commit_spec()
    &&& d1.next_commit_spec() == d0.next_commit_spec()
    &&& d1.view_limit() == d0.view_limit()
    &&& d1.names() == d0.names()
    &&& d1.trees() == d0.trees()
    &&& d1.commit_records() == d0.commit_records()
    &&& d1.commit_log_writable() == d0.commit_log_writable()
}

/// `d1` is `d0` with at most the tree at `pos` changed.
pub open spec fn same_but_tree(d0: Db, d1: Db, pos: int) -> bool {
    &&& d1.is_initialized() == d0.is_initialized()
    &&& d1.next_batch_spec() == d0.next_batch_spec()
    &&& d1.next_batch_commit_spec() == d0.next_batch_commit_spec()
    &&& d1.next_commit_spec() == d0.next_commit_spec()
    &&& d1.view_limit() == d0.view_limit()
    &&& d1.names() == d0.names()
    &&& d1.trees().len() == d0.trees().len()
    &&& forall|t: int| 0 <= t < d0.trees().len() && t != pos ==> #[trigger] d1.trees()[t] == d0.trees()[t]
    &&& d1.commit_records() == d0.commit_records()
    &&& d1.commit_log_writable() == d0.commit_log_writable()
}

/// The commit log already holds a master commit of batch `b`.
pub open spec fn committed_before(d: Db, b: Batch) -> bool {
    exists|i: int| 0 <= i < d.commit_records().len() && (#[trigger] d.commit_records()[i]).batch == b
}

/// Every tree allows batch `b` to commit as `bc`.
pub open spec fn all_trees_ready(d: Db, b: Batch, bc: BatchCommit) -> bool {
    forall|t: int| 0 <= t < d.trees().len() ==> ready_spec((#[trigger] d.trees()[t]).player(), b.0, bc.0)
}

/// `d1` is `d0` after batch `b` committed as `bc` at commit `c = d0.next_commit`:
/// the master record is appended, every index has the batch's replay applied at
/// `c`, and the view limit is `c + 1`.
pub open spec fn committed(d0: Db, d1: Db, b: Batch, bc: BatchCommit) -> bool {
    let c = d0.next_commit_spec();
    &&& d1.commit_records() == d0.commit_records().push(CommitRecord { batch: b, batch_commit: bc, commit: Commit(c) })
    &&& d1.next_commit_spec() == c + 1
    &&& d1.view_limit() == c + 1
    &&& d1.trees().len() == d0.trees().len()
    &&& forall|t: int| 0 <= t < d0.trees().len() ==> (#[trigger] d1.trees()[t]).index_view()
        == apply_ops(d0.trees()[t].index_view(), replay_spec(d0.trees()[t].player(), b.0, bc.0), c)
        && d1.trees()[t].log_records() == d0.trees()[t].log_records()
        && d1.trees()[t].log_writable() == d0.trees()[t].log_writable()
        && d1.trees()[t].player() == d0.trees()[t].player()
}

impl Db {
    pub closed spec fn is_initialized(&self) -> bool {
        self.initialized
    }

    pub closed spec fn next_batch_spec(&self) -> u64 {
        self.next_batch
    }

    pub closed spec fn next_batch_commit_spec(&self) -> u64 {
        self.next_batch_commit
    }

    pub closed spec fn next_commit_spec(&self) -> u64 {
        self.next_commit
    }

    pub closed spec fn view_limit(&self) -> u64 {
        self.view_commit_limit
    }

    pub closed spec fn names(&self) -> Seq<Seq<char>> {
        self.names@.map_values(|s: String| s@)
    }

    pub closed spec fn trees(&self) -> Seq<Tree> {
        self.trees@
    }

    pub closed spec fn commit_records(&self) -> Seq<CommitRecord> {
        self.commit_log.records()
    }

    pub closed spec fn commit_log_writable(&self) -> bool {
        self.commit_log.is_writable()
    }

    /// The database has a tree named `name`.
    pub open spec fn has_tree(&self, name: Seq<char>) -> bool {
        exists|i: int| 0 <= i < self.names().len() && self.names()[i] == name
    }

    /// The position of the tree named `name`.
    pub open spec fn tree_pos(&self, name: Seq<char>) -> int {
        choose|i: int| 0 <= i < self.names().len() && self.names()[i] == name
    }

    /// The tree named `name`.
    pub open spec fn tree_named(&self, name: Seq<char>) -> Tree {
        self.trees()[self.tree_pos(name)]
    }

    pub closed spec fn wf(&self) -> bool {
        &&& self.names@.len() == self.trees@.len()
        &&& forall|i: int, j: int| 0 <= i < j < self.names@.len() ==> self.names@[i]@ != self.names@[j]@
        &&& forall|i: int| 0 <= i < self.trees@.len() ==> (#[trigger] self.trees@[i]).wf()
        &&& self.initialized ==> self.initialized_wf()
        &&& !self.initialized ==> forall|i: int| 0 <= i < self.trees@.len() ==>
            (#[trigger] self.trees@[i]).index_view() == Map::<Seq<u8>, History>::empty()
            && self.trees@[i].player() == Seq::<crate::batch_player::EntryV>::empty()
    }

    /// Commit numbers are ordered and distinct, each batch commits once, and
    /// every version and master commit lies below the view limit.
    closed spec fn initialized_wf(&self) -> bool {
        &&& commits_ok(self.commit_log.records())
        &&& self.view_commit_limit <= self.next_commit
        &&& forall|i: int| 0 <= i < self.commit_log.records().len()
            ==> (#[trigger] self.commit_log.records()[i]).commit.0 < self.view_commit_limit
        &&& forall|i: int| 0 <= i < self.trees@.len() ==> map_before((#[trigger] self.trees@[i]).index_view(), self.view_commit_limit)
    }

    /// Every batch number in the logs lies below `n`.
    pub open spec fn batches_below(&self, n: u64) -> bool {
        &&& forall|i: int| 0 <= i < self.commit_records().len() ==> (#[trigger] self.commit_records()[i]).batch.0 < n
        &&& forall|t: int, i: int| 0 <= t < self.trees().len() && 0 <= i < self.trees()[t].log_records().len()
            ==> (#[trigger] self.trees()[t].log_records()[i]).batch_of().0 < n
    }

    /// Every batch commit number in the logs lies below `n`.
    pub open spec fn batch_commits_below(&self, n: u64) -> bool {
        &&& forall|i: int| 0 <= i < self.commit_records().len() ==> (#[trigger] self.commit_records()[i]).batch_commit.0 < n
        &&& forall|t: int, i: int| 0 <= t < self.trees().len() && 0 <= i < self.trees()[t].log_records().len()
            ==> match batch_commit_of(#[trigger] self.trees()[t].log_records()[i]) {
                Some(x) => x < n,
                None => true,
            }
    }

    /// Every commit number in the commit log lies below `n`.
    pub open spec fn commits_below(&self, n: u64) -> bool {
        forall|i: int| 0 <= i < self.commit_records().len() ==> (#[trigger] self.commit_records()[i]).commit.0 < n
    }

    /// The logs can be recovered: master commits are ordered, no identifier is
    /// the reserved largest value, and every tree declared each master commit ready.
    pub open spec fn recoverable(&self) -> bool {
        &&& commits_ok(self.commit_records())
        &&& self.batches_below(u64::MAX)
        &&& self.batch_commits_below(u64::MAX)
        &&& self.commits_below(u64::MAX)
        &&& forall|t: int| 0 <= t < self.trees().len()
            ==> all_ready(entries_of_log((#[trigger] self.trees()[t]).log_records()), self.commit_records())
    }

    pub proof fn lemma_recoverable_logs(&self, logs: Seq<Seq<Command>>)
        requires
            logs.len() == self.trees().len(),
            forall|t: int| 0 <= t < logs.len() ==> #[trigger] logs[t] == self.trees()[t].log_records(),
        ensures
            self.recoverable() == logs_recoverable(logs, self.commit_records()),
    {
        let cs = self.commit_records();
        if self.recoverable() {
            assert forall|t: int, i: int| 0 <= t < logs.len() && 0 <= i < logs[t].len()
                implies (#[trigger] logs[t][i]).batch_of().0 < u64::MAX
                    && match batch_commit_of(logs[t][i]) {
                        Some(x) => x < u64::MAX,
                        None => true,
                    } by {
                assert(logs[t] == self.trees()[t].log_records());
                assert(self.trees()[t].log_records()[i] == logs[t][i]);
            }
            assert forall|t: int| 0 <= t < logs.len() implies all_ready(entries_of_log(#[trigger] logs[t]), cs) by {
                assert(logs[t] == self.trees()[t].log_records());
            }
        }
        if logs_recoverable(logs, cs) {
            assert forall|t: int, i: int| 0 <= t < self.trees().len() && 0 <= i < self.trees()[t].log_records().len()
                implies (#[trigger] self.trees()[t].log_records()[i]).batch_of().0 < u64::MAX by {
                assert(logs[t] == self.trees()[t].log_records());
                assert(logs[t][i] == self.trees()[t].log_records()[i]);
            }
            assert forall|t: int, i: int| 0 <= t < self.trees().len() && 0 <= i < self.trees()[t].log_records().len()
                implies match batch_commit_of(#[trigger] self.trees()[t].log_records()[i]) {
                    Some(x) => x < u64::MAX,
                    None => true,
                } by {
                assert(logs[t] == self.trees()[t].log_records());
                assert(logs[t][i] == self.trees()[t].log_records()[i]);
            }
            assert forall|t: int| 0 <= t < self.trees().len()
                implies all_ready(entries_of_log((#[trigger] self.trees()[t]).log_records()), cs) by {
                assert(logs[t] == self.trees()[t].log_records());
            }
        }
    }

    /// Batch number `x` occurs in a log.
    pub open spec fn batch_seen(&self, x: u64) -> bool {
        ||| exists|i: int| 0 <= i < self.commit_records().len() && (#[trigger] self.commit_records()[i]).batch.0 == x
        ||| exists|t: int, i: int| 0 <= t < self.trees().len() && 0 <= i < self.trees()[t].log_records().len()
            && (#[trigger] self.trees()[t].log_records()[i]).batch_of().0 == x
    }

    /// Batch commit number `x` occurs in a log.
    pub open spec fn batch_commit_seen(&self, x: u64) -> bool {
        ||| exists|i: int| 0 <= i < self.commit_records().len() && (#[trigger] self.commit_records()[i]).batch_commit.0 == x
        ||| exists|t: int, i: int| 0 <= t < self.trees().len() && 0 <= i < self.trees()[t].log_records().len()
            && batch_commit_of(#[trigger] self.trees()[t].log_records()[i]) == Some(x)
    }

    /// Scans the logs for the smallest batch and batch commit numbers above all in use.
    ///
    /// The tree logs are scanned as well as the commit log: a batch that
    /// crashed before its master commit has still used its numbers, and
    /// handing them out again would mix its records with a new batch's.
    fn scan_ids(&self) -> (r: Result<(u64, u64), DbError>)
        ensures
            r.is_ok() == (self.batches_below(u64::MAX) && self.batch_commits_below(u64::MAX)),
            r.is_err() ==> r == Err::<(u64, u64), DbError>(DbError::CorruptLog),
            r.is_ok() ==> self.batches_below(r.unwrap().0) && (r.unwrap().0 == 0 || self.batch_seen((r.unwrap().0 - 1) as u64)),
            r.is_ok() ==> self.batch_commits_below(r.unwrap().1) && (r.unwrap().1 == 0 || self.batch_commit_seen((r.unwrap().1 - 1) as u64)),
    {
        let mut nb: u64 = 0;
        let mut nbc: u64 = 0;
        let n = self.commit_log.len();
        let mut i: usize = 0;
        while i < n
            invariant
                n == self.commit_records().len(),
                i <= n,
                forall|x: int| 0 <= x < i ==> (#[trigger] self.commit_records()[x]).batch.0 < nb,
                forall|x: int| 0 <= x < i ==> (#[trigger] self.commit_records()[x]).batch_commit.0 < nbc,
                forall|x: int| 0 <= x < i ==> (#[trigger] self.commit_records()[x]).batch.0 < u64::MAX,
                forall|x: int| 0 <= x < i ==> (#[trigger] self.commit_records()[x]).batch_commit.0 < u64::MAX,
                nb == 0 || self.batch_seen((nb - 1) as u64),
                nbc == 0 || self.batch_commit_seen((nbc - 1) as u64),
            decreases n - i,
        {
            let d = *self.commit_log.read_at(crate::types::Address(i)).unwrap();
            if d.batch.0 == u64::MAX || d.batch_commit.0 == u64::MAX {
                return Err(DbError::CorruptLog);
            }
            if d.batch.0 >= nb {
                nb = d.batch.0 + 1;
            }
            if d.batch_commit.0 >= nbc {
                nbc = d.batch_commit.0 + 1;
            }
            i = i + 1;
        }
        let mut t: usize = 0;
        while t < self.trees.len()
            invariant
                t <= self.trees@.len(),
                forall|x: int| 0 <= x < self.commit_records().len() ==> (#[trigger] self.commit_records()[x]).batch.0 < nb,
                forall|x: int| 0 <= x < self.commit_records().len() ==> (#[trigger] self.commit_records()[x]).batch_commit.0 < nbc,
                forall|tt: int, x: int| 0 <= tt < t && 0 <= x < self.trees()[tt].log_records().len()
                    ==> (#[trigger] self.trees()[tt].log_records()[x]).batch_of().0 < nb,
                forall|tt: int, x: int| 0 <= tt < t && 0 <= x < self.trees()[tt].log_records().len()
                    ==> match batch_commit_of(#[trigger] self.trees()[tt].log_records()[x]) {
                        Some(y) => y < nbc,
                        None => true,
                    },
                nb == 0 || self.batch_seen((nb - 1) as u64),
                nbc == 0 || self.batch_commit_seen((nbc - 1) as u64),
            decreases self.trees@.len() - t,
        {
            let tree = &self.trees[t];
            let m = tree.log_len();
            let mut i: usize = 0;
            while i < m
                invariant
                    t < self.trees@.len(),
                    *tree == self.trees()[t as int],
                    m == tree.log_records().len(),
                    i <= m,
                    forall|x: int| 0 <= x < self.commit_records().len() ==> (#[trigger] self.commit_records()[x]).batch.0 < nb,
                    forall|x: int| 0 <= x < self.commit_records().len() ==> (#[trigger] self.commit_records()[x]).batch_commit.0 < nbc,
                    forall|tt: int, x: int| 0 <= tt < t && 0 <= x < self.trees()[tt].log_records().len()
                        ==> (#[trigger] self.trees()[tt].log_records()[x]).batch_of().0 < nb,
                    forall|tt: int, x: int| 0 <= tt < t && 0 <= x < self.trees()[tt].log_records().len()
                        ==> match batch_commit_of(#[trigger] self.trees()[tt].log_records()[x]) {
                            Some(y) => y < nbc,
                            None => true,
                        },
                    forall|x: int| 0 <= x < i ==> (#[trigger] tree.log_records()[x]).batch_of().0 < nb,
                    forall|x: int| 0 <= x < i ==> match batch_commit_of(#[trigger] tree.log_records()[x]) {
                        Some(y) => y < nbc,
                        None => true,
                    },
                    nb == 0 || self.batch_seen((nb - 1) as u64),
                    nbc == 0 || self.batch_commit_seen((nbc - 1) as u64),
                decreases m - i,
            {
                let rec = tree.record_at(i);
                let b = rec.batch();
                if b.0 == u64::MAX {
                    assert(!self.batches_below(u64::MAX)) by {
                        assert(self.trees()[t as int].log_records()[i as int].batch_of().0 == b.0);
                    }
                    return Err(DbError::CorruptLog);
                }
                if b.0 >= nb {
                    nb = b.0 + 1;
                    assert(self.trees()[t as int].log_records()[i as int].batch_of().0 == b.0);
                }
                let bc = match rec {
                    Command::ReadyCommit { batch_commit, .. } => Some(*batch_commit),
                    Command::AbortCommit { batch_commit, .. } => Some(*batch_commit),
                    _ => None,
                };
                if let Some(bc) = bc {
                    assert(batch_commit_of(self.trees()[t as int].log_records()[i as int]) == Some(bc.0));
                    if bc.0 == u64::MAX {
                        assert(!self.batch_commits_below(u64::MAX));
                        return Err(DbError::CorruptLog);
                    }
                    if bc.0 >= nbc {
                        nbc = bc.0 + 1;
                    }
                }
                i = i + 1;
            }
            t = t + 1;
        }
        Ok((nb, nbc))
    }

    /// A database over the given tree logs and commit log; `init` must run before use.
    pub fn new(tree_logs: Vec<(String, Log<Command>)>, commit_log: Log<CommitRecord>) -> (r: Db)
        requires
            forall|i: int, j: int| 0 <= i < j < tree_logs@.len() ==> tree_logs@[i].0@ != tree_logs@[j].0@,
        ensures
            r.wf(),
            !r.is_initialized(),
            r.names() == tree_logs@.map_values(|e: (String, Log<Command>)| e.0@),
            r.trees().len() == tree_logs@.len(),
            forall|i: int| 0 <= i < tree_logs@.len() ==> (#[trigger] r.trees()[i]).log_records() == tree_logs@[i].1.records()
                && r.trees()[i].log_writable() == tree_logs@[i].1.is_writable(),
            r.commit_records() == commit_log.records(),
            r.commit_log_writable() == commit_log.is_writable(),
            r.next_batch_spec() == 0,
            r.next_batch_commit_spec() == 0,
            r.next_commit_spec() == 0,
            r.view_limit() == 0,
            forall|i: int| 0 <= i < tree_logs@.len() ==> (#[trigger] r.trees()[i]).index_view() == Map::<Seq<u8>, History>::empty()
                && r.trees()[i].player() == Seq::<crate::batch_player::EntryV>::empty(),
    {
        let ghost orig = tree_logs@;
        let mut rest = tree_logs;
        let mut names: Vec<String> = Vec::new();
        let mut trees: Vec<Tree> = Vec::new();
        while rest.len() > 0
            invariant
                names@.len() == trees@.len(),
                names@.len() + rest@.len() == orig.len(),
                forall|i: int| 0 <= i < rest@.len() ==> #[trigger] rest@[i] == orig[names@.len() + i],
                forall|i: int| 0 <= i < names@.len() ==> #[trigger] names@[i]@ == orig[i].0@,
                forall|i: int| 0 <= i < trees@.len() ==> (#[trigger] trees@[i]).wf()
                    && trees@[i].log_records() == orig[i].1.records()
                    && trees@[i].log_writable() == orig[i].1.is_writable()
                    && trees@[i].index_view() == Map::<Seq<u8>, History>::empty()
                    && trees@[i].player() == Seq::<crate::batch_player::EntryV>::empty(),
            decreases rest@.len(),
        {
            let (name, log) = rest.remove(0);
            names.push(name);
            trees.push(Tree::new(log));
        }
        let r = Db {
            initialized: false,
            next_batch: 0,
            next_batch_commit: 0,
            next_commit: 0,
            view_commit_limit: 0,
            names,
            trees,
            commit_log,
        };
        assert(r.names() =~= orig.map_values(|e: (String, Log<Command>)| e.0@));
        assert forall|i: int, j: int| 0 <= i < j < r.names@.len() implies r.names@[i]@ != r.names@[j]@ by {
            assert(r.names@[i]@ == orig[i].0@);
            assert(r.names@[j]@ == orig[j].0@);
        }
        r
    }

    /// Checks that master commits are strictly ordered, each batch commits once,
    /// and no commit number is the reserved largest value.
    fn check_commits(&self) -> (r: bool)
        ensures
            r == (commits_ok(self.commit_records()) && self.commits_below(u64::MAX)),
    {
        let cs = self.commit_log.records_vec();
        let mut i: usize = 0;
        while i < cs.len()
            invariant
                cs@ == self.commit_records(),
                i <= cs@.len(),
                commits_ok(cs@.take(i as int)),
                forall|x: int| 0 <= x < i ==> (#[trigger] cs@[x]).commit.0 < u64::MAX,
            decreases cs@.len() - i,
        {
            if cs[i].commit.0 == u64::MAX {
                assert(!self.commits_below(u64::MAX)) by {
                    assert(self.commit_records()[i as int].commit.0 == u64::MAX);
                }
                return false;
            }
            if i > 0 && cs[i - 1].commit.0 >= cs[i].commit.0 {
                assert(!commits_ok(cs@)) by {
                    assert(cs@[i - 1].commit.0 >= cs@[i as int].commit.0);
                }
                return false;
            }
            let mut x: usize = 0;
            while x < i
                invariant
                    cs@ == self.commit_records(),
                    x <= i < cs@.len(),
                    forall|y: int| 0 <= y < x ==> (#[trigger] cs@[y]).batch != cs@[i as int].batch,
                decreases i - x,
            {
                if cs[x].batch.0 == cs[i].batch.0 {
                    assert(!commits_ok(cs@)) by {
                        assert(cs@[x as int].batch == cs@[i as int].batch);
                    }
                    return false;
                }
                x = x + 1;
            }
            proof {
                let p = cs@.take(i + 1);
                assert forall|a: int, b: int| 0 <= a < b < p.len() implies p[a].commit.0 < p[b].commit.0 && p[a].batch != p[b].batch by {
                    if b == i {
                        if a < i - 1 {
                            assert(cs@.take(i as int)[a] == cs@[a]);
                            assert(cs@.take(i as int)[i - 1] == cs@[i - 1]);
                        }
                    } else {
                        assert(cs@.take(i as int)[a] == cs@[a]);
                        assert(cs@.take(i as int)[b] == cs@[b]);
                    }
                }
            }
            i = i + 1;
        }
        assert(cs@.take(i as int) =~= cs@);
        true
    }

    /// Forgets every tree's index and scratch.
    fn clear_trees(&mut self)
        requires
            forall|x: int| 0 <= x < old(self).trees@.len() ==> (#[trigger] old(self).trees@[x]).wf(),
        ensures
            final(self).trees@.len() == old(self).trees@.len(),
            final(self).names == old(self).names,
            final(self).commit_log == old(self).commit_log,
            final(self).initialized == old(self).initialized,
            final(self).next_batch == old(self).next_batch,
            final(self).next_batch_commit == old(self).next_batch_commit,
            final(self).next_commit == old(self).next_commit,
            final(self).view_commit_limit == old(self).view_commit_limit,
            forall|x: int| 0 <= x < final(self).trees@.len() ==> (#[trigger] final(self).trees@[x]).wf()
                && final(self).trees@[x].log_records() == old(self).trees@[x].log_records()
                && final(self).trees@[x].log_writable() == old(self).trees@[x].log_writable()
                && final(self).trees@[x].index_view() == Map::<Seq<u8>, History>::empty()
                && final(self).trees@[x].player() == Seq::<crate::batch_player::EntryV>::empty(),
    {
        let mut t: usize = 0;
        while t < self.trees.len()
            invariant
                t <= self.trees@.len(),
                self.trees@.len() == old(self).trees@.len(),
                self.names == old(self).names,
                self.commit_log == old(self).commit_log,
                self.initialized == old(self).initialized,
                self.next_batch == old(self).next_batch,
                self.next_batch_commit == old(self).next_batch_commit,
                self.next_commit == old(self).next_commit,
                self.view_commit_limit == old(self).view_commit_limit,
                forall|x: int| t <= x < self.trees@.len() ==> (#[trigger] self.trees@[x]) == old(self).trees@[x],
                forall|x: int| 0 <= x < old(self).trees@.len() ==> (#[trigger] old(self).trees@[x]).wf(),
                forall|x: int| 0 <= x < t ==> (#[trigger] self.trees@[x]).wf()
                    && self.trees@[x].log_records() == old(self).trees@[x].log_records()
                    && self.trees@[x].log_writable() == old(self).trees@[x].log_writable()
                    && self.trees@[x].index_view() == Map::<Seq<u8>, History>::empty()
                    && self.trees@[x].player() == Seq::<crate::batch_player::EntryV>::empty(),
            decreases self.trees@.len() - t,
        {
            self.trees[t].clear();
            t = t + 1;
        }
    }

    /// Recovers every tree from the logs and seeds the counters.
    pub fn init(&mut self) -> (r: Result<(), DbError>)
        requires
            old(self).wf(),
            !old(self).is_initialized(),
        ensures
            final(self).wf(),
            r.is_ok() == old(self).recoverable(),
            r.is_err() ==> r == Err::<(), DbError>(DbError::CorruptLog) && !final(self).is_initialized(),
            final(self).names() == old(self).names(),
            final(self).commit_records() == old(self).commit_records(),
            final(self).commit_log_writable() == old(self).commit_log_writable(),
            final(self).trees().len() == old(self).trees().len(),
            forall|t: int| 0 <= t < old(self).trees().len() ==>
                (#[trigger] final(self).trees()[t]).log_records() == old(self).trees()[t].log_records()
                && final(self).trees()[t].log_writable() == old(self).trees()[t].log_writable()
                && final(self).trees()[t].player() == Seq::<crate::batch_player::EntryV>::empty(),
            r.is_ok() ==> final(self).is_initialized()
                && final(self).next_commit_spec() == (if old(self).commit_records().len() == 0 { 0 } else {
                    old(self).commit_records().last().commit.0 + 1
                })
                && final(self).view_limit() == final(self).next_commit_spec()
                && old(self).batches_below(final(self).next_batch_spec())
                && (final(self).next_batch_spec() == 0 || old(self).batch_seen((final(self).next_batch_spec() - 1) as u64))
                && old(self).batch_commits_below(final(self).next_batch_commit_spec())
                && (final(self).next_batch_commit_spec() == 0
                    || old(self).batch_commit_seen((final(self).next_batch_commit_spec() - 1) as u64))
                && forall|t: int| 0 <= t < old(self).trees().len() ==> (#[trigger] final(self).trees()[t]).index_view()
                    == recovered(entries_of_log(old(self).trees()[t].log_records()), old(self).commit_records()),
    {
        let ghost prev = *self;
        if !self.check_commits() {
            return Err(DbError::CorruptLog);
        }
        let ids = self.scan_ids();
        let (nb, nbc) = match ids {
            Ok(p) => p,
            Err(e) => {
                return Err(e);
            },
        };
        let mut t: usize = 0;
        while t < self.trees.len()
            invariant
                prev.wf(),
                prev == *old(self),
                !prev.initialized,
                !self.initialized,
                self.names == prev.names,
                self.commit_log == prev.commit_log,
                self.trees@.len() == prev.trees@.len(),
                commits_ok(self.commit_records()),
                t <= self.trees@.len(),
                forall|x: int| 0 <= x < self.trees@.len() ==> (#[trigger] self.trees@[x]).wf()
                    && self.trees@[x].log_records() == prev.trees@[x].log_records()
                    && self.trees@[x].log_writable() == prev.trees@[x].log_writable(),
                forall|x: int| t <= x < self.trees@.len() ==> (#[trigger] self.trees@[x]) == prev.trees@[x],
                forall|x: int| 0 <= x < t ==> (#[trigger] self.trees@[x]).index_view()
                    == recovered(entries_of_log(prev.trees@[x].log_records()), prev.commit_records())
                    && self.trees@[x].player() == Seq::<crate::batch_player::EntryV>::empty()
                    && (prev.commit_records().len() > 0 ==> map_below(self.trees@[x].index_view(), prev.commit_records().last().commit.0)),
                forall|x: int| 0 <= x < t ==> all_ready(entries_of_log((#[trigger] prev.trees@[x]).log_records()), prev.commit_records()),
            decreases self.trees@.len() - t,
        {
            assert(self.trees@[t as int] == prev.trees@[t as int]);
            assert(prev.trees@[t as int].index_view() == Map::<Seq<u8>, History>::empty());
            assert(prev.trees@[t as int].wf());
            let res = self.trees[t].recover(self.commit_log.records_vec());
            if res.is_err() {
                assert(!all_ready(entries_of_log(prev.trees()[t as int].log_records()), prev.commit_records()));
                assert(!prev.recoverable());
                self.clear_trees();
                return Err(DbError::CorruptLog);
            }
            t = t + 1;
        }
        let nc: u64 = match self.commit_log.records_vec().last() {
            Some(d) => d.commit.0 + 1,
            None => 0,
        };
        self.next_batch = nb;
        self.next_batch_commit = nbc;
        self.next_commit = nc;
        self.view_commit_limit = nc;
        self.initialized = true;
        Ok(())
    }

    /// The position of the tree named `name`.
    fn tree_index(&self, name: &str) -> (r: usize)
        requires
            self.wf(),
            self.has_tree(name@),
        ensures
            r == self.tree_pos(name@),
            r < self.trees@.len(),
    {
        let wanted = name.to_owned();
        let mut i: usize = 0;
        while i < self.names.len()
            invariant
                self.wf(),
                self.has_tree(name@),
                wanted@ == name@,
                i <= self.names@.len(),
                forall|x: int| 0 <= x < i ==> (#[trigger] self.names@[x])@ != name@,
            decreases self.names@.len() - i,
        {
            if self.names[i] == wanted {
                proof {
                    let j = self.tree_pos(name@);
                    assert(self.names()[i as int] == name@);
                    assert(self.names()[j] == name@);
                    assert(self.names@[j]@ == name@);
                    if j != i {
                        if j < i {
                            assert(self.names@[j]@ != self.names@[i as int]@);
                        } else {
                            assert(self.names@[i as int]@ != self.names@[j]@);
                        }
                    }
                }
                return i;
            }
            i = i + 1;
        }
        proof {
            let j = self.tree_pos(name@);
            assert(self.names()[j] == name@);
            assert(self.names@[j]@ == name@);
        }
        0
    }

    /// Allocates a fresh batch and returns a writer for it.
    pub fn batch(&mut self) -> (r: Result<BatchWriter, DbError>)
        requires
            old(self).wf(),
            old(self).is_initialized(),
        ensures
            final(self).wf(),
            old(self).next_batch_spec() == u64::MAX ==> r == Err::<BatchWriter, DbError>(DbError::Overflow) && *final(self) == *old(self),
            old(self).next_batch_spec() < u64::MAX ==> r.is_ok() && r.unwrap().number_spec().0 == old(self).next_batch_spec()
                && final(self).next_batch_spec() == old(self).next_batch_spec() + 1
                && same_but_batch(*old(self), *final(self)),
    {
        if self.next_batch == u64::MAX {
            return Err(DbError::Overflow);
        }
        let batch = Batch(self.next_batch);
        self.next_batch = self.next_batch + 1;
        Ok(BatchWriter { batch })
    }

    /// A view pinned at the current view commit limit.
    pub fn view(&self) -> (r: ViewReader)
        requires
            self.wf(),
            self.is_initialized(),
        ensures
            r.commit_limit_spec().0 == self.view_limit(),
    {
        ViewReader { commit_limit: Commit(self.view_commit_limit) }
    }

    /// Flushes every tree's log, stopping at the first failure.
    pub fn sync(&self) -> (r: Result<(), DbError>)
        requires
            self.wf(),
        ensures
            r.is_ok() == forall|t: int| 0 <= t < self.trees().len() ==> (#[trigger] self.trees()[t]).log_writable(),
            r.is_err() ==> r == Err::<(), DbError>(DbError::LogIo),
    {
        let mut t: usize = 0;
        while t < self.trees.len()
            invariant
                t <= self.trees@.len(),
                forall|x: int| 0 <= x < t ==> (#[trigger] self.trees()[x]).log_writable(),
            decreases self.trees@.len() - t,
        {
            let res = self.trees[t].sync();
            if res.is_err() {
                assert(!self.trees()[t as int].log_writable());
                return res;
            }
            t = t + 1;
        }
        Ok(())
    }

    pub fn tree_count(&self) -> (r: usize)
        requires
            self.wf(),
        ensures
            r == self.trees().len(),
    {
        self.trees.len()
    }

    pub fn next_batch(&self) -> (r: u64)
        ensures
            r == self.next_batch_spec(),
    {
        self.next_batch
    }

    pub fn next_batch_commit(&self) -> (r: u64)
        ensures
            r == self.next_batch_commit_spec(),
    {
        self.next_batch_commit
    }

    pub fn next_commit(&self) -> (r: u64)
        ensures
            r == self.next_commit_spec(),
    {
        self.next_commit
    }

    pub fn view_commit_limit(&self) -> (r: u64)
        ensures
            r == self.view_limit(),
    {
        self.view_commit_limit
    }

    /// Makes the commit log accept or refuse appends.
    pub fn set_commit_log_writable(&mut self, writable: bool)
        requires
            old(self).wf(),
        ensures
            final(self).wf(),
            final(self).commit_log_writable() == writable,
            final(self).commit_records() == old(self).commit_records(),
            final(self).trees() == old(self).trees(),
            final(self).names() == old(self).names(),
            final(self).is_initialized() == old(self).is_initialized(),
            final(self).next_batch_spec() == old(self).next_batch_spec(),
            final(self).next_batch_commit_spec() == old(self).next_batch_commit_spec(),
            final(self).next_commit_spec() == old(self).next_commit_spec(),
            final(self).view_limit() == old(self).view_limit(),
    {
        self.commit_log.set_writable(writable);
    }

    /// Makes the log of tree `tree` accept or refuse appends.
    pub fn set_tree_log_writable(&mut self, tree: &str, writable: bool)
        requires
            old(self).wf(),
            old(self).has_tree(tree@),
        ensures
            final(self).wf(),
            same_but_tree(*old(self), *final(self), old(self).tree_pos(tree@)),
            final(self).trees()[old(self).tree_pos(tree@)].log_writable() == writable,
            final(self).trees()[old(self).tree_pos(tree@)].log_records() == old(self).trees()[old(self).tree_pos(tree@)].log_records(),
            final(self).trees()[old(self).tree_pos(tree@)].player() == old(self).trees()[old(self).tree_pos(tree@)].player(),
            final(self).trees()[old(self).tree_pos(tree@)].index_view() == old(self).trees()[old(self).tree_pos(tree@)].index_view(),
    {
        let t = self.tree_index(tree);
        self.trees[t].set_writable(writable);
        proof {
            assert(self.names() == old(self).names());
        }
    }

    /// Takes the database apart into its logs, as a restart would find them.
    pub fn into_logs(self) -> (r: (Vec<(String, Log<Command>)>, Log<CommitRecord>))
        requires
            self.wf(),
        ensures
            r.0@.len() == self.trees().len(),
            r.0@.map_values(|e: (String, Log<Command>)| e.0@) == self.names(),
            forall|i: int| 0 <= i < r.0@.len() ==> (#[trigger] r.0@[i]).1.records() == self.trees()[i].log_records()
                && r.0@[i].1.is_writable() == self.trees()[i].log_writable(),
            r.1.records() == self.commit_records(),
            r.1.is_writable() == self.commit_log_writable(),
    {
        let ghost names0 = self.names@;
        let ghost trees0 = self.trees@;
        let Db { names, trees, commit_log, .. } = self;
        let mut names = names;
        let mut trees = trees;
        let mut out: Vec<(String, Log<Command>)> = Vec::new();
        while names.len() > 0
            invariant
                names@.len() == trees@.len(),
                out@.len() + names@.len() == names0.len(),
                names0.len() == trees0.len(),
                forall|i: int| 0 <= i < names@.len() ==> #[trigger] names@[i] == names0[out@.len() + i],
                forall|i: int| 0 <= i < trees@.len() ==> #[trigger] trees@[i] == trees0[out@.len() + i],
                forall|i: int| 0 <= i < out@.len() ==> (#[trigger] out@[i]).0@ == names0[i]@
                    && out@[i].1.records() == trees0[i].log_records()
                    && out@[i].1.is_writable() == trees0[i].log_writable(),
            decreases names@.len(),
        {
            let name = names.remove(0);
            let tree = trees.remove(0);
            out.push((name, tree.into_log()));
        }
        assert(out@.map_values(|e: (String, Log<Command>)| e.0@) =~= names0.map_values(|s: String| s@));
        (out, commit_log)
    }

    /// Every history of every index is in strictly increasing commit order, and
    /// every version lies below the view limit, itself no later than the next
    /// commit number; a commit, which uses the next commit number, therefore
    /// adds versions above all existing ones.
    pub proof fn lemma_versions_below_limit(&self)
        requires
            self.wf(),
            self.is_initialized(),
        ensures
            self.view_limit() <= self.next_commit_spec(),
            forall|t: int, k: Seq<u8>, i: int| 0 <= t < self.trees().len() && self.trees()[t].index_view().contains_key(k)
                && 0 <= i < self.trees()[t].index_view()[k].len()
                ==> (#[trigger] self.trees()[t].index_view()[k][i]).0 < self.view_limit(),
            forall|t: int, k: Seq<u8>| 0 <= t < self.trees().len() && self.trees()[t].index_view().contains_key(k)
                ==> index::history_increasing(#[trigger] self.trees()[t].index_view()[k]),
    {
        assert forall|t: int, k: Seq<u8>| 0 <= t < self.trees().len() && self.trees()[t].index_view().contains_key(k)
            implies index::history_increasing(#[trigger] self.trees()[t].index_view()[k]) by {
            self.trees()[t].lemma_histories_increasing();
        }
        assert forall|t: int, k: Seq<u8>, i: int| 0 <= t < self.trees().len() && self.trees()[t].index_view().contains_key(k)
            && 0 <= i < self.trees()[t].index_view()[k].len()
            implies (#[trigger] self.trees()[t].index_view()[k][i]).0 < self.view_limit() by {
            assert(map_before(self.trees@[t].index_view(), self.view_commit_limit));
        }
    }

    /// Commit numbers of master commits are distinct, in the order of the
    /// commit log, and lie below the view limit; no batch commits twice.
    pub proof fn lemma_commits_unique(&self)
        requires
            self.wf(),
            self.is_initialized(),
        ensures
            forall|i: int, j: int| 0 <= i < j < self.commit_records().len() ==>
                self.commit_records()[i].commit.0 < self.commit_records()[j].commit.0
                && self.commit_records()[i].batch != self.commit_records()[j].batch,
            forall|i: int| 0 <= i < self.commit_records().len() ==> (#[trigger] self.commit_records()[i]).commit.0 < self.view_limit(),
            self.view_limit() <= self.next_commit_spec(),
    {
    }
}

impl BatchWriter {
    pub closed spec fn number_spec(&self) -> Batch {
        self.batch
    }

    pub fn number(&self) -> (r: Batch)
        ensures
            r == self.number_spec(),
    {
        self.batch
    }

    /// Opens the batch in tree `tree`.
    pub fn open(&self, db: &mut Db, tree: &str) -> (r: Result<(), DbError>)
        requires
            old(db).wf(),
            old(db).is_initialized(),
            old(db).has_tree(tree@),
        ensures
            final(db).wf(),
            same_but_tree(*old(db), *final(db), old(db).tree_pos(tree@)),
            appended(old(db).tree_named(tree@), final(db).trees()[old(db).tree_pos(tree@)], Command::Open { batch: self.number_spec() }, r),
    {
        let t = db.tree_index(tree);
        let res = db.trees[t].open(self.batch);
        proof {
            assert(db.names() == old(db).names());
        }
        res
    }

    /// Writes `value` under `key` in tree `tree`.
    pub fn write(&self, db: &mut Db, tree: &str, key: Key, value: Vec<u8>) -> (r: Result<(), DbError>)
        requires
            old(db).wf(),
            old(db).is_initialized(),
            old(db).has_tree(tree@),
        ensures
            final(db).wf(),
            same_but_tree(*old(db), *final(db), old(db).tree_pos(tree@)),
            appended(old(db).tree_named(tree@), final(db).trees()[old(db).tree_pos(tree@)], Command::Write { batch: self.number_spec(), key, value }, r),
    {
        let t = db.tree_index(tree);
        let res = db.trees[t].write(self.batch, key, value);
        proof {
            assert(db.names() == old(db).names());
        }
        res
    }

    /// Deletes `key` in tree `tree`.
    pub fn delete(&self, db: &mut Db, tree: &str, key: Key) -> (r: Result<(), DbError>)
        requires
            old(db).wf(),
            old(db).is_initialized(),
            old(db).has_tree(tree@),
        ensures
            final(db).wf(),
            same_but_tree(*old(db), *final(db), old(db).tree_pos(tree@)),
            appended(old(db).tree_named(tree@), final(db).trees()[old(db).tree_pos(tree@)], Command::Delete { batch: self.number_spec(), key }, r),
    {
        let t = db.tree_index(tree);
        let res = db.trees[t].delete(self.batch, key);
        proof {
            assert(db.names() == old(db).names());
        }
        res
    }

    /// Deletes every key in `[start_key, end_key)` in tree `tree`.
    pub fn delete_range(&self, db: &mut Db, tree: &str, start_key: Key, end_key: Key) -> (r: Result<(), DbError>)
        requires
            old(db).wf(),
            old(db).is_initialized(),
            old(db).has_tree(tree@),
        ensures
            final(db).wf(),
            same_but_tree(*old(db), *final(db), old(db).tree_pos(tree@)),
            appended(old(db).tree_named(tree@), final(db).trees()[old(db).tree_pos(tree@)], Command::DeleteRange { batch: self.number_spec(), start_key, end_key }, r),
    {
        let t = db.tree_index(tree);
        let res = db.trees[t].delete_range(self.batch, start_key, end_key);
        proof {
            assert(db.names() == old(db).names());
        }
        res
    }

    /// Opens a save-point frame in tree `tree`.
    pub fn push_save_point(&self, db: &mut Db, tree: &str) -> (r: Result<(), DbError>)
        requires
            old(db).wf(),
            old(db).is_initialized(),
            old(db).has_tree(tree@),
        ensures
            final(db).wf(),
            same_but_tree(*old(db), *final(db), old(db).tree_pos(tree@)),
            appended(old(db).tree_named(tree@), final(db).trees()[old(db).tree_pos(tree@)], Command::PushSavePoint { batch: self.number_spec() }, r),
    {
        let t = db.tree_index(tree);
        let res = db.trees[t].push_save_point(self.batch);
        proof {
            assert(db.names() == old(db).names());
        }
        res
    }

    /// Closes the innermost save-point frame in tree `tree`, keeping its changes.
    pub fn pop_save_point(&self, db: &mut Db, tree: &str) -> (r: Result<(), DbError>)
        requires
            old(db).wf(),
            old(db).is_initialized(),
            old(db).has_tree(tree@),
        ensures
            final(db).wf(),
            same_but_tree(*old(db), *final(db), old(db).tree_pos(tree@)),
            appended(old(db).tree_named(tree@), final(db).trees()[old(db).tree_pos(tree@)], Command::PopSavePoint { batch: self.number_spec() }, r),
    {
        let t = db.tree_index(tree);
        let res = db.trees[t].pop_save_point(self.batch);
        proof {
            assert(db.names() == old(db).names());
        }
        res
    }

    /// Closes the innermost save-point frame in tree `tree`, dropping its changes.
    pub fn rollback_save_point(&self, db: &mut Db, tree: &str) -> (r: Result<(), DbError>)
        requires
            old(db).wf(),
            old(db).is_initialized(),
            old(db).has_tree(tree@),
        ensures
            final(db).wf(),
            same_but_tree(*old(db), *final(db), old(db).tree_pos(tree@)),
            appended(old(db).tree_named(tree@), final(db).trees()[old(db).tree_pos(tree@)], Command::RollbackSavePoint { batch: self.number_spec() }, r),
    {
        let t = db.tree_index(tree);
        let res = db.trees[t].rollback_save_point(self.batch);
        proof {
            assert(db.names() == old(db).names());
        }
        res
    }

    /// Withdraws batch commit `batch_commit` in tree `tree`.
    pub fn abort_commit(&self, db: &mut Db, tree: &str, batch_commit: BatchCommit) -> (r: Result<(), DbError>)
        requires
            old(db).wf(),
            old(db).is_initialized(),
            old(db).has_tree(tree@),
        ensures
            final(db).wf(),
            same_but_tree(*old(db), *final(db), old(db).tree_pos(tree@)),
            appended(old(db).tree_named(tree@), final(db).trees()[old(db).tree_pos(tree@)], Command::AbortCommit { batch: self.number_spec(), batch_commit }, r),
    {
        let t = db.tree_index(tree);
        let res = db.trees[t].abort_commit(self.batch, batch_commit);
        proof {
            assert(db.names() == old(db).names());
        }
        res
    }

    /// Declares in tree `tree` that the batch is ready to commit as `batch_commit`.
    pub fn ready_commit(&self, db: &mut Db, tree: &str, batch_commit: BatchCommit) -> (r: Result<(), DbError>)
        requires
            old(db).wf(),
            old(db).is_initialized(),
            old(db).has_tree(tree@),
        ensures
            final(db).wf(),
            same_but_tree(*old(db), *final(db), old(db).tree_pos(tree@)),
            appended(
                old(db).tree_named(tree@),
                final(db).trees()[old(db).tree_pos(tree@)],
                Command::ReadyCommit { batch: self.number_spec(), batch_commit },
                match r {
                    Ok(()) => Ok(()),
                    Err(_) => Err(DbError::LogIo),
                },
            ),
            r.is_err() ==> r == Err::<(), DbError>(DbError::ReadyCommitFailed),
    {
        let t = db.tree_index(tree);
        let res = db.trees[t].ready_commit(self.batch, batch_commit);
        proof {
            assert(db.names() == old(db).names());
        }
        match res {
            Ok(()) => Ok(()),
            Err(_) => Err(DbError::ReadyCommitFailed),
        }
    }

    /// Closes the batch in tree `tree`; its scratch there is dropped either way.
    pub fn close(&self, db: &mut Db, tree: &str) -> (r: Result<(), DbError>)
        requires
            old(db).wf(),
            old(db).is_initialized(),
            old(db).has_tree(tree@),
        ensures
            final(db).wf(),
            same_but_tree(*old(db), *final(db), old(db).tree_pos(tree@)),
            final(db).trees()[old(db).tree_pos(tree@)].index_view() == old(db).tree_named(tree@).index_view(),
            final(db).trees()[old(db).tree_pos(tree@)].log_writable() == old(db).tree_named(tree@).log_writable(),
            final(db).trees()[old(db).tree_pos(tree@)].player()
                == crate::batch_player::without_batch(old(db).tree_named(tree@).player(), self.number_spec().0),
            r.is_ok() == old(db).tree_named(tree@).log_writable(),
            r.is_ok() ==> final(db).trees()[old(db).tree_pos(tree@)].log_records()
                == old(db).tree_named(tree@).log_records().push(Command::Close { batch: self.number_spec() }),
            r.is_err() ==> r == Err::<(), DbError>(DbError::LogIo)
                && final(db).trees()[old(db).tree_pos(tree@)].log_records() == old(db).tree_named(tree@).log_records(),
    {
        let t = db.tree_index(tree);
        let res = db.trees[t].close(self.batch);
        proof {
            assert(db.names() == old(db).names());
        }
        res
    }

    /// Declares, in the tree at position `t`, that the batch is ready to commit as `batch_commit`.
    pub(crate) fn ready_commit_at(&self, db: &mut Db, t: usize, batch_commit: BatchCommit) -> (r: Result<(), DbError>)
        requires
            old(db).wf(),
            old(db).is_initialized(),
            t < old(db).trees().len(),
        ensures
            final(db).wf(),
            same_but_tree(*old(db), *final(db), t as int),
            appended(old(db).trees()[t as int], final(db).trees()[t as int],
                Command::ReadyCommit { batch: self.number_spec(), batch_commit }, r),
    {
        let res = db.trees[t].ready_commit(self.batch, batch_commit);
        proof {
            assert(db.names() == old(db).names());
        }
        res
    }

    /// Withdraws, in the tree at position `t`, batch commit `batch_commit`.
    pub(crate) fn abort_commit_at(&self, db: &mut Db, t: usize, batch_commit: BatchCommit) -> (r: Result<(), DbError>)
        requires
            old(db).wf(),
            old(db).is_initialized(),
            t < old(db).trees().len(),
        ensures
            final(db).wf(),
            same_but_tree(*old(db), *final(db), t as int),
            appended(old(db).trees()[t as int], final(db).trees()[t as int],
                Command::AbortCommit { batch: self.number_spec(), batch_commit }, r),
    {
        let res = db.trees[t].abort_commit(self.batch, batch_commit);
        proof {
            assert(db.names() == old(db).names());
        }
        res
    }

    /// Closes the batch in the tree at position `t`.
    pub(crate) fn close_at(&self, db: &mut Db, t: usize) -> (r: Result<(), DbError>)
        requires
            old(db).wf(),
            old(db).is_initialized(),
            t < old(db).trees().len(),
        ensures
            final(db).wf(),
            same_but_tree(*old(db), *final(db), t as int),
            final(db).trees()[t as int].log_writable() == old(db).trees()[t as int].log_writable(),
            final(db).trees()[t as int].player()
                == crate::batch_player::without_batch(old(db).trees()[t as int].player(), self.number_spec().0),
            r.is_ok() == old(db).trees()[t as int].log_writable(),
            final(db).trees()[t as int].index_view() == old(db).trees()[t as int].index_view(),
            final(db).trees()[t as int].log_records() == if old(db).trees()[t as int].log_writable() {
                old(db).trees()[t as int].log_records().push(Command::Close { batch: self.number_spec() })
            } else {
                old(db).trees()[t as int].log_records()
            },
    {
        let res = db.trees[t].close(self.batch);
        proof {
            assert(db.names() == old(db).names());
        }
        res
    }

    /// Takes a fresh batch commit number.
    pub fn new_batch_commit_number(&self, db: &mut Db) -> (r: Result<BatchCommit, DbError>)
        requires
            old(db).wf(),
            old(db).is_initialized(),
        ensures
            final(db).wf(),
            old(db).next_batch_commit_spec() == u64::MAX ==> r == Err::<BatchCommit, DbError>(DbError::Overflow)
                && *final(db) == *old(db),
            old(db).next_batch_commit_spec() < u64::MAX ==> r == Ok::<BatchCommit, DbError>(BatchCommit(old(db).next_batch_commit_spec()))
                && final(db).next_batch_commit_spec() == old(db).next_batch_commit_spec() + 1
                && final(db).next_batch_spec() == old(db).next_batch_spec()
                && final(db).next_commit_spec() == old(db).next_commit_spec()
                && final(db).view_limit() == old(db).view_limit()
                && final(db).is_initialized()
                && final(db).names() == old(db).names()
                && final(db).trees() == old(db).trees()
                && final(db).commit_records() == old(db).commit_records()
                && final(db).commit_log_writable() == old(db).commit_log_writable(),
    {
        if db.next_batch_commit == u64::MAX {
            return Err(DbError::Overflow);
        }
        let bc = BatchCommit(db.next_batch_commit);
        db.next_batch_commit = db.next_batch_commit + 1;
        Ok(bc)
    }

    /// Whether the commit log already holds a master commit of this batch.
    fn already_committed(&self, db: &Db) -> (r: bool)
        ensures
            r == committed_before(*db, self.number_spec()),
    {
        let cs = db.commit_log.records_vec();
        let mut i: usize = 0;
        while i < cs.len()
            invariant
                cs@ == db.commit_records(),
                i <= cs@.len(),
                forall|x: int| 0 <= x < i ==> (#[trigger] cs@[x]).batch != self.batch,
            decreases cs@.len() - i,
        {
            if cs[i].batch.0 == self.batch.0 {
                assert(db.commit_records()[i as int].batch == self.batch);
                return true;
            }
            i = i + 1;
        }
        false
    }

    /// Commits the batch as `batch_commit`: takes the next commit number,
    /// appends the master commit record, applies every tree's replay to its
    /// index at that commit, and then makes the commit visible to new views.
    pub fn commit(&self, db: &mut Db, batch_commit: BatchCommit) -> (r: Result<(), DbError>)
        requires
            old(db).wf(),
            old(db).is_initialized(),
        ensures
            final(db).wf(),
            final(db).is_initialized(),
            final(db).view_limit() >= old(db).view_limit(),
            committed_before(*old(db), self.number_spec()) ==> r == Err::<(), DbError>(DbError::AlreadyCommitted) && *final(db) == *old(db),
            !committed_before(*old(db), self.number_spec()) && !all_trees_ready(*old(db), self.number_spec(), batch_commit)
                ==> r == Err::<(), DbError>(DbError::NotReady) && *final(db) == *old(db),
            !committed_before(*old(db), self.number_spec()) && all_trees_ready(*old(db), self.number_spec(), batch_commit)
                && old(db).next_commit_spec() == u64::MAX
                ==> r == Err::<(), DbError>(DbError::Overflow) && *final(db) == *old(db),
            !committed_before(*old(db), self.number_spec()) && all_trees_ready(*old(db), self.number_spec(), batch_commit)
                && old(db).next_commit_spec() < u64::MAX && !old(db).commit_log_writable()
                ==> r == Err::<(), DbError>(DbError::CommitMasterWriteFailed)
                    && final(db).next_commit_spec() == old(db).next_commit_spec() + 1
                    && final(db).view_limit() == old(db).view_limit()
                    && final(db).trees() == old(db).trees()
                    && final(db).commit_records() == old(db).commit_records(),
            !committed_before(*old(db), self.number_spec()) && all_trees_ready(*old(db), self.number_spec(), batch_commit)
                && old(db).next_commit_spec() < u64::MAX && old(db).commit_log_writable()
                ==> r.is_ok() && committed(*old(db), *final(db), self.number_spec(), batch_commit),
            r.is_ok() ==> final(db).view_limit() == old(db).next_commit_spec() + 1
                && final(db).view_limit() > old(db).view_limit(),
            final(db).names() == old(db).names(),
            final(db).next_batch_spec() == old(db).next_batch_spec(),
            final(db).next_batch_commit_spec() == old(db).next_batch_commit_spec(),
            final(db).commit_log_writable() == old(db).commit_log_writable(),
    {
        if self.already_committed(db) {
            return Err(DbError::AlreadyCommitted);
        }
        let mut t: usize = 0;
        while t < db.trees.len()
            invariant
                *db == *old(db),
                db.wf(),
                db.initialized,
                !committed_before(*old(db), self.batch),
                t <= db.trees@.len(),
                forall|x: int| 0 <= x < t ==> ready_spec((#[trigger] db.trees()[x]).player(), self.batch.0, batch_commit.0),
            decreases db.trees@.len() - t,
        {
            if !db.trees[t].is_ready(self.batch, batch_commit) {
                assert(!ready_spec(db.trees()[t as int].player(), self.batch.0, batch_commit.0));
                return Err(DbError::NotReady);
            }
            t = t + 1;
        }
        if db.next_commit == u64::MAX {
            return Err(DbError::Overflow);
        }
        let commit = Commit(db.next_commit);
        db.next_commit = db.next_commit + 1;
        let record = CommitRecord { batch: self.batch, batch_commit, commit };
        match db.commit_log.append(record) {
            Err(_) => {
                return Err(DbError::CommitMasterWriteFailed);
            },
            Ok(_) => {},
        }
        let ghost mid = *db;
        let mut t: usize = 0;
        while t < db.trees.len()
            invariant
                mid.names@.len() == mid.trees@.len(),
                db.names == mid.names,
                db.commit_log == mid.commit_log,
                db.initialized == mid.initialized,
                db.next_batch == mid.next_batch,
                db.next_batch_commit == mid.next_batch_commit,
                db.next_commit == mid.next_commit,
                db.view_commit_limit == mid.view_commit_limit,
                db.trees@.len() == mid.trees@.len(),
                t <= db.trees@.len(),
                forall|x: int| 0 <= x < mid.trees@.len() ==> (#[trigger] mid.trees@[x]).wf()
                    && map_before(mid.trees@[x].index_view(), mid.view_commit_limit),
                mid.view_commit_limit <= commit.0,
                forall|x: int| t <= x < db.trees@.len() ==> #[trigger] db.trees@[x] == mid.trees@[x],
                forall|x: int| 0 <= x < t ==> (#[trigger] db.trees@[x]).wf()
                    && db.trees@[x].index_view() == apply_ops(mid.trees@[x].index_view(),
                        replay_spec(mid.trees@[x].player(), self.batch.0, batch_commit.0), commit.0)
                    && map_below(db.trees@[x].index_view(), commit.0)
                    && db.trees@[x].log_records() == mid.trees@[x].log_records()
                    && db.trees@[x].log_writable() == mid.trees@[x].log_writable()
                    && db.trees@[x].player() == mid.trees@[x].player(),
            decreases db.trees@.len() - t,
        {
            proof {
                let m = mid.trees@[t as int].index_view();
                assert(map_before(m, mid.view_commit_limit));
                assert forall|k: Seq<u8>| m.contains_key(k) implies index::history_below(#[trigger] m[k], commit.0) by {
                    assert forall|i: int| 0 <= i < m[k].len() implies m[k][i].0 <= commit.0 by {
                        assert(m[k][i].0 < mid.view_commit_limit);
                    }
                }
            }
            db.trees[t].commit(self.batch, batch_commit, commit);
            t = t + 1;
        }
        db.view_commit_limit = commit.0 + 1;
        proof {
            assert forall|x: int| 0 <= x < db.trees@.len() implies map_before((#[trigger] db.trees@[x]).index_view(), db.view_commit_limit) by {
                let m = db.trees@[x].index_view();
                assert forall|k: Seq<u8>, i: int| m.contains_key(k) && 0 <= i < m[k].len() implies (#[trigger] m[k][i]).0 < db.view_commit_limit by {
                    assert(index::history_below(m[k], commit.0));
                }
            }
            let cs = db.commit_log.records();
            assert forall|i: int, j: int| 0 <= i < j < cs.len() implies cs[i].commit.0 < cs[j].commit.0 && cs[i].batch != cs[j].batch by {
                if j == cs.len() - 1 {
                    assert(old(db).commit_records()[i] == cs[i]);
                    assert(old(db).commit_records()[i].commit.0 < old(db).view_limit());
                } else {
                    assert(old(db).commit_records()[i] == cs[i]);
                    assert(old(db).commit_records()[j] == cs[j]);
                }
            }
            assert forall|i: int| 0 <= i < cs.len() implies (#[trigger] cs[i]).commit.0 < db.view_commit_limit by {
                if i < cs.len() - 1 {
                    assert(old(db).commit_records()[i] == cs[i]);
                }
            }
            assert(db.names() == old(db).names());
        }
        Ok(())
    }
}

impl ViewReader {
    pub closed spec fn commit_limit_spec(&self) -> Commit {
        self.commit_limit
    }

    pub fn commit_limit(&self) -> (r: Commit)
        ensures
            r == self.commit_limit_spec(),
    {
        self.commit_limit
    }

    /// Reads `key` in tree `tree` as of this view: the value of the newest
    /// version below the view's commit limit if it is a write, else nothing.
    pub fn read(&self, db: &Db, tree: &str, key: &Key) -> (r: Result<Option<Vec<u8>>, DbError>)
        requires
            db.wf(),
            db.has_tree(tree@),
        ensures
            r.is_ok(),
            opt_bytes(r.unwrap()) == read_spec(
                db.tree_named(tree@).index_view(),
                db.tree_named(tree@).log_records(),
                self.commit_limit_spec().0,
                key@,
            ),
    {
        let t = db.tree_index(tree);
        db.trees[t].read(self.commit_limit, key)
    }

    /// A cursor over tree `tree` as of this view, not yet positioned.
    pub fn cursor(&self, db: &Db, tree: &str) -> (r: Cursor)
        requires
            db.wf(),
            db.has_tree(tree@),
        ensures
            r.wf(),
            !r.is_valid(),
            r.tree_spec() == db.tree_pos(tree@),
            index::snapshot_of(db.tree_named(tree@).index_view(), self.commit_limit_spec().0, r.entries()),
    {
        let t = db.tree_index(tree);
        let tree_cursor = db.trees[t].cursor(self.commit_limit);
        Cursor { tree: t, tree_cursor }
    }
}

impl Cursor {
    pub closed spec fn tree_spec(&self) -> int {
        self.tree as int
    }

    /// The position of the cursor's tree in its database.
    pub fn tree_index(&self) -> (r: usize)
        ensures
            r == self.tree_spec(),
    {
        self.tree
    }

    pub closed spec fn entries(&self) -> Seq<(Seq<u8>, crate::types::Address)> {
        self.tree_cursor.index_cursor.entries()
    }

    pub closed spec fn position(&self) -> int {
        self.tree_cursor.index_cursor.position()
    }

    pub closed spec fn wf(&self) -> bool {
        self.tree_cursor.index_cursor.wf()
    }

    pub open spec fn is_valid(&self) -> bool {
        self.position() < self.entries().len()
    }

    pub proof fn lemma_position_bound(&self)
        requires
            self.wf(),
        ensures
            0 <= self.position() <= self.entries().len(),
    {
        self.tree_cursor.index_cursor.lemma_position_bound();
    }

    pub fn valid(&self) -> (r: bool)
        requires
            self.wf(),
        ensures
            r == self.is_valid(),
    {
        self.tree_cursor.is_valid()
    }

    /// The key under the cursor.
    pub fn key(&self) -> (r: Key)
        requires
            self.wf(),
            self.is_valid(),
        ensures
            r@ == self.entries()[self.position()].0,
    {
        self.tree_cursor.index_cursor.key()
    }

    /// The value under the cursor, read from the tree's log.
    pub fn value(&self, db: &Db) -> (r: Result<Vec<u8>, DbError>)
        requires
            self.wf(),
            self.is_valid(),
            db.wf(),
            self.tree_spec() < db.trees().len(),
        ensures
            ({
                let a = self.entries()[self.position()].1;
                let log = db.trees()[self.tree_spec()].log_records();
                &&& a.0 < log.len() && log[a.0 as int] is Write ==> r.is_ok() && r.unwrap()@ == tree::value_at(log, a)
                &&& !(a.0 < log.len() && log[a.0 as int] is Write) ==> r == Err::<Vec<u8>, DbError>(DbError::UnexpectedRecord)
            }),
    {
        let address = self.tree_cursor.index_cursor.address();
        db.trees[self.tree].value_at(address)
    }

    pub fn next(&mut self)
        requires
            old(self).wf(),
        ensures
            final(self).wf(),
            final(self).entries() == old(self).entries(),
            final(self).tree_spec() == old(self).tree_spec(),
            final(self).position() == index::next_position(old(self).entries().len() as int, old(self).position()),
    {
        self.tree_cursor.index_cursor.next()
    }

    pub fn prev(&mut self)
        requires
            old(self).wf(),
        ensures
            final(self).wf(),
            final(self).entries() == old(self).entries(),
            final(self).tree_spec() == old(self).tree_spec(),
            final(self).position() == index::prev_position(old(self).entries().len() as int, old(self).position()),
    {
        self.tree_cursor.index_cursor.prev()
    }

    pub fn seek_first(&mut self)
        requires
            old(self).wf(),
        ensures
            final(self).wf(),
            final(self).entries() == old(self).entries(),
            final(self).tree_spec() == old(self).tree_spec(),
            final(self).position() == 0,
    {
        self.tree_cursor.index_cursor.seek_first()
    }

    pub fn seek_last(&mut self)
        requires
            old(self).wf(),
        ensures
            final(self).wf(),
            final(self).entries() == old(self).entries(),
            final(self).tree_spec() == old(self).tree_spec(),
            final(self).position() == index::last_position(old(self).entries().len() as int),
    {
        self.tree_cursor.index_cursor.seek_last()
    }

    /// Moves to the first key not below `key`.
    pub fn seek_key(&mut self, key: Key)
        requires
            old(self).wf(),
        ensures
            final(self).wf(),
            final(self).entries() == old(self).entries(),
            final(self).tree_spec() == old(self).tree_spec(),
            forall|j: int| 0 <= j < final(self).position() ==> key_lt(#[trigger] final(self).entries()[j].0, key@),
            final(self).is_valid() ==> key_le(key@, final(self).entries()[final(self).position()].0),
    {
        self.tree_cursor.index_cursor.seek_key(&key)
    }

    /// Moves to the last key not above `key`; invalid if there is none.
    pub fn seek_key_rev(&mut self, key: Key)
        requires
            old(self).wf(),
        ensures
            final(self).wf(),
            final(self).entries() == old(self).entries(),
            final(self).tree_spec() == old(self).tree_spec(),
            final(self).is_valid() ==> key_le(final(self).entries()[final(self).position()].0, key@)
                && forall|j: int| final(self).position() < j < final(self).entries().len()
                    ==> key_lt(key@, #[trigger] final(self).entries()[j].0),
            !final(self).is_valid() ==> forall|j: int| 0 <= j < final(self).entries().len()
                ==> key_lt(key@, #[trigger] final(self).entries()[j].0),
    {
        self.tree_cursor.index_cursor.seek_key_rev(&key)
    }
}

} // verus!
