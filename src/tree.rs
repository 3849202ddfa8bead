use vstd::prelude::*;
use crate::batch_player::{
    BatchPlayer, IndexOp, IndexOpV, entries_in, entry_of, ready_spec, lemma_entries_in_grow, lemma_replay_ops_in,
    lemma_without_batch_in, ops_in, ops_view, replay_spec, without_batch,
};
use crate::command::{Command, CommitRecord, write_at};
use crate::loader::{all_ready, commits_ok, entries_of_log, recovered};
use crate::index::{
    self, Generation, History, Index, Value, history_in, latest_before, map_add_version, map_below, map_delete_range,
    visible_write,
};
use crate::key::{Key, copy_bytes};
use crate::log::Log;
use crate::types::{Address, Batch, BatchCommit, Commit, DbError};

verus! {

/// The model after one index operation at commit `c`.
pub open spec fn apply_op(m: Map<Seq<u8>, History>, op: IndexOpV, c: u64) -> Map<Seq<u8>, History> {
    match op {
        IndexOpV::Write(k, a) => map_add_version(m, k, c, Value::Written(a)),
        IndexOpV::Delete(k, a) => map_add_version(m, k, c, Value::Deleted(a)),
        IndexOpV::DeleteRange(s, e, a) => map_delete_range(m, s, e, c, a),
    }
}

/// The model after a sequence of index operations, all at commit `c`.
pub open spec fn apply_ops(m: Map<Seq<u8>, History>, ops: Seq<IndexOpV>, c: u64) -> Map<Seq<u8>, History>
    decreases ops.len(),
{
    if ops.len() == 0 {
        m
    } else {
        apply_op(apply_ops(m, ops.drop_last(), c), ops.last(), c)
    }
}

/// Every written version of the model points at a write record of its key in `log`.
pub open spec fn index_in(m: Map<Seq<u8>, History>, log: Seq<Command>) -> bool {
    forall|k: Seq<u8>, i: int| m.contains_key(k) && 0 <= i < m[k].len() ==> match (#[trigger] m[k][i]).1 {
        Value::Written(a) => write_at(log, a, k),
        _ => true,
    }
}

/// The value that the write record at `a` holds.
pub open spec fn value_at(log: Seq<Command>, a: Address) -> Seq<u8> {
    match log[a.0 as int] {
        Command::Write { value, .. } => value@,
        _ => Seq::empty(),
    }
}

/// What a read of `k` below `limit` returns: the value of the newest visible
/// version if it is a write, nothing if it is a deletion or there is none.
pub open spec fn read_spec(m: Map<Seq<u8>, History>, log: Seq<Command>, limit: u64, k: Seq<u8>) -> Option<Seq<u8>> {
    match visible_write(history_in(m, k), limit) {
        Some(a) => Some(value_at(log, a)),
        None => None,
    }
}

pub open spec fn opt_bytes(v: Option<Vec<u8>>) -> Option<Seq<u8>> {
    match v {
        Some(b) => Some(b@),
        None => None,
    }
}

proof fn lemma_index_in_grow(m: Map<Seq<u8>, History>, log: Seq<Command>, r: Command)
    requires
        index_in(m, log),
    ensures
        index_in(m, log.push(r)),
{
    assert forall|k: Seq<u8>, i: int| m.contains_key(k) && 0 <= i < m[k].len() implies match (#[trigger] m[k][i]).1 {
        Value::Written(a) => write_at(log.push(r), a, k),
        _ => true,
    } by {
        match m[k][i].1 {
            Value::Written(a) => {
                assert(log.push(r)[a.0 as int] == log[a.0 as int]);
            },
            _ => {},
        }
    }
}

proof fn lemma_index_in_op(m: Map<Seq<u8>, History>, log: Seq<Command>, op: IndexOpV, c: u64)
    requires
        index_in(m, log),
        match op {
            IndexOpV::Write(k, a) => write_at(log, a, k),
            _ => true,
        },
    ensures
        index_in(apply_op(m, op, c), log),
{
    let m2 = apply_op(m, op, c);
    assert forall|k: Seq<u8>, i: int| m2.contains_key(k) && 0 <= i < m2[k].len() implies match (#[trigger] m2[k][i]).1 {
        Value::Written(a) => write_at(log, a, k),
        _ => true,
    } by {
        let h = history_in(m, k);
        if i < h.len() && m2[k][i] == h[i] {
            assert(m.contains_key(k));
        }
    }
}

proof fn lemma_latest_in(h: History, gen: u64)
    ensures
        latest_before(h, gen) is Some ==> exists|i: int| 0 <= i < h.len() && h[i].1 == latest_before(h, gen)->0,
    decreases h.len(),
{
    if h.len() > 0 && !(h.last().0 < gen) {
        lemma_latest_in(h.drop_last(), gen);
        if latest_before(h.drop_last(), gen) is Some {
            let i = choose|i: int| 0 <= i < h.drop_last().len() && h.drop_last()[i].1 == latest_before(h.drop_last(), gen)->0;
            assert(h[i] == h.drop_last()[i]);
        }
    }
}

/// At the level of a committed batch: an index that commits a batch whose
/// recorded entries end in a save point pushed, changed only by mutations and
/// rolled back, ends as if those entries were not there; popped instead of
/// rolled back, it ends as if only the mutations had been recorded.
pub proof fn lemma_save_points_at_commit(
    m: Map<Seq<u8>, History>,
    es: Seq<crate::batch_player::EntryV>,
    ops: Seq<crate::batch_player::EntryV>,
    b: u64,
    bc: u64,
    c: u64,
    a1: Address,
    a2: Address,
)
    requires
        crate::batch_player::mutations_of(ops, b),
    ensures
        apply_ops(m, replay_spec(
            es + seq![crate::batch_player::EntryV { batch: b, op: crate::batch_player::OpV::Push, address: a1 }] + ops
                + seq![crate::batch_player::EntryV { batch: b, op: crate::batch_player::OpV::Rollback, address: a2 }],
            b,
            bc,
        ), c) == apply_ops(m, replay_spec(es, b, bc), c),
        apply_ops(m, replay_spec(
            es + seq![crate::batch_player::EntryV { batch: b, op: crate::batch_player::OpV::Push, address: a1 }] + ops
                + seq![crate::batch_player::EntryV { batch: b, op: crate::batch_player::OpV::Pop, address: a2 }],
            b,
            bc,
        ), c) == apply_ops(m, replay_spec(es + ops, b, bc), c),
{
    crate::batch_player::lemma_rollback_is_noop(es, ops, b, bc, a1, a2);
    crate::batch_player::lemma_pop_keeps_changes(es, ops, b, bc, a1, a2);
}

/// One named tree: its log, the scratch of its live batches, and its index.
pub struct Tree {
    log: Log<Command>,
    batch_player: BatchPlayer,
    index: Index,
}

/// A cursor over one tree at one commit limit.
pub struct Cursor {
    pub index_cursor: index::Cursor,
}

impl Cursor {
    pub fn is_valid(&self) -> (r: bool)
        requires
            self.index_cursor.wf(),
        ensures
            r == self.index_cursor.is_valid(),
    {
        self.index_cursor.valid()
    }
}

impl Tree {
    pub closed spec fn log_records(&self) -> Seq<Command> {
        self.log.records()
    }

    pub closed spec fn log_writable(&self) -> bool {
        self.log.is_writable()
    }

    pub closed spec fn player(&self) -> Seq<crate::batch_player::EntryV> {
        self.batch_player@
    }

    pub closed spec fn index_view(&self) -> Map<Seq<u8>, History> {
        self.index@
    }

    pub closed spec fn wf(&self) -> bool {
        &&& self.index.wf()
        &&& entries_in(self.batch_player@, self.log.records())
        &&& index_in(self.index@, self.log.records())
    }

    pub proof fn lemma_histories_increasing(&self)
        requires
            self.wf(),
        ensures
            forall|k: Seq<u8>| self.index_view().contains_key(k) ==> index::history_increasing(#[trigger] self.index_view()[k]),
    {
        self.index.lemma_histories_increasing();
    }

    /// A tree over `log`, with nothing replayed yet.
    pub fn new(log: Log<Command>) -> (r: Tree)
        ensures
            r.wf(),
            r.log_records() == log.records(),
            r.log_writable() == log.is_writable(),
            r.player() == Seq::<crate::batch_player::EntryV>::empty(),
            r.index_view() == Map::<Seq<u8>, History>::empty(),
    {
        Tree { log, batch_player: BatchPlayer::new(), index: Index::new() }
    }

    pub fn into_log(self) -> (r: Log<Command>)
        ensures
            r.records() == self.log_records(),
            r.is_writable() == self.log_writable(),
    {
        self.log
    }

    pub fn set_writable(&mut self, writable: bool)
        requires
            old(self).wf(),
        ensures
            final(self).wf(),
            final(self).log_records() == old(self).log_records(),
            final(self).log_writable() == writable,
            final(self).player() == old(self).player(),
            final(self).index_view() == old(self).index_view(),
    {
        self.log.set_writable(writable);
    }

    /// Flushes the log; an in-memory log has nothing to flush but refuses when read-only.
    pub fn sync(&self) -> (r: Result<(), DbError>)
        ensures
            r.is_ok() == self.log_writable(),
            r.is_err() ==> r == Err::<(), DbError>(DbError::LogIo),
    {
        if self.log.writable() {
            Ok(())
        } else {
            Err(DbError::LogIo)
        }
    }

    /// Appends a record to the log and records it for its batch.
    fn append_record(&mut self, cmd: Command) -> (r: Result<Address, DbError>)
        requires
            old(self).wf(),
        ensures
            final(self).wf(),
            final(self).index_view() == old(self).index_view(),
            final(self).log_writable() == old(self).log_writable(),
            old(self).log_writable() ==> r.is_ok() && r.unwrap().0 == old(self).log_records().len()
                && final(self).log_records() == old(self).log_records().push(cmd)
                && final(self).player() == match entry_of(cmd, r.unwrap()) {
                    Some(e) => old(self).player().push(e),
                    None => old(self).player(),
                },
            !old(self).log_writable() ==> r == Err::<Address, DbError>(DbError::LogIo)
                && final(self).log_records() == old(self).log_records()
                && final(self).player() == old(self).player(),
    {
        let ghost prev = *self;
        match self.log.append(cmd) {
            Err(e) => Err(e),
            Ok(address) => {
                proof {
                    lemma_entries_in_grow(prev.batch_player@, prev.log.records(), cmd);
                    lemma_index_in_grow(prev.index@, prev.log.records(), cmd);
                }
                assert(self.log.records()[address.0 as int] == cmd);
                let rec = self.log.read_at(address).unwrap();
                assert(*rec == cmd);
                self.batch_player.record(rec, address);
                proof {
                    let log = self.log.records();
                    match entry_of(cmd, address) {
                        Some(e) => {
                            let es = self.batch_player@;
                            assert forall|i: int| 0 <= i < es.len() implies match (#[trigger] es[i]).op {
                                crate::batch_player::OpV::Write(k) => write_at(log, es[i].address, k),
                                _ => true,
                            } by {
                                if i < prev.batch_player@.len() {
                                    assert(es[i] == prev.batch_player@[i]);
                                }
                            }
                        },
                        None => {},
                    }
                }
                Ok(address)
            },
        }
    }

    /// Opens batch `batch` in this tree.
    pub fn open(&mut self, batch: Batch) -> (r: Result<(), DbError>)
        requires
            old(self).wf(),
        ensures
            final(self).wf(),
            appended(*old(self), *final(self), Command::Open { batch }, r),
    {
        match self.append_record(Command::Open { batch }) {
            Ok(_) => Ok(()),
            Err(e) => Err(e),
        }
    }

    /// Writes `value` under `key` for batch `batch`.
    pub fn write(&mut self, batch: Batch, key: Key, value: Vec<u8>) -> (r: Result<(), DbError>)
        requires
            old(self).wf(),
        ensures
            final(self).wf(),
            appended(*old(self), *final(self), Command::Write { batch, key, value }, r),
    {
        match self.append_record(Command::Write { batch, key, value }) {
            Ok(_) => Ok(()),
            Err(e) => Err(e),
        }
    }

    /// Deletes `key` for batch `batch`.
    pub fn delete(&mut self, batch: Batch, key: Key) -> (r: Result<(), DbError>)
        requires
            old(self).wf(),
        ensures
            final(self).wf(),
            appended(*old(self), *final(self), Command::Delete { batch, key }, r),
    {
        match self.append_record(Command::Delete { batch, key }) {
            Ok(_) => Ok(()),
            Err(e) => Err(e),
        }
    }

    /// Deletes every key in `[start_key, end_key)` for batch `batch`.
    pub fn delete_range(&mut self, batch: Batch, start_key: Key, end_key: Key) -> (r: Result<(), DbError>)
        requires
            old(self).wf(),
        ensures
            final(self).wf(),
            appended(*old(self), *final(self), Command::DeleteRange { batch, start_key, end_key }, r),
    {
        match self.append_record(Command::DeleteRange { batch, start_key, end_key }) {
            Ok(_) => Ok(()),
            Err(e) => Err(e),
        }
    }

    /// Opens a save-point frame in batch `batch`.
    pub fn push_save_point(&mut self, batch: Batch) -> (r: Result<(), DbError>)
        requires
            old(self).wf(),
        ensures
            final(self).wf(),
            appended(*old(self), *final(self), Command::PushSavePoint { batch }, r),
    {
        match self.append_record(Command::PushSavePoint { batch }) {
            Ok(_) => Ok(()),
            Err(e) => Err(e),
        }
    }

    /// Closes the innermost save-point frame of batch `batch`, keeping its changes.
    pub fn pop_save_point(&mut self, batch: Batch) -> (r: Result<(), DbError>)
        requires
            old(self).wf(),
        ensures
            final(self).wf(),
            appended(*old(self), *final(self), Command::PopSavePoint { batch }, r),
    {
        match self.append_record(Command::PopSavePoint { batch }) {
            Ok(_) => Ok(()),
            Err(e) => Err(e),
        }
    }

    /// Closes the innermost save-point frame of batch `batch`, dropping its changes.
    pub fn rollback_save_point(&mut self, batch: Batch) -> (r: Result<(), DbError>)
        requires
            old(self).wf(),
        ensures
            final(self).wf(),
            appended(*old(self), *final(self), Command::RollbackSavePoint { batch }, r),
    {
        match self.append_record(Command::RollbackSavePoint { batch }) {
            Ok(_) => Ok(()),
            Err(e) => Err(e),
        }
    }

    /// Declares batch `batch` ready to commit as `batch_commit` in this tree.
    pub fn ready_commit(&mut self, batch: Batch, batch_commit: BatchCommit) -> (r: Result<(), DbError>)
        requires
            old(self).wf(),
        ensures
            final(self).wf(),
            appended(*old(self), *final(self), Command::ReadyCommit { batch, batch_commit }, r),
    {
        match self.append_record(Command::ReadyCommit { batch, batch_commit }) {
            Ok(_) => Ok(()),
            Err(e) => Err(e),
        }
    }

    /// Withdraws batch commit `batch_commit` of batch `batch` in this tree.
    pub fn abort_commit(&mut self, batch: Batch, batch_commit: BatchCommit) -> (r: Result<(), DbError>)
        requires
            old(self).wf(),
        ensures
            final(self).wf(),
            appended(*old(self), *final(self), Command::AbortCommit { batch, batch_commit }, r),
    {
        match self.append_record(Command::AbortCommit { batch, batch_commit }) {
            Ok(_) => Ok(()),
            Err(e) => Err(e),
        }
    }

    /// Appends a write of `value` under `key` for batch `batch` and makes it,
    /// at once, the version of `key` at commit `commit` in the index: the way a
    /// compacted tree, which holds one synthetic batch, is filled.
    pub fn install(&mut self, batch: Batch, key: Key, value: Vec<u8>, commit: u64) -> (r: Result<Address, DbError>)
        requires
            old(self).wf(),
            map_below(old(self).index_view(), commit),
        ensures
            final(self).wf(),
            map_below(final(self).index_view(), commit),
            final(self).log_writable() == old(self).log_writable(),
            old(self).log_writable() ==> r.is_ok() && r.unwrap().0 == old(self).log_records().len()
                && final(self).log_records() == old(self).log_records().push(Command::Write { batch, key, value })
                && final(self).index_view() == map_add_version(old(self).index_view(), key@, commit, Value::Written(r.unwrap())),
            !old(self).log_writable() ==> r == Err::<Address, DbError>(DbError::LogIo)
                && final(self).log_records() == old(self).log_records()
                && final(self).index_view() == old(self).index_view(),
    {
        let ghost k = key@;
        let ghost cmd = Command::Write { batch, key, value };
        let res = self.append_record(Command::Write { batch, key, value });
        match res {
            Ok(address) => {
                let rec = self.log.read_at(address).unwrap();
                let key_ref = match rec {
                    Command::Write { key, .. } => key,
                    _ => {
                        proof {
                            assert(self.log.records()[address.0 as int] == cmd);
                        }
                        return Err(DbError::UnexpectedRecord);
                    },
                };
                proof {
                    assert(self.log.records()[address.0 as int] == cmd);
                    assert(key_ref@ == k);
                    lemma_index_in_op(self.index@, self.log.records(), IndexOpV::Write(k, address), commit);
                }
                self.index.add_version(key_ref, commit, Value::Written(address));
                Ok(address)
            },
            Err(e) => Err(e),
        }
    }

    /// Whether batch `batch` may commit as `batch_commit` in this tree.
    pub fn is_ready(&self, batch: Batch, batch_commit: BatchCommit) -> (r: bool)
        ensures
            r == ready_spec(self.player(), batch.0, batch_commit.0),
    {
        self.batch_player.is_ready(batch, batch_commit)
    }

    /// Applies to the index, at commit `commit`, what batch `batch` did before
    /// declaring `batch_commit` ready. This cannot fail.
    pub fn commit(&mut self, batch: Batch, batch_commit: BatchCommit, commit: Commit)
        requires
            old(self).wf(),
            map_below(old(self).index_view(), commit.0),
        ensures
            final(self).wf(),
            final(self).index_view() == apply_ops(old(self).index_view(), replay_spec(old(self).player(), batch.0, batch_commit.0), commit.0),
            map_below(final(self).index_view(), commit.0),
            final(self).log_records() == old(self).log_records(),
            final(self).log_writable() == old(self).log_writable(),
            final(self).player() == old(self).player(),
    {
        let index_ops = self.batch_player.replay(batch, batch_commit);
        proof {
            lemma_replay_ops_in(self.batch_player@, self.log.records(), batch.0, batch_commit.0);
        }
        self.apply(&index_ops, commit);
    }

    fn apply(&mut self, index_ops: &Vec<IndexOp>, commit: Commit)
        requires
            old(self).wf(),
            map_below(old(self).index_view(), commit.0),
            ops_in(ops_view(index_ops@), old(self).log_records()),
        ensures
            final(self).wf(),
            final(self).index_view() == apply_ops(old(self).index_view(), ops_view(index_ops@), commit.0),
            map_below(final(self).index_view(), commit.0),
            final(self).log_records() == old(self).log_records(),
            final(self).log_writable() == old(self).log_writable(),
            final(self).player() == old(self).player(),
    {
        let ghost start = self.index@;
        let ghost ops = ops_view(index_ops@);
        let mut i: usize = 0;
        assert(ops.take(0) =~= Seq::<IndexOpV>::empty());
        while i < index_ops.len()
            invariant
                i <= index_ops@.len(),
                ops == ops_view(index_ops@),
                ops_in(ops, self.log.records()),
                self.wf(),
                map_below(self.index@, commit.0),
                self.index@ == apply_ops(start, ops.take(i as int), commit.0),
                self.log.records() == old(self).log_records(),
                self.log.is_writable() == old(self).log_writable(),
                self.batch_player@ == old(self).player(),
            decreases index_ops@.len() - i,
        {
            let ghost before = self.index@;
            assert(ops.take(i + 1).drop_last() =~= ops.take(i as int));
            assert(ops.take(i + 1).last() == ops[i as int]);
            assert(ops[i as int] == index_ops@[i as int]@);
            proof {
                lemma_index_in_op(before, self.log.records(), ops[i as int], commit.0);
            }
            match &index_ops[i] {
                IndexOp::Write { key, address } => {
                    self.index.add_version(key, commit.0, Value::Written(*address));
                },
                IndexOp::Delete { key, address } => {
                    self.index.add_version(key, commit.0, Value::Deleted(*address));
                },
                IndexOp::DeleteRange { start_key, end_key, address } => {
                    self.index.delete_range(start_key, end_key, commit.0, *address);
                },
            }
            i = i + 1;
        }
        assert(ops.take(i as int) =~= ops);
    }

    /// Reads `key` as of commit limit `commit_limit`.
    pub fn read(&self, commit_limit: Commit, key: &Key) -> (r: Result<Option<Vec<u8>>, DbError>)
        requires
            self.wf(),
        ensures
            r.is_ok(),
            opt_bytes(r.unwrap()) == read_spec(self.index_view(), self.log_records(), commit_limit.0, key@),
    {
        let status = self.index.read(Generation(commit_limit.0), key);
        match status {
            Some(Value::Written(address)) => {
                proof {
                    let h = history_in(self.index@, key@);
                    lemma_latest_in(h, commit_limit.0);
                    let i = choose|i: int| 0 <= i < h.len() && h[i].1 == Value::Written(address);
                    assert(self.index@.contains_key(key@));
                    assert(self.index@[key@][i].1 == Value::Written(address));
                }
                match self.log.read_at(address) {
                    Some(Command::Write { key: log_key, value, .. }) => {
                        if log_key.eq_key(key) {
                            Ok(Some(copy_bytes(value)))
                        } else {
                            Err(DbError::UnexpectedRecord)
                        }
                    },
                    _ => Err(DbError::UnexpectedRecord),
                }
            },
            _ => Ok(None),
        }
    }

    /// The newest status of `key` below `commit_limit`.
    pub fn status(&self, commit_limit: Commit, key: &Key) -> (r: Option<Value>)
        requires
            self.wf(),
        ensures
            r == latest_before(history_in(self.index_view(), key@), commit_limit.0),
    {
        self.index.read(Generation(commit_limit.0), key)
    }

    /// The value of the write record at `address`.
    pub fn value_at(&self, address: Address) -> (r: Result<Vec<u8>, DbError>)
        ensures
            address.0 < self.log_records().len() && self.log_records()[address.0 as int] is Write
                ==> r.is_ok() && r.unwrap()@ == value_at(self.log_records(), address),
            !(address.0 < self.log_records().len() && self.log_records()[address.0 as int] is Write)
                ==> r == Err::<Vec<u8>, DbError>(DbError::UnexpectedRecord),
    {
        match self.log.read_at(address) {
            Some(Command::Write { value, .. }) => Ok(copy_bytes(value)),
            _ => Err(DbError::UnexpectedRecord),
        }
    }

    /// A cursor over the keys written and visible below `commit_limit`.
    pub fn cursor(&self, commit_limit: Commit) -> (r: Cursor)
        requires
            self.wf(),
        ensures
            r.index_cursor.wf(),
            !r.index_cursor.is_valid(),
            index::snapshot_of(self.index_view(), commit_limit.0, r.index_cursor.entries()),
    {
        Cursor { index_cursor: self.index.cursor(Generation(commit_limit.0)) }
    }

    /// Rebuilds the index from the log and the master commits `cs`, then drops
    /// all scratch: no batch outlives a restart.
    pub fn recover(&mut self, cs: &Vec<CommitRecord>) -> (r: Result<(), DbError>)
        requires
            old(self).wf(),
            old(self).index_view() == Map::<Seq<u8>, History>::empty(),
            commits_ok(cs@),
        ensures
            final(self).wf(),
            final(self).log_records() == old(self).log_records(),
            final(self).log_writable() == old(self).log_writable(),
            final(self).player() == Seq::<crate::batch_player::EntryV>::empty(),
            r.is_ok() == all_ready(entries_of_log(old(self).log_records()), cs@),
            r.is_err() ==> r == Err::<(), DbError>(DbError::CorruptLog),
            r.is_ok() ==> final(self).index_view() == recovered(entries_of_log(old(self).log_records()), cs@),
            r.is_ok() && cs@.len() > 0 ==> map_below(final(self).index_view(), cs@.last().commit.0),
    {
        let ghost log = self.log.records();
        self.batch_player = BatchPlayer::new();
        let n = self.log.len();
        let mut i: usize = 0;
        assert(log.take(0) =~= Seq::<Command>::empty());
        while i < n
            invariant
                n == log.len(),
                log == old(self).log_records(),
                i <= n,
                self.log.records() == log,
                self.log.is_writable() == old(self).log_writable(),
                self.index@ == old(self).index_view(),
                self.index.wf(),
                index_in(self.index@, log),
                self.batch_player@ == entries_of_log(log.take(i as int)),
                entries_in(self.batch_player@, log),
            decreases n - i,
        {
            let ghost before = self.batch_player@;
            let rec = self.log.read_at(Address(i)).unwrap();
            self.batch_player.record(rec, Address(i));
            proof {
                assert(log.take(i + 1).drop_last() =~= log.take(i as int));
                assert(log.take(i + 1).last() == log[i as int]);
                let es = self.batch_player@;
                assert forall|x: int| 0 <= x < es.len() implies match (#[trigger] es[x]).op {
                    crate::batch_player::OpV::Write(k) => write_at(log, es[x].address, k),
                    _ => true,
                } by {
                    if x < before.len() {
                        assert(es[x] == before[x]);
                    }
                }
            }
            i = i + 1;
        }
        assert(log.take(n as int) =~= log);
        let ghost es = self.batch_player@;
        let mut j: usize = 0;
        while j < cs.len()
            invariant
                j <= cs@.len(),
                commits_ok(cs@),
                log == old(self).log_records(),
                es == entries_of_log(log),
                self.wf(),
                self.log.records() == log,
                self.log.is_writable() == old(self).log_writable(),
                self.batch_player@ == es,
                self.index@ == recovered(es, cs@.take(j as int)),
                j > 0 ==> map_below(self.index@, cs@[j - 1].commit.0),
                forall|x: int| 0 <= x < j ==> ready_spec(es, (#[trigger] cs@[x]).batch.0, cs@[x].batch_commit.0),
            decreases cs@.len() - j,
        {
            let d = cs[j];
            if !self.batch_player.is_ready(d.batch, d.batch_commit) {
                assert(!ready_spec(es, cs@[j as int].batch.0, cs@[j as int].batch_commit.0));
                self.batch_player = BatchPlayer::new();
                return Err(DbError::CorruptLog);
            }
            proof {
                assert(cs@.take(j + 1).drop_last() =~= cs@.take(j as int));
                assert(cs@.take(j + 1).last() == d);
                if j > 0 {
                    assert(cs@[j - 1].commit.0 < cs@[j as int].commit.0);
                }
                if j == 0 {
                    assert(cs@.take(0) =~= Seq::<CommitRecord>::empty());
                }
            }
            self.commit(d.batch, d.batch_commit, d.commit);
            j = j + 1;
        }
        assert(cs@.take(j as int) =~= cs@);
        self.batch_player = BatchPlayer::new();
        Ok(())
    }

    pub fn log_len(&self) -> (r: usize)
        ensures
            r == self.log_records().len(),
    {
        self.log.len()
    }

    pub fn record_at(&self, i: usize) -> (r: &Command)
        requires
            i < self.log_records().len(),
        ensures
            *r == self.log_records()[i as int],
    {
        self.log.read_at(Address(i)).unwrap()
    }

    /// Every entry of a cursor snapshot of this tree points at a write record
    /// of its key.
    pub proof fn lemma_snapshot_writes(&self, gen: u64, e: Seq<(Seq<u8>, Address)>)
        requires
            self.wf(),
            index::snapshot_of(self.index_view(), gen, e),
        ensures
            forall|i: int| 0 <= i < e.len() ==> write_at(self.log_records(), (#[trigger] e[i]).1, e[i].0),
    {
        assert forall|i: int| 0 <= i < e.len() implies write_at(self.log_records(), (#[trigger] e[i]).1, e[i].0) by {
            let k = e[i].0;
            let h = self.index@[k];
            assert(visible_write(h, gen) == Some(e[i].1));
            assert(history_in(self.index@, k) == h);
            lemma_latest_in(h, gen);
            let j = choose|j: int| 0 <= j < h.len() && h[j].1 == latest_before(h, gen)->0;
            assert(self.index@[k][j].1 == Value::Written(e[i].1));
        }
    }

    /// Forgets the index and all scratch, keeping the log.
    pub fn clear(&mut self)
        requires
            old(self).wf(),
        ensures
            final(self).wf(),
            final(self).log_records() == old(self).log_records(),
            final(self).log_writable() == old(self).log_writable(),
            final(self).player() == Seq::<crate::batch_player::EntryV>::empty(),
            final(self).index_view() == Map::<Seq<u8>, History>::empty(),
    {
        self.batch_player = BatchPlayer::new();
        self.index = Index::new();
    }

    /// Closes batch `batch` in this tree; its scratch is dropped whether or not
    /// the close record could be appended.
    pub fn close(&mut self, batch: Batch) -> (r: Result<(), DbError>)
        requires
            old(self).wf(),
        ensures
            final(self).wf(),
            final(self).index_view() == old(self).index_view(),
            final(self).log_writable() == old(self).log_writable(),
            final(self).player() == without_batch(old(self).player(), batch.0),
            r.is_ok() == old(self).log_writable(),
            r.is_ok() ==> final(self).log_records() == old(self).log_records().push(Command::Close { batch }),
            r.is_err() ==> r == Err::<(), DbError>(DbError::LogIo) && final(self).log_records() == old(self).log_records(),
    {
        let res = self.append_record(Command::Close { batch });
        self.emergency_close(batch);
        match res {
            Ok(_) => Ok(()),
            Err(e) => Err(e),
        }
    }

    fn emergency_close(&mut self, batch: Batch)
        requires
            old(self).wf(),
        ensures
            final(self).wf(),
            final(self).index_view() == old(self).index_view(),
            final(self).log_writable() == old(self).log_writable(),
            final(self).log_records() == old(self).log_records(),
            final(self).player() == without_batch(old(self).player(), batch.0),
    {
        proof {
            lemma_without_batch_in(self.batch_player@, self.log.records(), batch.0);
        }
        self.batch_player.discard(batch);
    }
}

/// `t1` is `t0` after an attempt to append `cmd`: on success the record is in
/// the log and in the scratch of its batch; on failure nothing changed.
pub open spec fn appended(t0: Tree, t1: Tree, cmd: Command, r: Result<(), DbError>) -> bool {
    &&& t1.index_view() == t0.index_view()
    &&& t1.log_writable() == t0.log_writable()
    &&& r.is_ok() == t0.log_writable()
    &&& r.is_ok() ==> t1.log_records() == t0.log_records().push(cmd)
        && t1.player() == match entry_of(cmd, Address(t0.log_records().len() as usize)) {
            Some(e) => t0.player().push(e),
            None => t0.player(),
        }
    &&& r.is_err() ==> r == Err::<(), DbError>(DbError::LogIo) && t1.log_records() == t0.log_records()
        && t1.player() == t0.player()
}

} // verus!
