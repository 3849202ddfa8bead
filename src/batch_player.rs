use vstd::prelude::*;
use crate::command::{Command, write_at};
use crate::key::Key;
use crate::types::{Address, Batch, BatchCommit};

verus! {

/// What a recorded entry does to its batch, in model form.
pub enum OpV {
    Write(Seq<u8>),
    Delete(Seq<u8>),
    DeleteRange(Seq<u8>, Seq<u8>),
    Push,
    Pop,
    Rollback,
    Ready(u64),
    Abort(u64),
}

/// A recorded entry, in model form.
pub struct EntryV {
    pub batch: u64,
    pub op: OpV,
    pub address: Address,
}

/// An index operation, in model form.
pub enum IndexOpV {
    Write(Seq<u8>, Address),
    Delete(Seq<u8>, Address),
    DeleteRange(Seq<u8>, Seq<u8>, Address),
}

/// The state of a replay: the operations so far, the start of each open
/// save-point frame, and whether the ready marker has been reached.
pub struct PlayState {
    pub ops: Seq<IndexOpV>,
    pub marks: Seq<int>,
    pub stopped: bool,
}

/// The entry a log record contributes to its batch, if any.
pub open spec fn entry_of(cmd: Command, a: Address) -> Option<EntryV> {
    match cmd {
        Command::Write { batch, key, .. } => Some(EntryV { batch: batch.0, op: OpV::Write(key@), address: a }),
        Command::Delete { batch, key } => Some(EntryV { batch: batch.0, op: OpV::Delete(key@), address: a }),
        Command::DeleteRange { batch, start_key, end_key } =>
            Some(EntryV { batch: batch.0, op: OpV::DeleteRange(start_key@, end_key@), address: a }),
        Command::PushSavePoint { batch } => Some(EntryV { batch: batch.0, op: OpV::Push, address: a }),
        Command::PopSavePoint { batch } => Some(EntryV { batch: batch.0, op: OpV::Pop, address: a }),
        Command::RollbackSavePoint { batch } => Some(EntryV { batch: batch.0, op: OpV::Rollback, address: a }),
        Command::ReadyCommit { batch, batch_commit } =>
            Some(EntryV { batch: batch.0, op: OpV::Ready(batch_commit.0), address: a }),
        Command::AbortCommit { batch, batch_commit } =>
            Some(EntryV { batch: batch.0, op: OpV::Abort(batch_commit.0), address: a }),
        Command::Open { .. } => None,
        Command::Close { .. } => None,
    }
}

pub open spec fn initial_state() -> PlayState {
    PlayState { ops: Seq::empty(), marks: Seq::empty(), stopped: false }
}

/// One entry's effect on the replay of batch `b` for batch commit `bc`.
///
/// Entries of other batches, and all entries after the ready marker of `bc`,
/// leave the state alone. A pop or rollback without an open frame is ignored.
pub open spec fn step(s: PlayState, e: EntryV, b: u64, bc: u64) -> PlayState {
    if s.stopped || e.batch != b {
        s
    } else {
        match e.op {
            OpV::Write(k) => PlayState { ops: s.ops.push(IndexOpV::Write(k, e.address)), marks: s.marks, stopped: false },
            OpV::Delete(k) => PlayState { ops: s.ops.push(IndexOpV::Delete(k, e.address)), marks: s.marks, stopped: false },
            OpV::DeleteRange(st, en) =>
                PlayState { ops: s.ops.push(IndexOpV::DeleteRange(st, en, e.address)), marks: s.marks, stopped: false },
            OpV::Push => PlayState { ops: s.ops, marks: s.marks.push(s.ops.len() as int), stopped: false },
            OpV::Pop => if s.marks.len() > 0 {
                PlayState { ops: s.ops, marks: s.marks.drop_last(), stopped: false }
            } else {
                s
            },
            OpV::Rollback => if s.marks.len() > 0 {
                PlayState { ops: s.ops.take(s.marks.last()), marks: s.marks.drop_last(), stopped: false }
            } else {
                s
            },
            OpV::Ready(x) => if x == bc {
                PlayState { ops: s.ops, marks: s.marks, stopped: true }
            } else {
                s
            },
            OpV::Abort(_) => s,
        }
    }
}

pub open spec fn play_from(s: PlayState, es: Seq<EntryV>, b: u64, bc: u64) -> PlayState
    decreases es.len(),
{
    if es.len() == 0 {
        s
    } else {
        step(play_from(s, es.drop_last(), b, bc), es.last(), b, bc)
    }
}

/// The operations of the outermost frame: those an unclosed save point began are left out.
pub open spec fn frame_base(s: PlayState) -> Seq<IndexOpV> {
    if s.marks.len() > 0 { s.ops.take(s.marks[0]) } else { s.ops }
}

/// The index operations that committing batch `b` at batch commit `bc` applies.
pub open spec fn replay_spec(es: Seq<EntryV>, b: u64, bc: u64) -> Seq<IndexOpV> {
    frame_base(play_from(initial_state(), es, b, bc))
}

pub open spec fn state_wf(s: PlayState) -> bool {
    forall|j: int| 0 <= j < s.marks.len() ==> 0 <= #[trigger] s.marks[j] <= s.ops.len()
        && forall|i: int| 0 <= i < j ==> s.marks[i] <= s.marks[j]
}

pub open spec fn has_batch(es: Seq<EntryV>, b: u64) -> bool {
    exists|i: int| 0 <= i < es.len() && (#[trigger] es[i]).batch == b
}

pub open spec fn has_op(es: Seq<EntryV>, b: u64, op: OpV) -> bool {
    exists|i: int| 0 <= i < es.len() && (#[trigger] es[i]).batch == b && es[i].op == op
}

/// Batch `b` may commit as `bc` here: it left no entries, or it declared `bc`
/// ready and never aborted it.
pub open spec fn ready_spec(es: Seq<EntryV>, b: u64, bc: u64) -> bool {
    !has_batch(es, b) || (has_op(es, b, OpV::Ready(bc)) && !has_op(es, b, OpV::Abort(bc)))
}

/// The entries left after those of batch `b` are dropped.
pub open spec fn without_batch(es: Seq<EntryV>, b: u64) -> Seq<EntryV>
    decreases es.len(),
{
    if es.len() == 0 {
        es
    } else if es.last().batch == b {
        without_batch(es.drop_last(), b)
    } else {
        without_batch(es.drop_last(), b).push(es.last())
    }
}

/// Every write entry points at a write record of its key in `log`.
pub open spec fn entries_in(es: Seq<EntryV>, log: Seq<Command>) -> bool {
    forall|i: int| 0 <= i < es.len() ==> match (#[trigger] es[i]).op {
        OpV::Write(k) => write_at(log, es[i].address, k),
        _ => true,
    }
}

/// Every write operation points at a write record of its key in `log`.
pub open spec fn ops_in(ops: Seq<IndexOpV>, log: Seq<Command>) -> bool {
    forall|i: int| 0 <= i < ops.len() ==> match #[trigger] ops[i] {
        IndexOpV::Write(k, a) => write_at(log, a, k),
        _ => true,
    }
}

/// The entry changes a key or a range of keys.
pub open spec fn is_mutation(e: EntryV) -> bool {
    match e.op {
        OpV::Write(_) | OpV::Delete(_) | OpV::DeleteRange(_, _) => true,
        _ => false,
    }
}

pub open spec fn mutations_of(m: Seq<EntryV>, b: u64) -> bool {
    forall|i: int| 0 <= i < m.len() ==> (#[trigger] m[i]).batch == b && is_mutation(m[i])
}

/// Declaring `bc` ready at the end of what batch `b` recorded leaves its replay for `bc` unchanged.
pub proof fn lemma_replay_ready_suffix(es: Seq<EntryV>, e: EntryV, b: u64, bc: u64)
    requires
        e.batch == b,
        e.op == OpV::Ready(bc),
    ensures
        replay_spec(es.push(e), b, bc) == replay_spec(es, b, bc),
{
    assert(es.push(e).drop_last() =~= es);
    assert(es.push(e).last() == e);
}

/// Replaying `a` then `c` is replaying their concatenation.
pub proof fn lemma_play_append(s: PlayState, a: Seq<EntryV>, c: Seq<EntryV>, b: u64, bc: u64)
    ensures
        play_from(s, a + c, b, bc) == play_from(play_from(s, a, b, bc), c, b, bc),
    decreases c.len(),
{
    if c.len() == 0 {
        assert(a + c =~= a);
    } else {
        assert((a + c).drop_last() =~= a + c.drop_last());
        assert((a + c).last() == c.last());
        lemma_play_append(s, a, c.drop_last(), b, bc);
    }
}

proof fn lemma_play_one(s: PlayState, e: EntryV, b: u64, bc: u64)
    ensures
        play_from(s, seq![e], b, bc) == step(s, e, b, bc),
{
    let one = seq![e];
    assert(one.drop_last() =~= Seq::<EntryV>::empty());
    assert(one.len() == 1);
    assert(one.last() == e);
    assert(play_from(s, one.drop_last(), b, bc) == s);
}

proof fn lemma_play_stopped(s: PlayState, c: Seq<EntryV>, b: u64, bc: u64)
    requires
        s.stopped,
    ensures
        play_from(s, c, b, bc) == s,
    decreases c.len(),
{
    if c.len() > 0 {
        lemma_play_stopped(s, c.drop_last(), b, bc);
    }
}

proof fn lemma_play_mutations(s: PlayState, m: Seq<EntryV>, b: u64, bc: u64)
    requires
        !s.stopped,
        mutations_of(m, b),
    ensures
        play_from(s, m, b, bc).marks == s.marks,
        !play_from(s, m, b, bc).stopped,
        play_from(s, m, b, bc).ops.len() >= s.ops.len(),
        play_from(s, m, b, bc).ops.take(s.ops.len() as int) == s.ops,
    decreases m.len(),
{
    if m.len() > 0 {
        let m2 = m.drop_last();
        assert(mutations_of(m2, b)) by {
            assert forall|i: int| 0 <= i < m2.len() implies (#[trigger] m2[i]).batch == b && is_mutation(m2[i]) by {
                assert(m2[i] == m[i]);
            }
        }
        lemma_play_mutations(s, m2, b, bc);
        let t = play_from(s, m2, b, bc);
        assert(m.last() == m[m.len() - 1]);
        let u = play_from(s, m, b, bc);
        assert(u.ops.take(s.ops.len() as int) =~= t.ops.take(s.ops.len() as int));
    }
}

/// A save point pushed, then changed only by mutations, then rolled back,
/// leaves what the batch replays unchanged.
pub proof fn lemma_rollback_is_noop(es: Seq<EntryV>, m: Seq<EntryV>, b: u64, bc: u64, a1: Address, a2: Address)
    requires
        mutations_of(m, b),
    ensures
        replay_spec(
            es + seq![EntryV { batch: b, op: OpV::Push, address: a1 }] + m
                + seq![EntryV { batch: b, op: OpV::Rollback, address: a2 }],
            b,
            bc,
        ) == replay_spec(es, b, bc),
{
    let push = seq![EntryV { batch: b, op: OpV::Push, address: a1 }];
    let rb = seq![EntryV { batch: b, op: OpV::Rollback, address: a2 }];
    let s0 = play_from(initial_state(), es, b, bc);
    lemma_play_append(initial_state(), es, push, b, bc);
    lemma_play_append(initial_state(), es + push, m, b, bc);
    lemma_play_append(initial_state(), es + push + m, rb, b, bc);
    let s1 = play_from(s0, push, b, bc);
    lemma_play_one(s0, push[0], b, bc);
    assert(push =~= seq![push[0]]);
    if s0.stopped {
        lemma_play_stopped(s0, push, b, bc);
        lemma_play_stopped(s0, m, b, bc);
        lemma_play_stopped(s0, rb, b, bc);
    } else {
        lemma_play_mutations(s1, m, b, bc);
        let s2 = play_from(s1, m, b, bc);
        let s3 = play_from(s2, rb, b, bc);
        lemma_play_one(s2, rb[0], b, bc);
        assert(rb =~= seq![rb[0]]);
        assert(s3.ops =~= s0.ops);
        assert(s3.marks =~= s0.marks);
    }
}

/// A save point pushed, then changed only by mutations, then popped, replays
/// as the mutations alone.
pub proof fn lemma_pop_keeps_changes(es: Seq<EntryV>, m: Seq<EntryV>, b: u64, bc: u64, a1: Address, a2: Address)
    requires
        mutations_of(m, b),
    ensures
        replay_spec(
            es + seq![EntryV { batch: b, op: OpV::Push, address: a1 }] + m
                + seq![EntryV { batch: b, op: OpV::Pop, address: a2 }],
            b,
            bc,
        ) == replay_spec(es + m, b, bc),
{
    let push = seq![EntryV { batch: b, op: OpV::Push, address: a1 }];
    let pop = seq![EntryV { batch: b, op: OpV::Pop, address: a2 }];
    let s0 = play_from(initial_state(), es, b, bc);
    lemma_play_append(initial_state(), es, push, b, bc);
    lemma_play_append(initial_state(), es + push, m, b, bc);
    lemma_play_append(initial_state(), es + push + m, pop, b, bc);
    lemma_play_append(initial_state(), es, m, b, bc);
    lemma_play_one(s0, push[0], b, bc);
    assert(push =~= seq![push[0]]);
    if s0.stopped {
        lemma_play_stopped(s0, push, b, bc);
        lemma_play_stopped(s0, m, b, bc);
        lemma_play_stopped(s0, pop, b, bc);
    } else {
        let s1 = play_from(s0, push, b, bc);
        lemma_play_mutations(s1, m, b, bc);
        lemma_play_mutations(s0, m, b, bc);
        lemma_play_pushed(s0, m, b, bc);
        let s2 = play_from(s1, m, b, bc);
        let s3 = play_from(s2, pop, b, bc);
        lemma_play_one(s2, pop[0], b, bc);
        assert(pop =~= seq![pop[0]]);
        assert(s3.marks =~= s0.marks);
    }
}

proof fn lemma_play_pushed(s: PlayState, m: Seq<EntryV>, b: u64, bc: u64)
    requires
        !s.stopped,
        mutations_of(m, b),
    ensures
        play_from(PlayState { ops: s.ops, marks: s.marks.push(s.ops.len() as int), stopped: false }, m, b, bc).ops
            == play_from(s, m, b, bc).ops,
    decreases m.len(),
{
    if m.len() > 0 {
        let m2 = m.drop_last();
        assert(mutations_of(m2, b)) by {
            assert forall|i: int| 0 <= i < m2.len() implies (#[trigger] m2[i]).batch == b && is_mutation(m2[i]) by {
                assert(m2[i] == m[i]);
            }
        }
        lemma_play_pushed(s, m2, b, bc);
        lemma_play_mutations(s, m2, b, bc);
        lemma_play_mutations(PlayState { ops: s.ops, marks: s.marks.push(s.ops.len() as int), stopped: false }, m2, b, bc);
        assert(m.last() == m[m.len() - 1]);
    }
}

proof fn lemma_play_wf(es: Seq<EntryV>, b: u64, bc: u64)
    ensures
        state_wf(play_from(initial_state(), es, b, bc)),
    decreases es.len(),
{
    if es.len() > 0 {
        lemma_play_wf(es.drop_last(), b, bc);
        let s = play_from(initial_state(), es.drop_last(), b, bc);
        let t = play_from(initial_state(), es, b, bc);
        assert forall|j: int| 0 <= j < t.marks.len() implies 0 <= #[trigger] t.marks[j] <= t.ops.len()
            && forall|i: int| 0 <= i < j ==> t.marks[i] <= t.marks[j] by {
            if j < s.marks.len() {
                assert(t.marks[j] == s.marks[j]);
                assert(forall|i: int| 0 <= i < j ==> t.marks[i] == s.marks[i]);
                if t.marks.len() < s.marks.len() && t.ops.len() < s.ops.len() {
                    assert(t.ops.len() == s.marks.last());
                    assert(s.marks[j] <= s.marks[s.marks.len() - 1]);
                }
            }
        }
    }
}

proof fn lemma_play_ops_in(es: Seq<EntryV>, log: Seq<Command>, b: u64, bc: u64)
    requires
        entries_in(es, log),
    ensures
        ops_in(play_from(initial_state(), es, b, bc).ops, log),
    decreases es.len(),
{
    if es.len() > 0 {
        let es2 = es.drop_last();
        assert(entries_in(es2, log)) by {
            assert forall|i: int| 0 <= i < es2.len() implies match (#[trigger] es2[i]).op {
                OpV::Write(k) => write_at(log, es2[i].address, k),
                _ => true,
            } by {
                assert(es2[i] == es[i]);
            }
        }
        lemma_play_ops_in(es2, log, b, bc);
        lemma_play_wf(es2, b, bc);
        let s = play_from(initial_state(), es2, b, bc);
        let t = play_from(initial_state(), es, b, bc);
        assert(es.last() == es[es.len() - 1]);
        assert forall|i: int| 0 <= i < t.ops.len() implies match #[trigger] t.ops[i] {
            IndexOpV::Write(k, a) => write_at(log, a, k),
            _ => true,
        } by {
            if i < s.ops.len() {
                assert(t.ops[i] == s.ops[i]);
            }
        }
    }
}

/// Every write that a replay applies points at a write record of its key.
pub proof fn lemma_replay_ops_in(es: Seq<EntryV>, log: Seq<Command>, b: u64, bc: u64)
    requires
        entries_in(es, log),
    ensures
        ops_in(replay_spec(es, b, bc), log),
{
    lemma_play_ops_in(es, log, b, bc);
    lemma_play_wf(es, b, bc);
    let s = play_from(initial_state(), es, b, bc);
    let r = replay_spec(es, b, bc);
    assert forall|i: int| 0 <= i < r.len() implies match #[trigger] r[i] {
        IndexOpV::Write(k, a) => write_at(log, a, k),
        _ => true,
    } by {
        assert(r[i] == s.ops[i]);
    }
}

pub proof fn lemma_without_batch_in(es: Seq<EntryV>, log: Seq<Command>, b: u64)
    requires
        entries_in(es, log),
    ensures
        entries_in(without_batch(es, b), log),
    decreases es.len(),
{
    if es.len() > 0 {
        let es2 = es.drop_last();
        assert(entries_in(es2, log)) by {
            assert forall|i: int| 0 <= i < es2.len() implies match (#[trigger] es2[i]).op {
                OpV::Write(k) => write_at(log, es2[i].address, k),
                _ => true,
            } by {
                assert(es2[i] == es[i]);
            }
        }
        lemma_without_batch_in(es2, log, b);
        assert(es.last() == es[es.len() - 1]);
        let w = without_batch(es2, b);
        if es.last().batch != b {
            let w2 = w.push(es.last());
            assert forall|i: int| 0 <= i < w2.len() implies match (#[trigger] w2[i]).op {
                OpV::Write(k) => write_at(log, w2[i].address, k),
                _ => true,
            } by {
                if i < w.len() {
                    assert(w2[i] == w[i]);
                }
            }
        }
    }
}

/// Entries that point into a log still do once the log grows.
pub proof fn lemma_entries_in_grow(es: Seq<EntryV>, log: Seq<Command>, r: Command)
    requires
        entries_in(es, log),
    ensures
        entries_in(es, log.push(r)),
{
    assert forall|i: int| 0 <= i < es.len() implies match (#[trigger] es[i]).op {
        OpV::Write(k) => write_at(log.push(r), es[i].address, k),
        _ => true,
    } by {
        match es[i].op {
            OpV::Write(k) => {
                assert(log.push(r)[es[i].address.0 as int] == log[es[i].address.0 as int]);
            },
            _ => {},
        }
    }
}

pub enum PlayOp {
    Write(Key),
    Delete(Key),
    DeleteRange(Key, Key),
    Push,
    Pop,
    Rollback,
    Ready(BatchCommit),
    Abort(BatchCommit),
}

pub struct Entry {
    pub batch: Batch,
    pub op: PlayOp,
    pub address: Address,
}

/// An operation on an index, produced by replaying a batch.
pub enum IndexOp {
    Write { key: Key, address: Address },
    Delete { key: Key, address: Address },
    DeleteRange { start_key: Key, end_key: Key, address: Address },
}

impl View for Entry {
    type V = EntryV;

    open spec fn view(&self) -> EntryV {
        EntryV {
            batch: self.batch.0,
            op: match self.op {
                PlayOp::Write(k) => OpV::Write(k@),
                PlayOp::Delete(k) => OpV::Delete(k@),
                PlayOp::DeleteRange(s, e) => OpV::DeleteRange(s@, e@),
                PlayOp::Push => OpV::Push,
                PlayOp::Pop => OpV::Pop,
                PlayOp::Rollback => OpV::Rollback,
                PlayOp::Ready(bc) => OpV::Ready(bc.0),
                PlayOp::Abort(bc) => OpV::Abort(bc.0),
            },
            address: self.address,
        }
    }
}

impl View for IndexOp {
    type V = IndexOpV;

    open spec fn view(&self) -> IndexOpV {
        match self {
            IndexOp::Write { key, address } => IndexOpV::Write(key@, *address),
            IndexOp::Delete { key, address } => IndexOpV::Delete(key@, *address),
            IndexOp::DeleteRange { start_key, end_key, address } => IndexOpV::DeleteRange(start_key@, end_key@, *address),
        }
    }
}

impl Entry {
    fn copy(&self) -> (r: Entry)
        ensures
            r@ == self@,
    {
        let op = match &self.op {
            PlayOp::Write(k) => PlayOp::Write(k.copy()),
            PlayOp::Delete(k) => PlayOp::Delete(k.copy()),
            PlayOp::DeleteRange(s, e) => PlayOp::DeleteRange(s.copy(), e.copy()),
            PlayOp::Push => PlayOp::Push,
            PlayOp::Pop => PlayOp::Pop,
            PlayOp::Rollback => PlayOp::Rollback,
            PlayOp::Ready(bc) => PlayOp::Ready(*bc),
            PlayOp::Abort(bc) => PlayOp::Abort(*bc),
        };
        Entry { batch: self.batch, op, address: self.address }
    }
}

pub open spec fn ops_view(ops: Seq<IndexOp>) -> Seq<IndexOpV> {
    ops.map_values(|o: IndexOp| o@)
}

/// Per-tree scratch that records what live batches did, in log order.
pub struct BatchPlayer {
    entries: Vec<Entry>,
}

impl BatchPlayer {
    pub closed spec fn view(&self) -> Seq<EntryV> {
        self.entries@.map_values(|e: Entry| e@)
    }

    pub fn new() -> (r: BatchPlayer)
        ensures
            r@ == Seq::<EntryV>::empty(),
    {
        let r = BatchPlayer { entries: Vec::new() };
        assert(r@ =~= Seq::<EntryV>::empty());
        r
    }

    /// Records what the log record `cmd`, appended at `address`, does to its batch.
    pub fn record(&mut self, cmd: &Command, address: Address)
        ensures
            final(self)@ == match entry_of(*cmd, address) {
                Some(e) => old(self)@.push(e),
                None => old(self)@,
            },
    {
        let op = match cmd {
            Command::Write { key, .. } => Some(PlayOp::Write(key.copy())),
            Command::Delete { key, .. } => Some(PlayOp::Delete(key.copy())),
            Command::DeleteRange { start_key, end_key, .. } => Some(PlayOp::DeleteRange(start_key.copy(), end_key.copy())),
            Command::PushSavePoint { .. } => Some(PlayOp::Push),
            Command::PopSavePoint { .. } => Some(PlayOp::Pop),
            Command::RollbackSavePoint { .. } => Some(PlayOp::Rollback),
            Command::ReadyCommit { batch_commit, .. } => Some(PlayOp::Ready(*batch_commit)),
            Command::AbortCommit { batch_commit, .. } => Some(PlayOp::Abort(*batch_commit)),
            Command::Open { .. } => None,
            Command::Close { .. } => None,
        };
        if let Some(op) = op {
            let ghost prev = self@;
            self.entries.push(Entry { batch: cmd.batch(), op, address });
            assert(self@ =~= prev.push(self.entries@.last()@));
        } else {
            assert(self@ == old(self)@);
        }
    }

    /// Drops every entry of batch `b`.
    pub fn discard(&mut self, b: Batch)
        ensures
            final(self)@ == without_batch(old(self)@, b.0),
    {
        let mut kept: Vec<Entry> = Vec::new();
        let mut i: usize = 0;
        while i < self.entries.len()
            invariant
                i <= self.entries@.len(),
                kept@.map_values(|e: Entry| e@) == without_batch(self@.take(i as int), b.0),
            decreases self.entries@.len() - i,
        {
            let ghost before = kept@.map_values(|e: Entry| e@);
            assert(self@.take(i + 1).drop_last() =~= self@.take(i as int));
            if self.entries[i].batch.0 != b.0 {
                let e = self.entries[i].copy();
                kept.push(e);
                assert(kept@.map_values(|e: Entry| e@) =~= before.push(self@[i as int]));
            }
            i = i + 1;
        }
        assert(self@.take(i as int) =~= self@);
        self.entries = kept;
    }

    /// Whether batch `b` may commit as `bc` in this tree.
    pub fn is_ready(&self, b: Batch, bc: BatchCommit) -> (r: bool)
        ensures
            r == ready_spec(self@, b.0, bc.0),
    {
        let mut seen = false;
        let mut ready = false;
        let mut aborted = false;
        let mut i: usize = 0;
        while i < self.entries.len()
            invariant
                i <= self.entries@.len(),
                seen == has_batch(self@.take(i as int), b.0),
                ready == has_op(self@.take(i as int), b.0, OpV::Ready(bc.0)),
                aborted == has_op(self@.take(i as int), b.0, OpV::Abort(bc.0)),
            decreases self.entries@.len() - i,
        {
            let e = &self.entries[i];
            let ghost t = self@.take(i + 1);
            assert(t[i as int] == self@[i as int]);
            assert(forall|j: int| 0 <= j < i ==> t[j] == self@.take(i as int)[j]);
            if e.batch.0 == b.0 {
                seen = true;
                match &e.op {
                    PlayOp::Ready(x) => {
                        if x.0 == bc.0 {
                            ready = true;
                        }
                    },
                    PlayOp::Abort(x) => {
                        if x.0 == bc.0 {
                            aborted = true;
                        }
                    },
                    _ => {},
                }
            }
            i = i + 1;
        }
        assert(self@.take(i as int) =~= self@);
        !seen || (ready && !aborted)
    }

    /// The index operations that committing batch `b` as `bc` applies.
    pub fn replay(&self, b: Batch, bc: BatchCommit) -> (r: Vec<IndexOp>)
        ensures
            ops_view(r@) == replay_spec(self@, b.0, bc.0),
    {
        let mut ops: Vec<IndexOp> = Vec::new();
        let mut marks: Vec<usize> = Vec::new();
        let mut stopped = false;
        let mut i: usize = 0;
        assert(ops_view(ops@) =~= Seq::<IndexOpV>::empty());
        assert(marks@.map_values(|m: usize| m as int) =~= Seq::<int>::empty());
        assert(self@.take(0) =~= Seq::<EntryV>::empty());
        while i < self.entries.len()
            invariant
                i <= self.entries@.len(),
                (PlayState { ops: ops_view(ops@), marks: marks@.map_values(|m: usize| m as int), stopped })
                    == play_from(initial_state(), self@.take(i as int), b.0, bc.0),
                forall|j: int| 0 <= j < marks@.len() ==> #[trigger] marks@[j] <= ops@.len()
                    && forall|x: int| 0 <= x < j ==> marks@[x] <= marks@[j],
            decreases self.entries@.len() - i,
        {
            let ghost s = PlayState { ops: ops_view(ops@), marks: marks@.map_values(|m: usize| m as int), stopped };
            assert(self@.take(i + 1).drop_last() =~= self@.take(i as int));
            assert(self@.take(i + 1).last() == self@[i as int]);
            let e = &self.entries[i];
            if !stopped && e.batch.0 == b.0 {
                match &e.op {
                    PlayOp::Write(k) => {
                        ops.push(IndexOp::Write { key: k.copy(), address: e.address });
                        assert(ops_view(ops@) =~= s.ops.push(ops@.last()@));
                    },
                    PlayOp::Delete(k) => {
                        ops.push(IndexOp::Delete { key: k.copy(), address: e.address });
                        assert(ops_view(ops@) =~= s.ops.push(ops@.last()@));
                    },
                    PlayOp::DeleteRange(st, en) => {
                        ops.push(IndexOp::DeleteRange { start_key: st.copy(), end_key: en.copy(), address: e.address });
                        assert(ops_view(ops@) =~= s.ops.push(ops@.last()@));
                    },
                    PlayOp::Push => {
                        marks.push(ops.len());
                        assert(marks@.map_values(|m: usize| m as int) =~= s.marks.push(ops@.len() as int));
                    },
                    PlayOp::Pop => {
                        if marks.len() > 0 {
                            marks.pop();
                            assert(marks@.map_values(|m: usize| m as int) =~= s.marks.drop_last());
                        }
                    },
                    PlayOp::Rollback => {
                        if marks.len() > 0 {
                            let m = marks.pop().unwrap();
                            ops.truncate(m);
                            assert(marks@.map_values(|m: usize| m as int) =~= s.marks.drop_last());
                            assert(ops_view(ops@) =~= s.ops.take(m as int));
                        }
                    },
                    PlayOp::Ready(x) => {
                        if x.0 == bc.0 {
                            stopped = true;
                        }
                    },
                    PlayOp::Abort(_) => {},
                }
            }
            i = i + 1;
        }
        assert(self@.take(i as int) =~= self@);
        if marks.len() > 0 {
            let m = marks[0];
            ops.truncate(m);
            assert(ops_view(ops@) =~= play_from(initial_state(), self@, b.0, bc.0).ops.take(m as int));
        }
        ops
    }
}

} // verus!
