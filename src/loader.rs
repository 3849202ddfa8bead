use vstd::prelude::*;
use crate::batch_player::{
    EntryV, OpV, PlayState, entry_of, has_batch, has_op, initial_state, lemma_play_append, play_from, ready_spec, replay_spec,
};
use crate::command::{Command, CommitRecord};
use crate::index::History;
use crate::tree::apply_ops;
use crate::types::{Address, Batch};

verus! {

/// The entries that replaying `log` from its start records, in log order.
pub open spec fn entries_of_log(log: Seq<Command>) -> Seq<EntryV>
    decreases log.len(),
{
    if log.len() == 0 {
        Seq::empty()
    } else {
        let prev = entries_of_log(log.drop_last());
        match entry_of(log.last(), Address((log.len() - 1) as usize)) {
            Some(e) => prev.push(e),
            None => prev,
        }
    }
}

/// The index that recovery rebuilds from a tree's entries and the master commits, in order.
pub open spec fn recovered(es: Seq<EntryV>, cs: Seq<CommitRecord>) -> Map<Seq<u8>, History>
    decreases cs.len(),
{
    if cs.len() == 0 {
        Map::empty()
    } else {
        let d = cs.last();
        apply_ops(recovered(es, cs.drop_last()), replay_spec(es, d.batch.0, d.batch_commit.0), d.commit.0)
    }
}

/// Master commits are in strictly increasing commit order and commit each batch at most once.
pub open spec fn commits_ok(cs: Seq<CommitRecord>) -> bool {
    forall|i: int, j: int| 0 <= i < j < cs.len() ==> cs[i].commit.0 < cs[j].commit.0 && cs[i].batch != cs[j].batch
}

/// Every master commit is declared ready, and not aborted, wherever its batch left entries.
pub open spec fn all_ready(es: Seq<EntryV>, cs: Seq<CommitRecord>) -> bool {
    forall|i: int| 0 <= i < cs.len() ==> ready_spec(es, (#[trigger] cs[i]).batch.0, cs[i].batch_commit.0)
}

} // verus!

verus! {

proof fn lemma_entries_of_log_append(log: Seq<Command>, extra: Seq<Command>, b: u64)
    requires
        forall|i: int| 0 <= i < extra.len() ==> (#[trigger] extra[i]).batch_of().0 == b,
    ensures
        entries_of_log(log).len() <= entries_of_log(log + extra).len(),
        entries_of_log(log + extra).take(entries_of_log(log).len() as int) == entries_of_log(log),
        forall|i: int| entries_of_log(log).len() <= i < entries_of_log(log + extra).len()
            ==> (#[trigger] entries_of_log(log + extra)[i]).batch == b,
    decreases extra.len(),
{
    if extra.len() == 0 {
        assert(log + extra =~= log);
        assert(entries_of_log(log).take(entries_of_log(log).len() as int) =~= entries_of_log(log));
    } else {
        let e2 = extra.drop_last();
        assert forall|i: int| 0 <= i < e2.len() implies (#[trigger] e2[i]).batch_of().0 == b by {
            assert(e2[i] == extra[i]);
        }
        lemma_entries_of_log_append(log, e2, b);
        assert((log + extra).drop_last() =~= log + e2);
        assert((log + extra).last() == extra[extra.len() - 1]);
        let prev = entries_of_log(log + e2);
        let cur = entries_of_log(log + extra);
        let n = entries_of_log(log).len() as int;
        assert(cur.take(n) =~= prev.take(n));
        assert forall|i: int| n <= i < cur.len() implies (#[trigger] cur[i]).batch == b by {
            if i < prev.len() {
                assert(cur[i] == prev[i]);
            }
        }
    }
}

proof fn lemma_play_other_batch(s: PlayState, es: Seq<EntryV>, b: u64, bc: u64)
    requires
        forall|i: int| 0 <= i < es.len() ==> (#[trigger] es[i]).batch != b,
    ensures
        play_from(s, es, b, bc) == s,
    decreases es.len(),
{
    if es.len() > 0 {
        let e2 = es.drop_last();
        assert forall|i: int| 0 <= i < e2.len() implies (#[trigger] e2[i]).batch != b by {
            assert(e2[i] == es[i]);
        }
        lemma_play_other_batch(s, e2, b, bc);
        assert(es.last() == es[es.len() - 1]);
    }
}

proof fn lemma_extra_entries(es: Seq<EntryV>, all: Seq<EntryV>, b: u64, x: u64, bc: u64)
    requires
        es.len() <= all.len(),
        all.take(es.len() as int) == es,
        forall|i: int| es.len() <= i < all.len() ==> (#[trigger] all[i]).batch == b,
        x != b,
    ensures
        replay_spec(all, x, bc) == replay_spec(es, x, bc),
        ready_spec(all, x, bc) == ready_spec(es, x, bc),
{
    let tail = all.subrange(es.len() as int, all.len() as int);
    assert(all =~= es + tail);
    lemma_play_append(initial_state(), es, tail, x, bc);
    assert forall|i: int| 0 <= i < tail.len() implies (#[trigger] tail[i]).batch != x by {
        assert(tail[i] == all[es.len() + i]);
    }
    lemma_play_other_batch(play_from(initial_state(), es, x, bc), tail, x, bc);
    if has_batch(all, x) {
        let i = choose|i: int| 0 <= i < all.len() && (#[trigger] all[i]).batch == x;
        assert(es[i] == all[i]);
    }
    if has_batch(es, x) {
        let i = choose|i: int| 0 <= i < es.len() && (#[trigger] es[i]).batch == x;
        assert(es[i] == all[i]);
    }
    assert forall|op: OpV| has_op(all, x, op) == has_op(es, x, op) by {
        if has_op(all, x, op) {
            let i = choose|i: int| 0 <= i < all.len() && (#[trigger] all[i]).batch == x && all[i].op == op;
            assert(es[i] == all[i]);
        }
        if has_op(es, x, op) {
            let i = choose|i: int| 0 <= i < es.len() && (#[trigger] es[i]).batch == x && es[i].op == op;
            assert(es[i] == all[i]);
        }
    }
    assert(has_op(all, x, OpV::Ready(bc)) == has_op(es, x, OpV::Ready(bc)));
    assert(has_op(all, x, OpV::Abort(bc)) == has_op(es, x, OpV::Abort(bc)));
}

/// Recovery ignores a batch that never reached the commit log: appending to a
/// tree's log any records of batch `b`, when no master commit names `b`, leaves
/// both the recovered index and the readiness check as they were. A crash just
/// before a master commit therefore recovers to the same indexes as a clean
/// shutdown before that batch began.
pub proof fn lemma_recovery_ignores_uncommitted(log: Seq<Command>, extra: Seq<Command>, cs: Seq<CommitRecord>, b: Batch)
    requires
        forall|i: int| 0 <= i < extra.len() ==> (#[trigger] extra[i]).batch_of() == b,
        forall|i: int| 0 <= i < cs.len() ==> (#[trigger] cs[i]).batch != b,
    ensures
        recovered(entries_of_log(log + extra), cs) == recovered(entries_of_log(log), cs),
        all_ready(entries_of_log(log + extra), cs) == all_ready(entries_of_log(log), cs),
    decreases cs.len(),
{
    let es = entries_of_log(log);
    let all = entries_of_log(log + extra);
    lemma_entries_of_log_append(log, extra, b.0);
    if cs.len() > 0 {
        let c2 = cs.drop_last();
        assert forall|i: int| 0 <= i < c2.len() implies (#[trigger] c2[i]).batch != b by {
            assert(c2[i] == cs[i]);
        }
        lemma_recovery_ignores_uncommitted(log, extra, c2, b);
        let d = cs[cs.len() - 1];
        assert(cs.last() == d);
        assert(d.batch.0 != b.0) by {
            assert(d.batch != b);
        }
        lemma_extra_entries(es, all, b.0, d.batch.0, d.batch_commit.0);
    }
    assert forall|i: int| 0 <= i < cs.len() implies ready_spec(all, (#[trigger] cs[i]).batch.0, cs[i].batch_commit.0)
        == ready_spec(es, cs[i].batch.0, cs[i].batch_commit.0) by {
        assert(cs[i].batch.0 != b.0) by {
            assert(cs[i].batch != b);
        }
        lemma_extra_entries(es, all, b.0, cs[i].batch.0, cs[i].batch_commit.0);
    }
}

} // verus!
