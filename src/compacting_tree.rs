use vstd::prelude::*;
use crate::index::{
    self, add_version, history_in, last_position, latest_before, map_add_version, map_below, next_position, prev_position,
    visible_write,
};
use crate::key::{Key, key_le, key_lt, lemma_key_order};
use crate::log::Log;
use crate::tree::{self, Tree, opt_bytes, read_spec, value_at};
use crate::command::write_at;
use crate::types::{Address, Batch, Commit, DbError};

verus! {

/// The one batch number of a compacted log.
pub const COMPACTED_BATCH_NUM: u64 = 0;

pub enum CompactState {
    NotCompacting,
    Compacting,
}

/// A tree whose log can be rotated into a compacted log.
///
/// `active` takes new batches and is searched first; `compacting` is the
/// previous active tree, frozen while it is compacted; `compacted` is the
/// result of the last compaction; `trash` holds retired trees.
pub struct CompactingTree {
    compact_state: CompactState,
    active: Tree,
    compacting: Option<Tree>,
    compacted: Option<Tree>,
    trash: Vec<Tree>,
}

/// A cursor merging a newer and an older source in key order; on equal keys
/// the newer source wins.
pub struct Cursor {
    pub newer: index::Cursor,
    pub older: index::Cursor,
    pub current: Option<usize>,
}

/// What a read of `k` through the layers `ts` returns: the answer of the first
/// layer that holds a version of `k` visible below `limit`.
pub open spec fn layered_read(ts: Seq<Tree>, limit: u64, k: Seq<u8>) -> Option<Seq<u8>>
    decreases ts.len(),
{
    if ts.len() == 0 {
        None
    } else if latest_before(history_in(ts[0].index_view(), k), limit) is Some {
        read_spec(ts[0].index_view(), ts[0].log_records(), limit, k)
    } else {
        layered_read(ts.drop_first(), limit, k)
    }
}

/// What a read of `k` below `limit` returns when `t1` is searched before `t2`.
pub open spec fn expected(t1: Tree, t2: Tree, limit: u64, k: Seq<u8>) -> Option<Seq<u8>> {
    if latest_before(history_in(t1.index_view(), k), limit) is Some {
        read_spec(t1.index_view(), t1.log_records(), limit, k)
    } else {
        read_spec(t2.index_view(), t2.log_records(), limit, k)
    }
}

/// `k` holds exactly one version in `t`, a write at commit `c` whose value is `v`.
pub open spec fn holds_version(t: Tree, k: Seq<u8>, c: u64, v: Option<Seq<u8>>) -> bool {
    let h = t.index_view()[k];
    &&& h.len() == 1
    &&& h[0].0 == c
    &&& match h[0].1 {
        index::Value::Written(a) => a.0 < t.log_records().len() && v == Some(value_at(t.log_records(), a)),
        index::Value::Deleted(_) => false,
    }
}

proof fn lemma_read_written(t: Tree, limit: u64, k: Seq<u8>, a: Address)
    requires
        t.index_view().contains_key(k),
        visible_write(t.index_view()[k], limit) == Some(a),
    ensures
        latest_before(history_in(t.index_view(), k), limit) is Some,
        read_spec(t.index_view(), t.log_records(), limit, k) == Some(value_at(t.log_records(), a)),
{
}

proof fn lemma_after_install(
    before: Tree,
    after: Tree,
    t1: Tree,
    t2: Tree,
    limit: u64,
    k: Seq<u8>,
    c: u64,
    a: Address,
    v: Seq<u8>,
)
    requires
        forall|kk: Seq<u8>| #[trigger] before.index_view().contains_key(kk)
            ==> holds_version(before, kk, c, expected(t1, t2, limit, kk)),
        a.0 == before.log_records().len(),
        after.log_records().len() == before.log_records().len() + 1,
        forall|i: int| 0 <= i < before.log_records().len() ==> after.log_records()[i] == before.log_records()[i],
        after.index_view() == map_add_version(before.index_view(), k, c, index::Value::Written(a)),
        value_at(after.log_records(), a) == v,
        expected(t1, t2, limit, k) == Some(v),
    ensures
        forall|kk: Seq<u8>| #[trigger] after.index_view().contains_key(kk)
            <==> before.index_view().contains_key(kk) || kk == k,
        forall|kk: Seq<u8>| #[trigger] after.index_view().contains_key(kk)
            ==> holds_version(after, kk, c, expected(t1, t2, limit, kk)),
{
    assert forall|kk: Seq<u8>| #[trigger] after.index_view().contains_key(kk)
        implies holds_version(after, kk, c, expected(t1, t2, limit, kk)) by {
        if kk == k {
            let h0 = history_in(before.index_view(), k);
            let h = after.index_view()[k];
            assert(h == add_version(h0, c, index::Value::Written(a)));
            if before.index_view().contains_key(k) {
                assert(h0.len() == 1 && h0[0].0 == c);
                assert(h0.last().0 == c);
                assert(h =~= seq![(c, index::Value::Written(a))]);
            } else {
                assert(h =~= seq![(c, index::Value::Written(a))]);
            }
        } else {
            let h = before.index_view()[kk];
            assert(after.index_view()[kk] == h);
            match h[0].1 {
                index::Value::Written(b) => {
                    assert(after.log_records()[b.0 as int] == before.log_records()[b.0 as int]);
                },
                index::Value::Deleted(_) => {},
            }
        }
    }
}

proof fn lemma_final_read(
    wip: Tree,
    t1: Tree,
    t2: Tree,
    limit: u64,
    c: u64,
    k: Seq<u8>,
    e1: Seq<(Seq<u8>, Address)>,
    e2: Seq<(Seq<u8>, Address)>,
)
    requires
        c < limit,
        index::snapshot_of(t1.index_view(), limit, e1),
        index::snapshot_of(t2.index_view(), limit, e2),
        forall|kk: Seq<u8>| #[trigger] wip.index_view().contains_key(kk)
            <==> (exists|x: int| 0 <= x < e1.len() && e1[x].0 == kk)
                || (exists|y: int| 0 <= y < e2.len() && e2[y].0 == kk
                    && latest_before(history_in(t1.index_view(), kk), limit) is None),
        forall|kk: Seq<u8>| #[trigger] wip.index_view().contains_key(kk)
            ==> holds_version(wip, kk, c, expected(t1, t2, limit, kk)),
    ensures
        read_spec(wip.index_view(), wip.log_records(), limit, k) == expected(t1, t2, limit, k),
{
    if wip.index_view().contains_key(k) {
        let h = wip.index_view()[k];
        assert(h.len() == 1);
        assert(h.drop_last() =~= Seq::<(u64, index::Value)>::empty());
        assert(h.last() == h[0]);
    } else {
        assert(history_in(wip.index_view(), k) =~= Seq::<(u64, index::Value)>::empty());
        let m1 = t1.index_view();
        let m2 = t2.index_view();
        if latest_before(history_in(m1, k), limit) is Some {
            if !m1.contains_key(k) {
                assert(history_in(m1, k) =~= Seq::<(u64, index::Value)>::empty());
            }
            if visible_write(m1[k], limit).is_some() {
                let x = choose|x: int| 0 <= x < e1.len() && e1[x].0 == k;
                assert(wip.index_view().contains_key(k));
            }
        } else {
            if m2.contains_key(k) && visible_write(m2[k], limit).is_some() {
                let y = choose|y: int| 0 <= y < e2.len() && e2[y].0 == k;
                assert(wip.index_view().contains_key(k));
            }
        }
    }
}

pub open spec fn key_of(c: index::Cursor) -> Seq<u8> {
    c.entries()[c.position()].0
}

/// The source a forward step settles on: the smaller key, the newer source on a tie.
pub open spec fn pick_min(a: index::Cursor, b: index::Cursor) -> Option<usize> {
    if a.is_valid() && b.is_valid() {
        if key_le(key_of(a), key_of(b)) { Some(0) } else { Some(1) }
    } else if a.is_valid() {
        Some(0)
    } else if b.is_valid() {
        Some(1)
    } else {
        None
    }
}

/// The source a backward step settles on: the larger key, the newer source on a tie.
pub open spec fn pick_max(a: index::Cursor, b: index::Cursor) -> Option<usize> {
    if a.is_valid() && b.is_valid() {
        if key_le(key_of(b), key_of(a)) { Some(0) } else { Some(1) }
    } else if a.is_valid() {
        Some(0)
    } else if b.is_valid() {
        Some(1)
    } else {
        None
    }
}

impl CompactingTree {
    pub closed spec fn is_compacting(&self) -> bool {
        self.compact_state is Compacting
    }

    pub closed spec fn wf(&self) -> bool {
        &&& self.active.wf()
        &&& self.compacting is Some ==> self.compacting->0.wf()
        &&& self.compacted is Some ==> self.compacted->0.wf()
        &&& self.is_compacting() <==> self.compacting is Some
        &&& self.is_compacting() ==> self.active.index_view() == Map::<Seq<u8>, crate::index::History>::empty()
    }

    pub closed spec fn has_compacted(&self) -> bool {
        self.compacted is Some
    }

    pub closed spec fn trash_len(&self) -> nat {
        self.trash@.len()
    }

    /// The retired trees, oldest first.
    pub closed spec fn trash(&self) -> Seq<Tree> {
        self.trash@
    }

    /// A tree over `log` with no compaction yet.
    pub fn new(log: Log<crate::command::Command>) -> (r: CompactingTree)
        ensures
            r.wf(),
            !r.is_compacting(),
            !r.has_compacted(),
    {
        CompactingTree {
            compact_state: CompactState::NotCompacting,
            active: Tree::new(log),
            compacting: None,
            compacted: None,
            trash: Vec::new(),
        }
    }

    /// A compacting tree whose active tree is `tree`.
    pub fn from_tree(tree: Tree) -> (r: CompactingTree)
        requires
            tree.wf(),
        ensures
            r.wf(),
            !r.is_compacting(),
            !r.has_compacted(),
    {
        CompactingTree {
            compact_state: CompactState::NotCompacting,
            active: tree,
            compacting: None,
            compacted: None,
            trash: Vec::new(),
        }
    }

    /// Reads `key` below `commit_limit`, searching the active, compacting and
    /// compacted trees in that order; the first that holds a visible version
    /// of the key answers.
    pub fn read(&self, commit_limit: Commit, key: &Key) -> (r: Result<Option<Vec<u8>>, DbError>)
        requires
            self.wf(),
        ensures
            r.is_ok(),
            opt_bytes(r.unwrap()) == layered_read(self.layers(), commit_limit.0, key@),
    {
        proof {
            reveal_with_fuel(layered_read, 4);
            let ls = self.layers();
            let r1 = ls.drop_first();
            let r2 = r1.drop_first();
            let r3 = r2.drop_first();
            if self.compacting is Some && self.compacted is Some {
                assert(r1 =~= seq![self.compacting->0, self.compacted->0]);
                assert(r2 =~= seq![self.compacted->0]);
                assert(r3 =~= Seq::<Tree>::empty());
            } else if self.compacting is Some {
                assert(r1 =~= seq![self.compacting->0]);
                assert(r2 =~= Seq::<Tree>::empty());
            } else if self.compacted is Some {
                assert(r1 =~= seq![self.compacted->0]);
                assert(r2 =~= Seq::<Tree>::empty());
            } else {
                assert(r1 =~= Seq::<Tree>::empty());
            }
        }
        if self.active.status(commit_limit, key).is_some() {
            return self.active.read(commit_limit, key);
        }
        match &self.compacting {
            Some(t) => {
                if t.status(commit_limit, key).is_some() {
                    return t.read(commit_limit, key);
                }
            },
            None => {},
        }
        match &self.compacted {
            Some(t) => {
                if t.status(commit_limit, key).is_some() {
                    return t.read(commit_limit, key);
                }
            },
            None => {},
        }
        Ok(None)
    }

    /// The trees a read searches, in order.
    pub closed spec fn layers(&self) -> Seq<Tree> {
        let a = seq![self.active];
        let b = if self.compacting is Some { a.push(self.compacting->0) } else { a };
        if self.compacted is Some { b.push(self.compacted->0) } else { b }
    }

    /// Puts `tree` in the active slot and hands back the tree that was there.
    pub fn replace_active(&mut self, tree: Tree) -> (r: Tree)
        requires
            old(self).wf(),
            !old(self).is_compacting(),
            tree.wf(),
        ensures
            final(self).wf(),
            !final(self).is_compacting(),
            r == old(self).layers()[0],
            final(self).layers() == old(self).layers().update(0, tree),
            final(self).has_compacted() == old(self).has_compacted(),
            final(self).trash() == old(self).trash(),
    {
        let mut t = tree;
        std::mem::swap(&mut t, &mut self.active);
        proof {
            assert(self.layers() =~= old(self).layers().update(0, tree));
        }
        t
    }

    pub fn active(&self) -> (r: &Tree)
        requires
            self.wf(),
        ensures
            r.wf(),
    {
        &self.active
    }

    /// Claims the compaction and rotates the active tree into the compacting
    /// slot, with a fresh active tree for new batches. Returns `false`, and
    /// changes nothing, when a compaction is already running.
    pub fn start_compaction(&mut self) -> (r: bool)
        requires
            old(self).wf(),
        ensures
            final(self).wf(),
            r == !old(self).is_compacting(),
            final(self).is_compacting(),
            final(self).has_compacted() == old(self).has_compacted(),
            !r ==> *final(self) == *old(self),
            r ==> final(self).layers().drop_first() == old(self).layers()
                && final(self).layers()[0].log_records() == Seq::<crate::command::Command>::empty()
                && final(self).layers()[0].index_view() == Map::<Seq<u8>, crate::index::History>::empty()
                && final(self).trash() == old(self).trash(),
    {
        match self.compact_state {
            CompactState::Compacting => {
                return false;
            },
            CompactState::NotCompacting => {},
        }
        self.compact_state = CompactState::Compacting;
        let mut rotated = Tree::new(Log::new());
        std::mem::swap(&mut rotated, &mut self.active);
        self.compacting = Some(rotated);
        true
    }

    /// Builds, at `commit_limit`, a fresh tree holding one synthetic batch
    /// committed at `commit_limit - 1`: the newest visible write of every key of
    /// the compacting tree, and of every key of the compacted tree that the
    /// compacting tree does not hold a visible version of (so a deletion there
    /// hides an older write). Tombstones and superseded versions are left out.
    /// That tree becomes the compacted tree and the two it was built from are
    /// retired; reads at `commit_limit` answer as before.
    pub fn finish_compaction(&mut self, commit_limit: Commit) -> (r: Result<(), DbError>)
        requires
            old(self).wf(),
            old(self).is_compacting(),
            commit_limit.0 > 0,
        ensures
            final(self).wf(),
            r.is_ok(),
            !final(self).is_compacting(),
            final(self).has_compacted(),
            forall|k: Seq<u8>| layered_read(final(self).layers(), commit_limit.0, k)
                == #[trigger] layered_read(old(self).layers(), commit_limit.0, k),
            final(self).trash() == if old(self).has_compacted() {
                old(self).trash().push(old(self).layers()[1]).push(old(self).layers()[2])
            } else {
                old(self).trash().push(old(self).layers()[1])
            },
    {
        let ghost old_layers = self.layers();
        let compacting = self.compacting.take().unwrap();
        let empty = Tree::new(Log::new());
        let ghost t1 = compacting;
        let ghost t2 = if self.compacted is Some { self.compacted->0 } else { empty };
        let c: u64 = commit_limit.0 - 1;
        let mut wip = Tree::new(Log::new());
        let batch = Batch(COMPACTED_BATCH_NUM);

        let mut cur = compacting.cursor(commit_limit).index_cursor;
        let ghost e1 = cur.entries();
        proof {
            compacting.lemma_snapshot_writes(commit_limit.0, e1);
        }
        cur.seek_first();
        while cur.valid()
            invariant
                cur.wf(),
                cur.entries() == e1,
                index::snapshot_of(t1.index_view(), commit_limit.0, e1),
                forall|i: int| 0 <= i < e1.len() ==> write_at(t1.log_records(), (#[trigger] e1[i]).1, e1[i].0),
                t1 == compacting,
                t1.wf(),
                c == commit_limit.0 - 1,
                wip.wf(),
                wip.log_writable(),
                map_below(wip.index_view(), c),
                forall|k: Seq<u8>| #[trigger] wip.index_view().contains_key(k)
                    <==> exists|x: int| 0 <= x < cur.position() && e1[x].0 == k,
                forall|k: Seq<u8>| #[trigger] wip.index_view().contains_key(k)
                    ==> holds_version(wip, k, c, expected(t1, t2, commit_limit.0, k)),
            decreases e1.len() - cur.position(),
        {
            proof {
                cur.lemma_position_bound();
            }
            let key = cur.key();
            let address = cur.address();
            let ghost pos = cur.position();
            let ghost k = key@;
            proof {
                assert(write_at(t1.log_records(), e1[pos].1, e1[pos].0));
                assert(t1.index_view().contains_key(e1[pos].0));
            }
            match compacting.value_at(address) {
                Ok(v) => {
                    proof {
                        lemma_read_written(t1, commit_limit.0, k, address);
                    }
                    let ghost before = wip;
                    let ghost vv = v@;
                    let res = wip.install(batch, key, v, c);
                    cur.next();
                    proof {
                        let a = res.unwrap();
                        assert forall|i: int| 0 <= i < before.log_records().len()
                            implies wip.log_records()[i] == before.log_records()[i] by {}
                        lemma_after_install(before, wip, t1, t2, commit_limit.0, k, c, a, vv);
                        assert forall|kk: Seq<u8>| #[trigger] wip.index_view().contains_key(kk)
                            <==> exists|x: int| 0 <= x < cur.position() && e1[x].0 == kk by {
                            if exists|x: int| 0 <= x < cur.position() && e1[x].0 == kk {
                                let x = choose|x: int| 0 <= x < cur.position() && e1[x].0 == kk;
                                if x < pos {
                                    assert(before.index_view().contains_key(kk));
                                }
                            }
                            if before.index_view().contains_key(kk) {
                                let x = choose|x: int| 0 <= x < pos && e1[x].0 == kk;
                                assert(0 <= x < cur.position());
                            }
                        }
                    }
                },
                Err(e) => {
                    return Err(e);
                },
            }
        }
        proof {
            cur.lemma_position_bound();
        }
        let ghost n1 = cur.position();

        let mut cur2 = match &self.compacted {
            Some(t) => t.cursor(commit_limit).index_cursor,
            None => empty.cursor(commit_limit).index_cursor,
        };
        let ghost e2 = cur2.entries();
        proof {
            t2.lemma_snapshot_writes(commit_limit.0, e2);
        }
        cur2.seek_first();
        while cur2.valid()
            invariant
                cur2.wf(),
                cur2.entries() == e2,
                n1 == e1.len(),
                index::snapshot_of(t1.index_view(), commit_limit.0, e1),
                index::snapshot_of(t2.index_view(), commit_limit.0, e2),
                forall|i: int| 0 <= i < e2.len() ==> write_at(t2.log_records(), (#[trigger] e2[i]).1, e2[i].0),
                t1 == compacting,
                t2 == (if self.compacted is Some { self.compacted->0 } else { empty }),
                t1.wf(),
                t2.wf(),
                c == commit_limit.0 - 1,
                wip.wf(),
                wip.log_writable(),
                map_below(wip.index_view(), c),
                forall|k: Seq<u8>| #[trigger] wip.index_view().contains_key(k)
                    <==> (exists|x: int| 0 <= x < n1 && e1[x].0 == k)
                        || (exists|y: int| 0 <= y < cur2.position() && e2[y].0 == k
                            && latest_before(history_in(t1.index_view(), k), commit_limit.0) is None),
                forall|k: Seq<u8>| #[trigger] wip.index_view().contains_key(k)
                    ==> holds_version(wip, k, c, expected(t1, t2, commit_limit.0, k)),
            decreases e2.len() - cur2.position(),
        {
            proof {
                cur2.lemma_position_bound();
            }
            let key = cur2.key();
            let address = cur2.address();
            let ghost pos = cur2.position();
            let ghost k = key@;
            proof {
                assert(write_at(t2.log_records(), e2[pos].1, e2[pos].0));
                assert(t2.index_view().contains_key(e2[pos].0));
            }
            let hidden = compacting.status(commit_limit, &key).is_some();
            let ghost before = wip;
            if !hidden {
                let value = match &self.compacted {
                    Some(t) => t.value_at(address),
                    None => empty.value_at(address),
                };
                match value {
                    Ok(v) => {
                        proof {
                            lemma_read_written(t2, commit_limit.0, k, address);
                        }
                        let ghost vv = v@;
                        let res = wip.install(batch, key, v, c);
                        proof {
                            let a = res.unwrap();
                            assert forall|i: int| 0 <= i < before.log_records().len()
                                implies wip.log_records()[i] == before.log_records()[i] by {}
                            lemma_after_install(before, wip, t1, t2, commit_limit.0, k, c, a, vv);
                        }
                    },
                    Err(e) => {
                        return Err(e);
                    },
                }
            }
            cur2.next();
            proof {
                assert forall|kk: Seq<u8>| #[trigger] wip.index_view().contains_key(kk)
                    <==> (exists|x: int| 0 <= x < n1 && e1[x].0 == kk)
                        || (exists|y: int| 0 <= y < cur2.position() && e2[y].0 == kk
                            && latest_before(history_in(t1.index_view(), kk), commit_limit.0) is None) by {
                    if exists|y: int| 0 <= y < cur2.position() && e2[y].0 == kk
                        && latest_before(history_in(t1.index_view(), kk), commit_limit.0) is None {
                        let y = choose|y: int| 0 <= y < cur2.position() && e2[y].0 == kk
                            && latest_before(history_in(t1.index_view(), kk), commit_limit.0) is None;
                        if y < pos {
                            assert(before.index_view().contains_key(kk));
                        }
                    }
                    if before.index_view().contains_key(kk) {
                        if exists|y: int| 0 <= y < pos && e2[y].0 == kk
                            && latest_before(history_in(t1.index_view(), kk), commit_limit.0) is None {
                            let y = choose|y: int| 0 <= y < pos && e2[y].0 == kk
                                && latest_before(history_in(t1.index_view(), kk), commit_limit.0) is None;
                            assert(0 <= y < cur2.position());
                        }
                    }
                }
            }
        }
        proof {
            cur2.lemma_position_bound();
            assert forall|k: Seq<u8>| read_spec(wip.index_view(), wip.log_records(), commit_limit.0, k)
                == expected(t1, t2, commit_limit.0, k) by {
                lemma_final_read(wip, t1, t2, commit_limit.0, c, k, e1, e2);
            }
        }
        self.trash.push(compacting);
        let previous = self.compacted.take();
        match previous {
            Some(t) => self.trash.push(t),
            None => {},
        }
        self.compacted = Some(wip);
        self.compact_state = CompactState::NotCompacting;
        proof {
            assert forall|k: Seq<u8>| layered_read(self.layers(), commit_limit.0, k)
                == #[trigger] layered_read(old_layers, commit_limit.0, k) by {
                reveal_with_fuel(layered_read, 4);
                let nl = self.layers();
                assert(nl =~= seq![self.active, wip]);
                assert(nl.drop_first() =~= seq![wip]);
                assert(seq![wip].drop_first() =~= Seq::<Tree>::empty());
                assert(history_in(self.active.index_view(), k) =~= Seq::<(u64, index::Value)>::empty());
                assert(history_in(empty.index_view(), k) =~= Seq::<(u64, index::Value)>::empty());
                let ol = old_layers;
                assert(ol.drop_first()[0] == t1);
                if old(self).compacted is Some {
                    assert(ol.drop_first().drop_first() =~= seq![t2]);
                    assert(seq![t2].drop_first() =~= Seq::<Tree>::empty());
                } else {
                    assert(ol.drop_first().drop_first() =~= Seq::<Tree>::empty());
                }
            }
        }
        Ok(())
    }

    /// Runs a whole compaction at `commit_limit`. Returns `false` when one is
    /// already running.
    pub fn compact(&mut self, commit_limit: Commit) -> (r: Result<bool, DbError>)
        requires
            old(self).wf(),
            commit_limit.0 > 0,
        ensures
            final(self).wf(),
            old(self).is_compacting() ==> r == Ok::<bool, DbError>(false) && *final(self) == *old(self),
            !old(self).is_compacting() ==> !final(self).is_compacting()
                && r == Ok::<bool, DbError>(true) && final(self).has_compacted()
                && (forall|k: Seq<u8>| layered_read(final(self).layers(), commit_limit.0, k)
                    == #[trigger] layered_read(old(self).layers(), commit_limit.0, k))
                && final(self).trash() == if old(self).has_compacted() {
                    old(self).trash().push(old(self).layers()[0]).push(old(self).layers()[1])
                } else {
                    old(self).trash().push(old(self).layers()[0])
                },
    {
        if !self.start_compaction() {
            return Ok(false);
        }
        let ghost mid = *self;
        proof {
            assert forall|k: Seq<u8>| layered_read(mid.layers(), commit_limit.0, k)
                == #[trigger] layered_read(old(self).layers(), commit_limit.0, k) by {
                let l = mid.layers();
                assert(history_in(l[0].index_view(), k) =~= Seq::<(u64, index::Value)>::empty());
                assert(l.len() > 0);
            }
        }
        match self.finish_compaction(commit_limit) {
            Ok(()) => Ok(true),
            Err(e) => Err(e),
        }
    }
}

impl Cursor {
    pub open spec fn current_spec(&self) -> Option<usize> {
        self.current
    }

    pub open spec fn wf(&self) -> bool {
        &&& self.newer.wf()
        &&& self.older.wf()
        &&& self.current_spec() == Some(0usize) ==> self.newer.is_valid()
        &&& self.current_spec() == Some(1usize) ==> self.older.is_valid()
        &&& self.current_spec() is Some ==> self.current_spec() == Some(0usize) || self.current_spec() == Some(1usize)
    }

    /// The key under the cursor.
    pub open spec fn key_spec(&self) -> Seq<u8> {
        if self.current_spec() == Some(0usize) { key_of(self.newer) } else { key_of(self.older) }
    }

    /// A merge of `newer` and `older`, not yet positioned.
    pub fn new(newer: index::Cursor, older: index::Cursor) -> (r: Cursor)
        requires
            newer.wf(),
            older.wf(),
        ensures
            r.wf(),
            r.newer == newer,
            r.older == older,
            r.current_spec() is None,
    {
        Cursor { newer, older, current: None }
    }

    pub fn valid(&self) -> (r: bool)
        ensures
            r == self.current_spec() is Some,
    {
        self.current.is_some()
    }

    pub fn key(&self) -> (r: Key)
        requires
            self.wf(),
            self.current_spec() is Some,
        ensures
            r@ == self.key_spec(),
    {
        if self.current == Some(0usize) {
            self.newer.key()
        } else {
            self.older.key()
        }
    }

    /// The address of the write under the cursor, and whether it is in the newer source.
    pub fn address(&self) -> (r: (bool, Address))
        requires
            self.wf(),
            self.current_spec() is Some,
        ensures
            r.0 == (self.current_spec() == Some(0usize)),
            r.0 ==> r.1 == self.newer.entries()[self.newer.position()].1,
            !r.0 ==> r.1 == self.older.entries()[self.older.position()].1,
    {
        if self.current == Some(0usize) {
            (true, self.newer.address())
        } else {
            (false, self.older.address())
        }
    }

    fn settle_forward(&mut self)
        requires
            old(self).newer.wf(),
            old(self).older.wf(),
        ensures
            final(self).wf(),
            final(self).newer == old(self).newer,
            final(self).older == old(self).older,
            final(self).current_spec() == pick_min(old(self).newer, old(self).older),
    {
        let a = self.newer.valid();
        let b = self.older.valid();
        if a && b {
            let ka = self.newer.key();
            let kb = self.older.key();
            proof {
                lemma_key_order(ka@, kb@);
            }
            if !kb.lt(&ka) {
                self.current = Some(0);
            } else {
                self.current = Some(1);
            }
        } else if a {
            self.current = Some(0);
        } else if b {
            self.current = Some(1);
        } else {
            self.current = None;
        }
    }

    fn settle_backward(&mut self)
        requires
            old(self).newer.wf(),
            old(self).older.wf(),
        ensures
            final(self).wf(),
            final(self).newer == old(self).newer,
            final(self).older == old(self).older,
            final(self).current_spec() == pick_max(old(self).newer, old(self).older),
    {
        let a = self.newer.valid();
        let b = self.older.valid();
        if a && b {
            let ka = self.newer.key();
            let kb = self.older.key();
            proof {
                lemma_key_order(ka@, kb@);
            }
            if !ka.lt(&kb) {
                self.current = Some(0);
            } else {
                self.current = Some(1);
            }
        } else if a {
            self.current = Some(0);
        } else if b {
            self.current = Some(1);
        } else {
            self.current = None;
        }
    }

    /// Positions both sources on their first entry and settles on the smaller key.
    pub fn seek_first(&mut self)
        requires
            old(self).wf(),
        ensures
            final(self).wf(),
            final(self).newer.entries() == old(self).newer.entries(),
            final(self).older.entries() == old(self).older.entries(),
            final(self).newer.position() == 0,
            final(self).older.position() == 0,
            final(self).current_spec() == pick_min(final(self).newer, final(self).older),
    {
        self.newer.seek_first();
        self.older.seek_first();
        self.settle_forward();
    }

    /// Positions both sources on their last entry and settles on the larger key.
    pub fn seek_last(&mut self)
        requires
            old(self).wf(),
        ensures
            final(self).wf(),
            final(self).newer.entries() == old(self).newer.entries(),
            final(self).older.entries() == old(self).older.entries(),
            final(self).newer.position() == last_position(old(self).newer.entries().len() as int),
            final(self).older.position() == last_position(old(self).older.entries().len() as int),
            final(self).current_spec() == pick_max(final(self).newer, final(self).older),
    {
        self.newer.seek_last();
        self.older.seek_last();
        self.settle_backward();
    }

    /// Moves both sources to their first key not below `key` and settles forward.
    pub fn seek_key(&mut self, key: Key)
        requires
            old(self).wf(),
        ensures
            final(self).wf(),
            final(self).newer.entries() == old(self).newer.entries(),
            final(self).older.entries() == old(self).older.entries(),
            forall|j: int| 0 <= j < final(self).newer.position() ==> key_lt(#[trigger] final(self).newer.entries()[j].0, key@),
            forall|j: int| 0 <= j < final(self).older.position() ==> key_lt(#[trigger] final(self).older.entries()[j].0, key@),
            final(self).newer.is_valid() ==> key_le(key@, key_of(final(self).newer)),
            final(self).older.is_valid() ==> key_le(key@, key_of(final(self).older)),
            final(self).current_spec() == pick_min(final(self).newer, final(self).older),
    {
        self.newer.seek_key(&key);
        self.older.seek_key(&key);
        self.settle_forward();
    }

    /// Moves both sources to their last key not above `key` and settles backward.
    pub fn seek_key_rev(&mut self, key: Key)
        requires
            old(self).wf(),
        ensures
            final(self).wf(),
            final(self).newer.entries() == old(self).newer.entries(),
            final(self).older.entries() == old(self).older.entries(),
            final(self).newer.is_valid() ==> key_le(key_of(final(self).newer), key@),
            final(self).older.is_valid() ==> key_le(key_of(final(self).older), key@),
            final(self).current_spec() == pick_max(final(self).newer, final(self).older),
    {
        self.newer.seek_key_rev(&key);
        self.older.seek_key_rev(&key);
        self.settle_backward();
    }

    /// Steps every source that stands on the current key past it, then settles
    /// on the smaller key.
    pub fn next(&mut self)
        requires
            old(self).wf(),
        ensures
            final(self).wf(),
            final(self).newer.entries() == old(self).newer.entries(),
            final(self).older.entries() == old(self).older.entries(),
            final(self).newer.position() == if old(self).current_spec() is Some && old(self).newer.is_valid()
                && key_of(old(self).newer) == old(self).key_spec() {
                next_position(old(self).newer.entries().len() as int, old(self).newer.position())
            } else {
                old(self).newer.position()
            },
            final(self).older.position() == if old(self).current_spec() is Some && old(self).older.is_valid()
                && key_of(old(self).older) == old(self).key_spec() {
                next_position(old(self).older.entries().len() as int, old(self).older.position())
            } else {
                old(self).older.position()
            },
            final(self).current_spec() == pick_min(final(self).newer, final(self).older),
    {
        if self.current.is_some() {
            let k = self.key();
            if self.newer.valid() {
                let kn = self.newer.key();
                if kn.eq_key(&k) {
                    self.newer.next();
                }
            }
            if self.older.valid() {
                let ko = self.older.key();
                if ko.eq_key(&k) {
                    self.older.next();
                }
            }
        }
        self.settle_forward();
    }

    /// Steps every source that stands on the current key before it, then
    /// settles on the larger key.
    pub fn prev(&mut self)
        requires
            old(self).wf(),
        ensures
            final(self).wf(),
            final(self).newer.entries() == old(self).newer.entries(),
            final(self).older.entries() == old(self).older.entries(),
            final(self).newer.position() == if old(self).current_spec() is Some && old(self).newer.is_valid()
                && key_of(old(self).newer) == old(self).key_spec() {
                prev_position(old(self).newer.entries().len() as int, old(self).newer.position())
            } else {
                old(self).newer.position()
            },
            final(self).older.position() == if old(self).current_spec() is Some && old(self).older.is_valid()
                && key_of(old(self).older) == old(self).key_spec() {
                prev_position(old(self).older.entries().len() as int, old(self).older.position())
            } else {
                old(self).older.position()
            },
            final(self).current_spec() == pick_max(final(self).newer, final(self).older),
    {
        if self.current.is_some() {
            let k = self.key();
            if self.newer.valid() {
                let kn = self.newer.key();
                if kn.eq_key(&k) {
                    self.newer.prev();
                }
            }
            if self.older.valid() {
                let ko = self.older.key();
                if ko.eq_key(&k) {
                    self.older.prev();
                }
            }
        }
        self.settle_backward();
    }
}

} // verus!
