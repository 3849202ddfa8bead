use vstd::prelude::*;
use crate::key::{Key, key_lt, key_le, lemma_key_order, lemma_key_lt_trans, lemma_key_le_trans};
use crate::types::Address;

verus! {

/// The status a version gives its key: written (the address of the write
/// record) or deleted (the address of the record that deleted it).
#[derive(Clone, Copy, PartialEq, Eq, Structural, Debug)]
pub enum Value {
    Written(Address),
    Deleted(Address),
}

/// A snapshot bound: versions with a smaller commit number are visible.
#[derive(Clone, Copy, PartialEq, Eq, Structural, Debug)]
pub struct Generation(pub u64);

/// A version history: `(commit, status)` pairs, oldest first.
pub type History = Seq<(u64, Value)>;

/// The newest version in `h` whose commit is below `gen`, if any.
pub open spec fn latest_before(h: History, gen: u64) -> Option<Value>
    decreases h.len(),
{
    if h.len() == 0 {
        None
    } else if h.last().0 < gen {
        Some(h.last().1)
    } else {
        latest_before(h.drop_last(), gen)
    }
}

/// The address whose write is visible at `gen` in history `h`, if any.
pub open spec fn visible_write(h: History, gen: u64) -> Option<Address> {
    match latest_before(h, gen) {
        Some(Value::Written(a)) => Some(a),
        _ => None,
    }
}

/// `h` with a version at commit `c` added; a version already at `c` is replaced.
pub open spec fn add_version(h: History, c: u64, v: Value) -> History {
    if h.len() > 0 && h.last().0 == c {
        h.drop_last().push((c, v))
    } else {
        h.push((c, v))
    }
}

/// The history of `k` in a model map; an absent key has an empty history.
pub open spec fn history_in(m: Map<Seq<u8>, History>, k: Seq<u8>) -> History {
    if m.contains_key(k) { m[k] } else { Seq::empty() }
}

/// The model after a version of `k` at commit `c`.
pub open spec fn map_add_version(m: Map<Seq<u8>, History>, k: Seq<u8>, c: u64, v: Value) -> Map<Seq<u8>, History> {
    m.insert(k, add_version(history_in(m, k), c, v))
}

pub open spec fn in_range(k: Seq<u8>, start: Seq<u8>, end: Seq<u8>) -> bool {
    key_le(start, k) && key_lt(k, end)
}

/// The model after every present key in `[start, end)` is deleted at commit `c`.
pub open spec fn map_delete_range(
    m: Map<Seq<u8>, History>,
    start: Seq<u8>,
    end: Seq<u8>,
    c: u64,
    a: Address,
) -> Map<Seq<u8>, History> {
    Map::new(
        |k: Seq<u8>| m.contains_key(k),
        |k: Seq<u8>| if in_range(k, start, end) { add_version(m[k], c, Value::Deleted(a)) } else { m[k] },
    )
}

pub open spec fn history_increasing(h: History) -> bool {
    forall|i: int, j: int| 0 <= i < j < h.len() ==> h[i].0 < h[j].0
}

pub open spec fn history_below(h: History, c: u64) -> bool {
    forall|i: int| 0 <= i < h.len() ==> h[i].0 <= c
}

/// Every version of the model is at a commit no later than `c`.
pub open spec fn map_below(m: Map<Seq<u8>, History>, c: u64) -> bool {
    forall|k: Seq<u8>| m.contains_key(k) ==> history_below(#[trigger] m[k], c)
}

/// Every version of the model is at a commit strictly earlier than `c`.
pub open spec fn map_before(m: Map<Seq<u8>, History>, c: u64) -> bool {
    forall|k: Seq<u8>, i: int| m.contains_key(k) && 0 <= i < m[k].len() ==> (#[trigger] m[k][i]).0 < c
}

/// A cursor's snapshot list: visible written keys, each with its write address,
/// in strictly increasing key order, exactly those of `m` at `gen`.
pub open spec fn snapshot_of(m: Map<Seq<u8>, History>, gen: u64, s: Seq<(Seq<u8>, Address)>) -> bool {
    &&& forall|i: int, j: int| 0 <= i < j < s.len() ==> key_lt(s[i].0, s[j].0)
    &&& forall|i: int| 0 <= i < s.len() ==> m.contains_key(#[trigger] s[i].0) && visible_write(m[s[i].0], gen) == Some(s[i].1)
    &&& forall|k: Seq<u8>| m.contains_key(k) && (#[trigger] visible_write(m[k], gen)).is_some()
        ==> exists|i: int| 0 <= i < s.len() && s[i].0 == k
}

pub struct Node {
    key: Key,
    history: Vec<(u64, Value)>,
}

/// A version-aware ordered map from keys to their histories.
pub struct Index {
    nodes: Vec<Node>,
}

impl Index {
    spec fn key_at(&self, i: int) -> Seq<u8> {
        self.nodes@[i].key@
    }

    spec fn has_key(&self, k: Seq<u8>) -> bool {
        exists|i: int| 0 <= i < self.nodes@.len() && self.key_at(i) == k
    }

    spec fn history_at(&self, k: Seq<u8>) -> History {
        let i = choose|i: int| 0 <= i < self.nodes@.len() && self.key_at(i) == k;
        self.nodes@[i].history@
    }

    /// The model: each present key with its version history.
    pub closed spec fn view(&self) -> Map<Seq<u8>, History> {
        Map::new(|k: Seq<u8>| self.has_key(k), |k: Seq<u8>| self.history_at(k))
    }

    /// Keys sorted and unique; every history in increasing commit order.
    pub closed spec fn wf(&self) -> bool {
        &&& forall|i: int, j: int| 0 <= i < j < self.nodes@.len() ==> key_lt(self.key_at(i), self.key_at(j))
        &&& forall|i: int| 0 <= i < self.nodes@.len() ==> history_increasing(#[trigger] self.nodes@[i].history@)
    }

    proof fn lemma_history_at(&self, i: int)
        requires
            self.wf(),
            0 <= i < self.nodes@.len(),
        ensures
            self@.contains_key(self.key_at(i)),
            self@[self.key_at(i)] == self.nodes@[i].history@,
    {
        let k = self.key_at(i);
        assert(self.has_key(k));
        let j = choose|j: int| 0 <= j < self.nodes@.len() && self.key_at(j) == k;
        if j != i {
            lemma_key_order(k, k);
            if j < i {
                assert(key_lt(self.key_at(j), self.key_at(i)));
            } else {
                assert(key_lt(self.key_at(i), self.key_at(j)));
            }
        }
    }

    pub proof fn lemma_histories_increasing(&self)
        requires
            self.wf(),
        ensures
            forall|k: Seq<u8>| self@.contains_key(k) ==> history_increasing(#[trigger] self@[k]),
    {
        assert forall|k: Seq<u8>| self@.contains_key(k) implies history_increasing(#[trigger] self@[k]) by {
            let i = choose|i: int| 0 <= i < self.nodes@.len() && self.key_at(i) == k;
            self.lemma_history_at(i);
        }
    }

    pub fn new() -> (r: Index)
        ensures
            r.wf(),
            r@ == Map::<Seq<u8>, History>::empty(),
    {
        let r = Index { nodes: Vec::new() };
        assert(r@ =~= Map::<Seq<u8>, History>::empty());
        r
    }

    /// The position of the first node whose key is not below `key`.
    fn find(&self, key: &Key) -> (r: (bool, usize))
        requires
            self.wf(),
        ensures
            r.1 <= self.nodes@.len(),
            forall|j: int| 0 <= j < r.1 ==> key_lt(self.key_at(j), key@),
            forall|j: int| r.1 <= j < self.nodes@.len() ==> key_le(key@, self.key_at(j)),
            r.0 == (r.1 < self.nodes@.len() && self.key_at(r.1 as int) == key@),
            r.0 == self@.contains_key(key@),
            r.0 ==> self@[key@] == self.nodes@[r.1 as int].history@,
    {
        let mut i: usize = 0;
        let mut stop = false;
        while i < self.nodes.len() && !stop
            invariant
                self.wf(),
                i <= self.nodes@.len(),
                forall|j: int| 0 <= j < i ==> key_lt(self.key_at(j), key@),
                stop ==> i < self.nodes@.len() && !key_lt(self.key_at(i as int), key@),
            decreases self.nodes@.len() - i, if stop { 0int } else { 1int },
        {
            if !self.nodes[i].key.lt(key) {
                stop = true;
            } else {
                i = i + 1;
            }
        }
        let found = i < self.nodes.len() && self.nodes[i].key.eq_key(key);
        proof {
            if i < self.nodes@.len() {
                lemma_key_order(self.key_at(i as int), key@);
                assert forall|j: int| i <= j < self.nodes@.len() implies key_le(key@, self.key_at(j)) by {
                    if j > i {
                        lemma_key_le_trans(key@, self.key_at(i as int), self.key_at(j));
                        lemma_key_order(key@, self.key_at(j));
                    }
                }
            }
            if found {
                self.lemma_history_at(i as int);
            } else {
                if self.has_key(key@) {
                    let j = choose|j: int| 0 <= j < self.nodes@.len() && self.key_at(j) == key@;
                    lemma_key_order(key@, key@);
                    if j > i {
                        lemma_key_order(key@, self.key_at(i as int));
                        lemma_key_lt_trans(key@, self.key_at(i as int), self.key_at(j));
                    }
                }
            }
        }
        (found, i)
    }

    /// The newest status of `key` visible below `gen`.
    pub fn read(&self, gen: Generation, key: &Key) -> (r: Option<Value>)
        requires
            self.wf(),
        ensures
            r == latest_before(history_in(self@, key@), gen.0),
    {
        let (found, pos) = self.find(key);
        if !found {
            return None;
        }
        let history = &self.nodes[pos].history;
        let ghost h = history@;
        assert(history_in(self@, key@) == h);
        let mut i: usize = history.len();
        assert(h.take(i as int) =~= h);
        while i > 0
            invariant
                i <= h.len(),
                h == history@,
                history_in(self@, key@) == h,
                latest_before(h, gen.0) == latest_before(h.take(i as int), gen.0),
            decreases i,
        {
            let (h_gen, value) = history[i - 1];
            assert(h.take(i as int).last() == h[i - 1]);
            if h_gen < gen.0 {
                assert(h[i - 1] == (h_gen, value));
                assert(latest_before(h.take(i as int), gen.0) == Some(value));
                return Some(value);
            }
            assert(h.take(i as int).drop_last() =~= h.take(i - 1));
            i = i - 1;
        }
        None
    }

    /// Adds a version of `key` at commit `c`, inserting the key if it is new.
    pub fn add_version(&mut self, key: &Key, c: u64, v: Value)
        requires
            old(self).wf(),
            map_below(old(self)@, c),
        ensures
            final(self).wf(),
            final(self)@ == map_add_version(old(self)@, key@, c, v),
            map_below(final(self)@, c),
    {
        let ghost prev = *self;
        let (found, pos) = self.find(key);
        if found {
            proof {
                prev.lemma_history_at(pos as int);
            }
            let node = &mut self.nodes[pos];
            push_version(&mut node.history, c, v);
            proof {
                assert(self.nodes@[pos as int].key == prev.nodes@[pos as int].key);
                assert(self.nodes@[pos as int].history@ == add_version(prev.nodes@[pos as int].history@, c, v));
                assert(self.key_at(pos as int) == key@);
                assert forall|i: int, j: int| 0 <= i < j < self.nodes@.len() implies key_lt(self.key_at(i), self.key_at(j)) by {
                    assert(self.key_at(i) == prev.key_at(i));
                    assert(self.key_at(j) == prev.key_at(j));
                }
                assert forall|i: int| 0 <= i < self.nodes@.len() implies history_increasing(#[trigger] self.nodes@[i].history@) by {
                    if i != pos {
                        assert(self.nodes@[i] == prev.nodes@[i]);
                    }
                }
                let target = map_add_version(prev@, key@, c, v);
                assert forall|k: Seq<u8>| #[trigger] self@.contains_key(k) <==> target.contains_key(k) by {
                    if self.has_key(k) {
                        let j = choose|j: int| 0 <= j < self.nodes@.len() && self.key_at(j) == k;
                        assert(prev.key_at(j) == k);
                    }
                    if prev.has_key(k) {
                        let j = choose|j: int| 0 <= j < prev.nodes@.len() && prev.key_at(j) == k;
                        assert(self.key_at(j) == k);
                    }
                }
                assert(self.wf());
                assert forall|k: Seq<u8>| #[trigger] self@.contains_key(k) implies self@[k] == target[k] by {
                    let j = choose|j: int| 0 <= j < self.nodes@.len() && self.key_at(j) == k;
                    self.lemma_history_at(j);
                    prev.lemma_history_at(j);
                    if j != pos {
                        assert(self.nodes@[j] == prev.nodes@[j]);
                        assert(prev.key_at(j) != prev.key_at(pos as int)) by {
                            if j < pos {
                                assert(key_lt(prev.key_at(j), prev.key_at(pos as int)));
                            } else {
                                assert(key_lt(prev.key_at(pos as int), prev.key_at(j)));
                            }
                            lemma_key_order(k, k);
                        }
                    } else {
                        assert(history_in(prev@, key@) == prev.nodes@[pos as int].history@);
                    }
                }
                assert(self@ =~= target);
                self.lemma_below(prev, key@, c, v);
            }
        } else {
            let mut history: Vec<(u64, Value)> = Vec::new();
            history.push((c, v));
            let node = Node { key: key.copy(), history };
            self.nodes.insert(pos, node);
            proof {
                assert(history@ =~= add_version(Seq::empty(), c, v));
                assert forall|j: int| 0 <= j < self.nodes@.len() && j != pos implies
                    #[trigger] self.key_at(j) == prev.key_at(if j < pos { j } else { j - 1 })
                    && self.nodes@[j] == prev.nodes@[if j < pos { j } else { j - 1 }] by {}
                assert forall|j: int| pos < j < self.nodes@.len() implies key_lt(key@, #[trigger] self.key_at(j)) by {
                    lemma_key_order(key@, prev.key_at(j - 1));
                    if key@ == prev.key_at(j - 1) {
                        assert(prev.has_key(key@));
                    }
                }
                assert forall|i: int, j: int| 0 <= i < j < self.nodes@.len() implies key_lt(self.key_at(i), self.key_at(j)) by {
                    if i < pos && j > pos {
                        lemma_key_lt_trans(self.key_at(i), key@, self.key_at(j));
                    }
                }
                assert forall|i: int| 0 <= i < self.nodes@.len() implies history_increasing(#[trigger] self.nodes@[i].history@) by {
                    if i != pos {
                        assert(self.nodes@[i] == prev.nodes@[if i < pos { i } else { i - 1 }]);
                    }
                }
                let target = map_add_version(prev@, key@, c, v);
                assert forall|k: Seq<u8>| #[trigger] self@.contains_key(k) <==> target.contains_key(k) by {
                    if self.has_key(k) {
                        let j = choose|j: int| 0 <= j < self.nodes@.len() && self.key_at(j) == k;
                        if j != pos {
                            let jj = if j < pos { j } else { j - 1 };
                            assert(prev.key_at(jj) == k);
                        }
                    }
                    if prev.has_key(k) {
                        let j = choose|j: int| 0 <= j < prev.nodes@.len() && prev.key_at(j) == k;
                        let jj = if j < pos { j } else { j + 1 };
                        assert(self.key_at(jj) == k);
                    }
                    if k == key@ {
                        assert(self.key_at(pos as int) == k);
                    }
                }
                assert forall|k: Seq<u8>| #[trigger] self@.contains_key(k) implies self@[k] == target[k] by {
                    let j = choose|j: int| 0 <= j < self.nodes@.len() && self.key_at(j) == k;
                    self.lemma_history_at(j);
                    if j != pos {
                        let jj = if j < pos { j } else { j - 1 };
                        prev.lemma_history_at(jj);
                        lemma_key_order(k, key@);
                    }
                }
                assert(self@ =~= target);
                self.lemma_below(prev, key@, c, v);
            }
        }
    }

    proof fn lemma_below(&self, prev: Index, k: Seq<u8>, c: u64, v: Value)
        requires
            map_below(prev@, c),
            self@ == map_add_version(prev@, k, c, v),
        ensures
            map_below(self@, c),
    {
        assert forall|kk: Seq<u8>| self@.contains_key(kk) implies history_below(#[trigger] self@[kk], c) by {
            if kk != k {
                assert(prev@.contains_key(kk));
            } else {
                let h = history_in(prev@, k);
                assert(history_below(h, c));
                let h2 = add_version(h, c, v);
                assert forall|i: int| 0 <= i < h2.len() implies h2[i].0 <= c by {
                    if i < h2.len() - 1 {
                        assert(h2[i] == h[i]);
                    }
                }
            }
        }
    }

    /// Deletes, at commit `c`, every present key in `[start, end)`.
    pub fn delete_range(&mut self, start: &Key, end: &Key, c: u64, a: Address)
        requires
            old(self).wf(),
            map_below(old(self)@, c),
        ensures
            final(self).wf(),
            final(self)@ == map_delete_range(old(self)@, start@, end@, c, a),
            map_below(final(self)@, c),
    {
        let ghost prev = *self;
        let mut i: usize = 0;
        while i < self.nodes.len()
            invariant
                prev.wf(),
                map_below(prev@, c),
                self.nodes@.len() == prev.nodes@.len(),
                0 <= i <= self.nodes@.len(),
                forall|j: int| 0 <= j < self.nodes@.len() ==> #[trigger] self.key_at(j) == prev.key_at(j),
                forall|j: int| 0 <= j < self.nodes@.len() ==> history_increasing(#[trigger] self.nodes@[j].history@),
                forall|j: int| i <= j < self.nodes@.len() ==> #[trigger] self.nodes@[j].history@ == prev.nodes@[j].history@,
                forall|j: int| 0 <= j < i ==> #[trigger] self.nodes@[j].history@ == (if in_range(prev.key_at(j), start@, end@) {
                    add_version(prev.nodes@[j].history@, c, Value::Deleted(a))
                } else {
                    prev.nodes@[j].history@
                }),
            decreases self.nodes@.len() - i,
        {
            let in_start = !self.nodes[i].key.lt(start);
            let in_end = self.nodes[i].key.lt(end);
            proof {
                lemma_key_order(self.key_at(i as int), start@);
            }
            if in_start && in_end {
                proof {
                    prev.lemma_history_at(i as int);
                    assert(history_below(prev@[prev.key_at(i as int)], c));
                }
                let ghost before = self.nodes@;
                let ghost before_self = *self;
                let node = &mut self.nodes[i];
                push_version(&mut node.history, c, Value::Deleted(a));
                proof {
                    assert forall|j: int| 0 <= j < self.nodes@.len() && j != i implies #[trigger] self.nodes@[j] == before[j] by {}
                    assert(self.nodes@[i as int].key == before[i as int].key);
                    assert forall|j: int| 0 <= j < self.nodes@.len() implies #[trigger] self.key_at(j) == prev.key_at(j) by {
                        assert(self.nodes@[j].key == before[j].key);
                        assert(before_self.key_at(j) == prev.key_at(j));
                    }
                }
            }
            i = i + 1;
        }
        proof {
            let target = map_delete_range(prev@, start@, end@, c, a);
            assert forall|k: Seq<u8>| #[trigger] self@.contains_key(k) <==> target.contains_key(k) by {
                if self.has_key(k) {
                    let j = choose|j: int| 0 <= j < self.nodes@.len() && self.key_at(j) == k;
                    assert(prev.key_at(j) == k);
                }
                if prev.has_key(k) {
                    let j = choose|j: int| 0 <= j < prev.nodes@.len() && prev.key_at(j) == k;
                    assert(self.key_at(j) == k);
                }
            }
            assert forall|i: int, j: int| 0 <= i < j < self.nodes@.len() implies key_lt(self.key_at(i), self.key_at(j)) by {
                assert(self.key_at(i) == prev.key_at(i));
                assert(self.key_at(j) == prev.key_at(j));
            }
            assert forall|k: Seq<u8>| #[trigger] self@.contains_key(k) implies self@[k] == target[k] by {
                let j = choose|j: int| 0 <= j < self.nodes@.len() && self.key_at(j) == k;
                self.lemma_history_at(j);
                prev.lemma_history_at(j);
            }
            assert(self@ =~= target);
            assert forall|k: Seq<u8>| self@.contains_key(k) implies history_below(#[trigger] self@[k], c) by {
                assert(prev@.contains_key(k));
                let h = prev@[k];
                let h2 = self@[k];
                assert(history_below(h, c));
                assert forall|x: int| 0 <= x < h2.len() implies h2[x].0 <= c by {
                    if x < h2.len() - 1 {
                        assert(h2[x] == h[x]);
                    }
                }
            }
        }
    }

    /// A cursor over the keys whose visible status at `gen` is written.
    pub fn cursor(&self, gen: Generation) -> (r: Cursor)
        requires
            self.wf(),
        ensures
            r.wf(),
            r.gen() == gen,
            snapshot_of(self@, gen.0, r.entries()),
            !r.is_valid(),
    {
        let mut entries: Vec<(Key, Address)> = Vec::new();
        let ghost mut src: Seq<int> = Seq::empty();
        let mut i: usize = 0;
        while i < self.nodes.len()
            invariant
                self.wf(),
                i <= self.nodes@.len(),
                src.len() == entries@.len(),
                forall|x: int, y: int| 0 <= x < y < src.len() ==> src[x] < src[y],
                forall|x: int| 0 <= x < src.len() ==> 0 <= #[trigger] src[x] < i,
                forall|x: int| 0 <= x < src.len() ==> self.key_at(#[trigger] src[x]) == entries@[x].0@
                    && visible_write(self.nodes@[src[x]].history@, gen.0) == Some(entries@[x].1),
                forall|j: int| 0 <= j < i && (#[trigger] visible_write(self.nodes@[j].history@, gen.0)).is_some()
                    ==> exists|x: int| 0 <= x < src.len() && src[x] == j,
            decreases self.nodes@.len() - i,
        {
            let status = latest_status(&self.nodes[i].history, gen.0);
            if let Some(Value::Written(a)) = status {
                let ghost old_src = src;
                entries.push((self.nodes[i].key.copy(), a));
                proof {
                    src = src.push(i as int);
                    assert forall|j: int| 0 <= j < i + 1 && (#[trigger] visible_write(self.nodes@[j].history@, gen.0)).is_some()
                        implies exists|x: int| 0 <= x < src.len() && src[x] == j by {
                        if j < i {
                            let x = choose|x: int| 0 <= x < old_src.len() && old_src[x] == j;
                            assert(src[x] == j);
                        } else {
                            assert(src[src.len() - 1] == j);
                        }
                    }
                }
            }
            i = i + 1;
        }
        let n = entries.len();
        let r = Cursor { gen, entries, pos: n };
        proof {
            let m = self@;
            let e = r.entries();
            assert forall|x: int, y: int| 0 <= x < y < e.len() implies key_lt(e[x].0, e[y].0) by {
                assert(e[x].0 == entries@[x].0@);
                assert(e[y].0 == entries@[y].0@);
                assert(self.key_at(src[x]) == entries@[x].0@);
                assert(self.key_at(src[y]) == entries@[y].0@);
            }
            assert forall|x: int| 0 <= x < e.len() implies m.contains_key(#[trigger] e[x].0) && visible_write(m[e[x].0], gen.0) == Some(e[x].1) by {
                assert(self.key_at(src[x]) == entries@[x].0@);
                self.lemma_history_at(src[x]);
            }
            assert forall|k: Seq<u8>| m.contains_key(k) && (#[trigger] visible_write(m[k], gen.0)).is_some()
                implies exists|x: int| 0 <= x < e.len() && e[x].0 == k by {
                let j = choose|j: int| 0 <= j < self.nodes@.len() && self.key_at(j) == k;
                self.lemma_history_at(j);
                let x = choose|x: int| 0 <= x < src.len() && src[x] == j;
                assert(self.key_at(src[x]) == entries@[x].0@);
                assert(e[x].0 == k);
            }
        }
        r
    }
}

/// Adds a version at commit `c` to a history whose versions are no later than `c`.
fn push_version(h: &mut Vec<(u64, Value)>, c: u64, v: Value)
    requires
        history_increasing(old(h)@),
        history_below(old(h)@, c),
    ensures
        final(h)@ == add_version(old(h)@, c, v),
        history_increasing(final(h)@),
{
    let n = h.len();
    if n > 0 && h[n - 1].0 == c {
        h.set(n - 1, (c, v));
        assert(h@ =~= add_version(old(h)@, c, v));
    } else {
        h.push((c, v));
        proof {
            if n > 0 {
                assert(old(h)@[n - 1].0 <= c);
            }
        }
    }
}

/// The newest status in `h` below `gen`.
fn latest_status(h: &Vec<(u64, Value)>, gen: u64) -> (r: Option<Value>)
    ensures
        r == latest_before(h@, gen),
{
    let mut i: usize = h.len();
    assert(h@.take(i as int) =~= h@);
    while i > 0
        invariant
            i <= h@.len(),
            latest_before(h@, gen) == latest_before(h@.take(i as int), gen),
        decreases i,
    {
        assert(h@.take(i as int).last() == h@[i - 1]);
        if h[i - 1].0 < gen {
            return Some(h[i - 1].1);
        }
        assert(h@.take(i as int).drop_last() =~= h@.take(i - 1));
        i = i - 1;
    }
    None
}

/// A snapshot cursor over the written keys of an index at one generation.
///
/// The cursor is positioned on one of its entries, or past them (invalid).
pub struct Cursor {
    gen: Generation,
    entries: Vec<(Key, Address)>,
    pos: usize,
}

/// Where `next` moves a cursor at `p` over `n` entries; `n` stands for invalid.
pub open spec fn next_position(n: int, p: int) -> int {
    if p < n { p + 1 } else { n }
}

/// Where `prev` moves a cursor at `p` over `n` entries.
pub open spec fn prev_position(n: int, p: int) -> int {
    if 0 < p < n { p - 1 } else { n }
}

/// The position `seek_last` gives over `n` entries.
pub open spec fn last_position(n: int) -> int {
    if n > 0 { n - 1 } else { n }
}

/// The keys met from position `p` on by repeated `next`.
pub open spec fn walk_forward(e: Seq<(Seq<u8>, Address)>, p: int) -> Seq<Seq<u8>>
    decreases e.len() - p,
{
    if 0 <= p < e.len() {
        seq![e[p].0] + walk_forward(e, next_position(e.len() as int, p))
    } else {
        Seq::empty()
    }
}

/// The keys met from position `p` on by repeated `prev`.
pub open spec fn walk_backward(e: Seq<(Seq<u8>, Address)>, p: int) -> Seq<Seq<u8>>
    decreases p + 1,
{
    if 0 <= p < e.len() {
        seq![e[p].0] + walk_backward(e, if p == 0 { -1 } else { prev_position(e.len() as int, p) })
    } else {
        Seq::empty()
    }
}

/// The keys of a cursor's entries, in order.
pub open spec fn keys_of(e: Seq<(Seq<u8>, Address)>) -> Seq<Seq<u8>> {
    e.map_values(|x: (Seq<u8>, Address)| x.0)
}

proof fn lemma_walk_forward(e: Seq<(Seq<u8>, Address)>, p: int)
    requires
        0 <= p <= e.len(),
    ensures
        walk_forward(e, p) == keys_of(e).subrange(p, e.len() as int),
    decreases e.len() - p,
{
    if p < e.len() {
        lemma_walk_forward(e, p + 1);
        assert(walk_forward(e, p) =~= keys_of(e).subrange(p, e.len() as int));
    } else {
        assert(keys_of(e).subrange(p, e.len() as int) =~= Seq::<Seq<u8>>::empty());
    }
}

proof fn lemma_walk_backward(e: Seq<(Seq<u8>, Address)>, p: int)
    requires
        -1 <= p < e.len(),
    ensures
        walk_backward(e, p) == keys_of(e).subrange(0, p + 1).reverse(),
    decreases p + 1,
{
    if p >= 0 {
        lemma_walk_backward(e, p - 1);
        let q = if p == 0 { -1 } else { prev_position(e.len() as int, p) };
        assert(q == p - 1);
        assert(walk_backward(e, p) =~= keys_of(e).subrange(0, p + 1).reverse());
    } else {
        assert(keys_of(e).subrange(0, 0).reverse() =~= Seq::<Seq<u8>>::empty());
    }
}

/// Walking a cursor forward from `seek_first` meets the same keys as walking
/// it backward from `seek_last`, in reverse order; for a cursor of an index
/// these are exactly the keys whose visible status is written, ascending.
pub proof fn lemma_cursor_round_trip(m: Map<Seq<u8>, History>, gen: u64, e: Seq<(Seq<u8>, Address)>)
    requires
        snapshot_of(m, gen, e),
    ensures
        walk_forward(e, 0) == walk_backward(e, last_position(e.len() as int)).reverse(),
        walk_forward(e, 0) == keys_of(e),
        forall|i: int, j: int| 0 <= i < j < e.len() ==> key_lt(walk_forward(e, 0)[i], walk_forward(e, 0)[j]),
        forall|k: Seq<u8>| walk_forward(e, 0).contains(k) <==> m.contains_key(k) && visible_write(m[k], gen) is Some,
{
    lemma_walk_forward(e, 0);
    assert(keys_of(e).subrange(0, e.len() as int) =~= keys_of(e));
    if e.len() > 0 {
        lemma_walk_backward(e, last_position(e.len() as int));
        assert(keys_of(e).subrange(0, last_position(e.len() as int) + 1) =~= keys_of(e));
    } else {
        assert(keys_of(e) =~= Seq::<Seq<u8>>::empty());
    }
    assert(keys_of(e).reverse().reverse() =~= keys_of(e));
    let w = walk_forward(e, 0);
    assert forall|k: Seq<u8>| w.contains(k) <==> m.contains_key(k) && visible_write(m[k], gen) is Some by {
        if w.contains(k) {
            let i = choose|i: int| 0 <= i < w.len() && w[i] == k;
            assert(w[i] == e[i].0);
        }
        if m.contains_key(k) && visible_write(m[k], gen) is Some {
            let i = choose|i: int| 0 <= i < e.len() && e[i].0 == k;
            assert(w[i] == k);
        }
    }
}

impl Cursor {
    pub closed spec fn entries(&self) -> Seq<(Seq<u8>, Address)> {
        self.entries@.map_values(|e: (Key, Address)| (e.0@, e.1))
    }

    pub closed spec fn position(&self) -> int {
        self.pos as int
    }

    pub closed spec fn gen(&self) -> Generation {
        self.gen
    }

    pub closed spec fn wf(&self) -> bool {
        self.pos <= self.entries@.len()
    }

    pub open spec fn is_valid(&self) -> bool {
        self.position() < self.entries().len()
    }

    pub proof fn lemma_position_bound(&self)
        requires
            self.wf(),
        ensures
            0 <= self.position() <= self.entries().len(),
    {
    }

    pub fn valid(&self) -> (r: bool)
        requires
            self.wf(),
        ensures
            r == self.is_valid(),
    {
        self.pos < self.entries.len()
    }

    /// The key under the cursor.
    pub fn key(&self) -> (r: Key)
        requires
            self.wf(),
            self.is_valid(),
        ensures
            r@ == self.entries()[self.position()].0,
    {
        self.entries[self.pos].0.copy()
    }

    /// The address of the write visible for the key under the cursor.
    pub fn address(&self) -> (r: Address)
        requires
            self.wf(),
            self.is_valid(),
        ensures
            r == self.entries()[self.position()].1,
    {
        self.entries[self.pos].1
    }

    pub fn next(&mut self)
        requires
            old(self).wf(),
        ensures
            final(self).wf(),
            final(self).entries() == old(self).entries(),
            final(self).gen() == old(self).gen(),
            final(self).position() == next_position(old(self).entries().len() as int, old(self).position()),
    {
        if self.pos < self.entries.len() {
            self.pos = self.pos + 1;
        }
    }

    pub fn prev(&mut self)
        requires
            old(self).wf(),
        ensures
            final(self).wf(),
            final(self).entries() == old(self).entries(),
            final(self).gen() == old(self).gen(),
            final(self).position() == prev_position(old(self).entries().len() as int, old(self).position()),
    {
        if 0 < self.pos && self.pos < self.entries.len() {
            self.pos = self.pos - 1;
        } else {
            self.pos = self.entries.len();
        }
    }

    pub fn seek_first(&mut self)
        requires
            old(self).wf(),
        ensures
            final(self).wf(),
            final(self).entries() == old(self).entries(),
            final(self).gen() == old(self).gen(),
            final(self).position() == 0,
    {
        self.pos = 0;
    }

    pub fn seek_last(&mut self)
        requires
            old(self).wf(),
        ensures
            final(self).wf(),
            final(self).entries() == old(self).entries(),
            final(self).gen() == old(self).gen(),
            final(self).position() == last_position(old(self).entries().len() as int),
    {
        if self.entries.len() > 0 {
            self.pos = self.entries.len() - 1;
        } else {
            self.pos = 0;
        }
    }

    /// Moves to the first entry whose key is not below `key`.
    pub fn seek_key(&mut self, key: &Key)
        requires
            old(self).wf(),
        ensures
            final(self).wf(),
            final(self).entries() == old(self).entries(),
            final(self).gen() == old(self).gen(),
            forall|j: int| 0 <= j < final(self).position() ==> key_lt(#[trigger] final(self).entries()[j].0, key@),
            final(self).is_valid() ==> key_le(key@, final(self).entries()[final(self).position()].0),
    {
        let r = self.lower_bound(key);
        let ghost e = self.entries();
        self.pos = r;
        assert(self.entries() == e);
    }

    fn lower_bound(&self, key: &Key) -> (r: usize)
        ensures
            r <= self.entries@.len(),
            forall|j: int| 0 <= j < r ==> key_lt(#[trigger] self.entries()[j].0, key@),
            r < self.entries@.len() ==> key_le(key@, self.entries()[r as int].0),
    {
        let mut i: usize = 0;
        let mut stop = false;
        while i < self.entries.len() && !stop
            invariant
                i <= self.entries@.len(),
                forall|j: int| 0 <= j < i ==> key_lt(#[trigger] self.entries()[j].0, key@),
                stop ==> i < self.entries@.len() && key_le(key@, self.entries()[i as int].0),
            decreases self.entries@.len() - i, if stop { 0int } else { 1int },
        {
            if self.entries[i].0.lt(key) {
                i = i + 1;
            } else {
                proof {
                    lemma_key_order(self.entries()[i as int].0, key@);
                }
                stop = true;
            }
        }
        i
    }

    /// Moves to the last entry whose key is not above `key`; invalid if none.
    pub fn seek_key_rev(&mut self, key: &Key)
        requires
            old(self).wf(),
        ensures
            final(self).wf(),
            final(self).entries() == old(self).entries(),
            final(self).gen() == old(self).gen(),
            final(self).is_valid() ==> key_le(final(self).entries()[final(self).position()].0, key@)
                && forall|j: int| final(self).position() < j < final(self).entries().len()
                    ==> key_lt(key@, #[trigger] final(self).entries()[j].0),
            !final(self).is_valid() ==> forall|j: int| 0 <= j < final(self).entries().len() ==> key_lt(key@, #[trigger] final(self).entries()[j].0),
    {
        let (found, i) = self.upper_bound(key);
        let ghost e = self.entries();
        if found {
            self.pos = i - 1;
        } else {
            self.pos = self.entries.len();
        }
        assert(self.entries() == e);
    }

    fn upper_bound(&self, key: &Key) -> (r: (bool, usize))
        ensures
            r.1 <= self.entries@.len(),
            r.0 ==> 0 < r.1 && key_le(self.entries()[r.1 - 1].0, key@),
            forall|j: int| r.1 <= j < self.entries@.len() ==> key_lt(key@, #[trigger] self.entries()[j].0),
            !r.0 ==> r.1 == 0,
    {
        let mut i: usize = self.entries.len();
        let mut found = false;
        while i > 0 && !found
            invariant
                i <= self.entries@.len(),
                forall|j: int| i <= j < self.entries@.len() ==> key_lt(key@, #[trigger] self.entries()[j].0),
                found ==> 0 < i && key_le(self.entries()[i - 1].0, key@),
            decreases i, if found { 0int } else { 1int },
        {
            if key.lt(&self.entries[i - 1].0) {
                i = i - 1;
            } else {
                proof {
                    lemma_key_order(key@, self.entries()[i - 1].0);
                }
                found = true;
            }
        }
        (found, i)
    }
}

} // verus!
