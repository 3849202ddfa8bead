use vstd::prelude::*;

verus! {

/// An opaque byte-string key; keys are ordered lexicographically by bytes.
pub struct Key(pub Vec<u8>);

impl View for Key {
    type V = Seq<u8>;

    open spec fn view(&self) -> Seq<u8> {
        self.0@
    }
}

/// Three-way lexicographic comparison of `a` and `b` from position `i` on:
/// -1 when `a` sorts first, 1 when `b` does, 0 when the suffixes are equal.
pub open spec fn cmp_from(a: Seq<u8>, b: Seq<u8>, i: int) -> int
    decreases a.len() - i,
{
    if i < 0 || i >= a.len() {
        if i >= 0 && i < b.len() { -1 } else { 0 }
    } else if i >= b.len() {
        1
    } else if a[i] < b[i] {
        -1
    } else if a[i] > b[i] {
        1
    } else {
        cmp_from(a, b, i + 1)
    }
}

pub open spec fn key_cmp(a: Seq<u8>, b: Seq<u8>) -> int {
    cmp_from(a, b, 0)
}

/// Strict lexicographic order on byte strings.
pub open spec fn key_lt(a: Seq<u8>, b: Seq<u8>) -> bool {
    key_cmp(a, b) < 0
}

pub open spec fn key_le(a: Seq<u8>, b: Seq<u8>) -> bool {
    key_cmp(a, b) <= 0
}

proof fn lemma_cmp_from_antisym(a: Seq<u8>, b: Seq<u8>, i: int)
    requires
        0 <= i,
    ensures
        cmp_from(a, b, i) == -cmp_from(b, a, i),
    decreases a.len() - i,
{
    if i < a.len() && i < b.len() && a[i] == b[i] {
        lemma_cmp_from_antisym(a, b, i + 1);
    }
}

proof fn lemma_cmp_from_eq(a: Seq<u8>, b: Seq<u8>, i: int)
    requires
        0 <= i <= a.len(),
        a.subrange(0, i) == b.subrange(0, i),
        i <= b.len(),
    ensures
        cmp_from(a, b, i) == 0 <==> a == b,
    decreases a.len() - i,
{
    if i < a.len() && i < b.len() && a[i] == b[i] {
        assert(a.subrange(0, i + 1) =~= a.subrange(0, i).push(a[i]));
        assert(b.subrange(0, i + 1) =~= b.subrange(0, i).push(b[i]));
        lemma_cmp_from_eq(a, b, i + 1);
    } else if i == a.len() && i == b.len() {
        assert(a =~= a.subrange(0, i));
        assert(b =~= b.subrange(0, i));
    } else {
        if a == b {
            assert(a[i] == b[i]);
        }
    }
}

proof fn lemma_cmp_from_trans(a: Seq<u8>, b: Seq<u8>, c: Seq<u8>, i: int)
    requires
        0 <= i,
        cmp_from(a, b, i) < 0,
        cmp_from(b, c, i) < 0,
    ensures
        cmp_from(a, c, i) < 0,
    decreases a.len() - i,
{
    if i < a.len() && i < b.len() && i < c.len() && a[i] == b[i] && b[i] == c[i] {
        lemma_cmp_from_trans(a, b, c, i + 1);
    }
}

/// `key_cmp` is a total order that agrees with equality.
pub proof fn lemma_key_order(a: Seq<u8>, b: Seq<u8>)
    ensures
        key_cmp(a, b) == -key_cmp(b, a),
        key_cmp(a, b) == 0 <==> a == b,
        -1 <= key_cmp(a, b) <= 1,
{
    lemma_cmp_from_antisym(a, b, 0);
    assert(a.subrange(0, 0) =~= b.subrange(0, 0));
    lemma_cmp_from_eq(a, b, 0);
    lemma_cmp_range(a, b, 0);
}

proof fn lemma_cmp_range(a: Seq<u8>, b: Seq<u8>, i: int)
    requires
        0 <= i,
    ensures
        -1 <= cmp_from(a, b, i) <= 1,
    decreases a.len() - i,
{
    if i < a.len() && i < b.len() && a[i] == b[i] {
        lemma_cmp_range(a, b, i + 1);
    }
}

pub proof fn lemma_key_lt_trans(a: Seq<u8>, b: Seq<u8>, c: Seq<u8>)
    requires
        key_lt(a, b),
        key_lt(b, c),
    ensures
        key_lt(a, c),
{
    lemma_cmp_from_trans(a, b, c, 0);
}

pub proof fn lemma_key_le_trans(a: Seq<u8>, b: Seq<u8>, c: Seq<u8>)
    ensures
        key_le(a, b) && key_lt(b, c) ==> key_lt(a, c),
        key_lt(a, b) && key_le(b, c) ==> key_lt(a, c),
        key_le(a, b) && key_le(b, c) ==> key_le(a, c),
{
    lemma_key_order(a, b);
    lemma_key_order(b, c);
    lemma_key_order(a, c);
    if key_lt(a, b) && key_lt(b, c) {
        lemma_key_lt_trans(a, b, c);
    }
}

/// Compares two byte strings lexicographically.
pub fn compare_bytes(a: &Vec<u8>, b: &Vec<u8>) -> (r: i8)
    ensures
        r as int == key_cmp(a@, b@),
{
    let mut i: usize = 0;
    while i < a.len() && i < b.len()
        invariant
            i <= a.len(),
            i <= b.len(),
            cmp_from(a@, b@, i as int) == key_cmp(a@, b@),
        decreases a.len() - i,
    {
        if a[i] < b[i] {
            return -1;
        } else if a[i] > b[i] {
            return 1;
        }
        i = i + 1;
    }
    if i < b.len() {
        -1
    } else if i < a.len() {
        1
    } else {
        0
    }
}

impl Key {
    pub fn new(bytes: Vec<u8>) -> (r: Key)
        ensures
            r@ == bytes@,
    {
        Key(bytes)
    }

    pub fn copy(&self) -> (r: Key)
        ensures
            r@ == self@,
    {
        let mut v: Vec<u8> = Vec::new();
        let mut i: usize = 0;
        while i < self.0.len()
            invariant
                i <= self.0.len(),
                v@ == self.0@.subrange(0, i as int),
            decreases self.0.len() - i,
        {
            v.push(self.0[i]);
            i = i + 1;
            assert(v@ =~= self.0@.subrange(0, i as int));
        }
        assert(v@ =~= self.0@);
        Key(v)
    }

    pub fn cmp_key(&self, other: &Key) -> (r: i8)
        ensures
            r as int == key_cmp(self@, other@),
    {
        compare_bytes(&self.0, &other.0)
    }

    pub fn lt(&self, other: &Key) -> (r: bool)
        ensures
            r == key_lt(self@, other@),
    {
        compare_bytes(&self.0, &other.0) < 0
    }

    pub fn eq_key(&self, other: &Key) -> (r: bool)
        ensures
            r == (self@ == other@),
    {
        proof {
            lemma_key_order(self@, other@);
        }
        compare_bytes(&self.0, &other.0) == 0
    }
}

} // verus!

verus! {

/// A copy of a byte string.
pub fn copy_bytes(v: &Vec<u8>) -> (r: Vec<u8>)
    ensures
        r@ == v@,
{
    let mut out: Vec<u8> = Vec::new();
    let mut i: usize = 0;
    while i < v.len()
        invariant
            i <= v.len(),
            out@ == v@.subrange(0, i as int),
        decreases v.len() - i,
    {
        out.push(v[i]);
        i = i + 1;
        assert(out@ =~= v@.subrange(0, i as int));
    }
    assert(out@ =~= v@);
    out
}

} // verus!
