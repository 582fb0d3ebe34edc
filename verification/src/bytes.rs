//! Byte-sequence helpers shared by the codec and the log: first occurrence of
//! a byte, absence of a byte, and small verified copies and comparisons.

use vstd::prelude::*;

verus! {

/// True when byte `b` occurs nowhere in `s`.
pub open spec fn absent(s: Seq<u8>, b: u8) -> bool {
    forall|i: int| 0 <= i < s.len() ==> s[i] != b
}

/// Index of the first occurrence of `b` in `s`, or `s.len()` when `b` is absent.
pub open spec fn first_occ(s: Seq<u8>, b: u8) -> nat
    decreases s.len(),
{
    if s.len() == 0 {
        0
    } else if s[0] == b {
        0
    } else {
        1 + first_occ(s.subrange(1, s.len() as int), b)
    }
}

/// `first_occ` is at most the length, points at `b` when in range, and
/// everything before it differs from `b`.
pub proof fn lemma_first_occ_props(s: Seq<u8>, b: u8)
    ensures
        first_occ(s, b) <= s.len(),
        first_occ(s, b) < s.len() ==> s[first_occ(s, b) as int] == b,
        forall|i: int| 0 <= i < first_occ(s, b) ==> s[i] != b,
    decreases s.len(),
{
    if s.len() == 0 {
    } else if s[0] == b {
    } else {
        let t = s.subrange(1, s.len() as int);
        lemma_first_occ_props(t, b);
        assert(forall|i: int| 0 <= i < first_occ(t, b) ==> t[i] != b);
        assert forall|i: int| 0 <= i < first_occ(s, b) implies s[i] != b by {
            if i > 0 {
                assert(s[i] == t[i - 1]);
            }
        }
    }
}

/// Where the first occurrence of `b` in a concatenation falls: in `x` if `x`
/// has one, otherwise past `x` at its first place in `y`.
pub proof fn lemma_first_occ_append(x: Seq<u8>, y: Seq<u8>, b: u8)
    ensures
        first_occ(x + y, b) == if first_occ(x, b) < x.len() {
            first_occ(x, b) as int
        } else {
            x.len() + first_occ(y, b) as int
        },
    decreases x.len(),
{
    if x.len() == 0 {
        assert(x + y =~= y);
    } else if x[0] == b {
        assert((x + y)[0] == b);
    } else {
        assert((x + y)[0] == x[0]);
        let xt = x.subrange(1, x.len() as int);
        assert((x + y).subrange(1, (x + y).len() as int) =~= xt + y);
        lemma_first_occ_append(xt, y, b);
    }
}

/// A sequence without `b` has its first occurrence at the end.
pub proof fn lemma_first_occ_absent(s: Seq<u8>, b: u8)
    ensures
        absent(s, b) <==> first_occ(s, b) == s.len(),
{
    lemma_first_occ_props(s, b);
}

/// First index at which `b` occurs in `v`, or `v.len()` when it does not.
pub fn find_byte(v: &Vec<u8>, b: u8) -> (r: usize)
    ensures
        r == first_occ(v@, b),
{
    proof {
        lemma_first_occ_props(v@, b);
    }
    let mut i: usize = 0;
    while i < v.len()
        invariant
            0 <= i <= v@.len(),
            forall|j: int| 0 <= j < i ==> v@[j] != b,
            first_occ(v@, b) <= v@.len(),
            first_occ(v@, b) < v@.len() ==> v@[first_occ(v@, b) as int] == b,
            forall|j: int| 0 <= j < first_occ(v@, b) ==> v@[j] != b,
        decreases v@.len() - i,
    {
        if v[i] == b {
            return i;
        }
        i = i + 1;
    }
    i
}

/// First index at or after `from` at which `b` occurs in `v`, or `v.len()`
/// when it does not; stated over the tail that starts at `from`.
pub fn find_byte_from(v: &Vec<u8>, from: usize, b: u8) -> (r: usize)
    requires
        from <= v@.len(),
    ensures
        from <= r <= v@.len(),
        r - from == first_occ(v@.subrange(from as int, v@.len() as int), b),
{
    let ghost s = v@.subrange(from as int, v@.len() as int);
    proof {
        lemma_first_occ_props(s, b);
    }
    let mut i: usize = from;
    while i < v.len()
        invariant
            from <= i <= v@.len(),
            s == v@.subrange(from as int, v@.len() as int),
            forall|j: int| from <= j < i ==> v@[j] != b,
            first_occ(s, b) <= s.len(),
            first_occ(s, b) < s.len() ==> s[first_occ(s, b) as int] == b,
            forall|j: int| 0 <= j < first_occ(s, b) ==> s[j] != b,
        decreases v@.len() - i,
    {
        if v[i] == b {
            proof {
                assert(s[i - from] == v@[i as int]);
                assert forall|j: int| 0 <= j < i - from implies s[j] != b by {
                    assert(s[j] == v@[from + j]);
                }
            }
            return i;
        }
        i = i + 1;
    }
    proof {
        assert forall|j: int| 0 <= j < s.len() implies s[j] != b by {
            assert(s[j] == v@[from + j]);
        }
        lemma_first_occ_absent(s, b);
    }
    v.len()
}

/// Element-for-element equality of two byte vectors.
pub fn bytes_eq(a: &Vec<u8>, b: &Vec<u8>) -> (r: bool)
    ensures
        r == (a@ == b@),
{
    if a.len() != b.len() {
        return false;
    }
    let mut i: usize = 0;
    while i < a.len()
        invariant
            a@.len() == b@.len(),
            0 <= i <= a@.len(),
            forall|j: int| 0 <= j < i ==> a@[j] == b@[j],
        decreases a@.len() - i,
    {
        if a[i] != b[i] {
            return false;
        }
        i = i + 1;
    }
    proof {
        assert(a@ =~= b@);
    }
    true
}

/// A fresh copy of a byte vector.
pub fn copy_bytes(v: &Vec<u8>) -> (r: Vec<u8>)
    ensures
        r@ == v@,
{
    let mut r: Vec<u8> = Vec::new();
    let mut i: usize = 0;
    while i < v.len()
        invariant
            0 <= i <= v@.len(),
            r@ == v@.subrange(0, i as int),
        decreases v@.len() - i,
    {
        r.push(v[i]);
        proof {
            assert(r@ =~= v@.subrange(0, i + 1 as int));
        }
        i = i + 1;
    }
    proof {
        assert(r@ =~= v@);
    }
    r
}

/// A fresh copy of `v[from..to]`.
pub fn copy_range(v: &Vec<u8>, from: usize, to: usize) -> (r: Vec<u8>)
    requires
        from <= to <= v@.len(),
    ensures
        r@ == v@.subrange(from as int, to as int),
{
    let mut r: Vec<u8> = Vec::new();
    let mut i: usize = from;
    while i < to
        invariant
            from <= i <= to <= v@.len(),
            r@ == v@.subrange(from as int, i as int),
        decreases to - i,
    {
        r.push(v[i]);
        proof {
            assert(r@ =~= v@.subrange(from as int, i + 1 as int));
        }
        i = i + 1;
    }
    r
}

/// Append all of `src` to `dst`.
pub fn push_bytes(dst: &mut Vec<u8>, src: &Vec<u8>)
    ensures
        final(dst)@ == old(dst)@ + src@,
{
    let ghost base = dst@;
    let mut i: usize = 0;
    while i < src.len()
        invariant
            0 <= i <= src@.len(),
            dst@ == base + src@.subrange(0, i as int),
        decreases src@.len() - i,
    {
        dst.push(src[i]);
        proof {
            assert(dst@ =~= base + src@.subrange(0, i + 1 as int));
        }
        i = i + 1;
    }
    proof {
        assert(dst@ =~= base + src@);
    }
}

} // verus!
