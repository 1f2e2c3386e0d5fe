//! Small byte-sequence helpers shared by the wire codec and the stream
//! reassembler: whitespace trimming, first-occurrence search, and copying.

use vstd::prelude::*;

verus! {

/// ASCII whitespace, as the framing layer understands it.
pub open spec fn is_ws(b: u8) -> bool {
    b == 0x20 || b == 0x09 || b == 0x0a || b == 0x0d
}

/// Index of the first occurrence of `b` in `s`, or `s.len()` if `b` is absent.
pub open spec fn first_ix(s: Seq<u8>, b: u8) -> int
    decreases s.len(),
{
    if s.len() == 0 {
        0
    } else if s[0] == b {
        0
    } else {
        1 + first_ix(s.skip(1), b)
    }
}

pub proof fn lemma_first_ix(s: Seq<u8>, b: u8)
    ensures
        0 <= first_ix(s, b) <= s.len(),
        first_ix(s, b) < s.len() ==> s[first_ix(s, b)] == b,
        forall|j: int| 0 <= j < first_ix(s, b) ==> s[j] != b,
    decreases s.len(),
{
    if s.len() == 0 {
    } else if s[0] == b {
    } else {
        lemma_first_ix(s.skip(1), b);
        assert forall|j: int| 0 <= j < first_ix(s, b) implies s[j] != b by {
            if j > 0 {
                assert(s.skip(1)[j - 1] == s[j]);
            }
        }
    }
}

/// `first_ix` is pinned by any witness position with nothing before it.
pub proof fn lemma_first_ix_of(s: Seq<u8>, b: u8, k: int)
    requires
        0 <= k < s.len(),
        s[k] == b,
        forall|j: int| 0 <= j < k ==> s[j] != b,
    ensures
        first_ix(s, b) == k,
    decreases s.len(),
{
    if k == 0 {
    } else {
        assert forall|j: int| 0 <= j < k - 1 implies s.skip(1)[j] != b by {
            assert(s.skip(1)[j] == s[j + 1]);
        }
        assert(s.skip(1)[k - 1] == s[k]);
        lemma_first_ix_of(s.skip(1), b, k - 1);
    }
}

pub proof fn lemma_first_ix_absent(s: Seq<u8>, b: u8)
    requires
        forall|j: int| 0 <= j < s.len() ==> s[j] != b,
    ensures
        first_ix(s, b) == s.len(),
{
    lemma_first_ix(s, b);
    if first_ix(s, b) < s.len() {
        assert(s[first_ix(s, b)] == b);
        assert(false);
    }
}

/// A hit inside `a` is also the first hit inside `a + c`.
pub proof fn lemma_first_ix_concat_within(a: Seq<u8>, c: Seq<u8>, b: u8)
    requires
        first_ix(a, b) < a.len(),
    ensures
        first_ix(a + c, b) == first_ix(a, b),
{
    lemma_first_ix(a, b);
    let k = first_ix(a, b);
    assert((a + c)[k] == a[k]);
    assert forall|j: int| 0 <= j < k implies (a + c)[j] != b by {
        assert((a + c)[j] == a[j]);
    }
    lemma_first_ix_of(a + c, b, k);
}

/// With no hit inside `a`, searching `a + c` continues into `c`.
pub proof fn lemma_first_ix_concat_beyond(a: Seq<u8>, c: Seq<u8>, b: u8)
    requires
        first_ix(a, b) == a.len(),
    ensures
        first_ix(a + c, b) == a.len() + first_ix(c, b),
{
    lemma_first_ix(a, b);
    lemma_first_ix(c, b);
    let k = first_ix(c, b);
    if k < c.len() {
        assert((a + c)[a.len() + k] == c[k]);
        assert forall|j: int| 0 <= j < a.len() + k implies (a + c)[j] != b by {
            if j < a.len() {
                assert((a + c)[j] == a[j]);
            } else {
                assert((a + c)[j] == c[j - a.len()]);
            }
        }
        lemma_first_ix_of(a + c, b, a.len() + k);
    } else {
        assert forall|j: int| 0 <= j < (a + c).len() implies (a + c)[j] != b by {
            if j < a.len() {
                assert((a + c)[j] == a[j]);
            } else {
                assert((a + c)[j] == c[j - a.len()]);
            }
        }
        lemma_first_ix_absent(a + c, b);
    }
}

/// `s` with leading ASCII whitespace removed.
pub open spec fn trim_front(s: Seq<u8>) -> Seq<u8>
    decreases s.len(),
{
    if s.len() > 0 && is_ws(s[0]) {
        trim_front(s.skip(1))
    } else {
        s
    }
}

/// `s` with trailing ASCII whitespace removed.
pub open spec fn trim_back(s: Seq<u8>) -> Seq<u8>
    decreases s.len(),
{
    if s.len() > 0 && is_ws(s.last()) {
        trim_back(s.drop_last())
    } else {
        s
    }
}

/// `s` with whitespace removed from both ends.
pub open spec fn trim_bytes(s: Seq<u8>) -> Seq<u8> {
    trim_back(trim_front(s))
}

/// A sequence that neither starts nor ends in whitespace trims to itself.
pub proof fn lemma_trim_stable(s: Seq<u8>)
    requires
        s.len() > 0,
        !is_ws(s[0]),
        !is_ws(s.last()),
    ensures
        trim_bytes(s) == s,
{
}

/// Exact copy of `s[a..b]` as a fresh vector.
pub fn copy_range(s: &[u8], a: usize, b: usize) -> (r: Vec<u8>)
    requires
        a <= b <= s@.len(),
    ensures
        r@ == s@.subrange(a as int, b as int),
{
    let mut r: Vec<u8> = Vec::new();
    let mut k: usize = a;
    while k < b
        invariant
            a <= k <= b <= s@.len(),
            r@ == s@.subrange(a as int, k as int),
        decreases b - k,
    {
        r.push(s[k]);
        assert(s@.subrange(a as int, k + 1 as int) =~= s@.subrange(a as int, k as int).push(
            s@[k as int],
        ));
        k = k + 1;
    }
    r
}

/// Appends all of `s` onto `v`.
pub fn append_slice(v: &mut Vec<u8>, s: &[u8])
    ensures
        final(v)@ == old(v)@ + s@,
{
    let mut k: usize = 0;
    while k < s.len()
        invariant
            k <= s@.len(),
            v@ == old(v)@ + s@.subrange(0, k as int),
        decreases s@.len() - k,
    {
        v.push(s[k]);
        assert(s@.subrange(0, k + 1 as int) =~= s@.subrange(0, k as int).push(s@[k as int]));
        k = k + 1;
    }
    assert(s@.subrange(0, s@.len() as int) =~= s@);
}

/// Removes whitespace from both ends of `s`.
pub fn trim(s: &[u8]) -> (r: Vec<u8>)
    ensures
        r@ == trim_bytes(s@),
{
    proof {
        assert(s@.skip(0) =~= s@);
    }
    let mut i: usize = 0;
    while i < s.len() && is_ws_byte(s[i])
        invariant
            i <= s@.len(),
            trim_front(s@) == trim_front(s@.skip(i as int)),
        decreases s@.len() - i,
    {
        assert(s@.skip(i as int)[0] == s@[i as int]);
        assert(s@.skip(i as int).skip(1) =~= s@.skip(i + 1 as int));
        i = i + 1;
    }
    let ghost t = s@.skip(i as int);
    proof {
        if i < s@.len() {
            assert(t[0] == s@[i as int]);
        }
        assert(trim_front(s@) == t);
        assert(t.take(t.len() as int) =~= t);
    }
    let mut j: usize = s.len();
    while j > i && is_ws_byte(s[j - 1])
        invariant
            i <= j <= s@.len(),
            t == s@.skip(i as int),
            trim_back(t) == trim_back(t.take(j - i as int)),
        decreases j,
    {
        proof {
            let u = t.take(j - i as int);
            assert(u.len() == j - i);
            assert(u.last() == u[j - i - 1]);
            assert(u[j - i - 1] == t[j - i - 1]);
            assert(t[j - i - 1] == s@[j - 1]);
            assert(u.drop_last() =~= t.take(j - 1 - i as int));
        }
        j = j - 1;
    }
    proof {
        let u = t.take(j - i as int);
        assert(u.len() == j - i);
        if j > i {
            assert(u.last() == u[j - i - 1]);
            assert(u[j - i - 1] == t[j - i - 1]);
            assert(t[j - i - 1] == s@[j - 1]);
        }
        assert(trim_back(u) == u);
    }
    let r = copy_range(s, i, j);
    proof {
        assert(t.take(j - i as int) =~= s@.subrange(i as int, j as int));
    }
    r
}

/// Byte-wise equality of two slices.
pub fn bytes_eq(a: &[u8], b: &[u8]) -> (r: bool)
    ensures
        r == (a@ == b@),
{
    if a.len() != b.len() {
        return false;
    }
    let mut k: usize = 0;
    while k < a.len()
        invariant
            k <= a@.len(),
            a@.len() == b@.len(),
            forall|j: int| 0 <= j < k ==> a@[j] == b@[j],
        decreases a@.len() - k,
    {
        if a[k] != b[k] {
            return false;
        }
        k = k + 1;
    }
    proof {
        assert(a@ =~= b@);
    }
    true
}

/// Executable mirror of `is_ws`.
pub fn is_ws_byte(b: u8) -> (r: bool)
    ensures
        r == is_ws(b),
{
    b == 0x20 || b == 0x09 || b == 0x0a || b == 0x0d
}

} // verus!
