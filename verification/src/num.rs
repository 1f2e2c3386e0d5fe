//! Canonical decimal codec for the integers carried on the wire (entity
//! identifiers, map dimensions, coordinates). `dec_of` is the one canonical
//! spelling of a number; the parsers accept exactly that spelling.

use vstd::prelude::*;
use vstd::arithmetic::div_mod::{
    lemma_div_is_strictly_smaller, lemma_fundamental_div_mod, lemma_fundamental_div_mod_converse,
};

verus! {

/// ASCII digit zero.
pub const D0: u8 = 0x30;

/// ASCII minus sign.
pub const MINUS: u8 = 0x2d;

pub open spec fn is_digit(b: u8) -> bool {
    0x30 <= b && b <= 0x39
}

/// Canonical decimal spelling of a natural number (no leading zeroes).
pub open spec fn dec_of(n: nat) -> Seq<u8>
    decreases n,
{
    if n < 10 {
        seq![(0x30 + n) as u8]
    } else {
        dec_of(n / 10) + seq![(0x30 + n % 10) as u8]
    }
}

/// Value of a digit string, most significant digit first.
pub open spec fn dec_val(s: Seq<u8>) -> int
    decreases s.len(),
{
    if s.len() == 0 {
        0
    } else {
        dec_val(s.drop_last()) * 10 + (s.last() - 0x30)
    }
}

/// Canonical decimal spelling of a signed number.
pub open spec fn dec_of_i(n: int) -> Seq<u8> {
    if n >= 0 {
        dec_of(n as nat)
    } else {
        seq![MINUS] + dec_of((-n) as nat)
    }
}

/// Shape and value of `dec_of`: nonempty, digits only, no leading zero
/// (except for zero itself), and `dec_val` reads the number back.
pub proof fn lemma_dec_of_digits(n: nat)
    ensures
        dec_of(n).len() >= 1,
        forall|k: int| 0 <= k < dec_of(n).len() ==> is_digit(#[trigger] dec_of(n)[k]),
        n >= 1 ==> dec_of(n)[0] != D0,
        n >= 10 ==> dec_of(n).len() >= 2,
        dec_val(dec_of(n)) == n,
    decreases n,
{
    if n < 10 {
        let e = dec_of(n);
        assert(dec_val(Seq::<u8>::empty()) == 0);
        assert((0x30 + n) as u8 == 0x30 + n);
        assert(e.drop_last() =~= Seq::<u8>::empty());
        assert(e.last() == (0x30 + n) as u8);
    } else {
        lemma_div_is_strictly_smaller(n as int, 10);
        lemma_dec_of_digits(n / 10);
        lemma_fundamental_div_mod(n as int, 10);
        let h = dec_of(n / 10);
        let d = (0x30 + n % 10) as u8;
        let e = dec_of(n);
        assert(e =~= h + seq![d]);
        assert(e.drop_last() =~= h);
        assert(e.last() == d);
        assert(e[0] == h[0]);
        assert forall|k: int| 0 <= k < e.len() implies is_digit(e[k]) by {
            if k < h.len() {
                assert(e[k] == h[k]);
            }
        }
        assert(dec_val(e) == dec_val(h) * 10 + (d - 0x30));
    }
}

pub proof fn lemma_dec_of_injective(a: nat, b: nat)
    requires
        dec_of(a) == dec_of(b),
    ensures
        a == b,
{
    lemma_dec_of_digits(a);
    lemma_dec_of_digits(b);
}

/// A digit string never evaluates below zero.
pub proof fn lemma_dec_val_nonneg(s: Seq<u8>)
    requires
        forall|k: int| 0 <= k < s.len() ==> is_digit(#[trigger] s[k]),
    ensures
        dec_val(s) >= 0,
    decreases s.len(),
{
    if s.len() == 0 {
    } else {
        assert forall|k: int| 0 <= k < s.drop_last().len() implies is_digit(
            #[trigger] s.drop_last()[k],
        ) by {
            assert(s.drop_last()[k] == s[k]);
        }
        lemma_dec_val_nonneg(s.drop_last());
        assert(s.last() == s[s.len() - 1]);
    }
}

/// A digit string with a nonzero leading digit evaluates to at least one.
pub proof fn lemma_dec_val_pos(s: Seq<u8>)
    requires
        s.len() >= 1,
        forall|k: int| 0 <= k < s.len() ==> is_digit(#[trigger] s[k]),
        s[0] != D0,
    ensures
        dec_val(s) >= 1,
    decreases s.len(),
{
    if s.len() == 1 {
        assert(s.last() == s[0]);
        assert(s.drop_last() =~= Seq::<u8>::empty());
        assert(dec_val(Seq::<u8>::empty()) == 0);
    } else {
        assert forall|k: int| 0 <= k < s.drop_last().len() implies is_digit(
            #[trigger] s.drop_last()[k],
        ) by {
            assert(s.drop_last()[k] == s[k]);
        }
        assert(s.drop_last()[0] == s[0]);
        lemma_dec_val_pos(s.drop_last());
        assert(s.last() == s[s.len() - 1]);
    }
}

/// A canonical digit string is `dec_of` of its own value.
pub proof fn lemma_dec_canonical(s: Seq<u8>)
    requires
        s.len() >= 1,
        forall|k: int| 0 <= k < s.len() ==> is_digit(#[trigger] s[k]),
        s[0] != D0 || s.len() == 1,
    ensures
        dec_val(s) >= 0,
        dec_of(dec_val(s) as nat) == s,
    decreases s.len(),
{
    lemma_dec_val_nonneg(s);
    if s.len() == 1 {
        assert(s.drop_last() =~= Seq::<u8>::empty());
        assert(s.last() == s[0]);
        assert(dec_val(Seq::<u8>::empty()) == 0);
        let v = dec_val(s);
        assert(v == s[0] - 0x30);
        assert((0x30 + v) as u8 == 0x30 + v);
        assert(dec_of(v as nat) =~= seq![(0x30 + v) as u8]);
        assert(dec_of(v as nat) =~= s);
    } else {
        let h = s.drop_last();
        assert forall|k: int| 0 <= k < h.len() implies is_digit(#[trigger] h[k]) by {
            assert(h[k] == s[k]);
        }
        assert(h[0] == s[0]);
        lemma_dec_canonical(h);
        lemma_dec_val_pos(h);
        let d = s.last();
        let v = dec_val(s);
        assert(v == dec_val(h) * 10 + (d - 0x30));
        assert(v >= 10);
        lemma_fundamental_div_mod_converse(v, 10, dec_val(h), d - 0x30);
        assert(v / 10 == dec_val(h));
        assert(v % 10 == d - 0x30);
        assert(dec_of(v as nat) =~= dec_of(dec_val(h) as nat) + seq![(0x30 + v % 10) as u8]);
        assert(dec_of(v as nat) =~= s);
    }
}

/// Each digit extends the value of the prefix read so far.
pub proof fn lemma_dec_val_step(s: Seq<u8>, k: int)
    requires
        0 <= k < s.len(),
    ensures
        dec_val(s.take(k + 1)) == dec_val(s.take(k)) * 10 + (s[k] - 0x30),
{
    assert(s.take(k + 1).drop_last() =~= s.take(k));
    assert(s.take(k + 1).last() == s[k]);
}

/// The value of a digit string dominates the value of each of its prefixes.
pub proof fn lemma_dec_val_prefix(s: Seq<u8>, k: int)
    requires
        0 <= k <= s.len(),
        forall|j: int| 0 <= j < s.len() ==> is_digit(#[trigger] s[j]),
    ensures
        dec_val(s.take(k)) <= dec_val(s),
    decreases s.len() - k,
{
    if k == s.len() {
        assert(s.take(k) =~= s);
    } else {
        lemma_dec_val_step(s, k);
        assert forall|j: int| 0 <= j < s.take(k).len() implies is_digit(
            #[trigger] s.take(k)[j],
        ) by {
            assert(s.take(k)[j] == s[j]);
        }
        lemma_dec_val_nonneg(s.take(k));
        lemma_dec_val_prefix(s, k + 1);
    }
}

/// Parses the canonical decimal spelling of a `u64`; `None` on anything else.
pub fn parse_u64(s: &[u8]) -> (r: Option<u64>)
    ensures
        match r {
            Some(v) => s@ == dec_of(v as nat),
            None => forall|n: nat| n <= u64::MAX ==> s@ != dec_of(n),
        },
{
    if s.len() == 0 {
        proof {
            assert forall|n: nat| n <= u64::MAX implies s@ != dec_of(n) by {
                lemma_dec_of_digits(n);
            }
        }
        return None;
    }
    if s.len() > 1 && s[0] == D0 {
        proof {
            assert forall|n: nat| n <= u64::MAX implies s@ != dec_of(n) by {
                lemma_dec_of_digits(n);
                if n < 10 {
                    assert(dec_of(n).len() == 1);
                }
            }
        }
        return None;
    }
    let mut acc: u64 = 0;
    let mut k: usize = 0;
    proof {
        assert(s@.take(0) =~= Seq::<u8>::empty());
    }
    while k < s.len()
        invariant
            k <= s@.len(),
            s@.len() >= 1,
            s@.len() > 1 ==> s@[0] != D0,
            forall|j: int| 0 <= j < k ==> is_digit(#[trigger] s@[j]),
            acc == dec_val(s@.take(k as int)),
        decreases s@.len() - k,
    {
        let b = s[k];
        if b < 0x30 || b > 0x39 {
            proof {
                assert forall|n: nat| n <= u64::MAX implies s@ != dec_of(n) by {
                    lemma_dec_of_digits(n);
                    if s@ == dec_of(n) {
                        assert(is_digit(s@[k as int]));
                    }
                }
            }
            return None;
        }
        let d = b - 0x30;
        proof {
            lemma_dec_val_step(s@, k as int);
        }
        if acc > (u64::MAX - d as u64) / 10 {
            proof {
                let m = u64::MAX - d;
                lemma_fundamental_div_mod(m as int, 10);
                assert(acc * 10 + d > u64::MAX);
                assert forall|n: nat| n <= u64::MAX implies s@ != dec_of(n) by {
                    lemma_dec_of_digits(n);
                    if s@ == dec_of(n) {
                        assert(forall|j: int|
                            0 <= j < s@.len() ==> is_digit(#[trigger] s@[j]));
                        lemma_dec_val_prefix(s@, k + 1 as int);
                        assert(dec_val(s@) == n);
                        assert(dec_val(s@.take(k + 1 as int)) > u64::MAX);
                    }
                }
            }
            return None;
        }
        acc = acc * 10 + d as u64;
        k = k + 1;
    }
    proof {
        assert(s@.take(s@.len() as int) =~= s@);
        lemma_dec_canonical(s@);
    }
    Some(acc)
}

/// Canonical decimal spelling of a `u64`.
pub fn enc_u64(n: u64) -> (r: Vec<u8>)
    ensures
        r@ == dec_of(n as nat),
{
    let mut digits: Vec<u8> = Vec::new();
    let mut cur = n;
    proof {
        assert(Seq::<u8>::empty().reverse() =~= Seq::<u8>::empty());
        assert(dec_of(n as nat) + Seq::<u8>::empty() =~= dec_of(n as nat));
    }
    while cur >= 10
        invariant
            dec_of(n as nat) == dec_of(cur as nat) + digits@.reverse(),
        decreases cur,
    {
        let d = D0 + (cur % 10) as u8;
        proof {
            lemma_div_is_strictly_smaller(cur as int, 10);
            assert(dec_of(cur as nat) =~= dec_of((cur as nat) / 10) + seq![d]);
            assert(digits@.push(d).reverse() =~= seq![d] + digits@.reverse());
            assert(dec_of((cur as nat) / 10) + (seq![d] + digits@.reverse()) =~= (dec_of(
                (cur as nat) / 10,
            ) + seq![d]) + digits@.reverse());
            assert((cur as nat) / 10 == (cur / 10) as nat);
        }
        digits.push(d);
        cur = cur / 10;
    }
    let d = D0 + cur as u8;
    proof {
        assert(dec_of(cur as nat) =~= seq![d]);
        assert(digits@.push(d).reverse() =~= seq![d] + digits@.reverse());
    }
    digits.push(d);
    let mut r: Vec<u8> = Vec::new();
    let mut k: usize = digits.len();
    proof {
        assert(r@ =~= digits@.reverse().take(0));
    }
    while k > 0
        invariant
            k <= digits@.len(),
            r@ == digits@.reverse().take(digits@.len() - k),
        decreases k,
    {
        let i = digits.len() - k;
        proof {
            assert(digits@.reverse()[i as int] == digits@[k - 1]);
            assert(digits@.reverse().take(i + 1 as int) =~= digits@.reverse().take(i as int).push(
                digits@.reverse()[i as int],
            ));
        }
        r.push(digits[k - 1]);
        k = k - 1;
    }
    proof {
        assert(digits@.reverse().take(digits@.len() as int) =~= digits@.reverse());
    }
    r
}

/// Canonical decimal spelling of an `i64`.
pub fn enc_i64(n: i64) -> (r: Vec<u8>)
    ensures
        r@ == dec_of_i(n as int),
{
    if n >= 0 {
        enc_u64(n as u64)
    } else {
        let mag: u64 = ((-(n + 1)) as u64) + 1;
        proof {
            assert(mag == -(n as int));
        }
        let mut r: Vec<u8> = Vec::new();
        r.push(MINUS);
        let tail = enc_u64(mag);
        crate::bytes::append_slice(&mut r, tail.as_slice());
        proof {
            assert(r@ =~= seq![MINUS] + dec_of(mag as nat));
        }
        r
    }
}

/// Parses the canonical decimal spelling of an `i64`; `None` on anything else.
pub fn parse_i64(s: &[u8]) -> (r: Option<i64>)
    ensures
        match r {
            Some(v) => s@ == dec_of_i(v as int),
            None => forall|m: i64| s@ != dec_of_i(m as int),
        },
{
    if s.len() >= 1 && s[0] == MINUS {
        let tail = crate::bytes::copy_range(s, 1, s.len());
        proof {
            assert(tail@ =~= s@.skip(1));
        }
        match parse_u64(tail.as_slice()) {
            Some(m) => {
                proof {
                    lemma_dec_of_digits(m as nat);
                }
                if m == 0 {
                    proof {
                        assert forall|v: i64| s@ != dec_of_i(v as int) by {
                            lemma_dec_of_digits_for_sign(s@, v);
                            if v < 0 && s@ == dec_of_i(v as int) {
                                assert(s@.skip(1) =~= dec_of((-(v as int)) as nat));
                                lemma_dec_of_injective(m as nat, (-(v as int)) as nat);
                            }
                        }
                    }
                    None
                } else if m <= 0x7fff_ffff_ffff_ffffu64 {
                    let v: i64 = -(m as i64);
                    proof {
                        assert(s@ =~= seq![MINUS] + dec_of(m as nat));
                        assert(s@ == dec_of_i(v as int));
                    }
                    Some(v)
                } else if m == 0x8000_0000_0000_0000u64 {
                    let v: i64 = i64::MIN;
                    proof {
                        assert(s@ =~= seq![MINUS] + dec_of(m as nat));
                        assert((-(v as int)) as nat == m as nat);
                        assert(s@ == dec_of_i(v as int));
                    }
                    Some(v)
                } else {
                    proof {
                        assert forall|v: i64| s@ != dec_of_i(v as int) by {
                            lemma_dec_of_digits_for_sign(s@, v);
                            if v < 0 && s@ == dec_of_i(v as int) {
                                assert(s@.skip(1) =~= dec_of((-(v as int)) as nat));
                                lemma_dec_of_injective(m as nat, (-(v as int)) as nat);
                            }
                        }
                    }
                    None
                }
            },
            None => {
                proof {
                    assert forall|v: i64| s@ != dec_of_i(v as int) by {
                        lemma_dec_of_digits_for_sign(s@, v);
                        if v < 0 && s@ == dec_of_i(v as int) {
                            assert(s@.skip(1) =~= dec_of((-(v as int)) as nat));
                            assert((-(v as int)) as nat <= u64::MAX);
                        }
                    }
                }
                None
            },
        }
    } else {
        match parse_u64(s) {
            Some(m) => {
                if m <= 0x7fff_ffff_ffff_ffffu64 {
                    let v: i64 = m as i64;
                    proof {
                        assert(s@ == dec_of_i(v as int));
                    }
                    Some(v)
                } else {
                    proof {
                        assert forall|v: i64| s@ != dec_of_i(v as int) by {
                            lemma_dec_of_digits_for_sign(s@, v);
                            if v >= 0 && s@ == dec_of_i(v as int) {
                                lemma_dec_of_injective(m as nat, v as nat);
                            }
                        }
                    }
                    None
                }
            },
            None => {
                proof {
                    assert forall|v: i64| s@ != dec_of_i(v as int) by {
                        lemma_dec_of_digits_for_sign(s@, v);
                        if v >= 0 && s@ == dec_of_i(v as int) {
                            assert((v as nat) <= u64::MAX);
                        }
                    }
                }
                None
            },
        }
    }
}

/// For the signed parser's case analysis: a signed spelling starts with a
/// minus sign exactly when the number is negative, and the digit facts hold.
proof fn lemma_dec_of_digits_for_sign(s: Seq<u8>, v: i64)
    ensures
        dec_of_i(v as int).len() >= 1,
        v >= 0 ==> dec_of_i(v as int) == dec_of(v as nat) && dec_of_i(v as int)[0] != MINUS,
        v < 0 ==> dec_of_i(v as int)[0] == MINUS && dec_of_i(v as int).skip(1) == dec_of(
            (-(v as int)) as nat,
        ),
{
    if v >= 0 {
        lemma_dec_of_digits(v as nat);
        assert(forall|k: int|
            0 <= k < dec_of(v as nat).len() ==> is_digit(#[trigger] dec_of(v as nat)[k]));
        assert(is_digit(dec_of(v as nat)[0]));
    } else {
        let e = seq![MINUS] + dec_of((-(v as int)) as nat);
        assert(e[0] == MINUS);
        assert(e.skip(1) =~= dec_of((-(v as int)) as nat));
    }
}

} // verus!
