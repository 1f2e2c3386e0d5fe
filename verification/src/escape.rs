//! Byte-stuffing layer of the wire codec.
//!
//! A message on the wire must never contain the frame delimiter, and a field
//! must never contain the field separator, so both (and the escape byte
//! itself) are escaped inside field content. Unescaping is strict: it accepts
//! exactly the strings that `escape_bytes` produces, which makes the encoding
//! canonical.

use vstd::prelude::*;

verus! {

/// Frame delimiter: separates encoded messages in the byte stream.
pub const DELIM: u8 = 0;

/// Field separator inside one encoded record.
pub const SEP: u8 = 0x1f;

/// Escape byte inside field content.
pub const ESC: u8 = 0x5c;

/// Final byte of every encoded record; keeps encodings stable under trimming.
pub const TERM: u8 = 0x3b;

/// Escape code standing for the frame delimiter.
pub const CODE_DELIM: u8 = 0x30;

/// Escape code standing for the field separator.
pub const CODE_SEP: u8 = 0x31;

pub open spec fn needs_escape(b: u8) -> bool {
    b == DELIM || b == SEP || b == ESC
}

pub open spec fn code_of(b: u8) -> u8 {
    if b == DELIM {
        CODE_DELIM
    } else if b == SEP {
        CODE_SEP
    } else {
        ESC
    }
}

pub open spec fn is_code(c: u8) -> bool {
    c == CODE_DELIM || c == CODE_SEP || c == ESC
}

pub open spec fn byte_of_code(c: u8) -> u8 {
    if c == CODE_DELIM {
        DELIM
    } else if c == CODE_SEP {
        SEP
    } else {
        ESC
    }
}

pub open spec fn escape_byte(b: u8) -> Seq<u8> {
    if needs_escape(b) {
        seq![ESC, code_of(b)]
    } else {
        seq![b]
    }
}

/// Field content with delimiter, separator and escape byte stuffed.
pub open spec fn escape_bytes(s: Seq<u8>) -> Seq<u8>
    decreases s.len(),
{
    if s.len() == 0 {
        Seq::empty()
    } else {
        escape_byte(s[0]) + escape_bytes(s.skip(1))
    }
}

/// Strict inverse of `escape_bytes`; `None` on anything it never produces.
pub open spec fn unescape_bytes(s: Seq<u8>) -> Option<Seq<u8>>
    decreases s.len(),
{
    if s.len() == 0 {
        Some(Seq::empty())
    } else if s[0] == ESC {
        if s.len() >= 2 && is_code(s[1]) {
            match unescape_bytes(s.skip(2)) {
                Some(r) => Some(seq![byte_of_code(s[1])] + r),
                None => None,
            }
        } else {
            None
        }
    } else if s[0] == DELIM || s[0] == SEP {
        None
    } else {
        match unescape_bytes(s.skip(1)) {
            Some(r) => Some(seq![s[0]] + r),
            None => None,
        }
    }
}

/// Escaped content never contains the frame delimiter or the field separator.
pub proof fn lemma_escape_clean(s: Seq<u8>)
    ensures
        forall|k: int|
            0 <= k < escape_bytes(s).len() ==> escape_bytes(s)[k] != DELIM && escape_bytes(s)[k]
                != SEP,
    decreases s.len(),
{
    if s.len() == 0 {
    } else {
        lemma_escape_clean(s.skip(1));
        let h = escape_byte(s[0]);
        let t = escape_bytes(s.skip(1));
        assert forall|k: int|
            0 <= k < escape_bytes(s).len() implies escape_bytes(s)[k] != DELIM && escape_bytes(
            s,
        )[k] != SEP by {
            if k < h.len() {
                assert((h + t)[k] == h[k]);
            } else {
                assert((h + t)[k] == t[k - h.len()]);
            }
        }
    }
}

/// Escaping distributes over concatenation.
pub proof fn lemma_escape_concat(a: Seq<u8>, b: Seq<u8>)
    ensures
        escape_bytes(a + b) == escape_bytes(a) + escape_bytes(b),
    decreases a.len(),
{
    if a.len() == 0 {
        assert(a + b =~= b);
        assert(escape_bytes(a) + escape_bytes(b) =~= escape_bytes(b));
    } else {
        assert((a + b)[0] == a[0]);
        assert((a + b).skip(1) =~= a.skip(1) + b);
        lemma_escape_concat(a.skip(1), b);
        assert(escape_byte(a[0]) + (escape_bytes(a.skip(1)) + escape_bytes(b)) =~= (escape_byte(
            a[0],
        ) + escape_bytes(a.skip(1))) + escape_bytes(b));
    }
}

/// Unescaping undoes escaping.
pub proof fn lemma_escape_roundtrip(s: Seq<u8>)
    ensures
        unescape_bytes(escape_bytes(s)) == Some(s),
    decreases s.len(),
{
    if s.len() == 0 {
    } else {
        lemma_escape_roundtrip(s.skip(1));
        let e = escape_bytes(s);
        let rest = escape_bytes(s.skip(1));
        if needs_escape(s[0]) {
            assert(e =~= seq![ESC, code_of(s[0])] + rest);
            assert(e[0] == ESC);
            assert(e[1] == code_of(s[0]));
            assert(e.skip(2) =~= rest);
            assert(byte_of_code(code_of(s[0])) == s[0]);
            assert(seq![s[0]] + s.skip(1) =~= s);
        } else {
            assert(e =~= seq![s[0]] + rest);
            assert(e[0] == s[0]);
            assert(e.skip(1) =~= rest);
            assert(seq![s[0]] + s.skip(1) =~= s);
        }
    }
}

/// Strictness: whatever unescapes was produced by `escape_bytes`.
pub proof fn lemma_unescape_canonical(t: Seq<u8>)
    requires
        unescape_bytes(t) is Some,
    ensures
        escape_bytes(unescape_bytes(t).unwrap()) == t,
    decreases t.len(),
{
    if t.len() == 0 {
    } else if t[0] == ESC {
        lemma_unescape_canonical(t.skip(2));
        let r = unescape_bytes(t.skip(2)).unwrap();
        let s = unescape_bytes(t).unwrap();
        assert(s =~= seq![byte_of_code(t[1])] + r);
        assert(s[0] == byte_of_code(t[1]));
        assert(s.skip(1) =~= r);
        assert(needs_escape(byte_of_code(t[1])));
        assert(code_of(byte_of_code(t[1])) == t[1]);
        assert(escape_bytes(s) =~= seq![ESC, t[1]] + escape_bytes(r));
        assert(seq![ESC, t[1]] + t.skip(2) =~= t);
    } else {
        lemma_unescape_canonical(t.skip(1));
        let r = unescape_bytes(t.skip(1)).unwrap();
        let s = unescape_bytes(t).unwrap();
        assert(s =~= seq![t[0]] + r);
        assert(s[0] == t[0]);
        assert(s.skip(1) =~= r);
        assert(!needs_escape(t[0]));
        assert(escape_bytes(s) =~= seq![t[0]] + escape_bytes(r));
        assert(seq![t[0]] + t.skip(1) =~= t);
    }
}

/// Escapes `s` for use as field content.
pub fn escape(s: &[u8]) -> (r: Vec<u8>)
    ensures
        r@ == escape_bytes(s@),
{
    let mut r: Vec<u8> = Vec::new();
    let mut k: usize = 0;
    while k < s.len()
        invariant
            k <= s@.len(),
            r@ == escape_bytes(s@.take(k as int)),
        decreases s@.len() - k,
    {
        let ghost r0 = r@;
        let b = s[k];
        if b == DELIM {
            r.push(ESC);
            r.push(CODE_DELIM);
        } else if b == SEP {
            r.push(ESC);
            r.push(CODE_SEP);
        } else if b == ESC {
            r.push(ESC);
            r.push(ESC);
        } else {
            r.push(b);
        }
        proof {
            lemma_escape_concat(s@.take(k as int), seq![s@[k as int]]);
            assert(s@.take(k + 1 as int) =~= s@.take(k as int) + seq![s@[k as int]]);
            assert(seq![s@[k as int]].skip(1) =~= Seq::<u8>::empty());
            assert(escape_bytes(Seq::<u8>::empty()) =~= Seq::<u8>::empty());
            assert(escape_bytes(seq![s@[k as int]]) =~= escape_byte(s@[k as int]));
            assert(r@ =~= r0 + escape_byte(s@[k as int]));
        }
        k = k + 1;
    }
    proof {
        assert(s@.take(s@.len() as int) =~= s@);
    }
    r
}

/// Composition of the invariant of `unescape`'s loop: what the whole input
/// unescapes to, given what the unprocessed tail unescapes to.
pub open spec fn unesc_from(s: Seq<u8>, k: int, pre: Seq<u8>) -> Option<Seq<u8>> {
    match unescape_bytes(s.skip(k)) {
        Some(r) => Some(pre + r),
        None => None,
    }
}

/// Strictly unescapes field content; `None` on anything `escape` never emits.
pub fn unescape(s: &[u8]) -> (r: Option<Vec<u8>>)
    ensures
        match r {
            Some(v) => unescape_bytes(s@) == Some(v@),
            None => unescape_bytes(s@) is None,
        },
{
    let mut out: Vec<u8> = Vec::new();
    let mut k: usize = 0;
    proof {
        assert(s@.skip(0) =~= s@);
        if unescape_bytes(s@) is Some {
            assert(Seq::<u8>::empty() + unescape_bytes(s@).unwrap() =~= unescape_bytes(
                s@,
            ).unwrap());
        }
    }
    while k < s.len()
        invariant
            k <= s@.len(),
            unescape_bytes(s@) == unesc_from(s@, k as int, out@),
        decreases s@.len() - k,
    {
        let ghost out0 = out@;
        let b = s[k];
        proof {
            assert(s@.skip(k as int)[0] == s@[k as int]);
        }
        if b == ESC {
            if k + 1 < s.len() {
                let c = s[k + 1];
                proof {
                    assert(s@.skip(k as int)[1] == s@[k + 1 as int]);
                    assert(s@.skip(k as int).skip(2) =~= s@.skip(k + 2 as int));
                }
                if c == CODE_DELIM {
                    out.push(DELIM);
                } else if c == CODE_SEP {
                    out.push(SEP);
                } else if c == ESC {
                    out.push(ESC);
                } else {
                    return None;
                }
                proof {
                    let rest = s@.skip(k + 2 as int);
                    if unescape_bytes(rest) is Some {
                        let r = unescape_bytes(rest).unwrap();
                        assert(out0 + (seq![byte_of_code(c)] + r) =~= out0.push(byte_of_code(c))
                            + r);
                    }
                }
                k = k + 2;
            } else {
                proof {
                    assert(s@.skip(k as int).len() == 1);
                }
                return None;
            }
        } else if b == DELIM || b == SEP {
            return None;
        } else {
            out.push(b);
            proof {
                assert(s@.skip(k as int).skip(1) =~= s@.skip(k + 1 as int));
                let rest = s@.skip(k + 1 as int);
                if unescape_bytes(rest) is Some {
                    let r = unescape_bytes(rest).unwrap();
                    assert(out0 + (seq![b] + r) =~= out0.push(b) + r);
                }
            }
            k = k + 1;
        }
    }
    proof {
        assert(s@.skip(s@.len() as int) =~= Seq::<u8>::empty());
        assert(out@ + Seq::<u8>::empty() =~= out@);
    }
    Some(out)
}

} // verus!
