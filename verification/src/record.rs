//! Record framing of the wire codec: one encoded record is an upper-case tag
//! byte, one or more escaped fields joined by the field separator, and the
//! terminator byte. Decoding accepts exactly the records `rec_enc` produces.

use vstd::prelude::*;
use crate::bytes::{
    copy_range, first_ix, lemma_first_ix, lemma_first_ix_absent, lemma_first_ix_concat_beyond,
    lemma_first_ix_of,
};
use crate::escape::{
    escape, escape_bytes, lemma_escape_clean, lemma_escape_roundtrip, lemma_unescape_canonical,
    unescape, unescape_bytes, SEP, TERM,
};

verus! {

/// Record tags are upper-case ASCII letters.
pub open spec fn is_tag(b: u8) -> bool {
    0x41 <= b && b <= 0x5a
}

/// Views of a sequence of byte vectors.
pub open spec fn views_of(s: Seq<Vec<u8>>) -> Seq<Seq<u8>> {
    s.map_values(|v: Vec<u8>| v@)
}

/// Escaped fields joined by the separator.
pub open spec fn join_fields(fs: Seq<Seq<u8>>) -> Seq<u8>
    decreases fs.len(),
{
    if fs.len() == 0 {
        Seq::empty()
    } else if fs.len() == 1 {
        escape_bytes(fs[0])
    } else {
        escape_bytes(fs[0]) + seq![SEP] + join_fields(fs.skip(1))
    }
}

/// One encoded record.
pub open spec fn rec_enc(tag: u8, fs: Seq<Seq<u8>>) -> Seq<u8> {
    seq![tag] + join_fields(fs) + seq![TERM]
}

/// Raw pieces joined by the separator (no escaping); inverse of `split_sep`.
pub open spec fn join_raw(ps: Seq<Seq<u8>>) -> Seq<u8>
    decreases ps.len(),
{
    if ps.len() == 0 {
        Seq::empty()
    } else if ps.len() == 1 {
        ps[0]
    } else {
        ps[0] + seq![SEP] + join_raw(ps.skip(1))
    }
}

/// Split at every separator byte.
pub open spec fn split_sep(s: Seq<u8>) -> Seq<Seq<u8>>
    decreases s.len(),
    via split_sep_dec
{
    let i = first_ix(s, SEP);
    if i == s.len() {
        seq![s]
    } else {
        seq![s.take(i)] + split_sep(s.skip(i + 1))
    }
}

#[via_fn]
proof fn split_sep_dec(s: Seq<u8>) {
    lemma_first_ix(s, SEP);
}

/// `split_sep` always yields at least one piece, none containing a separator,
/// and joining them raw restores the input.
pub proof fn lemma_split_props(s: Seq<u8>)
    ensures
        split_sep(s).len() >= 1,
        join_raw(split_sep(s)) == s,
        forall|p: int, j: int|
            0 <= p < split_sep(s).len() && 0 <= j < split_sep(s)[p].len() ==> split_sep(s)[p][j]
                != SEP,
    decreases s.len(),
{
    lemma_first_ix(s, SEP);
    let i = first_ix(s, SEP);
    if i == s.len() {
        let ps = split_sep(s);
        assert(ps[0] == s);
    } else {
        lemma_split_props(s.skip(i + 1));
        let head = s.take(i);
        let rest = split_sep(s.skip(i + 1));
        let ps = split_sep(s);
        assert(ps =~= seq![head] + rest);
        assert(ps[0] == head);
        if rest.len() == 1 {
            assert(join_raw(ps) =~= head + seq![SEP] + join_raw(ps.skip(1)));
            assert(ps.skip(1) =~= rest);
        } else {
            assert(ps.skip(1) =~= rest);
        }
        assert(join_raw(ps) =~= head + seq![SEP] + join_raw(rest));
        assert(head + seq![SEP] + s.skip(i + 1) =~= s);
        assert forall|p: int, j: int|
            0 <= p < ps.len() && 0 <= j < ps[p].len() implies ps[p][j] != SEP by {
            if p == 0 {
                assert(ps[0][j] == s[j]);
            } else {
                assert(ps[p] == rest[p - 1]);
            }
        }
    }
}

/// `join_fields` is `join_raw` of the escaped fields.
pub proof fn lemma_join_fields_raw(fs: Seq<Seq<u8>>)
    ensures
        join_fields(fs) == join_raw(fs.map_values(|f: Seq<u8>| escape_bytes(f))),
    decreases fs.len(),
{
    let m = fs.map_values(|f: Seq<u8>| escape_bytes(f));
    if fs.len() == 0 {
        assert(m.len() == 0);
    } else if fs.len() == 1 {
        assert(m[0] == escape_bytes(fs[0]));
    } else {
        lemma_join_fields_raw(fs.skip(1));
        assert(m[0] == escape_bytes(fs[0]));
        assert(m.skip(1) =~= fs.skip(1).map_values(|f: Seq<u8>| escape_bytes(f)));
    }
}

/// Splitting the joined escaped fields recovers them one by one.
pub proof fn lemma_split_join(fs: Seq<Seq<u8>>)
    requires
        fs.len() >= 1,
    ensures
        split_sep(join_fields(fs)) == fs.map_values(|f: Seq<u8>| escape_bytes(f)),
    decreases fs.len(),
{
    let m = fs.map_values(|f: Seq<u8>| escape_bytes(f));
    let e0 = escape_bytes(fs[0]);
    lemma_escape_clean(fs[0]);
    if fs.len() == 1 {
        lemma_first_ix_absent(e0, SEP);
        assert(split_sep(join_fields(fs)) =~= seq![e0]);
        assert(m =~= seq![e0]);
    } else {
        lemma_split_join(fs.skip(1));
        let rest = join_fields(fs.skip(1));
        let s = join_fields(fs);
        assert(s =~= e0 + (seq![SEP] + rest));
        lemma_first_ix_absent(e0, SEP);
        lemma_first_ix_concat_beyond(e0, seq![SEP] + rest, SEP);
        assert((seq![SEP] + rest)[0] == SEP);
        assert(first_ix(seq![SEP] + rest, SEP) == 0) by {
            lemma_first_ix_of(seq![SEP] + rest, SEP, 0);
        }
        let i = first_ix(s, SEP);
        assert(i == e0.len());
        assert(s.take(i) =~= e0);
        assert(s.skip(i + 1) =~= rest);
        assert(split_sep(s) =~= seq![e0] + split_sep(rest));
        assert(fs.skip(1).map_values(|f: Seq<u8>| escape_bytes(f)) =~= m.skip(1));
        assert(m =~= seq![e0] + m.skip(1));
    }
}

/// Appending one more field to a joined field list.
pub proof fn lemma_join_snoc(fs: Seq<Seq<u8>>, f: Seq<u8>)
    requires
        fs.len() >= 1,
    ensures
        join_fields(fs.push(f)) == join_fields(fs) + seq![SEP] + escape_bytes(f),
    decreases fs.len(),
{
    let g = fs.push(f);
    if fs.len() == 1 {
        assert(g[0] == fs[0]);
        assert(g.skip(1) =~= seq![f]);
        assert(join_fields(seq![f]) == escape_bytes(f));
        assert(join_fields(g) =~= escape_bytes(fs[0]) + seq![SEP] + escape_bytes(f));
    } else {
        lemma_join_snoc(fs.skip(1), f);
        assert(g[0] == fs[0]);
        assert(g.skip(1) =~= fs.skip(1).push(f));
        assert(join_fields(g) =~= escape_bytes(fs[0]) + seq![SEP] + join_fields(
            fs.skip(1).push(f),
        ));
        assert(escape_bytes(fs[0]) + seq![SEP] + (join_fields(fs.skip(1)) + seq![SEP]
            + escape_bytes(f)) =~= (escape_bytes(fs[0]) + seq![SEP] + join_fields(fs.skip(1)))
            + seq![SEP] + escape_bytes(f));
    }
}

/// Shape facts about a valid record used by the decoder in both directions.
pub proof fn lemma_rec_enc_shape(tag: u8, fs: Seq<Seq<u8>>)
    requires
        fs.len() >= 1,
    ensures
        rec_enc(tag, fs).len() >= 2,
        rec_enc(tag, fs)[0] == tag,
        rec_enc(tag, fs).last() == TERM,
        rec_enc(tag, fs).subrange(1, rec_enc(tag, fs).len() - 1) == join_fields(fs),
        split_sep(join_fields(fs)) == fs.map_values(|f: Seq<u8>| escape_bytes(f)),
        forall|k: int|
            0 <= k < fs.len() ==> unescape_bytes(
                split_sep(join_fields(fs))[k],
            ) == Some(#[trigger] fs[k]),
{
    let e = rec_enc(tag, fs);
    let body = join_fields(fs);
    assert(e =~= seq![tag] + body + seq![TERM]);
    assert(e.last() == TERM);
    assert(e.subrange(1, e.len() - 1) =~= body);
    lemma_split_join(fs);
    assert forall|k: int|
        0 <= k < fs.len() implies unescape_bytes(split_sep(body)[k]) == Some(
        #[trigger] fs[k],
    ) by {
        assert(split_sep(body)[k] == escape_bytes(fs[k]));
        lemma_escape_roundtrip(fs[k]);
    }
}

/// The joined fields never contain the frame delimiter.
pub proof fn lemma_join_fields_no_delim(fs: Seq<Seq<u8>>)
    ensures
        forall|k: int| 0 <= k < join_fields(fs).len() ==> join_fields(fs)[k] != crate::escape::DELIM,
    decreases fs.len(),
{
    if fs.len() == 0 {
    } else if fs.len() == 1 {
        lemma_escape_clean(fs[0]);
    } else {
        lemma_escape_clean(fs[0]);
        lemma_join_fields_no_delim(fs.skip(1));
        let e0 = escape_bytes(fs[0]);
        let rest = join_fields(fs.skip(1));
        let s = join_fields(fs);
        assert(s =~= e0 + seq![SEP] + rest);
        assert forall|k: int| 0 <= k < s.len() implies s[k] != crate::escape::DELIM by {
            if k < e0.len() {
                assert(s[k] == e0[k]);
            } else if k == e0.len() {
                assert(s[k] == SEP);
            } else {
                assert(s[k] == rest[k - e0.len() - 1]);
            }
        }
    }
}

/// A record never contains the frame delimiter, and trimming whitespace
/// leaves it unchanged: its first byte is a tag letter, its last the
/// terminator.
pub proof fn lemma_rec_enc_on_wire(t: u8, fs: Seq<Seq<u8>>)
    requires
        is_tag(t),
        fs.len() >= 1,
    ensures
        forall|k: int|
            0 <= k < rec_enc(t, fs).len() ==> rec_enc(t, fs)[k] != crate::escape::DELIM,
        crate::bytes::trim_bytes(rec_enc(t, fs)) == rec_enc(t, fs),
        rec_enc(t, fs).len() >= 2,
{
    lemma_rec_enc_shape(t, fs);
    lemma_join_fields_no_delim(fs);
    let e = rec_enc(t, fs);
    let body = join_fields(fs);
    assert(e =~= seq![t] + body + seq![TERM]);
    assert forall|k: int| 0 <= k < e.len() implies e[k] != crate::escape::DELIM by {
        if k == 0 {
            assert(e[k] == t);
        } else if k < 1 + body.len() {
            assert(e[k] == body[k - 1]);
        } else {
            assert(e[k] == TERM);
        }
    }
    assert(e[0] == t);
    assert(e.last() == TERM);
    assert(!crate::bytes::is_ws(t));
    assert(!crate::bytes::is_ws(TERM));
    crate::bytes::lemma_trim_stable(e);
}

/// Two equal encodings come from the same tag and the same fields.
pub proof fn lemma_rec_enc_injective(t1: u8, fs1: Seq<Seq<u8>>, t2: u8, fs2: Seq<Seq<u8>>)
    requires
        fs1.len() >= 1,
        fs2.len() >= 1,
        rec_enc(t1, fs1) == rec_enc(t2, fs2),
    ensures
        t1 == t2,
        fs1 == fs2,
{
    lemma_rec_enc_shape(t1, fs1);
    lemma_rec_enc_shape(t2, fs2);
    let e = rec_enc(t1, fs1);
    assert(t1 == e[0]);
    assert(t2 == e[0]);
    assert(join_fields(fs1) == e.subrange(1, e.len() - 1));
    assert(join_fields(fs2) == e.subrange(1, e.len() - 1));
    let m1 = fs1.map_values(|f: Seq<u8>| escape_bytes(f));
    let m2 = fs2.map_values(|f: Seq<u8>| escape_bytes(f));
    assert(m1 == m2);
    assert(m1.len() == fs1.len());
    assert(m2.len() == fs2.len());
    assert(fs1.len() == fs2.len());
    assert forall|k: int| 0 <= k < fs1.len() implies fs1[k] == fs2[k] by {
        assert(m1[k] == escape_bytes(fs1[k]));
        assert(m2[k] == escape_bytes(fs2[k]));
        lemma_escape_roundtrip(fs1[k]);
        lemma_escape_roundtrip(fs2[k]);
    }
    assert(fs1 =~= fs2);
}

/// Splits a record body at each separator byte.
fn split_body(s: &[u8]) -> (r: Vec<Vec<u8>>)
    ensures
        views_of(r@) == split_sep(s@),
        r@.len() >= 1,
{
    let mut pieces: Vec<Vec<u8>> = Vec::new();
    let mut start: usize = 0;
    let mut i: usize = 0;
    proof {
        assert(s@.skip(0) =~= s@);
        assert(views_of(Seq::<Vec<u8>>::empty()) =~= Seq::<Seq<u8>>::empty());
        assert(Seq::<Seq<u8>>::empty() + split_sep(s@) =~= split_sep(s@));
    }
    while i < s.len()
        invariant
            start <= i <= s@.len(),
            forall|j: int| start <= j < i ==> s@[j] != SEP,
            split_sep(s@) == views_of(pieces@) + split_sep(s@.skip(start as int)),
        decreases s@.len() - i,
    {
        if s[i] == SEP {
            let piece = copy_range(s, start, i);
            proof {
                let t = s@.skip(start as int);
                assert(t[i - start] == s@[i as int]);
                assert forall|j: int| 0 <= j < i - start implies t[j] != SEP by {
                    assert(t[j] == s@[j + start]);
                }
                lemma_first_ix_of(t, SEP, i - start);
                assert(t.take(i - start) =~= s@.subrange(start as int, i as int));
                assert(t.skip(i - start + 1) =~= s@.skip(i + 1 as int));
                assert(split_sep(t) =~= seq![piece@] + split_sep(s@.skip(i + 1 as int)));
                assert(views_of(pieces@.push(piece)) =~= views_of(pieces@).push(piece@));
                assert(views_of(pieces@) + (seq![piece@] + split_sep(s@.skip(i + 1 as int)))
                    =~= views_of(pieces@).push(piece@) + split_sep(s@.skip(i + 1 as int)));
            }
            pieces.push(piece);
            start = i + 1;
        }
        i = i + 1;
    }
    let last = copy_range(s, start, s.len());
    proof {
        let t = s@.skip(start as int);
        assert forall|j: int| 0 <= j < t.len() implies t[j] != SEP by {
            assert(t[j] == s@[j + start]);
        }
        lemma_first_ix_absent(t, SEP);
        assert(t =~= s@.subrange(start as int, s@.len() as int));
        assert(split_sep(t) =~= seq![last@]);
        assert(views_of(pieces@.push(last)) =~= views_of(pieces@).push(last@));
        assert(views_of(pieces@) + seq![last@] =~= views_of(pieces@).push(last@));
    }
    pieces.push(last);
    pieces
}

/// Encodes one record from its tag and fields.
pub fn rec_encode(tag: u8, fields: &Vec<Vec<u8>>) -> (r: Vec<u8>)
    requires
        is_tag(tag),
        fields@.len() >= 1,
    ensures
        r@ == rec_enc(tag, views_of(fields@)),
{
    let mut r: Vec<u8> = Vec::new();
    r.push(tag);
    let mut i: usize = 0;
    while i < fields.len()
        invariant
            i <= fields@.len(),
            i == 0 ==> r@ == seq![tag],
            i >= 1 ==> r@ == seq![tag] + join_fields(views_of(fields@.take(i as int))),
        decreases fields@.len() - i,
    {
        let ghost r0 = r@;
        if i > 0 {
            r.push(SEP);
        }
        let e = escape(fields[i].as_slice());
        crate::bytes::append_slice(&mut r, e.as_slice());
        proof {
            let fsi = views_of(fields@.take(i as int));
            let fsi1 = views_of(fields@.take(i + 1 as int));
            assert(fsi1 =~= fsi.push(fields@[i as int]@));
            if i == 0 {
                assert(join_fields(fsi1) == escape_bytes(fields@[0]@));
                assert(r@ =~= seq![tag] + join_fields(fsi1));
            } else {
                lemma_join_snoc(fsi, fields@[i as int]@);
                assert(r@ =~= r0.push(SEP) + e@);
                assert(r0.push(SEP) + e@ =~= seq![tag] + (join_fields(fsi) + seq![SEP]
                    + escape_bytes(fields@[i as int]@)));
            }
        }
        i = i + 1;
    }
    proof {
        assert(fields@.take(fields@.len() as int) =~= fields@);
    }
    r.push(TERM);
    proof {
        assert(r@ =~= seq![tag] + join_fields(views_of(fields@)) + seq![TERM]);
    }
    r
}

/// Decodes one record; accepts exactly the encodings of `rec_enc`.
pub fn rec_decode(b: &[u8]) -> (r: Option<(u8, Vec<Vec<u8>>)>)
    ensures
        match r {
            Some(p) => is_tag(p.0) && p.1@.len() >= 1 && b@ == rec_enc(p.0, views_of(p.1@)),
            None => forall|t: u8, fs: Seq<Seq<u8>>|
                is_tag(t) && fs.len() >= 1 ==> b@ != rec_enc(t, fs),
        },
{
    if b.len() < 2 {
        proof {
            assert forall|t: u8, fs: Seq<Seq<u8>>|
                is_tag(t) && fs.len() >= 1 implies b@ != rec_enc(t, fs) by {
                lemma_rec_enc_shape(t, fs);
            }
        }
        return None;
    }
    let tag = b[0];
    if !(0x41 <= tag && tag <= 0x5a) {
        proof {
            assert forall|t: u8, fs: Seq<Seq<u8>>|
                is_tag(t) && fs.len() >= 1 implies b@ != rec_enc(t, fs) by {
                lemma_rec_enc_shape(t, fs);
            }
        }
        return None;
    }
    if b[b.len() - 1] != TERM {
        proof {
            assert forall|t: u8, fs: Seq<Seq<u8>>|
                is_tag(t) && fs.len() >= 1 implies b@ != rec_enc(t, fs) by {
                lemma_rec_enc_shape(t, fs);
                if b@ == rec_enc(t, fs) {
                    assert(b@.last() == TERM);
                }
            }
        }
        return None;
    }
    let body = copy_range(b, 1, b.len() - 1);
    let pieces = split_body(body.as_slice());
    let ghost bodyv = b@.subrange(1, b@.len() - 1);
    let mut fields: Vec<Vec<u8>> = Vec::new();
    let mut k: usize = 0;
    while k < pieces.len()
        invariant
            k <= pieces@.len(),
            views_of(pieces@) == split_sep(bodyv),
            bodyv == b@.subrange(1, b@.len() - 1),
            b@.len() >= 2,
            is_tag(b@[0]),
            b@.last() == TERM,
            fields@.len() == k,
            forall|j: int|
                0 <= j < k ==> unescape_bytes(#[trigger] pieces@[j]@) == Some(fields@[j]@),
        decreases pieces@.len() - k,
    {
        match unescape(pieces[k].as_slice()) {
            Some(f) => {
                proof {
                    assert(views_of(pieces@)[k as int] == pieces@[k as int]@);
                }
                fields.push(f);
            },
            None => {
                proof {
                    assert forall|t: u8, fs: Seq<Seq<u8>>|
                        is_tag(t) && fs.len() >= 1 implies b@ != rec_enc(t, fs) by {
                        lemma_rec_enc_shape(t, fs);
                        if b@ == rec_enc(t, fs) {
                            assert(bodyv == join_fields(fs));
                            let m = fs.map_values(|f: Seq<u8>| escape_bytes(f));
                            assert(views_of(pieces@) == m);
                            assert(m.len() == fs.len());
                            assert(views_of(pieces@).len() == pieces@.len());
                            assert(k < fs.len());
                            assert(m[k as int] == escape_bytes(fs[k as int]));
                            assert(views_of(pieces@)[k as int] == pieces@[k as int]@);
                            assert(unescape_bytes(pieces@[k as int]@) == Some(fs[k as int]));
                        }
                    }
                }
                return None;
            },
        }
        k = k + 1;
    }
    proof {
        assert forall|j: int| 0 <= j < fields@.len() implies escape_bytes(#[trigger] fields@[j]@)
            == pieces@[j]@ by {
            lemma_unescape_canonical(pieces@[j]@);
        }
        let fsv = views_of(fields@);
        assert(fsv.map_values(|f: Seq<u8>| escape_bytes(f)) =~= views_of(pieces@));
        lemma_join_fields_raw(fsv);
        lemma_split_props(bodyv);
        assert(join_raw(views_of(pieces@)) == bodyv);
        assert(fields@.len() >= 1);
        assert(rec_enc(tag, fsv) =~= seq![tag] + bodyv + seq![TERM]);
        assert(seq![tag] + bodyv + seq![TERM] =~= b@);
    }
    Some((tag, fields))
}

} // verus!
