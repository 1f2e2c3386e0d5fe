//! Stream reassembly: recovering discrete protocol messages from a
//! continuous byte stream.
//!
//! Messages are separated by the reserved delimiter byte, which never occurs
//! inside an encoded message. A segment that trims to nothing is silently
//! skipped. A decode failure on a complete segment aborts processing of the
//! remaining buffered bytes for that call and is reported to the caller, who
//! decides the connection's fate; the messages decoded before the failure are
//! still delivered.

use vstd::prelude::*;
use crate::bytes::{
    copy_range, first_ix, lemma_first_ix, lemma_first_ix_absent, lemma_first_ix_concat_beyond,
    lemma_first_ix_concat_within, lemma_first_ix_of, trim, trim_bytes,
};
use crate::escape::DELIM;
use crate::message::{
    decode, decode_spec, encode_spec, framed, lemma_encode_on_wire, lemma_round_trip, DecodeError,
    Message, MessageV,
};

verus! {

/// One reassembly step: the first complete nonempty segment decoded, with
/// the rest of the buffer; `Ok((None, tail))` when no complete segment is
/// left; `Err` when the first complete nonempty segment is malformed.
pub open spec fn next_spec(b: Seq<u8>) -> Result<(Option<MessageV>, Seq<u8>), ()>
    decreases b.len(),
    via next_spec_dec
{
    let i = first_ix(b, DELIM);
    if i == b.len() {
        Ok((None, b))
    } else {
        let seg = trim_bytes(b.take(i));
        let rest = b.skip(i + 1);
        if seg.len() == 0 {
            next_spec(rest)
        } else {
            match decode_spec(seg) {
                Some(m) => Ok((Some(m), rest)),
                None => Err(()),
            }
        }
    }
}

#[via_fn]
proof fn next_spec_dec(b: Seq<u8>) {
    lemma_first_ix(b, DELIM);
}

/// Reassembling a whole buffer: all messages in arrival order, the
/// unconsumed tail, and whether a decode failure cut processing short
/// (in which case the tail is dropped).
pub open spec fn feed_spec(b: Seq<u8>) -> (Seq<MessageV>, Seq<u8>, bool)
    decreases b.len(),
    via feed_spec_dec
{
    let i = first_ix(b, DELIM);
    if i == b.len() {
        (seq![], b, false)
    } else {
        let seg = trim_bytes(b.take(i));
        let rest = b.skip(i + 1);
        if seg.len() == 0 {
            feed_spec(rest)
        } else {
            match decode_spec(seg) {
                Some(m) => {
                    let r = feed_spec(rest);
                    (seq![m] + r.0, r.1, r.2)
                },
                None => (seq![], seq![], true),
            }
        }
    }
}

#[via_fn]
proof fn feed_spec_dec(b: Seq<u8>) {
    lemma_first_ix(b, DELIM);
}

/// How one step relates to reassembling the whole buffer.
pub proof fn lemma_feed_next(b: Seq<u8>)
    ensures
        next_spec(b) matches Ok(p) ==> (p.0 matches Some(m) ==> feed_spec(b) == (
            seq![m] + feed_spec(p.1).0,
            feed_spec(p.1).1,
            feed_spec(p.1).2,
        )),
        next_spec(b) matches Ok(p) ==> (p.0 is None ==> feed_spec(b) == (
            Seq::<MessageV>::empty(),
            p.1,
            false,
        )),
        next_spec(b) is Err ==> feed_spec(b) == (Seq::<MessageV>::empty(), Seq::<u8>::empty(), true),
    decreases b.len(),
{
    lemma_first_ix(b, DELIM);
    let i = first_ix(b, DELIM);
    if i == b.len() {
        assert(feed_spec(b) == (Seq::<MessageV>::empty(), b, false));
    } else {
        let seg = trim_bytes(b.take(i));
        let rest = b.skip(i + 1);
        if seg.len() == 0 {
            lemma_feed_next(rest);
        } else {
            match decode_spec(seg) {
                Some(m) => {
                    assert(feed_spec(b) == (
                        seq![m] + feed_spec(rest).0,
                        feed_spec(rest).1,
                        feed_spec(rest).2,
                    ));
                },
                None => {
                    assert(feed_spec(b) == (
                        Seq::<MessageV>::empty(),
                        Seq::<u8>::empty(),
                        true,
                    ));
                },
            }
        }
    }
}

/// Framing split law: reassembling `a + b` equals reassembling `a`, carrying
/// its tail into the front of `b`, and reassembling that — for any split of
/// a buffer on which reassembly does not fail. Feeding a well-formed stream
/// byte by byte therefore yields the same messages as feeding it whole.
pub proof fn lemma_feed_split(a: Seq<u8>, b: Seq<u8>)
    requires
        !feed_spec(a + b).2,
    ensures
        !feed_spec(a).2,
        !feed_spec(feed_spec(a).1 + b).2,
        feed_spec(a + b).0 == feed_spec(a).0 + feed_spec(feed_spec(a).1 + b).0,
        feed_spec(a + b).1 == feed_spec(feed_spec(a).1 + b).1,
    decreases a.len(),
{
    lemma_first_ix(a, DELIM);
    let i = first_ix(a, DELIM);
    if i == a.len() {
        assert(feed_spec(a) == (Seq::<MessageV>::empty(), a, false));
        assert(feed_spec(a).1 + b == a + b);
        assert(Seq::<MessageV>::empty() + feed_spec(a + b).0 =~= feed_spec(a + b).0);
    } else {
        lemma_first_ix_concat_within(a, b, DELIM);
        assert(first_ix(a + b, DELIM) == i);
        assert((a + b).take(i) =~= a.take(i));
        assert((a + b).skip(i + 1) =~= a.skip(i + 1) + b);
        let seg = trim_bytes(a.take(i));
        let rest = a.skip(i + 1);
        if seg.len() == 0 {
            lemma_feed_split(rest, b);
        } else {
            match decode_spec(seg) {
                Some(m) => {
                    assert(feed_spec(a + b).2 == feed_spec(rest + b).2);
                    lemma_feed_split(rest, b);
                    assert(feed_spec(a).0 =~= seq![m] + feed_spec(rest).0);
                    assert(feed_spec(a + b).0 =~= seq![m] + feed_spec(rest + b).0);
                    assert(feed_spec(a).1 == feed_spec(rest).1);
                    assert(seq![m] + (feed_spec(rest).0 + feed_spec(feed_spec(rest).1 + b).0)
                        =~= (seq![m] + feed_spec(rest).0) + feed_spec(feed_spec(rest).1 + b).0);
                },
                None => {
                    assert(feed_spec(a + b).2);
                },
            }
        }
    }
}

/// Empty-segment tolerance: a buffer of delimiters alone yields no messages
/// and an empty remainder.
pub proof fn lemma_feed_delimiters_only(b: Seq<u8>)
    requires
        forall|k: int| 0 <= k < b.len() ==> b[k] == DELIM,
    ensures
        feed_spec(b) == (Seq::<MessageV>::empty(), Seq::<u8>::empty(), false),
    decreases b.len(),
{
    if b.len() == 0 {
        assert(first_ix(b, DELIM) == 0);
        assert(b =~= Seq::<u8>::empty());
    } else {
        lemma_first_ix_of(b, DELIM, 0);
        assert(b.take(0) =~= Seq::<u8>::empty());
        assert(trim_bytes(Seq::<u8>::empty()).len() == 0);
        assert forall|k: int| 0 <= k < b.skip(1).len() implies b.skip(1)[k] == DELIM by {
            assert(b.skip(1)[k] == b[k + 1]);
        }
        lemma_feed_delimiters_only(b.skip(1));
    }
}

/// A framed message at the front of the stream is reassembled first, and
/// the rest of the stream is reassembled after it: what the codec frames,
/// the reassembler recovers.
pub proof fn lemma_feed_framed(m: MessageV, rest: Seq<u8>)
    ensures
        feed_spec(framed(m) + rest).0 == seq![m] + feed_spec(rest).0,
        feed_spec(framed(m) + rest).1 == feed_spec(rest).1,
        feed_spec(framed(m) + rest).2 == feed_spec(rest).2,
{
    let e = encode_spec(m);
    let s = framed(m) + rest;
    lemma_encode_on_wire(m);
    lemma_round_trip(m);
    assert(s =~= e + (seq![DELIM] + rest));
    lemma_first_ix_absent(e, DELIM);
    assert((seq![DELIM] + rest)[0] == DELIM);
    lemma_first_ix_of(seq![DELIM] + rest, DELIM, 0);
    lemma_first_ix_concat_beyond(e, seq![DELIM] + rest, DELIM);
    let i = first_ix(s, DELIM);
    assert(i == e.len());
    assert(s.take(i) =~= e);
    assert(s.skip(i + 1) =~= rest);
    assert(trim_bytes(e) == e);
    assert(decode_spec(e) == Some(m));
    assert(e.len() > 0);
}

/// Takes one complete message off the front of the buffer.
///
/// `Ok((Some(m), rest))` hands back the first decodable segment and what
/// follows its delimiter; `Ok((None, rest))` says no complete segment is
/// buffered, with `rest` the buffer less any whitespace-only segments;
/// `Err` reports a malformed complete segment.
pub fn next(buf: &Vec<u8>) -> (r: Result<(Option<Message>, Vec<u8>), DecodeError>)
    ensures
        r matches Ok(p) ==> {
            &&& p.0 matches Some(m) ==> next_spec(buf@) == Ok::<(Option<MessageV>, Seq<u8>), ()>(
                (Some(m@), p.1@),
            )
            &&& p.0 is None ==> next_spec(buf@) == Ok::<(Option<MessageV>, Seq<u8>), ()>(
                (None, p.1@),
            )
            &&& p.1@.len() <= buf@.len()
            &&& p.0 is Some ==> p.1@.len() < buf@.len()
        },
        r is Err ==> next_spec(buf@) is Err,
{
    let mut pos: usize = 0;
    proof {
        assert(buf@.skip(0) =~= buf@);
    }
    loop
        invariant
            pos <= buf@.len(),
            next_spec(buf@) == next_spec(buf@.skip(pos as int)),
        decreases buf@.len() - pos,
    {
        let mut j = pos;
        while j < buf.len() && buf[j] != DELIM
            invariant
                pos <= j <= buf@.len(),
                forall|k: int| pos <= k < j ==> buf@[k] != DELIM,
            decreases buf@.len() - j,
        {
            j = j + 1;
        }
        let ghost t = buf@.skip(pos as int);
        if j == buf.len() {
            let rest = copy_range(buf.as_slice(), pos, buf.len());
            proof {
                assert forall|k: int| 0 <= k < t.len() implies t[k] != DELIM by {
                    assert(t[k] == buf@[k + pos]);
                }
                lemma_first_ix_absent(t, DELIM);
                assert(rest@ =~= t);
            }
            return Ok((None, rest));
        }
        proof {
            assert(t[j - pos] == buf@[j as int]);
            assert forall|k: int| 0 <= k < j - pos implies t[k] != DELIM by {
                assert(t[k] == buf@[k + pos]);
            }
            lemma_first_ix_of(t, DELIM, j - pos);
            assert(t.take(j - pos) =~= buf@.subrange(pos as int, j as int));
            assert(t.skip(j - pos + 1) =~= buf@.skip(j + 1 as int));
        }
        let raw = copy_range(buf.as_slice(), pos, j);
        let seg = trim(raw.as_slice());
        if seg.len() == 0 {
            pos = j + 1;
        } else {
            match decode(seg.as_slice()) {
                Ok(m) => {
                    let rest = copy_range(buf.as_slice(), j + 1, buf.len());
                    proof {
                        assert(rest@ =~= buf@.skip(j + 1 as int));
                    }
                    return Ok((Some(m), rest));
                },
                Err(e) => {
                    return Err(e);
                },
            }
        }
    }
}

/// The result of feeding newly received bytes to the reassembler.
pub struct Fed {
    /// The complete messages recovered, in arrival order.
    pub messages: Vec<Message>,
    /// The unconsumed tail, to be carried into the next call.
    pub remainder: Vec<u8>,
    /// Set when a malformed segment cut processing short; the messages
    /// decoded before it are still in `messages`, and the tail is dropped.
    pub error: Option<DecodeError>,
}

/// Feeds newly received bytes, continuing from the remainder of the last
/// call, and drains every complete message.
pub fn feed(existing: &[u8], incoming: &[u8]) -> (r: Fed)
    ensures
        r.messages.deep_view() == feed_spec(existing@ + incoming@).0,
        r.remainder@ == feed_spec(existing@ + incoming@).1,
        r.error is Some <==> feed_spec(existing@ + incoming@).2,
{
    let ghost s = existing@ + incoming@;
    let mut buffer: Vec<u8> = Vec::new();
    crate::bytes::append_slice(&mut buffer, existing);
    crate::bytes::append_slice(&mut buffer, incoming);
    let mut messages: Vec<Message> = Vec::new();
    proof {
        assert(messages.deep_view() =~= Seq::<MessageV>::empty());
        assert(Seq::<MessageV>::empty() + feed_spec(buffer@).0 =~= feed_spec(buffer@).0);
    }
    loop
        invariant
            s == existing@ + incoming@,
            feed_spec(s).0 == messages.deep_view() + feed_spec(buffer@).0,
            feed_spec(s).1 == feed_spec(buffer@).1,
            feed_spec(s).2 == feed_spec(buffer@).2,
        decreases buffer@.len(),
    {
        let ghost b0 = buffer@;
        let ghost ms0 = messages.deep_view();
        let step = next(&buffer);
        proof {
            lemma_feed_next(b0);
        }
        match step {
            Ok(p) => {
                let (om, rest) = p;
                match om {
                    Some(m) => {
                        proof {
                            assert(messages.deep_view().push(m@) =~= messages.deep_view() + seq![
                                m@,
                            ]);
                        }
                        messages.push(m);
                        proof {
                            assert(messages.deep_view() =~= ms0.push(m@));
                            assert(ms0 + (seq![m@] + feed_spec(rest@).0) =~= (ms0 + seq![m@])
                                + feed_spec(rest@).0);
                        }
                        buffer = rest;
                    },
                    None => {
                        proof {
                            assert(feed_spec(b0).0 =~= Seq::<MessageV>::empty());
                            assert(ms0 + Seq::<MessageV>::empty() =~= ms0);
                        }
                        return Fed { messages, remainder: rest, error: None };
                    },
                }
            },
            Err(e) => {
                let empty: Vec<u8> = Vec::new();
                proof {
                    assert(ms0 + Seq::<MessageV>::empty() =~= ms0);
                    assert(empty@ =~= Seq::<u8>::empty());
                }
                return Fed { messages, remainder: empty, error: Some(e) };
            },
        }
    }
}

} // verus!
