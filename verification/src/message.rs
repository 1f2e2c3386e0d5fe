//! The wire codec for protocol messages.
//!
//! `encode` produces the one canonical byte encoding of a message; `decode`
//! accepts exactly those encodings and rejects everything else. Payload text
//! is carried as bytes (UTF-8 where it is human text); the map, world and
//! entity payloads carry the encodings of those values.

use vstd::prelude::*;
use crate::bytes::copy_range;
use crate::entity::EntityID;
use crate::num::{dec_of, enc_u64, lemma_dec_of_injective, parse_u64};
use crate::record::{
    is_tag, lemma_rec_enc_injective, rec_decode, rec_enc, rec_encode, views_of,
};

verus! {

/// A protocol message. Immutable once constructed.
#[derive(Clone, PartialEq, Eq, Debug)]
pub enum Message {
    /// Handshake: user name and password.
    Login(Vec<u8>, Vec<u8>),
    /// A chat line.
    Say(Vec<u8>),
    /// Fatal notice sent just before a forced disconnect.
    Kill(Vec<u8>),
    /// Full map replacement; payload is an encoded map.
    MapData(Vec<u8>),
    /// Full world snapshot; payload is an encoded world.
    World(Vec<u8>),
    /// Entity created or updated; payload is an encoded entity.
    Entity(Vec<u8>),
    /// Entity deleted, by id.
    RemoveEntity(EntityID),
}

/// The mathematical shape of a message: payloads as byte sequences.
pub enum MessageV {
    Login(Seq<u8>, Seq<u8>),
    Say(Seq<u8>),
    Kill(Seq<u8>),
    MapData(Seq<u8>),
    World(Seq<u8>),
    Entity(Seq<u8>),
    RemoveEntity(EntityID),
}

impl View for Message {
    type V = MessageV;

    open spec fn view(&self) -> MessageV {
        match self {
            Message::Login(u, p) => MessageV::Login(u@, p@),
            Message::Say(t) => MessageV::Say(t@),
            Message::Kill(t) => MessageV::Kill(t@),
            Message::MapData(t) => MessageV::MapData(t@),
            Message::World(t) => MessageV::World(t@),
            Message::Entity(t) => MessageV::Entity(t@),
            Message::RemoveEntity(id) => MessageV::RemoveEntity(*id),
        }
    }
}

impl DeepView for Message {
    type V = MessageV;

    open spec fn deep_view(&self) -> MessageV {
        self.view()
    }
}

pub const TAG_LOGIN: u8 = 0x4c;

pub const TAG_SAY: u8 = 0x53;

pub const TAG_KILL: u8 = 0x4b;

pub const TAG_MAP: u8 = 0x4d;

pub const TAG_WORLD: u8 = 0x57;

pub const TAG_ENTITY: u8 = 0x45;

pub const TAG_REMOVE: u8 = 0x52;

pub open spec fn msg_tag(m: MessageV) -> u8 {
    match m {
        MessageV::Login(_, _) => TAG_LOGIN,
        MessageV::Say(_) => TAG_SAY,
        MessageV::Kill(_) => TAG_KILL,
        MessageV::MapData(_) => TAG_MAP,
        MessageV::World(_) => TAG_WORLD,
        MessageV::Entity(_) => TAG_ENTITY,
        MessageV::RemoveEntity(_) => TAG_REMOVE,
    }
}

pub open spec fn msg_fields(m: MessageV) -> Seq<Seq<u8>> {
    match m {
        MessageV::Login(u, p) => seq![u, p],
        MessageV::Say(t) => seq![t],
        MessageV::Kill(t) => seq![t],
        MessageV::MapData(t) => seq![t],
        MessageV::World(t) => seq![t],
        MessageV::Entity(t) => seq![t],
        MessageV::RemoveEntity(id) => seq![dec_of(id as nat)],
    }
}

/// Canonical byte encoding of a message.
pub open spec fn encode_spec(m: MessageV) -> Seq<u8> {
    rec_enc(msg_tag(m), msg_fields(m))
}

/// What decoding means: the unique message that encodes to these bytes, if
/// any.
pub open spec fn decode_spec(b: Seq<u8>) -> Option<MessageV> {
    if exists|m: MessageV| b == encode_spec(m) {
        Some(choose|m: MessageV| b == encode_spec(m))
    } else {
        None
    }
}

/// Encoding is injective: distinct messages have distinct encodings.
pub proof fn lemma_encode_injective(m1: MessageV, m2: MessageV)
    requires
        encode_spec(m1) == encode_spec(m2),
    ensures
        m1 == m2,
{
    lemma_rec_enc_injective(msg_tag(m1), msg_fields(m1), msg_tag(m2), msg_fields(m2));
    match (m1, m2) {
        (MessageV::RemoveEntity(a), MessageV::RemoveEntity(b)) => {
            assert(msg_fields(m1)[0] == dec_of(a as nat));
            assert(msg_fields(m2)[0] == dec_of(b as nat));
            lemma_dec_of_injective(a as nat, b as nat);
        },
        (MessageV::Login(u1, p1), MessageV::Login(u2, p2)) => {
            assert(msg_fields(m1)[0] == u1);
            assert(msg_fields(m1)[1] == p1);
            assert(msg_fields(m2)[0] == u2);
            assert(msg_fields(m2)[1] == p2);
        },
        _ => {
            assert(msg_fields(m1)[0] == msg_fields(m2)[0]);
        },
    }
}

/// A message as it goes on the wire: its encoding plus the frame delimiter.
pub open spec fn framed(m: MessageV) -> Seq<u8> {
    encode_spec(m) + seq![crate::escape::DELIM]
}

/// Why framing works: an encoded message never contains the frame
/// delimiter, and trimming whitespace leaves it unchanged.
pub proof fn lemma_encode_on_wire(m: MessageV)
    ensures
        forall|k: int|
            0 <= k < encode_spec(m).len() ==> encode_spec(m)[k] != crate::escape::DELIM,
        crate::bytes::trim_bytes(encode_spec(m)) == encode_spec(m),
        encode_spec(m).len() >= 2,
{
    lemma_msg_fields_len(m);
    crate::record::lemma_rec_enc_on_wire(msg_tag(m), msg_fields(m));
}

/// Round trip: every constructible message decodes from its own encoding.
pub proof fn lemma_round_trip(m: MessageV)
    ensures
        decode_spec(encode_spec(m)) == Some(m),
{
    let b = encode_spec(m);
    assert(b == encode_spec(m));
    assert(exists|x: MessageV| b == encode_spec(x));
    let w = choose|x: MessageV| b == encode_spec(x);
    lemma_encode_injective(w, m);
}

/// Decoding failed: the input is malformed or carries an unknown tag.
#[derive(Clone, Copy, PartialEq, Eq, Structural, Debug)]
pub struct DecodeError;

/// Exact copy of a byte vector.
pub fn clone_bytes(v: &Vec<u8>) -> (r: Vec<u8>)
    ensures
        r@ == v@,
{
    let r = copy_range(v.as_slice(), 0, v.len());
    proof {
        assert(v@.subrange(0, v@.len() as int) =~= v@);
    }
    r
}

/// Encodes a message into its canonical self-delimited byte representation.
pub fn encode(m: &Message) -> (r: Vec<u8>)
    ensures
        r@ == encode_spec(m@),
{
    let mut fields: Vec<Vec<u8>> = Vec::new();
    let tag: u8;
    match m {
        Message::Login(u, p) => {
            tag = TAG_LOGIN;
            fields.push(clone_bytes(u));
            fields.push(clone_bytes(p));
        },
        Message::Say(t) => {
            tag = TAG_SAY;
            fields.push(clone_bytes(t));
        },
        Message::Kill(t) => {
            tag = TAG_KILL;
            fields.push(clone_bytes(t));
        },
        Message::MapData(t) => {
            tag = TAG_MAP;
            fields.push(clone_bytes(t));
        },
        Message::World(t) => {
            tag = TAG_WORLD;
            fields.push(clone_bytes(t));
        },
        Message::Entity(t) => {
            tag = TAG_ENTITY;
            fields.push(clone_bytes(t));
        },
        Message::RemoveEntity(id) => {
            tag = TAG_REMOVE;
            fields.push(enc_u64(*id as u64));
        },
    }
    proof {
        assert(views_of(fields@) =~~= msg_fields(m@));
        assert(tag == msg_tag(m@));
    }
    rec_encode(tag, &fields)
}

/// Decodes a message; accepts exactly the encodings of `encode`.
pub fn decode(b: &[u8]) -> (r: Result<Message, DecodeError>)
    ensures
        match r {
            Ok(m) => decode_spec(b@) == Some(m@),
            Err(_) => decode_spec(b@) is None,
        },
{
    let rec = rec_decode(b);
    match rec {
        Some((tag, mut fs)) => {
            let ghost fs0 = fs@;
            if tag == TAG_LOGIN && fs.len() == 2 {
                let p = fs.pop().unwrap();
                let u = fs.pop().unwrap();
                let m = Message::Login(u, p);
                proof {
                    assert(fs0 =~= fs@.push(u).push(p));
                    lemma_views_pop2(fs@, u, p);
                    assert(views_of(fs0) =~~= msg_fields(m@));
                    assert(b@ == encode_spec(m@));
                    lemma_round_trip(m@);
                }
                Ok(m)
            } else if tag == TAG_SAY && fs.len() == 1 {
                let t = fs.pop().unwrap();
                let m = Message::Say(t);
                proof {
                    assert(fs0 =~= fs@.push(t));
                    lemma_views_pop1(fs@, t);
                    assert(views_of(fs0) =~~= msg_fields(m@));
                    assert(b@ == encode_spec(m@));
                    lemma_round_trip(m@);
                }
                Ok(m)
            } else if tag == TAG_KILL && fs.len() == 1 {
                let t = fs.pop().unwrap();
                let m = Message::Kill(t);
                proof {
                    assert(fs0 =~= fs@.push(t));
                    lemma_views_pop1(fs@, t);
                    assert(views_of(fs0) =~~= msg_fields(m@));
                    assert(b@ == encode_spec(m@));
                    lemma_round_trip(m@);
                }
                Ok(m)
            } else if tag == TAG_MAP && fs.len() == 1 {
                let t = fs.pop().unwrap();
                let m = Message::MapData(t);
                proof {
                    assert(fs0 =~= fs@.push(t));
                    lemma_views_pop1(fs@, t);
                    assert(views_of(fs0) =~~= msg_fields(m@));
                    assert(b@ == encode_spec(m@));
                    lemma_round_trip(m@);
                }
                Ok(m)
            } else if tag == TAG_WORLD && fs.len() == 1 {
                let t = fs.pop().unwrap();
                let m = Message::World(t);
                proof {
                    assert(fs0 =~= fs@.push(t));
                    lemma_views_pop1(fs@, t);
                    assert(views_of(fs0) =~~= msg_fields(m@));
                    assert(b@ == encode_spec(m@));
                    lemma_round_trip(m@);
                }
                Ok(m)
            } else if tag == TAG_ENTITY && fs.len() == 1 {
                let t = fs.pop().unwrap();
                let m = Message::Entity(t);
                proof {
                    assert(fs0 =~= fs@.push(t));
                    lemma_views_pop1(fs@, t);
                    assert(views_of(fs0) =~~= msg_fields(m@));
                    assert(b@ == encode_spec(m@));
                    lemma_round_trip(m@);
                }
                Ok(m)
            } else if tag == TAG_REMOVE && fs.len() == 1 {
                let pv = parse_u64(fs[0].as_slice());
                if pv.is_some() && pv.unwrap() <= usize::MAX as u64 {
                    let v = pv.unwrap();
                    let m = Message::RemoveEntity(v as usize);
                    proof {
                        assert(views_of(fs@)[0] == fs@[0]@);
                        assert((v as usize) as nat == v as nat);
                        assert(views_of(fs@) =~~= msg_fields(m@));
                        assert(b@ == encode_spec(m@));
                        lemma_round_trip(m@);
                    }
                    Ok(m)
                } else {
                    proof {
                        if decode_spec(b@) is Some {
                            let w = choose|x: MessageV| b@ == encode_spec(x);
                            lemma_msg_fields_len(w);
                            lemma_rec_enc_injective(
                                tag,
                                views_of(fs@),
                                msg_tag(w),
                                msg_fields(w),
                            );
                            assert(w is RemoveEntity);
                            let id = w->RemoveEntity_0;
                            assert(views_of(fs@)[0] == fs@[0]@);
                            assert(fs@[0]@ == dec_of(id as nat));
                            assert(id as nat <= u64::MAX);
                            if pv is Some {
                                lemma_dec_of_injective(pv.unwrap() as nat, id as nat);
                            }
                        }
                    }
                    Err(DecodeError)
                }
            } else {
                proof {
                    if decode_spec(b@) is Some {
                        let w = choose|x: MessageV| b@ == encode_spec(x);
                        lemma_msg_fields_len(w);
                        lemma_rec_enc_injective(tag, views_of(fs@), msg_tag(w), msg_fields(w));
                        assert(views_of(fs@).len() == fs@.len());
                    }
                }
                Err(DecodeError)
            }
        },
        None => {
            proof {
                if decode_spec(b@) is Some {
                    let w = choose|x: MessageV| b@ == encode_spec(x);
                    lemma_msg_fields_len(w);
                    assert(b@ == rec_enc(msg_tag(w), msg_fields(w)));
                }
            }
            Err(DecodeError)
        },
    }
}

/// Every message has at least one field and an upper-case tag.
pub proof fn lemma_msg_fields_len(m: MessageV)
    ensures
        msg_fields(m).len() >= 1,
        msg_fields(m).len() <= 2,
        is_tag(msg_tag(m)),
        m is Login <==> msg_tag(m) == TAG_LOGIN,
        m is Say <==> msg_tag(m) == TAG_SAY,
        m is Kill <==> msg_tag(m) == TAG_KILL,
        m is MapData <==> msg_tag(m) == TAG_MAP,
        m is World <==> msg_tag(m) == TAG_WORLD,
        m is Entity <==> msg_tag(m) == TAG_ENTITY,
        m is RemoveEntity <==> msg_tag(m) == TAG_REMOVE,
{
    match m {
        MessageV::Login(_, _) => {},
        MessageV::Say(_) => {},
        MessageV::Kill(_) => {},
        MessageV::MapData(_) => {},
        MessageV::World(_) => {},
        MessageV::Entity(_) => {},
        MessageV::RemoveEntity(_) => {},
    }
}

/// Popping the two fields of a two-field record recovers their views.
proof fn lemma_views_pop2(rest: Seq<Vec<u8>>, u: Vec<u8>, p: Vec<u8>)
    requires
        rest.len() == 0,
    ensures
        views_of(rest.push(u).push(p)) =~~= seq![u@, p@],
{
    assert(views_of(rest.push(u).push(p)).len() == 2);
    assert(views_of(rest.push(u).push(p))[0] == u@);
    assert(views_of(rest.push(u).push(p))[1] == p@);
}

/// Popping the one field of a one-field record recovers its view.
proof fn lemma_views_pop1(rest: Seq<Vec<u8>>, t: Vec<u8>)
    requires
        rest.len() == 0,
    ensures
        views_of(rest.push(t)) =~~= seq![t@],
{
    assert(views_of(rest.push(t)).len() == 1);
    assert(views_of(rest.push(t))[0] == t@);
}

} // verus!
