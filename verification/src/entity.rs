//! Entities of the world: identifier, kind, position and size, together with
//! their canonical byte encoding used inside world snapshots and entity
//! update messages.

use vstd::prelude::*;
use crate::num::{
    dec_of, dec_of_i, enc_i64, enc_u64, lemma_dec_of_injective, parse_i64, parse_u64,
};
use crate::record::{
    is_tag, lemma_rec_enc_injective, rec_decode, rec_enc, rec_encode, views_of,
};

verus! {

/// Identifier of an entity; zero is reserved for "no entity".
pub type EntityID = usize;

/// The reserved "no entity" identifier.
pub fn null_id() -> (r: EntityID)
    ensures
        r == 0,
{
    0
}

#[derive(Clone, Copy, PartialEq, Eq, Structural, Debug)]
pub enum EntityType {
    Scene,
    Character,
}

/// A two-dimensional vector in world units.
#[derive(Clone, Copy, PartialEq, Eq, Structural, Debug)]
pub struct Vec2 {
    pub x: i64,
    pub y: i64,
}

impl Vec2 {
    pub fn new(x: i64, y: i64) -> (r: Vec2)
        ensures
            r == (Vec2 { x, y }),
    {
        Vec2 { x, y }
    }
}

/// A thing in the world. Identity is the id; the world keeps at most one
/// entity per id.
#[derive(Clone, Copy, PartialEq, Eq, Structural, Debug)]
pub struct Entity {
    pub id: EntityID,
    pub t: EntityType,
    pub pos: Vec2,
    pub size: Vec2,
}

/// Record tag of an encoded entity.
pub const TAG_ENTITY_REC: u8 = 0x4e;

pub open spec fn type_byte(t: EntityType) -> u8 {
    match t {
        EntityType::Scene => 0x53,
        EntityType::Character => 0x43,
    }
}

/// Canonical byte encoding of an entity.
pub open spec fn enc_entity(e: Entity) -> Seq<u8> {
    rec_enc(
        TAG_ENTITY_REC,
        seq![
            dec_of(e.id as nat),
            seq![type_byte(e.t)],
            dec_of_i(e.pos.x as int),
            dec_of_i(e.pos.y as int),
            dec_of_i(e.size.x as int),
            dec_of_i(e.size.y as int),
        ],
    )
}

impl Entity {
    pub fn new(id: EntityID, t: EntityType, pos: Vec2, size: Vec2) -> (r: Entity)
        ensures
            r == (Entity { id, t, pos, size }),
    {
        Entity { id, t, pos, size }
    }

    /// Encodes this entity as bytes.
    pub fn to_bytes(&self) -> (r: Vec<u8>)
        ensures
            r@ == enc_entity(*self),
    {
        let mut fields: Vec<Vec<u8>> = Vec::new();
        fields.push(enc_u64(self.id as u64));
        let mut tb: Vec<u8> = Vec::new();
        tb.push(match self.t {
            EntityType::Scene => 0x53,
            EntityType::Character => 0x43,
        });
        fields.push(tb);
        fields.push(enc_i64(self.pos.x));
        fields.push(enc_i64(self.pos.y));
        fields.push(enc_i64(self.size.x));
        fields.push(enc_i64(self.size.y));
        proof {
            assert(views_of(fields@) =~= seq![
                dec_of(self.id as nat),
                seq![type_byte(self.t)],
                dec_of_i(self.pos.x as int),
                dec_of_i(self.pos.y as int),
                dec_of_i(self.size.x as int),
                dec_of_i(self.size.y as int),
            ]);
        }
        rec_encode(TAG_ENTITY_REC, &fields)
    }

    /// Decodes an entity; accepts exactly the encodings of `enc_entity`.
    pub fn from_bytes(b: &[u8]) -> (r: Option<Entity>)
        ensures
            match r {
                Some(e) => b@ == enc_entity(e),
                None => forall|e: Entity| b@ != enc_entity(e),
            },
    {
        let rec = rec_decode(b);
        match rec {
            Some((tag, fs)) => {
                if tag != TAG_ENTITY_REC || fs.len() != 6 {
                    proof {
                        assert forall|e: Entity| b@ != enc_entity(e) by {
                            if b@ == enc_entity(e) {
                                lemma_rec_enc_injective(
                                    tag,
                                    views_of(fs@),
                                    TAG_ENTITY_REC,
                                    entity_fields(e),
                                );
                            }
                        }
                    }
                    return None;
                }
                let id64 = parse_u64(fs[0].as_slice());
                let tbv = &fs[1];
                let px = parse_i64(fs[2].as_slice());
                let py = parse_i64(fs[3].as_slice());
                let sx = parse_i64(fs[4].as_slice());
                let sy = parse_i64(fs[5].as_slice());
                let tb_ok = tbv.len() == 1 && (tbv[0] == 0x53 || tbv[0] == 0x43);
                if id64.is_some() && id64.unwrap() <= usize::MAX as u64 && tb_ok && px.is_some()
                    && py.is_some() && sx.is_some() && sy.is_some() {
                    let et = if tbv[0] == 0x53 {
                        EntityType::Scene
                    } else {
                        EntityType::Character
                    };
                    let e = Entity {
                        id: id64.unwrap() as usize,
                        t: et,
                        pos: Vec2 { x: px.unwrap(), y: py.unwrap() },
                        size: Vec2 { x: sx.unwrap(), y: sy.unwrap() },
                    };
                    proof {
                        assert(e.id as nat == id64.unwrap() as nat);
                        assert(fs@[0]@ == dec_of(e.id as nat));
                        assert(fs@[1]@ =~= seq![type_byte(e.t)]);
                        assert(views_of(fs@) =~~= entity_fields(e));
                        assert(b@ == enc_entity(e));
                    }
                    Some(e)
                } else {
                    proof {
                        assert forall|e: Entity| b@ != enc_entity(e) by {
                            if b@ == enc_entity(e) {
                                lemma_rec_enc_injective(
                                    tag,
                                    views_of(fs@),
                                    TAG_ENTITY_REC,
                                    entity_fields(e),
                                );
                                let fsv = entity_fields(e);
                                assert(fs@[0]@ == dec_of(e.id as nat));
                                assert(fs@[1]@ == seq![type_byte(e.t)]);
                                assert(fs@[2]@ == dec_of_i(e.pos.x as int));
                                assert(fs@[3]@ == dec_of_i(e.pos.y as int));
                                assert(fs@[4]@ == dec_of_i(e.size.x as int));
                                assert(fs@[5]@ == dec_of_i(e.size.y as int));
                                if id64 is Some {
                                    lemma_dec_of_injective(
                                        id64.unwrap() as nat,
                                        e.id as nat,
                                    );
                                }
                            }
                        }
                    }
                    None
                }
            },
            None => {
                proof {
                    assert forall|e: Entity| b@ != enc_entity(e) by {
                        if b@ == enc_entity(e) {
                            assert(is_tag(TAG_ENTITY_REC));
                            assert(entity_fields(e).len() == 6);
                        }
                    }
                }
                None
            },
        }
    }
}

/// The field list of an encoded entity.
pub open spec fn entity_fields(e: Entity) -> Seq<Seq<u8>> {
    seq![
        dec_of(e.id as nat),
        seq![type_byte(e.t)],
        dec_of_i(e.pos.x as int),
        dec_of_i(e.pos.y as int),
        dec_of_i(e.size.x as int),
        dec_of_i(e.size.y as int),
    ]
}

} // verus!
