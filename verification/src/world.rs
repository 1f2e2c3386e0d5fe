//! The shared world: the map plus the entity set, with the entity-id
//! allocator's counter, and the world's canonical byte encoding (the
//! snapshot sent to clients).
//!
//! Invariant: at most one entity per id. `update_or_insert` replaces the
//! entity with a matching id or appends; `remove` deletes the matching
//! entity if present.

use vstd::prelude::*;
use vstd::pervasive::VecAdditionalExecFns;
use crate::entity::{enc_entity, Entity, EntityID};
use crate::num::{dec_of, enc_u64, lemma_dec_of_injective, parse_u64};
use crate::record::{
    is_tag, lemma_rec_enc_injective, rec_decode, rec_enc, rec_encode, views_of,
};
use crate::tilemap::{enc_tilemap, TileMap, TileMapM};

verus! {

/// The shared world state.
#[derive(Clone, PartialEq, Eq, Debug)]
pub struct World {
    pub map: TileMap,
    pub entities: Vec<Entity>,
    /// The next entity id to hand out; ids start at one, zero meaning
    /// "no entity".
    pub next_id: EntityID,
}

/// Mathematical shape of the world.
pub struct WorldM {
    pub map: TileMapM,
    pub entities: Seq<Entity>,
    pub next_id: EntityID,
}

impl View for World {
    type V = WorldM;

    open spec fn view(&self) -> WorldM {
        WorldM { map: self.map@, entities: self.entities@, next_id: self.next_id }
    }
}

impl WorldM {
    /// At most one entity per id, a positive id counter, and a well-formed
    /// map.
    pub open spec fn wf(self) -> bool {
        &&& forall|i: int, j: int|
            0 <= i < j < self.entities.len() ==> (#[trigger] self.entities[i]).id != (
            #[trigger] self.entities[j]).id
        &&& self.next_id >= 1
        &&& self.map.wf()
    }
}

/// Index of the first entity with the given id, or the length if absent.
pub open spec fn find_eid(s: Seq<Entity>, id: EntityID) -> int
    decreases s.len(),
{
    if s.len() == 0 {
        0
    } else if s[0].id == id {
        0
    } else {
        1 + find_eid(s.skip(1), id)
    }
}

pub proof fn lemma_find_eid(s: Seq<Entity>, id: EntityID)
    ensures
        0 <= find_eid(s, id) <= s.len(),
        find_eid(s, id) < s.len() ==> s[find_eid(s, id)].id == id,
        forall|j: int| 0 <= j < find_eid(s, id) ==> (#[trigger] s[j]).id != id,
    decreases s.len(),
{
    if s.len() == 0 {
    } else if s[0].id == id {
    } else {
        lemma_find_eid(s.skip(1), id);
        assert forall|j: int| 0 <= j < find_eid(s, id) implies (#[trigger] s[j]).id != id by {
            if j > 0 {
                assert(s.skip(1)[j - 1] == s[j]);
            }
        }
    }
}

impl World {
    /// A fresh world over the given map: no entities, ids starting at one.
    pub fn new(map: TileMap) -> (r: World)
        ensures
            r@.map == map@,
            r@.entities == Seq::<Entity>::empty(),
            r@.next_id == 1,
            map@.wf() ==> r@.wf(),
    {
        let r = World { map, entities: Vec::new(), next_id: 1 };
        proof {
            assert(r@.entities =~= Seq::<Entity>::empty());
        }
        r
    }

    /// Replaces the entity carrying this entity's id, or appends it.
    /// The entity set keeps at most one entity per id.
    pub fn update_or_insert(&mut self, entity: &Entity)
        requires
            old(self)@.wf(),
        ensures
            final(self)@.wf(),
            final(self)@.map == old(self)@.map,
            final(self)@.next_id == old(self)@.next_id,
            ({
                let k = find_eid(old(self)@.entities, entity.id);
                if k < old(self)@.entities.len() {
                    final(self)@.entities == old(self)@.entities.update(k, *entity)
                } else {
                    final(self)@.entities == old(self)@.entities.push(*entity)
                }
            }),
    {
        let ghost s0 = self.entities@;
        let mut i: usize = 0;
        while i < self.entities.len()
            invariant
                i <= self.entities@.len(),
                self.entities@ == s0,
                s0 == old(self)@.entities,
                self.map == old(self).map,
                self.next_id == old(self).next_id,
                old(self)@.wf(),
                forall|j: int| 0 <= j < i ==> (#[trigger] s0[j]).id != entity.id,
            decreases self.entities@.len() - i,
        {
            if self.entities[i].id == entity.id {
                proof {
                    lemma_find_eid_at(s0, entity.id, i as int);
                }
                self.entities.set(i, *entity);
                proof {
                    let u = s0.update(i as int, *entity);
                    assert forall|a: int, b: int|
                        0 <= a < b < u.len() implies (#[trigger] u[a]).id != (
                    #[trigger] u[b]).id by {
                        if a != i {
                            assert(u[a] == s0[a]);
                        }
                        if b != i {
                            assert(u[b] == s0[b]);
                        }
                        assert(u[i as int].id == s0[i as int].id);
                    }
                }
                return ;
            }
            i = i + 1;
        }
        proof {
            lemma_find_eid_absent(s0, entity.id);
        }
        self.entities.push(*entity);
        proof {
            lemma_find_eid(s0, entity.id);
            assert forall|a: int, b: int|
                0 <= a < b < self@.entities.len() implies (#[trigger] self@.entities[a]).id != (
            #[trigger] self@.entities[b]).id by {
                if b < s0.len() {
                } else {
                    assert(self@.entities[b] == *entity);
                }
            }
        }
    }

    /// Removes the entity with the given id, if present; no-op otherwise.
    pub fn remove(&mut self, id: EntityID)
        requires
            old(self)@.wf(),
        ensures
            final(self)@.wf(),
            final(self)@.map == old(self)@.map,
            final(self)@.next_id == old(self)@.next_id,
            ({
                let k = find_eid(old(self)@.entities, id);
                if k < old(self)@.entities.len() {
                    final(self)@.entities == old(self)@.entities.remove(k)
                } else {
                    final(self)@.entities == old(self)@.entities
                }
            }),
    {
        let ghost s0 = self.entities@;
        let mut i: usize = 0;
        while i < self.entities.len()
            invariant
                i <= self.entities@.len(),
                self.entities@ == s0,
                s0 == old(self)@.entities,
                self.map == old(self).map,
                self.next_id == old(self).next_id,
                old(self)@.wf(),
                forall|j: int| 0 <= j < i ==> (#[trigger] s0[j]).id != id,
            decreases self.entities@.len() - i,
        {
            if self.entities[i].id == id {
                proof {
                    lemma_find_eid_at(s0, id, i as int);
                }
                self.entities.remove(i);
                proof {
                    assert forall|a: int, b: int|
                        0 <= a < b < self@.entities.len() implies (
                    #[trigger] self@.entities[a]).id != (#[trigger] self@.entities[b]).id by {
                        let r = s0.remove(i as int);
                        assert(self@.entities == r);
                        if a < i {
                            assert(r[a] == s0[a]);
                        } else {
                            assert(r[a] == s0[a + 1]);
                        }
                        if b < i {
                            assert(r[b] == s0[b]);
                        } else {
                            assert(r[b] == s0[b + 1]);
                        }
                    }
                }
                return ;
            }
            i = i + 1;
        }
        proof {
            lemma_find_eid_absent(s0, id);
        }
    }

    /// Replaces the whole map.
    pub fn replace_map(&mut self, map: TileMap)
        requires
            old(self)@.wf(),
            map@.wf(),
        ensures
            final(self)@.wf(),
            final(self)@.map == map@,
            final(self)@.entities == old(self)@.entities,
            final(self)@.next_id == old(self)@.next_id,
    {
        self.map = map;
    }

    /// Encodes a full snapshot of this world.
    pub fn to_bytes(&self) -> (r: Vec<u8>)
        ensures
            r@ == enc_world(self@),
    {
        let mut fields: Vec<Vec<u8>> = Vec::new();
        fields.push(self.map.to_bytes());
        fields.push(enc_u64(self.next_id as u64));
        let ghost header: Seq<Seq<u8>> = seq![enc_tilemap(self@.map), dec_of(self@.next_id as nat)];
        proof {
            assert(entities_fields(self.entities@.take(0)) =~= Seq::<Seq<u8>>::empty());
            assert(views_of(fields@) =~~= header + entities_fields(self.entities@.take(0)));
        }
        let mut k: usize = 0;
        while k < self.entities.len()
            invariant
                k <= self.entities@.len(),
                header == seq![enc_tilemap(self@.map), dec_of(self@.next_id as nat)],
                views_of(fields@) == header + entities_fields(self.entities@.take(k as int)),
            decreases self.entities@.len() - k,
        {
            let ghost f0 = views_of(fields@);
            fields.push(self.entities[k].to_bytes());
            proof {
                lemma_entities_fields_snoc(
                    self.entities@.take(k as int),
                    self.entities@[k as int],
                );
                assert(self.entities@.take(k + 1 as int) =~= self.entities@.take(k as int).push(
                    self.entities@[k as int],
                ));
                assert(views_of(fields@) =~~= f0 + seq![enc_entity(self.entities@[k as int])]);
                assert(header + (entities_fields(self.entities@.take(k as int)) + seq![
                    enc_entity(self.entities@[k as int]),
                ]) =~= (header + entities_fields(self.entities@.take(k as int))) + seq![
                    enc_entity(self.entities@[k as int]),
                ]);
            }
            k = k + 1;
        }
        proof {
            assert(self.entities@.take(self.entities@.len() as int) =~= self.entities@);
            assert(views_of(fields@) =~~= world_fields(self@));
        }
        rec_encode(TAG_WORLD_REC, &fields)
    }

    /// Decodes a snapshot; accepts exactly the encodings of worlds with a
    /// well-formed map and a positive id counter. Entity-id uniqueness is
    /// the producing world's invariant and is not re-checked here.
    pub fn from_bytes(b: &[u8]) -> (r: Option<World>)
        ensures
            match r {
                Some(w) => w@.map.wf() && w@.next_id >= 1 && b@ == enc_world(w@),
                None => forall|wv: WorldM|
                    wv.map.wf() && wv.next_id >= 1 ==> b@ != enc_world(wv),
            },
    {
        let rec = rec_decode(b);
        let (tag, fs) = match rec {
            Some(p) => p,
            None => {
                proof {
                    assert forall|wv: WorldM|
                        wv.map.wf() && wv.next_id >= 1 implies b@ != enc_world(wv) by {
                        if b@ == enc_world(wv) {
                            lemma_world_fields_shape(wv);
                            assert(is_tag(TAG_WORLD_REC));
                        }
                    }
                }
                return None;
            },
        };
        let ghost fsv = views_of(fs@);
        if tag != TAG_WORLD_REC || fs.len() < 2 {
            proof {
                assert forall|wv: WorldM|
                    wv.map.wf() && wv.next_id >= 1 implies b@ != enc_world(wv) by {
                    if b@ == enc_world(wv) {
                        lemma_world_fields_shape(wv);
                        lemma_rec_enc_injective(tag, fsv, TAG_WORLD_REC, world_fields(wv));
                    }
                }
            }
            return None;
        }
        let map = TileMap::from_bytes(fs[0].as_slice());
        let pnid = parse_u64(fs[1].as_slice());
        let ok = map.is_some() && pnid.is_some() && pnid.unwrap() >= 1 && pnid.unwrap()
            <= usize::MAX as u64;
        if !ok {
            proof {
                assert forall|wv: WorldM|
                    wv.map.wf() && wv.next_id >= 1 implies b@ != enc_world(wv) by {
                    if b@ == enc_world(wv) {
                        lemma_world_fields_shape(wv);
                        lemma_rec_enc_injective(tag, fsv, TAG_WORLD_REC, world_fields(wv));
                        assert(fsv[0] == fs@[0]@);
                        assert(fsv[1] == fs@[1]@);
                        if pnid is Some {
                            lemma_dec_of_injective(pnid.unwrap() as nat, wv.next_id as nat);
                        }
                    }
                }
            }
            return None;
        }
        let map = map.unwrap();
        let next_id = pnid.unwrap() as usize;
        let mut entities: Vec<Entity> = Vec::new();
        let mut k: usize = 2;
        proof {
            assert(entities_fields(entities@) =~= Seq::<Seq<u8>>::empty());
            assert forall|wv: WorldM|
                wv.map.wf() && wv.next_id >= 1 && b@ == #[trigger] enc_world(wv) implies
                enc_tilemap(wv.map) == fsv[0] && wv.next_id == next_id && k - 2
                <= wv.entities.len() && entities_fields(wv.entities.skip(k - 2)) == fsv.skip(
                k as int,
            ) by {
                lemma_world_fields_shape(wv);
                lemma_rec_enc_injective(tag, fsv, TAG_WORLD_REC, world_fields(wv));
                lemma_dec_of_injective(pnid.unwrap() as nat, wv.next_id as nat);
                assert(wv.entities.skip(0) =~= wv.entities);
                assert(world_fields(wv).skip(2) =~= entities_fields(wv.entities));
                assert(fsv.skip(k as int) =~= world_fields(wv).skip(2));
            }
        }
        while k < fs.len()
            invariant
                2 <= k <= fs@.len(),
                fsv == views_of(fs@),
                b@ == rec_enc(tag, fsv),
                tag == TAG_WORLD_REC,
                fsv.len() == fs@.len(),
                entities@.len() == k - 2,
                fsv[0] == fs@[0]@,
                map@.wf(),
                fs@[0]@ == enc_tilemap(map@),
                next_id >= 1,
                fs@[1]@ == dec_of(next_id as nat),
                forall|j: int|
                    0 <= j < entities@.len() ==> fsv[j + 2] == enc_entity(
                        #[trigger] entities@[j],
                    ),
                forall|wv: WorldM|
                    wv.map.wf() && wv.next_id >= 1 && b@ == #[trigger] enc_world(wv)
                        ==> enc_tilemap(wv.map) == fsv[0] && wv.next_id == next_id && k - 2
                        <= wv.entities.len() && entities_fields(wv.entities.skip(k - 2))
                        == fsv.skip(k as int),
            decreases fs@.len() - k,
        {
            let pe = Entity::from_bytes(fs[k].as_slice());
            match pe {
                Some(e) => {
                    proof {
                        assert(fsv[k as int] == fs@[k as int]@);
                        assert forall|wv: WorldM|
                            wv.map.wf() && wv.next_id >= 1 && b@ == #[trigger] enc_world(wv)
                            implies k - 1 <= wv.entities.len() && entities_fields(
                            wv.entities.skip(k - 1),
                        ) == fsv.skip(k + 1) by {
                            let rest = wv.entities.skip(k - 2);
                            assert(rest.len() == wv.entities.len() - (k - 2));
                            assert(rest.len() >= 1) by {
                                if rest.len() == 0 {
                                    assert(entities_fields(rest) =~= Seq::<Seq<u8>>::empty());
                                }
                            }
                            assert(entities_fields(rest) == seq![enc_entity(rest[0])]
                                + entities_fields(rest.skip(1)));
                            assert(rest.skip(1) =~= wv.entities.skip(k - 1)) by {
                                assert forall|q: int|
                                    0 <= q < rest.skip(1).len() implies #[trigger] rest.skip(
                                    1,
                                )[q] == wv.entities.skip(k - 1)[q] by {
                                    assert(rest.skip(1)[q] == rest[q + 1]);
                                    assert(rest[q + 1] == wv.entities[q + 1 + (k - 2)]);
                                    assert(wv.entities.skip(k - 1)[q] == wv.entities[q + (k
                                        - 1)]);
                                }
                            }
                            assert(fsv.skip(k as int).skip(1) =~= fsv.skip(k + 1));
                        }
                    }
                    entities.push(e);
                },
                None => {
                    proof {
                        assert forall|wv: WorldM|
                            wv.map.wf() && wv.next_id >= 1 implies b@ != enc_world(wv) by {
                            if b@ == enc_world(wv) {
                                let rest = wv.entities.skip(k - 2);
                                assert(rest.len() >= 1) by {
                                    if rest.len() == 0 {
                                        assert(entities_fields(rest) =~= Seq::<
                                            Seq<u8>,
                                        >::empty());
                                    }
                                }
                                assert(entities_fields(rest) == seq![enc_entity(rest[0])]
                                    + entities_fields(rest.skip(1)));
                                assert(fsv.skip(k as int)[0] == fsv[k as int]);
                                assert(fsv[k as int] == fs@[k as int]@);
                            }
                        }
                    }
                    return None;
                },
            }
            k = k + 1;
        }
        let w = World { map, entities, next_id };
        proof {
            assert(fsv.skip(2) =~= entities_fields(w@.entities)) by {
                assert forall|q: int|
                    0 <= q < fsv.skip(2).len() implies #[trigger] fsv.skip(2)[q]
                    == entities_fields(w@.entities)[q] by {
                    lemma_entities_fields_index(w@.entities, q);
                    assert(fsv.skip(2)[q] == fsv[q + 2]);
                }
                lemma_entities_fields_len(w@.entities);
            }
            assert(world_fields(w@) =~= seq![fsv[0], fsv[1]] + fsv.skip(2));
            assert(seq![fsv[0], fsv[1]] + fsv.skip(2) =~= fsv);
            assert((pnid.unwrap() as usize) as nat == pnid.unwrap() as nat);
            assert(b@ == enc_world(w@));
        }
        Some(w)
    }
}

/// Record tag of an encoded world snapshot.
pub const TAG_WORLD_REC: u8 = 0x47;

/// One field per entity, in order.
pub open spec fn entities_fields(es: Seq<Entity>) -> Seq<Seq<u8>>
    decreases es.len(),
{
    if es.len() == 0 {
        seq![]
    } else {
        seq![enc_entity(es[0])] + entities_fields(es.skip(1))
    }
}

/// The field list of an encoded world: map, id counter, then the entities.
pub open spec fn world_fields(w: WorldM) -> Seq<Seq<u8>> {
    seq![enc_tilemap(w.map), dec_of(w.next_id as nat)] + entities_fields(w.entities)
}

/// Canonical byte encoding of a world snapshot.
pub open spec fn enc_world(w: WorldM) -> Seq<u8> {
    rec_enc(TAG_WORLD_REC, world_fields(w))
}

pub proof fn lemma_world_fields_shape(w: WorldM)
    ensures
        world_fields(w).len() >= 2,
        world_fields(w)[0] == enc_tilemap(w.map),
        world_fields(w)[1] == dec_of(w.next_id as nat),
        world_fields(w).skip(2) == entities_fields(w.entities),
{
    assert(world_fields(w).skip(2) =~= entities_fields(w.entities));
}

pub proof fn lemma_entities_fields_snoc(es: Seq<Entity>, e: Entity)
    ensures
        entities_fields(es.push(e)) == entities_fields(es) + seq![enc_entity(e)],
    decreases es.len(),
{
    let g = es.push(e);
    if es.len() == 0 {
        assert(g[0] == e);
        assert(g.skip(1) =~= Seq::<Entity>::empty());
        assert(entities_fields(Seq::<Entity>::empty()) =~= Seq::<Seq<u8>>::empty());
        assert(entities_fields(g) =~= seq![enc_entity(e)]);
        assert(entities_fields(es) + seq![enc_entity(e)] =~= seq![enc_entity(e)]);
    } else {
        lemma_entities_fields_snoc(es.skip(1), e);
        assert(g[0] == es[0]);
        assert(g.skip(1) =~= es.skip(1).push(e));
        assert(seq![enc_entity(es[0])] + (entities_fields(es.skip(1)) + seq![enc_entity(e)])
            =~= (seq![enc_entity(es[0])] + entities_fields(es.skip(1))) + seq![enc_entity(e)]);
    }
}

pub proof fn lemma_entities_fields_len(es: Seq<Entity>)
    ensures
        entities_fields(es).len() == es.len(),
    decreases es.len(),
{
    if es.len() > 0 {
        lemma_entities_fields_len(es.skip(1));
    }
}

pub proof fn lemma_entities_fields_index(es: Seq<Entity>, q: int)
    requires
        0 <= q < es.len(),
    ensures
        entities_fields(es).len() == es.len(),
        entities_fields(es)[q] == enc_entity(es[q]),
    decreases q,
{
    lemma_entities_fields_len(es);
    if q == 0 {
    } else {
        lemma_entities_fields_index(es.skip(1), q - 1);
        assert(es.skip(1)[q - 1] == es[q]);
        lemma_entities_fields_len(es.skip(1));
        assert(entities_fields(es)[q] == entities_fields(es.skip(1))[q - 1]);
    }
}

/// `find_eid` is pinned by a witness with nothing before it.
pub proof fn lemma_find_eid_at(s: Seq<Entity>, id: EntityID, k: int)
    requires
        0 <= k < s.len(),
        s[k].id == id,
        forall|j: int| 0 <= j < k ==> (#[trigger] s[j]).id != id,
    ensures
        find_eid(s, id) == k,
    decreases s.len(),
{
    if k == 0 {
    } else {
        assert forall|j: int| 0 <= j < k - 1 implies (#[trigger] s.skip(1)[j]).id != id by {
            assert(s.skip(1)[j] == s[j + 1]);
        }
        assert(s.skip(1)[k - 1] == s[k]);
        lemma_find_eid_at(s.skip(1), id, k - 1);
    }
}

pub proof fn lemma_find_eid_absent(s: Seq<Entity>, id: EntityID)
    requires
        forall|j: int| 0 <= j < s.len() ==> (#[trigger] s[j]).id != id,
    ensures
        find_eid(s, id) == s.len(),
{
    lemma_find_eid(s, id);
    if find_eid(s, id) < s.len() {
        assert(s[find_eid(s, id)].id == id);
        assert(false);
    }
}

} // verus!
