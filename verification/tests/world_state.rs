//! World store: id uniqueness under any update sequence, and the world and
//! entity codecs.

use gatekeeper::entity::{Entity, EntityType, Vec2};
use gatekeeper::tilemap::TileMap;
use gatekeeper::world::World;

fn character(id: usize, x: i64) -> Entity {
    Entity::new(id, EntityType::Character, Vec2::new(x, 30), Vec2::new(32, 32))
}

fn assert_unique_ids(w: &World) {
    for i in 0..w.entities.len() {
        for j in (i + 1)..w.entities.len() {
            assert_ne!(w.entities[i].id, w.entities[j].id);
        }
    }
}

#[test]
fn world_keeps_at_most_one_entity_per_id() {
    let mut w = World::new(TileMap::new(4, 4));
    w.update_or_insert(&character(1, 10));
    w.update_or_insert(&character(2, 20));
    w.update_or_insert(&character(1, 99)); // same id: replaces
    assert_unique_ids(&w);
    assert_eq!(w.entities.len(), 2);
    assert_eq!(w.entities[0].pos.x, 99);
    w.remove(2);
    assert_eq!(w.entities.len(), 1);
    w.remove(2); // absent: no-op
    assert_eq!(w.entities.len(), 1);
    w.update_or_insert(&character(2, 5));
    w.update_or_insert(&character(3, 6));
    assert_unique_ids(&w);
    assert_eq!(w.entities.len(), 3);
}

#[test]
fn entity_roundtrip() {
    let e = character(7, -12);
    let bytes = e.to_bytes();
    assert_eq!(Entity::from_bytes(&bytes), Some(e));
    assert_eq!(Entity::from_bytes(b"junk"), None);
}

#[test]
fn tilemap_roundtrip() {
    let mut m = TileMap::new(3, 2);
    let idx = m.idx(2, 1);
    assert_eq!(idx, 1 * 3 + 2);
    m.layers[0][idx] = gatekeeper::tilemap::Tile { x: 4, y: 5 };
    let bytes = m.to_bytes();
    let back = TileMap::from_bytes(&bytes).expect("own encoding must decode");
    assert_eq!(back, m);
    assert_eq!(TileMap::from_bytes(b"nope"), None);
}

#[test]
fn world_roundtrip() {
    let mut w = World::new(TileMap::new(2, 2));
    w.update_or_insert(&character(1, 1));
    w.update_or_insert(&character(2, 2));
    w.next_id = 3;
    let bytes = w.to_bytes();
    let back = World::from_bytes(&bytes).expect("own encoding must decode");
    assert_eq!(back, w);
    assert_eq!(World::from_bytes(&bytes[1..]), None);
}
