//! Reactor scenarios: login, chat fan-out, bad handshake, disconnect
//! cleanup.

use gatekeeper::entity::{Entity, EntityType, Vec2};
use gatekeeper::message::{encode, Message};
use gatekeeper::server::Server;
use gatekeeper::tilemap::TileMap;
use gatekeeper::world::World;

fn frame(m: &Message) -> Vec<u8> {
    let mut f = encode(m);
    f.push(0);
    f
}

fn fresh_server() -> Server {
    Server::new(World::new(TileMap::new(4, 4)))
}

fn login(server: &mut Server, token: usize, name: &[u8]) {
    let bytes = frame(&Message::Login(name.to_vec(), b"x".to_vec()));
    let dead = server.on_readable(token, &bytes);
    assert!(dead.is_none());
}

#[test]
fn login_gets_snapshot_then_join_notice() {
    let mut server = fresh_server();
    let snapshot_before = server.world.to_bytes();
    let t = server.accept_connection();
    login(&mut server, t, b"Alice");

    let conn = server.conns.get(t);
    assert_eq!(conn.user.name, b"Alice".to_vec());
    assert!(conn.handshake_done);
    assert_eq!(conn.send_queue.len(), 3);
    // exactly one World message, first, with the snapshot as of the login
    assert_eq!(conn.send_queue[0], frame(&Message::World(snapshot_before)));
    assert_eq!(
        conn.send_queue[1],
        frame(&Message::Say(b"Alice has joined the server".to_vec()))
    );
    // the spawned entity is announced to all, including Alice
    let spawned = Entity::new(1, EntityType::Character, Vec2::new(30, 30), Vec2::new(32, 32));
    assert_eq!(conn.send_queue[2], frame(&Message::Entity(spawned.to_bytes())));
    assert_eq!(conn.entity, 1);
    assert_eq!(server.world.entities.len(), 1);
    assert_eq!(server.world.entities[0], spawned);
}

#[test]
fn chat_fans_out_with_sender_name() {
    let mut server = fresh_server();
    let a = server.accept_connection();
    let b = server.accept_connection();
    let c = server.accept_connection();
    login(&mut server, a, b"A");
    login(&mut server, b, b"B");
    login(&mut server, c, b"C");

    let before = [a, b, c].map(|t| server.conns.get(t).send_queue.len());
    let dead = server.on_readable(a, &frame(&Message::Say(b"hi".to_vec())));
    assert!(dead.is_none());
    let expected = frame(&Message::Say(b"A: hi".to_vec()));
    for (i, t) in [a, b, c].into_iter().enumerate() {
        let q = &server.conns.get(t).send_queue;
        assert_eq!(q.len(), before[i] + 1);
        assert_eq!(q[q.len() - 1], expected);
    }
}

#[test]
fn bad_handshake_draws_kill_and_removal() {
    let mut server = fresh_server();
    let t = server.accept_connection();
    let dead = server.on_readable(t, &frame(&Message::Say(b"hi".to_vec())));
    let conn = dead.expect("connection must be torn down");
    assert!(!server.conns.contains(t));
    assert_eq!(
        conn.send_queue,
        vec![frame(&Message::Kill(b"Bad login".to_vec()))]
    );
}

#[test]
fn disconnect_cleanup_announces_leave_and_entity_removal() {
    let mut server = fresh_server();
    let a = server.accept_connection();
    let b = server.accept_connection();
    login(&mut server, a, b"Alice");
    login(&mut server, b, b"Bob");
    let eid = server.conns.get(a).entity;
    assert!(eid != 0);

    let before = server.conns.get(b).send_queue.len();
    let gone = server.on_hangup(a);
    assert_eq!(gone.token, a);
    assert!(!server.conns.contains(a));
    // Alice's entity is gone from the world
    assert!(server.world.entities.iter().all(|e| e.id != eid));
    let q = &server.conns.get(b).send_queue;
    assert_eq!(q.len(), before + 2);
    assert_eq!(q[q.len() - 2], frame(&Message::Say(b"Alice dissolved away".to_vec())));
    assert_eq!(q[q.len() - 1], frame(&Message::RemoveEntity(eid)));
}

#[test]
fn unrecognized_command_is_ignored() {
    let mut server = fresh_server();
    let t = server.accept_connection();
    login(&mut server, t, b"Alice");
    let before = server.conns.get(t).send_queue.len();
    let dead = server.on_readable(t, &frame(&Message::Kill(b"nope".to_vec())));
    assert!(dead.is_none());
    assert!(server.conns.contains(t));
    assert_eq!(server.conns.get(t).send_queue.len(), before);
}

#[test]
fn map_replacement_fans_out_new_world() {
    let mut server = fresh_server();
    let t = server.accept_connection();
    login(&mut server, t, b"Alice");
    let mut newmap = TileMap::new(2, 3);
    newmap.layers[0][0] = gatekeeper::tilemap::Tile { x: 1, y: 1 };
    let before = server.conns.get(t).send_queue.len();
    let dead = server.on_readable(t, &frame(&Message::MapData(newmap.to_bytes())));
    assert!(dead.is_none());
    assert_eq!(server.world.map, newmap);
    let q = &server.conns.get(t).send_queue;
    assert_eq!(q.len(), before + 1);
    assert_eq!(q[q.len() - 1], frame(&Message::World(server.world.to_bytes())));
}

#[test]
fn malformed_map_payload_tears_down_sender() {
    let mut server = fresh_server();
    let t = server.accept_connection();
    login(&mut server, t, b"Alice");
    let dead = server.on_readable(t, &frame(&Message::MapData(b"not a map".to_vec())));
    assert!(dead.is_some());
    assert!(!server.conns.contains(t));
}

#[test]
fn malformed_segment_tears_down_sender() {
    let mut server = fresh_server();
    let t = server.accept_connection();
    login(&mut server, t, b"Alice");
    let dead = server.on_readable(t, b"garbage\x00");
    assert!(dead.is_some());
    assert!(!server.conns.contains(t));
}

#[test]
fn partial_frames_wait_in_the_buffer() {
    let mut server = fresh_server();
    let t = server.accept_connection();
    let bytes = frame(&Message::Login(b"Ann".to_vec(), b"p".to_vec()));
    let (head, tail) = bytes.split_at(3);
    assert!(server.on_readable(t, head).is_none());
    assert!(!server.conns.get(t).handshake_done);
    assert!(server.on_readable(t, tail).is_none());
    assert!(server.conns.get(t).handshake_done);
    assert_eq!(server.conns.get(t).user.name, b"Ann".to_vec());
}
