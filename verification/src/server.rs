//! The reactor's protocol core: the session table, the world, and the
//! handlers that drive a connection from `Connecting` through `Active` to
//! teardown.
//!
//! The embedding application owns the sockets and the readiness poller; it
//! hands each connection's received bytes to `on_readable` and failure
//! events to `on_hangup`, writes out the queued buffers, and closes the
//! socket of every connection these calls hand back. Every state change is
//! stated against the transition functions on the server's model.
//!
//! Policies, applied uniformly: a malformed segment or map payload is fatal
//! to the sending connection alone; an unrecognized command from an active
//! connection is ignored; any message other than `Login` from a connection
//! that has not handshaken draws a `Kill` notice and teardown.

use vstd::prelude::*;
use crate::bytes::copy_range;
use crate::connection::{enqueue, initial_conn, ConnM, Connection, Token};
use crate::entity::{enc_entity, Entity, EntityID, EntityType, Vec2};
use crate::escape::DELIM;
use crate::message::{encode, encode_spec, framed, Message, MessageV};
use crate::session::{enqueue_all, SessionTable};
use crate::stream::{feed, feed_spec};
use crate::tilemap::{enc_tilemap, lemma_tilemap_dec_canonical, tilemap_dec, TileMap};
use crate::user::UserM;
use crate::world::{enc_world, find_eid, World, WorldM};

verus! {

/// The server: the world and the table of live connections.
pub struct Server {
    pub world: World,
    pub conns: SessionTable,
}

/// Mathematical shape of the server.
pub struct ServerM {
    pub world: WorldM,
    pub conns: Map<int, ConnM>,
}

impl View for Server {
    type V = ServerM;

    open spec fn view(&self) -> ServerM {
        ServerM { world: self.world@, conns: self.conns@ }
    }
}

impl Server {
    /// The session table's and world's invariants, plus: every entity id
    /// the world holds is below the allocation counter, so a fresh id never
    /// collides.
    pub open spec fn wf(self) -> bool {
        &&& self.conns.wf()
        &&& self.world@.wf()
        &&& forall|i: int|
            0 <= i < self.world@.entities.len() ==> (#[trigger] self.world@.entities[i]).id
                < self.world@.next_id
    }
}

/// `" has joined the server"`.
pub open spec fn join_suffix() -> Seq<u8> {
    seq![
        0x20u8, 0x68, 0x61, 0x73, 0x20, 0x6a, 0x6f, 0x69, 0x6e, 0x65, 0x64, 0x20, 0x74, 0x68,
        0x65, 0x20, 0x73, 0x65, 0x72, 0x76, 0x65, 0x72,
    ]
}

/// `" dissolved away"`.
pub open spec fn dissolved_suffix() -> Seq<u8> {
    seq![0x20u8, 0x64, 0x69, 0x73, 0x73, 0x6f, 0x6c, 0x76, 0x65, 0x64, 0x20, 0x61, 0x77, 0x61, 0x79]
}

/// `"Bad login"`.
pub open spec fn bad_login_text() -> Seq<u8> {
    seq![0x42u8, 0x61, 0x64, 0x20, 0x6c, 0x6f, 0x67, 0x69, 0x6e]
}

/// `": "`, between a speaker's name and the chat line.
pub open spec fn say_sep() -> Seq<u8> {
    seq![0x3au8, 0x20]
}

/// The entity spawned for a fresh login.
pub open spec fn spawned_entity(id: EntityID) -> Entity {
    Entity { id, t: EntityType::Character, pos: Vec2 { x: 30, y: 30 }, size: Vec2 { x: 32, y: 32 } }
}

/// The world after `remove(id)`.
pub open spec fn world_remove_m(w: WorldM, id: EntityID) -> WorldM {
    let k = find_eid(w.entities, id);
    WorldM {
        map: w.map,
        next_id: w.next_id,
        entities: if k < w.entities.len() {
            w.entities.remove(k)
        } else {
            w.entities
        },
    }
}

/// The world after `update_or_insert(e)`, with the id counter kept above
/// every stored id.
pub open spec fn world_upsert_m(w: WorldM, e: Entity) -> WorldM {
    let nid: usize = if e.id >= w.next_id {
        (e.id + 1) as usize
    } else {
        w.next_id
    };
    let k = find_eid(w.entities, e.id);
    WorldM {
        map: w.map,
        next_id: nid,
        entities: if k < w.entities.len() {
            w.entities.update(k, e)
        } else {
            w.entities.push(e)
        },
    }
}

/// Entity stored or updated, and announced to every live connection.
pub open spec fn upsert_entity_m(s: ServerM, e: Entity) -> ServerM {
    ServerM {
        world: world_upsert_m(s.world, e),
        conns: enqueue_all(s.conns, framed(MessageV::Entity(enc_entity(e)))),
    }
}

/// Entity removed, and the removal announced to every live connection.
pub open spec fn remove_entity_m(s: ServerM, id: EntityID) -> ServerM {
    ServerM {
        world: world_remove_m(s.world, id),
        conns: enqueue_all(s.conns, framed(MessageV::RemoveEntity(id))),
    }
}

/// Teardown of connection `t`: it leaves the table, the remaining
/// connections hear that its user dissolved away, and its entity is removed
/// from the world and the removal announced. The removed connection itself
/// is handed back for a best-effort flush and close.
pub open spec fn teardown_m(s: ServerM, t: int) -> (ServerM, ConnM) {
    let c = s.conns[t];
    let cs1 = s.conns.remove(t);
    let cs2 = enqueue_all(cs1, framed(MessageV::Say(c.user.name + dissolved_suffix())));
    let s2 = remove_entity_m(ServerM { world: s.world, conns: cs2 }, c.entity);
    (s2, c)
}

/// The handshake: a `Login` names the user, answers with the world
/// snapshot, announces the join to all, and spawns the user's entity;
/// anything else draws a `Kill` notice and teardown.
pub open spec fn handshake_m(s: ServerM, t: int, m: MessageV) -> (ServerM, Option<ConnM>) {
    match m {
        MessageV::Login(u, _p) => {
            let c1 = ConnM {
                user: UserM { name: u, current_zone: s.conns[t].user.current_zone },
                ..s.conns[t]
            };
            let cs1 = s.conns.insert(t, c1);
            let cs2 = cs1.insert(t, enqueue(c1, framed(MessageV::World(enc_world(s.world)))));
            let cs3 = enqueue_all(cs2, framed(MessageV::Say(u + join_suffix())));
            if s.world.next_id < usize::MAX {
                let id = s.world.next_id;
                let cs4 = cs3.insert(t, ConnM { entity: id, ..cs3[t] });
                let s4 = upsert_entity_m(
                    ServerM { world: s.world, conns: cs4 },
                    spawned_entity(id),
                );
                (s4, None)
            } else {
                (ServerM { world: s.world, conns: cs3 }, None)
            }
        },
        _ => {
            let cs1 = s.conns.insert(
                t,
                enqueue(s.conns[t], framed(MessageV::Kill(bad_login_text()))),
            );
            let r = teardown_m(ServerM { world: s.world, conns: cs1 }, t);
            (r.0, Some(r.1))
        },
    }
}

/// A command from an active connection: chat is rewritten with the sender's
/// name and fanned out; a map replaces the world's map and the new world is
/// fanned out; a malformed map payload tears the sender down; anything else
/// is ignored.
pub open spec fn client_message_m(s: ServerM, t: int, m: MessageV) -> (ServerM, Option<ConnM>) {
    match m {
        MessageV::Say(txt) => (
            ServerM {
                world: s.world,
                conns: enqueue_all(
                    s.conns,
                    framed(MessageV::Say(s.conns[t].user.name + say_sep() + txt)),
                ),
            },
            None,
        ),
        MessageV::MapData(data) => match tilemap_dec(data) {
            Some(mp) => {
                let w1 = WorldM { map: mp, entities: s.world.entities, next_id: s.world.next_id };
                (
                    ServerM {
                        world: w1,
                        conns: enqueue_all(s.conns, framed(MessageV::World(enc_world(w1)))),
                    },
                    None,
                )
            },
            None => {
                let r = teardown_m(s, t);
                (r.0, Some(r.1))
            },
        },
        _ => (s, None),
    }
}

/// One message from connection `t`: the first goes to the handshake, later
/// ones to the command handler.
pub open spec fn handle_message_m(s: ServerM, t: int, m: MessageV) -> (ServerM, Option<ConnM>) {
    if !s.conns[t].handshake_done {
        let s1 = ServerM {
            world: s.world,
            conns: s.conns.insert(t, ConnM { handshake_done: true, ..s.conns[t] }),
        };
        handshake_m(s1, t, m)
    } else {
        client_message_m(s, t, m)
    }
}

/// A batch of messages in arrival order; a teardown stops the batch.
pub open spec fn dispatch_m(s: ServerM, t: int, msgs: Seq<MessageV>) -> (ServerM, Option<ConnM>)
    decreases msgs.len(),
{
    if msgs.len() == 0 {
        (s, None)
    } else {
        let r = handle_message_m(s, t, msgs[0]);
        if r.1 is Some {
            r
        } else {
            dispatch_m(r.0, t, msgs.skip(1))
        }
    }
}

/// A read event: the received bytes join the connection's remainder, every
/// complete message is dispatched in order, and the new remainder is
/// stored; a decode failure after the batch tears the connection down.
pub open spec fn on_readable_m(s: ServerM, t: int, bytes: Seq<u8>) -> (ServerM, Option<ConnM>) {
    let f = feed_spec(s.conns[t].buffer + bytes);
    let s0 = ServerM {
        world: s.world,
        conns: s.conns.insert(t, ConnM { buffer: f.1, ..s.conns[t] }),
    };
    let r = dispatch_m(s0, t, f.0);
    if r.1 is Some {
        r
    } else if f.2 {
        let d = teardown_m(r.0, t);
        (d.0, Some(d.1))
    } else {
        r
    }
}

/// Frames a message for the wire: its encoding plus the delimiter.
pub fn frame_message(m: &Message) -> (r: Vec<u8>)
    ensures
        r@ == framed(m@),
{
    let mut r = encode(m);
    r.push(DELIM);
    proof {
        assert(r@ =~= encode_spec(m@) + seq![DELIM]);
    }
    r
}

fn push_join_suffix(v: &mut Vec<u8>)
    ensures
        final(v)@ == old(v)@ + join_suffix(),
{
    let ghost v0 = v@;
    v.push(0x20);
    v.push(0x68);
    v.push(0x61);
    v.push(0x73);
    v.push(0x20);
    v.push(0x6a);
    v.push(0x6f);
    v.push(0x69);
    v.push(0x6e);
    v.push(0x65);
    v.push(0x64);
    v.push(0x20);
    v.push(0x74);
    v.push(0x68);
    v.push(0x65);
    v.push(0x20);
    v.push(0x73);
    v.push(0x65);
    v.push(0x72);
    v.push(0x76);
    v.push(0x65);
    v.push(0x72);
    proof {
        assert(v@ =~= v0 + join_suffix());
    }
}

fn push_dissolved_suffix(v: &mut Vec<u8>)
    ensures
        final(v)@ == old(v)@ + dissolved_suffix(),
{
    let ghost v0 = v@;
    v.push(0x20);
    v.push(0x64);
    v.push(0x69);
    v.push(0x73);
    v.push(0x73);
    v.push(0x6f);
    v.push(0x6c);
    v.push(0x76);
    v.push(0x65);
    v.push(0x64);
    v.push(0x20);
    v.push(0x61);
    v.push(0x77);
    v.push(0x61);
    v.push(0x79);
    proof {
        assert(v@ =~= v0 + dissolved_suffix());
    }
}

fn bad_login_vec() -> (r: Vec<u8>)
    ensures
        r@ == bad_login_text(),
{
    let mut v: Vec<u8> = Vec::new();
    v.push(0x42);
    v.push(0x61);
    v.push(0x64);
    v.push(0x20);
    v.push(0x6c);
    v.push(0x6f);
    v.push(0x67);
    v.push(0x69);
    v.push(0x6e);
    proof {
        assert(v@ =~= bad_login_text());
    }
    v
}

impl Server {
    /// A server over the given world, with no connections yet.
    pub fn new(world: World) -> (r: Server)
        requires
            world@.wf(),
            forall|i: int|
                0 <= i < world@.entities.len() ==> (#[trigger] world@.entities[i]).id
                    < world@.next_id,
        ensures
            r.wf(),
            r@.world == world@,
            r@.conns == Map::<int, ConnM>::empty(),
    {
        Server { world, conns: SessionTable::new() }
    }

    /// Accepts a new connection into the table, in the `Connecting` state.
    pub fn accept_connection(&mut self) -> (t: Token)
        requires
            old(self).wf(),
        ensures
            final(self).wf(),
            !old(self)@.conns.dom().contains(t as int),
            final(self)@.world == old(self)@.world,
            final(self)@.conns == old(self)@.conns.insert(t as int, initial_conn(t)),
    {
        let c = Connection::new(0);
        let t = self.conns.insert(c);
        proof {
            assert((ConnM { token: t, ..initial_conn(0) }) == initial_conn(t));
            assert(self@.conns =~~= old(self)@.conns.insert(t as int, initial_conn(t)));
        }
        t
    }

    /// Queues raw bytes to one connection.
    pub fn send_buffer(&mut self, token: Token, buffer: &[u8])
        requires
            old(self).wf(),
            old(self)@.conns.dom().contains(token as int),
        ensures
            final(self).wf(),
            final(self)@.world == old(self)@.world,
            final(self)@.conns == old(self)@.conns.insert(
                token as int,
                enqueue(old(self)@.conns[token as int], buffer@),
            ),
    {
        self.conns.enqueue_to(token, buffer);
    }

    /// Queues raw bytes to every live connection.
    pub fn send_all_buffer(&mut self, buffer: &[u8])
        requires
            old(self).wf(),
        ensures
            final(self).wf(),
            final(self)@.world == old(self)@.world,
            final(self)@.conns == enqueue_all(old(self)@.conns, buffer@),
    {
        self.conns.broadcast(buffer);
    }

    /// Queues one framed message to one connection.
    pub fn send_message(&mut self, token: Token, message: &Message)
        requires
            old(self).wf(),
            old(self)@.conns.dom().contains(token as int),
        ensures
            final(self).wf(),
            final(self)@.world == old(self)@.world,
            final(self)@.conns == old(self)@.conns.insert(
                token as int,
                enqueue(old(self)@.conns[token as int], framed(message@)),
            ),
    {
        let fr = frame_message(message);
        self.send_buffer(token, fr.as_slice());
    }

    /// Queues one framed message to every live connection.
    pub fn broadcast_message(&mut self, message: &Message)
        requires
            old(self).wf(),
        ensures
            final(self).wf(),
            final(self)@.world == old(self)@.world,
            final(self)@.conns == enqueue_all(old(self)@.conns, framed(message@)),
    {
        let fr = frame_message(message);
        self.send_all_buffer(fr.as_slice());
    }

    /// Says a line to one connection.
    pub fn say(&mut self, token: Token, text: &[u8])
        requires
            old(self).wf(),
            old(self)@.conns.dom().contains(token as int),
        ensures
            final(self).wf(),
            final(self)@.world == old(self)@.world,
            final(self)@.conns == old(self)@.conns.insert(
                token as int,
                enqueue(old(self)@.conns[token as int], framed(MessageV::Say(text@))),
            ),
    {
        let line = copy_range(text, 0, text.len());
        proof {
            assert(line@ =~= text@);
        }
        let m = Message::Say(line);
        self.send_message(token, &m);
    }

    /// Says a line to every live connection.
    pub fn say_all(&mut self, text: &[u8])
        requires
            old(self).wf(),
        ensures
            final(self).wf(),
            final(self)@.world == old(self)@.world,
            final(self)@.conns == enqueue_all(old(self)@.conns, framed(MessageV::Say(text@))),
    {
        let line = copy_range(text, 0, text.len());
        proof {
            assert(line@ =~= text@);
        }
        let m = Message::Say(line);
        self.broadcast_message(&m);
    }

    /// Fans the current world snapshot out to every live connection.
    pub fn update_world(&mut self)
        requires
            old(self).wf(),
        ensures
            final(self).wf(),
            final(self)@.world == old(self)@.world,
            final(self)@.conns == enqueue_all(
                old(self)@.conns,
                framed(MessageV::World(enc_world(old(self)@.world))),
            ),
    {
        let snap = self.world.to_bytes();
        let m = Message::World(snap);
        self.broadcast_message(&m);
    }

    /// Sends the current world snapshot to one connection.
    pub fn update_world_personal(&mut self, token: Token)
        requires
            old(self).wf(),
            old(self)@.conns.dom().contains(token as int),
        ensures
            final(self).wf(),
            final(self)@.world == old(self)@.world,
            final(self)@.conns == old(self)@.conns.insert(
                token as int,
                enqueue(
                    old(self)@.conns[token as int],
                    framed(MessageV::World(enc_world(old(self)@.world))),
                ),
            ),
    {
        let snap = self.world.to_bytes();
        let m = Message::World(snap);
        self.send_message(token, &m);
    }

    /// Stores or updates an entity and announces it to every live
    /// connection.
    pub fn update_or_insert(&mut self, entity: &Entity)
        requires
            old(self).wf(),
            entity.id < usize::MAX,
        ensures
            final(self).wf(),
            final(self)@ == upsert_entity_m(old(self)@, *entity),
    {
        if entity.id >= self.world.next_id {
            self.world.next_id = entity.id + 1;
        }
        proof {
            assert(self.world@.wf());
        }
        self.world.update_or_insert(entity);
        proof {
            let w1 = world_upsert_m(old(self)@.world, *entity);
            crate::world::lemma_find_eid(old(self)@.world.entities, entity.id);
            assert(self@.world == w1);
            assert forall|i: int|
                0 <= i < self@.world.entities.len() implies (
            #[trigger] self@.world.entities[i]).id < self@.world.next_id by {
                let k = find_eid(old(self)@.world.entities, entity.id);
                if k < old(self)@.world.entities.len() {
                    if i != k {
                        assert(w1.entities[i] == old(self)@.world.entities[i]);
                    }
                } else {
                    if i < old(self)@.world.entities.len() {
                        assert(w1.entities[i] == old(self)@.world.entities[i]);
                    }
                }
            }
        }
        let eb = entity.to_bytes();
        let m = Message::Entity(eb);
        self.broadcast_message(&m);
    }

    /// Removes an entity from the world and announces the removal to every
    /// live connection.
    pub fn remove_entity(&mut self, id: EntityID)
        requires
            old(self).wf(),
        ensures
            final(self).wf(),
            final(self)@ == remove_entity_m(old(self)@, id),
    {
        self.world.remove(id);
        proof {
            let w1 = world_remove_m(old(self)@.world, id);
            crate::world::lemma_find_eid(old(self)@.world.entities, id);
            assert(self@.world == w1);
            assert forall|i: int|
                0 <= i < self@.world.entities.len() implies (
            #[trigger] self@.world.entities[i]).id < self@.world.next_id by {
                let k = find_eid(old(self)@.world.entities, id);
                if k < old(self)@.world.entities.len() {
                    if i < k {
                        assert(w1.entities[i] == old(self)@.world.entities[i]);
                    } else {
                        assert(w1.entities[i] == old(self)@.world.entities[i + 1]);
                    }
                }
            }
        }
        let m = Message::RemoveEntity(id);
        self.broadcast_message(&m);
    }

    /// Tears a connection down after a failure or hang-up event. The caller
    /// flushes what it can of the returned connection's queue and closes
    /// its socket.
    pub fn on_hangup(&mut self, token: Token) -> (r: Connection)
        requires
            old(self).wf(),
            old(self)@.conns.dom().contains(token as int),
        ensures
            final(self).wf(),
            final(self)@ == teardown_m(old(self)@, token as int).0,
            r@ == teardown_m(old(self)@, token as int).1,
            !final(self)@.conns.dom().contains(token as int),
    {
        let conn = self.conns.remove(token).unwrap();
        let mut text = copy_range(conn.user.name.as_slice(), 0, conn.user.name.len());
        proof {
            assert(text@ =~= conn@.user.name);
        }
        push_dissolved_suffix(&mut text);
        self.say_all(text.as_slice());
        self.remove_entity(conn.entity);
        proof {
            assert(!self@.conns.dom().contains(token as int));
        }
        conn
    }

    /// Sends a `Kill` notice and tears the connection down.
    pub fn kill(&mut self, token: Token, reason: &[u8]) -> (r: Connection)
        requires
            old(self).wf(),
            old(self)@.conns.dom().contains(token as int),
        ensures
            final(self).wf(),
            ({
                let s1 = ServerM {
                    world: old(self)@.world,
                    conns: old(self)@.conns.insert(
                        token as int,
                        enqueue(
                            old(self)@.conns[token as int],
                            framed(MessageV::Kill(reason@)),
                        ),
                    ),
                };
                final(self)@ == teardown_m(s1, token as int).0 && r@ == teardown_m(
                    s1,
                    token as int,
                ).1
            }),
            !final(self)@.conns.dom().contains(token as int),
    {
        let line = copy_range(reason, 0, reason.len());
        proof {
            assert(line@ =~= reason@);
        }
        let m = Message::Kill(line);
        self.send_message(token, &m);
        self.on_hangup(token)
    }

    /// The handshake handler: see `handshake_m`.
    pub fn handshake(&mut self, token: Token, message: &Message) -> (r: Option<Connection>)
        requires
            old(self).wf(),
            old(self)@.conns.dom().contains(token as int),
        ensures
            final(self).wf(),
            final(self)@ == handshake_m(old(self)@, token as int, message@).0,
            match r {
                Some(c) => handshake_m(old(self)@, token as int, message@).1 == Some(c@)
                    && !final(self)@.conns.dom().contains(token as int),
                None => handshake_m(old(self)@, token as int, message@).1 is None && final(self)@.conns.dom().contains(
                    token as int,
                ),
            },
    {
        match message {
            Message::Login(u, _p) => {
                self.conns.set_name(token, u.as_slice());
                self.update_world_personal(token);
                let mut text = copy_range(u.as_slice(), 0, u.len());
                proof {
                    assert(text@ =~= u@);
                }
                push_join_suffix(&mut text);
                self.say_all(text.as_slice());
                if self.world.next_id < usize::MAX {
                    let id = self.world.next_id;
                    self.conns.set_entity(token, id);
                    let e = Entity {
                        id,
                        t: EntityType::Character,
                        pos: Vec2 { x: 30, y: 30 },
                        size: Vec2 { x: 32, y: 32 },
                    };
                    self.update_or_insert(&e);
                }
                None
            },
            _ => {
                let reason = bad_login_vec();
                let c = self.kill(token, reason.as_slice());
                Some(c)
            },
        }
    }

    /// The command handler for active connections: see `client_message_m`.
    pub fn client_message(&mut self, token: Token, message: &Message) -> (r: Option<Connection>)
        requires
            old(self).wf(),
            old(self)@.conns.dom().contains(token as int),
        ensures
            final(self).wf(),
            final(self)@ == client_message_m(old(self)@, token as int, message@).0,
            match r {
                Some(c) => client_message_m(old(self)@, token as int, message@).1 == Some(c@)
                    && !final(self)@.conns.dom().contains(token as int),
                None => client_message_m(old(self)@, token as int, message@).1 is None && final(self)@.conns.dom().contains(
                    token as int,
                ),
            },
    {
        match message {
            Message::Say(txt) => {
                let name = self.conns.get(token).user.name.as_slice();
                let mut line = copy_range(name, 0, name.len());
                proof {
                    assert(line@ =~= old(self)@.conns[token as int].user.name);
                }
                line.push(0x3a);
                line.push(0x20);
                crate::bytes::append_slice(&mut line, txt.as_slice());
                proof {
                    assert(line@ =~= old(self)@.conns[token as int].user.name + say_sep()
                        + txt@);
                }
                self.say_all(line.as_slice());
                None
            },
            Message::MapData(data) => {
                match TileMap::from_bytes(data.as_slice()) {
                    Some(mp) => {
                        proof {
                            lemma_tilemap_dec_canonical(mp@);
                        }
                        self.world.replace_map(mp);
                        self.update_world();
                        None
                    },
                    None => {
                        proof {
                            if tilemap_dec(data@) is Some {
                                let w = choose|mv: crate::tilemap::TileMapM|
                                    mv.wf() && data@ == enc_tilemap(mv);
                                assert(w.wf() && data@ == enc_tilemap(w));
                            }
                        }
                        let c = self.on_hangup(token);
                        Some(c)
                    },
                }
            },
            _ => {
                None
            },
        }
    }

    /// Dispatches one message: the handshake for a `Connecting` connection,
    /// the command handler for an `Active` one.
    pub fn handle_message(&mut self, token: Token, message: &Message) -> (r: Option<Connection>)
        requires
            old(self).wf(),
            old(self)@.conns.dom().contains(token as int),
        ensures
            final(self).wf(),
            final(self)@ == handle_message_m(old(self)@, token as int, message@).0,
            match r {
                Some(c) => handle_message_m(old(self)@, token as int, message@).1 == Some(c@)
                    && !final(self)@.conns.dom().contains(token as int),
                None => handle_message_m(old(self)@, token as int, message@).1 is None && final(self)@.conns.dom().contains(
                    token as int,
                ),
            },
    {
        let done = self.conns.get(token).handshake_done;
        if !done {
            self.conns.set_handshake(token, true);
            self.handshake(token, message)
        } else {
            self.client_message(token, message)
        }
    }

    /// A read event: feeds the received bytes through the reassembler,
    /// dispatches each complete message in arrival order, and stores the
    /// new remainder. Hands back the connection if the batch tore it down.
    #[verifier::rlimit(50)]
    pub fn on_readable(&mut self, token: Token, bytes: &[u8]) -> (r: Option<Connection>)
        requires
            old(self).wf(),
            old(self)@.conns.dom().contains(token as int),
        ensures
            final(self).wf(),
            final(self)@ == on_readable_m(old(self)@, token as int, bytes@).0,
            match r {
                Some(c) => on_readable_m(old(self)@, token as int, bytes@).1 == Some(c@)
                    && !final(self)@.conns.dom().contains(token as int),
                None => on_readable_m(old(self)@, token as int, bytes@).1 is None && final(self)@.conns.dom().contains(
                    token as int,
                ),
            },
    {
        let fed = feed(self.conns.get(token).buffer.as_slice(), bytes);
        let ghost f = feed_spec(old(self)@.conns[token as int].buffer + bytes@);
        self.conns.set_buffer(token, fed.remainder);
        let ghost s0 = self@;
        let ghost msgsv = f.0;
        proof {
            assert(fed.messages.deep_view() == msgsv);
            assert(msgsv.skip(0) =~= msgsv);
        }
        let mut k: usize = 0;
        while k < fed.messages.len()
            invariant
                k <= fed.messages@.len(),
                fed.messages.deep_view() == msgsv,
                old(self)@.conns.dom().contains(token as int),
                f == feed_spec(old(self)@.conns[token as int].buffer + bytes@),
                msgsv == f.0,
                s0 == (ServerM {
                    world: old(self)@.world,
                    conns: old(self)@.conns.insert(
                        token as int,
                        ConnM { buffer: f.1, ..old(self)@.conns[token as int] },
                    ),
                }),
                self.wf(),
                self@.conns.dom().contains(token as int),
                dispatch_m(s0, token as int, msgsv) == dispatch_m(
                    self@,
                    token as int,
                    msgsv.skip(k as int),
                ),
            decreases fed.messages@.len() - k,
        {
            let ghost pre = self@;
            let r = self.handle_message(token, &fed.messages[k]);
            proof {
                assert(msgsv.skip(k as int)[0] == msgsv[k as int]);
                assert(msgsv[k as int] == fed.messages@[k as int]@);
                assert(msgsv.skip(k as int).skip(1) =~= msgsv.skip(k + 1 as int));
            }
            match r {
                Some(c) => {
                    proof {
                        assert(dispatch_m(pre, token as int, msgsv.skip(k as int)) == (
                            self@,
                            Some(c@),
                        ));
                    }
                    return Some(c);
                },
                None => {
                },
            }
            k = k + 1;
        }
        proof {
            assert(msgsv.skip(fed.messages@.len() as int) =~= Seq::<MessageV>::empty());
            assert(dispatch_m(s0, token as int, msgsv) == (self@, None::<ConnM>));
        }
        if fed.error.is_some() {
            let c = self.on_hangup(token);
            Some(c)
        } else {
            None
        }
    }
}

} // verus!
