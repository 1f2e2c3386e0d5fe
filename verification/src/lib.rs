//! A real-time session server core: a canonical wire codec for a small
//! protocol, stream reassembly over a delimiter-framed byte stream, a slab
//! of live connections addressed by token, a shared world of map and
//! entities, and the reactor-side handlers that drive a connection from
//! accept through handshake to teardown.
//!
//! Module layout, leaves first:
//! - [`bytes`], [`escape`], [`num`], [`record`]: the byte-level machinery of
//!   the codec — trimming, searching, byte stuffing, canonical decimals, and
//!   record framing.
//! - [`message`]: the protocol messages and their exact encode/decode pair.
//! - [`stream`]: reassembling messages from a continuous byte stream, with
//!   the framing split law and empty-segment tolerance.
//! - [`entity`], [`tilemap`], [`world`]: the world state and its snapshot
//!   encodings.
//! - [`user`], [`connection`], [`session`]: per-connection session state and
//!   the token-addressed table holding it.
//! - [`server`]: the protocol handlers, each proved against a transition
//!   function on the server's mathematical model.
//! - [`zone`], [`tileset`], [`position`], [`assets`]: smaller supporting
//!   types of the wider game.
//!
//! The embedding application supplies the sockets and the readiness loop;
//! everything here works on plain bytes and values.

pub mod assets;
pub mod bytes;
pub mod connection;
pub mod entity;
pub mod escape;
pub mod message;
pub mod num;
pub mod position;
pub mod record;
pub mod server;
pub mod session;
pub mod stream;
pub mod tilemap;
pub mod tileset;
pub mod user;
pub mod world;
pub mod zone;
