//! Session table: token uniqueness among live connections, reuse after
//! removal, and broadcast delivery.

use gatekeeper::connection::Connection;
use gatekeeper::session::SessionTable;

#[test]
fn tokens_of_concurrent_inserts_are_distinct() {
    let mut table = SessionTable::new();
    let mut tokens = Vec::new();
    for _ in 0..8 {
        tokens.push(table.insert(Connection::new(0)));
    }
    for i in 0..tokens.len() {
        for j in (i + 1)..tokens.len() {
            assert_ne!(tokens[i], tokens[j]);
        }
        assert!(table.contains(tokens[i]));
        assert_eq!(table.get(tokens[i]).token, tokens[i]);
    }
}

#[test]
fn removed_token_may_be_reused_but_never_shared() {
    let mut table = SessionTable::new();
    let t0 = table.insert(Connection::new(0));
    let t1 = table.insert(Connection::new(0));
    let t2 = table.insert(Connection::new(0));
    assert!(table.remove(t1).is_some());
    assert!(!table.contains(t1));
    let t3 = table.insert(Connection::new(0));
    // reuse is allowed, but only of the freed slot
    assert_eq!(t3, t1);
    let live = [t0, t2, t3];
    for i in 0..live.len() {
        for j in (i + 1)..live.len() {
            assert_ne!(live[i], live[j]);
        }
    }
    assert!(table.remove(t1).is_some());
    assert!(table.remove(t1).is_none());
}

#[test]
fn broadcast_reaches_every_live_connection() {
    let mut table = SessionTable::new();
    let a = table.insert(Connection::new(0));
    let b = table.insert(Connection::new(0));
    let gone = table.insert(Connection::new(0));
    table.remove(gone);
    table.broadcast(b"payload");
    for t in [a, b] {
        let c = table.get(t);
        assert_eq!(c.send_queue, vec![b"payload".to_vec()]);
        assert!(c.want_write);
    }
}

#[test]
fn connection_queue_flush_steps() {
    let mut c = Connection::new(3);
    assert!(c.head().is_none());
    c.send_message(b"abcdef");
    c.send_message(b"gh");
    assert_eq!(c.head().unwrap(), &b"abcdef".to_vec());
    c.flush_progress(4); // partial write keeps the tail
    assert_eq!(c.head().unwrap(), &b"ef".to_vec());
    c.flush_progress(2); // drains the first buffer
    assert_eq!(c.head().unwrap(), &b"gh".to_vec());
    assert!(c.want_write);
    c.flush_progress(2);
    assert!(c.head().is_none());
    assert!(!c.want_write);
}
