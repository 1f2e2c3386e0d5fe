//! Stream reassembly: framing idempotence, empty-segment tolerance, and
//! the decode-failure policy.

use gatekeeper::message::{encode, Message};
use gatekeeper::stream::{feed, next};

fn frame(m: &Message) -> Vec<u8> {
    let mut f = encode(m);
    f.push(0);
    f
}

#[test]
fn feed_whole_buffer() {
    let m1 = Message::Say(b"one".to_vec());
    let m2 = Message::Login(b"u".to_vec(), b"p".to_vec());
    let mut buf = frame(&m1);
    buf.extend_from_slice(&frame(&m2));
    let fed = feed(&[], &buf);
    assert!(fed.error.is_none());
    assert_eq!(fed.messages, vec![m1, m2]);
    assert!(fed.remainder.is_empty());
}

#[test]
fn feed_byte_at_a_time_equals_feed_at_once() {
    let m1 = Message::Say(b"alpha".to_vec());
    let m2 = Message::RemoveEntity(9);
    let m3 = Message::Kill(b"bye".to_vec());
    let mut buf = frame(&m1);
    buf.extend_from_slice(&frame(&m2));
    buf.extend_from_slice(&frame(&m3));
    buf.extend_from_slice(b"partial");

    let at_once = feed(&[], &buf);

    let mut remainder: Vec<u8> = Vec::new();
    let mut collected: Vec<Message> = Vec::new();
    for b in &buf {
        let fed = feed(&remainder, &[*b]);
        assert!(fed.error.is_none());
        collected.extend(fed.messages);
        remainder = fed.remainder;
    }

    assert_eq!(collected, at_once.messages);
    assert_eq!(remainder, at_once.remainder);
    assert_eq!(remainder, b"partial".to_vec());
}

#[test]
fn feed_every_split_equals_feed_at_once() {
    let m1 = Message::Say(b"x".to_vec());
    let m2 = Message::Say(b"y".to_vec());
    let mut buf = frame(&m1);
    buf.extend_from_slice(b" \x00"); // an empty (whitespace) segment between
    buf.extend_from_slice(&frame(&m2));
    let at_once = feed(&[], &buf);
    for cut in 0..=buf.len() {
        let first = feed(&[], &buf[..cut]);
        assert!(first.error.is_none());
        let second = feed(&first.remainder, &buf[cut..]);
        assert!(second.error.is_none());
        let mut msgs = first.messages.clone();
        msgs.extend(second.messages);
        assert_eq!(msgs, at_once.messages);
        assert_eq!(second.remainder, at_once.remainder);
    }
}

#[test]
fn delimiters_only_yield_nothing_and_empty_remainder() {
    let fed = feed(&[], &[0, 0, 0, 0]);
    assert!(fed.error.is_none());
    assert!(fed.messages.is_empty());
    assert!(fed.remainder.is_empty());
}

#[test]
fn whitespace_segments_are_skipped() {
    let mut buf = b"  \x00\t\r\n\x00".to_vec();
    buf.extend_from_slice(&frame(&Message::Say(b"hi".to_vec())));
    let fed = feed(&[], &buf);
    assert!(fed.error.is_none());
    assert_eq!(fed.messages, vec![Message::Say(b"hi".to_vec())]);
    assert!(fed.remainder.is_empty());
}

#[test]
fn segments_are_trimmed_before_decoding() {
    let mut buf = b"  Shi;  \x00".to_vec();
    buf.extend_from_slice(b"tail");
    let fed = feed(&[], &buf);
    assert!(fed.error.is_none());
    assert_eq!(fed.messages, vec![Message::Say(b"hi".to_vec())]);
    assert_eq!(fed.remainder, b"tail".to_vec());
}

#[test]
fn decode_failure_keeps_earlier_messages_and_reports() {
    let mut buf = frame(&Message::Say(b"ok".to_vec()));
    buf.extend_from_slice(b"garbage\x00");
    buf.extend_from_slice(&frame(&Message::Say(b"lost".to_vec())));
    let fed = feed(&[], &buf);
    assert!(fed.error.is_some());
    assert_eq!(fed.messages, vec![Message::Say(b"ok".to_vec())]);
    assert!(fed.remainder.is_empty());
}

#[test]
fn next_takes_one_message() {
    let m = Message::Say(b"solo".to_vec());
    let mut buf = frame(&m);
    buf.extend_from_slice(b"rest");
    let (got, rest) = next(&buf).unwrap();
    assert_eq!(got, Some(m));
    assert_eq!(rest, b"rest".to_vec());
    let (none, rest2) = next(&rest).unwrap();
    assert!(none.is_none());
    assert_eq!(rest2, b"rest".to_vec());
}
