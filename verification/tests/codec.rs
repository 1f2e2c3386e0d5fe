//! Wire codec: round trips, exact encodings, and rejection of malformed
//! input.

use gatekeeper::message::{decode, encode, Message};

fn roundtrip(m: Message) {
    let bytes = encode(&m);
    let back = decode(&bytes).expect("own encoding must decode");
    assert_eq!(back, m);
}

#[test]
fn roundtrip_every_variant() {
    roundtrip(Message::Login(b"Alice".to_vec(), b"x".to_vec()));
    roundtrip(Message::Say(b"hello world".to_vec()));
    roundtrip(Message::Kill(b"Bad login".to_vec()));
    roundtrip(Message::MapData(b"opaque payload".to_vec()));
    roundtrip(Message::World(vec![]));
    roundtrip(Message::Entity(vec![1, 2, 3]));
    roundtrip(Message::RemoveEntity(0));
    roundtrip(Message::RemoveEntity(usize::MAX));
}

#[test]
fn roundtrip_with_reserved_bytes_in_payload() {
    // delimiter, separator and escape bytes inside a payload must survive
    roundtrip(Message::Say(vec![0x00, 0x1f, 0x5c, 0x00, 0x00]));
    roundtrip(Message::Login(vec![0x00], vec![0x5c, 0x5c]));
    roundtrip(Message::Say(vec![]));
    roundtrip(Message::Say(b"  padded  ".to_vec()));
}

#[test]
fn exact_encoding_say() {
    // tag 'S', raw payload, terminator ';'
    assert_eq!(encode(&Message::Say(b"hi".to_vec())), b"Shi;".to_vec());
}

#[test]
fn exact_encoding_login() {
    // tag 'L', first field, unit separator, second field, terminator
    assert_eq!(
        encode(&Message::Login(b"ab".to_vec(), b"c".to_vec())),
        vec![0x4c, 0x61, 0x62, 0x1f, 0x63, 0x3b]
    );
}

#[test]
fn exact_encoding_remove_entity() {
    assert_eq!(encode(&Message::RemoveEntity(407)), b"R407;".to_vec());
}

#[test]
fn escape_of_delimiter_in_payload() {
    // 0x00 becomes 0x5c 0x30 inside a field
    assert_eq!(encode(&Message::Say(vec![0x00])), vec![0x53, 0x5c, 0x30, 0x3b]);
}

#[test]
fn decode_rejects_malformed() {
    assert!(decode(b"").is_err());
    assert!(decode(b";").is_err());
    assert!(decode(b"Xhi;").is_err()); // unknown tag
    assert!(decode(b"Shi").is_err()); // missing terminator
    assert!(decode(b"Lab;").is_err()); // wrong field count for Login
    assert!(decode(b"Sab\x1fcd;").is_err()); // too many fields for Say
    assert!(decode(b"Rxx;").is_err()); // not a number
    assert!(decode(b"R01;").is_err()); // leading zero is not canonical
    assert!(decode(b"R-1;").is_err()); // negative id
    assert!(decode(b"S\x5cq;").is_err()); // bad escape code
    assert!(decode(b"S\x5c;").is_err()); // dangling escape
    assert!(decode(b"shi;").is_err()); // lower-case tag
}

#[test]
fn decode_is_strict_about_canonical_numbers() {
    // 18446744073709551616 is one past u64::MAX
    assert!(decode(b"R18446744073709551616;").is_err());
    assert_eq!(
        decode(b"R18446744073709551615;").unwrap(),
        Message::RemoveEntity(18446744073709551615)
    );
}
