use kademlia::key::{Distance, Key};
use kademlia::peer::PeerId;

fn key_with_last(b: u8) -> Key {
    let mut bytes = [0u8; 32];
    bytes[31] = b;
    Key::from_bytes(bytes)
}

#[test]
fn sha256_of_empty_input() {
    let key = Key::new(b"");
    let expected: [u8; 32] = [
        0xe3, 0xb0, 0xc4, 0x42, 0x98, 0xfc, 0x1c, 0x14, 0x9a, 0xfb, 0xf4, 0xc8, 0x99, 0x6f, 0xb9,
        0x24, 0x27, 0xae, 0x41, 0xe4, 0x64, 0x9b, 0x93, 0x4c, 0xa4, 0x95, 0x99, 0x1b, 0x78, 0x52,
        0xb8, 0x55,
    ];
    assert_eq!(key.bytes, expected);
}

#[test]
fn sha256_of_abc() {
    let key = Key::new(b"abc");
    let expected: [u8; 32] = [
        0xba, 0x78, 0x16, 0xbf, 0x8f, 0x01, 0xcf, 0xea, 0x41, 0x41, 0x40, 0xde, 0x5d, 0xae, 0x22,
        0x23, 0xb0, 0x03, 0x61, 0xa3, 0x96, 0x17, 0x7a, 0x9c, 0xb4, 0x10, 0xff, 0x61, 0xf2, 0x00,
        0x15, 0xad,
    ];
    assert_eq!(key.bytes, expected);
}

#[test]
fn distance_is_xor() {
    let a = key_with_last(0b1100);
    let b = key_with_last(0b1010);
    let d = a.distance(&b);
    assert_eq!(d.bytes[31], 0b0110);
    assert!(d.bytes[..31].iter().all(|x| *x == 0));
}

#[test]
fn distance_to_self_is_zero() {
    let a = Key::new(b"some peer");
    assert!(a.distance(&a).is_zero());
    assert_eq!(a.bucket_index(&a), None);
}

#[test]
fn distance_is_symmetric() {
    let a = Key::new(b"a");
    let b = Key::new(b"b");
    assert_eq!(a.distance(&b), b.distance(&a));
    assert!(!a.distance(&b).is_zero());
}

#[test]
fn distance_order_is_big_endian() {
    let mut hi = [0u8; 32];
    hi[0] = 1;
    let mut lo = [0xffu8; 32];
    lo[0] = 0;
    let hi = Distance { bytes: hi };
    let lo = Distance { bytes: lo };
    assert!(lo.lt(&hi));
    assert!(!hi.lt(&lo));
    assert!(lo.le(&hi));
    assert!(hi.le(&hi));
    assert!(!hi.lt(&hi));
}

#[test]
fn bucket_index_is_position_of_highest_bit() {
    let zero = key_with_last(0);
    assert_eq!(zero.bucket_index(&key_with_last(1)), Some(0));
    assert_eq!(zero.bucket_index(&key_with_last(2)), Some(1));
    assert_eq!(zero.bucket_index(&key_with_last(3)), Some(1));
    assert_eq!(zero.bucket_index(&key_with_last(0x80)), Some(7));
    let mut top = [0u8; 32];
    top[0] = 0x80;
    assert_eq!(zero.bucket_index(&Key::from_bytes(top)), Some(255));
    let mut mid = [0u8; 32];
    mid[30] = 1;
    assert_eq!(zero.bucket_index(&Key::from_bytes(mid)), Some(8));
}

#[test]
fn leading_zeros_of_distances() {
    assert_eq!(Distance { bytes: [0u8; 32] }.leading_zeros(), 256);
    assert_eq!(Distance { bytes: [0xffu8; 32] }.leading_zeros(), 0);
    assert_eq!(key_with_last(1).distance(&key_with_last(0)).leading_zeros(), 255);
}

#[test]
fn for_distance_inverts_distance() {
    let a = Key::new(b"a");
    let b = Key::new(b"b");
    let d = a.distance(&b);
    assert_eq!(a.for_distance(&d), b);
    assert_eq!(b.for_distance(&d), a);
}

#[test]
fn same_compares_all_bytes() {
    let a = Key::new(b"a");
    let mut other = a;
    assert!(a.same(&other));
    other.bytes[31] ^= 1;
    assert!(!a.same(&other));
}

#[test]
fn peer_id_round_trip() {
    let id = PeerId::from_bytes(&[1, 2, 3]).unwrap();
    assert_eq!(id.to_bytes(), vec![1, 2, 3]);
    assert_eq!(id.key(), Key::new(&[1, 2, 3]));
    assert_eq!(PeerId::from_bytes(&[1, 2, 3]), Some(id));
    assert!(PeerId::from_bytes(&[0u8; 64]).is_some());
    assert!(PeerId::from_bytes(&[0u8; 65]).is_none());
}

#[test]
fn peer_id_padding_does_not_distinguish() {
    let short = PeerId::from_bytes(&[7]).unwrap();
    let long = PeerId::from_bytes(&[7, 0]).unwrap();
    assert_ne!(short, long);
    assert_ne!(short.key(), long.key());
}
