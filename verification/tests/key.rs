use kademlia_dht::clone_into_array;
use kademlia_dht::get_key;
use kademlia_dht::key::Key;
use kademlia_dht::KEY_LENGTH;
use num_bigint::BigUint;

fn key_with_first_bytes(first: &[u8]) -> Key {
    let mut bytes = [0u8; KEY_LENGTH];
    bytes[..first.len()].copy_from_slice(first);
    Key::new(bytes)
}

#[test]
fn test_rand_in_range() {
    for i in 0..KEY_LENGTH * 8 {
        let key = BigUint::from_bytes_be(&Key::rand_in_range(i).0);
        let mut lower = [0u8; KEY_LENGTH];
        lower[i / 8] = 1 << ((KEY_LENGTH * 8 - i - 1) % 8);
        assert!(BigUint::from_bytes_be(&lower) <= key);
        assert!(key < BigUint::from_bytes_be(&lower) << 1);
    }
}

#[test]
fn test_leading_zeros() {
    for i in 0..KEY_LENGTH * 8 {
        assert_eq!(Key::rand_in_range(i).leading_zeros(), i);
    }
}

#[test]
fn leading_zeros_of_given_keys() {
    assert_eq!(Key::new([0u8; KEY_LENGTH]).leading_zeros(), 256);
    assert_eq!(Key::new([0xFFu8; KEY_LENGTH]).leading_zeros(), 0);
    assert_eq!(key_with_first_bytes(&[0, 0, 0x10]).leading_zeros(), 19);
    assert_eq!(key_with_first_bytes(&[0x01]).leading_zeros(), 7);
    let mut last = [0u8; KEY_LENGTH];
    last[KEY_LENGTH - 1] = 1;
    assert_eq!(Key::new(last).leading_zeros(), 255);
}

#[test]
fn in_range_keeps_the_bits_behind_the_mark() {
    let seed = Key::new([0xFFu8; KEY_LENGTH]);
    let key = Key::in_range(seed, 11);
    let mut expected = [0xFFu8; KEY_LENGTH];
    expected[0] = 0;
    expected[1] = 0x1F;
    assert_eq!(key.0, expected);
    let cleared = Key::in_range(Key::new([0u8; KEY_LENGTH]), 11);
    let mut marked = [0u8; KEY_LENGTH];
    marked[1] = 0x10;
    assert_eq!(cleared.0, marked);
    let first = Key::in_range(Key::new([0u8; KEY_LENGTH]), 0);
    assert_eq!(first.0[0], 0x80);
    let last = Key::in_range(Key::new([0xFFu8; KEY_LENGTH]), 255);
    assert_eq!(last.0[KEY_LENGTH - 1], 0x01);
    assert_eq!(last.leading_zeros(), 255);
}

#[test]
fn xor_is_commutative_associative_and_its_own_inverse() {
    for _ in 0..50 {
        let a = Key::rand();
        let b = Key::rand();
        let c = Key::rand();
        assert_eq!(a.xor(&b), b.xor(&a));
        assert_eq!(a.xor(&b).xor(&c), a.xor(&b.xor(&c)));
        assert_eq!(a.xor(&b).xor(&b), a);
        assert_eq!(a.xor(&a), Key::new([0u8; KEY_LENGTH]));
        assert_eq!(a.xor(&a).leading_zeros(), 256);
    }
}

#[test]
fn xor_of_given_keys() {
    let a = key_with_first_bytes(&[0b1100_1010, 0x0F]);
    let b = key_with_first_bytes(&[0b1010_0110, 0xF0]);
    assert_eq!(a.xor(&b), key_with_first_bytes(&[0b0110_1100, 0xFF]));
    assert_eq!(a.xor(&b).leading_zeros(), 1);
}

#[test]
fn keys_are_ordered_as_big_endian_numbers() {
    let small = key_with_first_bytes(&[0, 0xFF]);
    let large = key_with_first_bytes(&[1, 0]);
    assert!(small.precedes(&large));
    assert!(!large.precedes(&small));
    assert!(!small.precedes(&small));
    assert!(small < large);
    assert!(large > small);
    assert!(small <= small);
    assert!(small.cmp(&large) == std::cmp::Ordering::Less);
    let mut tail = [0u8; KEY_LENGTH];
    tail[KEY_LENGTH - 1] = 1;
    assert!(Key::new([0u8; KEY_LENGTH]).precedes(&Key::new(tail)));
    assert!(Key::new(tail) < small);
}

#[test]
fn keys_are_equal_when_their_bytes_are() {
    let a = key_with_first_bytes(&[1, 2, 3]);
    let b = key_with_first_bytes(&[1, 2, 3]);
    let c = key_with_first_bytes(&[1, 2, 4]);
    assert!(a == b);
    assert!(a != c);
    assert_eq!(Key::default(), Key::new([0u8; KEY_LENGTH]));
}

#[test]
fn random_keys_differ() {
    let a = Key::rand();
    let b = Key::rand();
    let c = Key::rand();
    assert!(a != b || b != c);
}

#[test]
fn clone_into_array_copies_the_slice() {
    let bytes: Vec<u8> = (0u8..32).collect();
    let array: [u8; 32] = clone_into_array(&bytes);
    assert_eq!(&array[..], &bytes[..]);
    let short: [u8; 3] = clone_into_array(&[7u8, 8, 9]);
    assert_eq!(short, [7, 8, 9]);
}

#[test]
fn get_key_is_the_sha3_256_digest() {
    let hello = get_key("Hello");
    let expected: [u8; 32] = [
        0x8c, 0xa6, 0x6e, 0xe6, 0xb2, 0xfe, 0x4b, 0xb9, 0x28, 0xa8, 0xe3, 0xcd, 0x2f, 0x50, 0x8d,
        0xe4, 0x11, 0x9c, 0x08, 0x95, 0xf2, 0x2e, 0x01, 0x11, 0x17, 0xe2, 0x2c, 0xf9, 0xb1, 0x3d,
        0xe7, 0xef,
    ];
    assert_eq!(hello.0, expected);
    let empty = get_key("");
    assert_eq!(empty.0[0], 0xa7);
    assert_eq!(empty.0[31], 0x4a);
    assert_eq!(get_key("Hello"), hello);
    assert!(get_key("World") != hello);
}
