use mini_innodb::btree::key::KeyOrder;
use mini_innodb::btree::Key;

#[test]
fn test_u64_key_ordering() {
    let k1 = Key::from_u64(1);
    let k2 = Key::from_u64(2);
    let k100 = Key::from_u64(100);

    assert!(k1 < k2);
    assert!(k2 < k100);
    assert_eq!(k1, Key::from_u64(1));
}

#[test]
fn test_u64_roundtrip() {
    let key = Key::from_u64(42);
    assert_eq!(key.as_u64(), Some(42));
}

#[test]
fn test_serialize_deserialize() {
    let key = Key::from_u64(12345);
    let mut buf = Vec::new();
    key.serialize_into(&mut buf);

    let (decoded, consumed) = Key::deserialize_from(&buf);
    assert_eq!(decoded, key);
    assert_eq!(consumed, key.serialized_size());
}

// ── further checks ──

#[test]
fn test_from_u64_is_big_endian() {
    let key = Key::from_u64(0x0102_0304_0506_0708);
    assert_eq!(key.as_bytes(), &[1, 2, 3, 4, 5, 6, 7, 8]);
    assert_eq!(key.len(), 8);
}

#[test]
fn test_as_u64_needs_eight_bytes() {
    assert_eq!(Key::new(vec![1, 2, 3]).as_u64(), None);
    assert_eq!(Key::from_bytes(&[0, 0, 0, 0, 0, 0, 1, 0]).as_u64(), Some(256));
}

#[test]
fn test_compare_to_is_lexicographic() {
    let a = Key::new(vec![1, 2]);
    let b = Key::new(vec![1, 2, 0]);
    let c = Key::new(vec![1, 3]);
    assert_eq!(a.compare_to(&b), KeyOrder::Less);
    assert_eq!(b.compare_to(&c), KeyOrder::Less);
    assert_eq!(c.compare_to(&a), KeyOrder::Greater);
    assert_eq!(a.compare_to(&Key::from_bytes(&[1, 2])), KeyOrder::Equal);
    assert_eq!(Key::new(vec![]).compare_to(&a), KeyOrder::Less);
    // integer keys compare like the integers
    assert_eq!(Key::from_u64(255).compare_to(&Key::from_u64(256)), KeyOrder::Less);
    assert!(Key::from_u64(255) < Key::from_u64(256));
}

#[test]
fn test_serialize_into_appends() {
    let key = Key::new(vec![9, 8, 7]);
    let mut buf = vec![0xAA];
    key.serialize_into(&mut buf);
    assert_eq!(buf, vec![0xAA, 0, 3, 9, 8, 7]);
    assert_eq!(key.serialized_size(), 5);
    let (decoded, consumed) = Key::deserialize_from(&buf[1..]);
    assert_eq!(decoded.as_bytes(), &[9, 8, 7]);
    assert_eq!(consumed, 5);
}
