use dsa_rs::index::{bytes_equal, hash_key, KeyIndex, FNV_OFFSET, FNV_PRIME};

#[test]
fn hash_of_known_inputs() {
    assert_eq!(0xcbf2_9ce4_8422_2325, hash_key(b""));
    assert_eq!(0xaf63_dc4c_8601_ec8c, hash_key(b"a"));
    assert_eq!(0x8594_4171_f739_67e8, hash_key(b"foobar"));
    assert_eq!(FNV_OFFSET, hash_key(&[]));
    assert_eq!((FNV_OFFSET ^ 0x61).wrapping_mul(FNV_PRIME), hash_key(&[0x61]));
}

#[test]
fn bytes_equal_compares_every_byte() {
    assert!(bytes_equal(b"", b""));
    assert!(bytes_equal(b"key", b"key"));
    assert!(!bytes_equal(b"key", b"kez"));
    assert!(!bytes_equal(b"key", b"ke"));
    assert!(!bytes_equal(b"", b"\0"));
    assert!(!bytes_equal(b"Key", b"key"));
}

#[test]
fn index_records_and_forgets() {
    let mut index = KeyIndex::new();
    assert_eq!(None, index.get(b"a"));
    assert_eq!(None, index.insert(b"a", 1));
    assert_eq!(None, index.insert(b"b", 2));
    assert_eq!(Some(1), index.get(b"a"));
    assert_eq!(Some(2), index.get(b"b"));
    assert_eq!(Some(1), index.insert(b"a", 7));
    assert_eq!(Some(7), index.get(b"a"));
    assert_eq!(Some(7), index.remove(b"a"));
    assert_eq!(None, index.get(b"a"));
    assert_eq!(None, index.remove(b"a"));
    assert_eq!(Some(2), index.get(b"b"));
}

#[test]
fn index_tells_keys_apart_byte_for_byte() {
    let mut index = KeyIndex::new();
    index.insert(b"", 0);
    index.insert(b"\0", 1);
    index.insert(b"\0\0", 2);
    index.insert(b"A", 3);
    index.insert(b"a", 4);
    assert_eq!(Some(0), index.get(b""));
    assert_eq!(Some(1), index.get(b"\0"));
    assert_eq!(Some(2), index.get(b"\0\0"));
    assert_eq!(Some(3), index.get(b"A"));
    assert_eq!(Some(4), index.get(b"a"));
    assert_eq!(None, index.get(b"\0\0\0"));
}

#[test]
fn index_holds_many_keys() {
    let mut index = KeyIndex::new();
    for i in 0..5000_usize {
        assert_eq!(None, index.insert(&i.to_le_bytes(), i));
    }
    for i in 0..5000_usize {
        assert_eq!(Some(i), index.get(&i.to_le_bytes()));
    }
    for i in (0..5000_usize).step_by(2) {
        assert_eq!(Some(i), index.remove(&i.to_le_bytes()));
    }
    for i in 0..5000_usize {
        let expected = if i % 2 == 0 { None } else { Some(i) };
        assert_eq!(expected, index.get(&i.to_le_bytes()));
    }
}
