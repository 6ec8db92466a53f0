use mtree::hash::{
    default_hasher, default_hasher_with_seed, digest_eq, digest_from_u64, HashBuff, Hasher,
    HASH_SIZE,
};

#[test]
fn digest_is_eight_bytes() {
    assert_eq!(HASH_SIZE, 8);
    let digest: HashBuff = default_hasher().hash(b"x");
    assert_eq!(digest.len(), 8);
}

#[test]
fn digest_from_u64_is_big_endian() {
    assert_eq!(
        digest_from_u64(0x0102_0304_0506_0708),
        [0x01, 0x02, 0x03, 0x04, 0x05, 0x06, 0x07, 0x08]
    );
    assert_eq!(digest_from_u64(0), [0u8; 8]);
    assert_eq!(digest_from_u64(u64::MAX), [0xffu8; 8]);
    assert_eq!(digest_from_u64(1), [0, 0, 0, 0, 0, 0, 0, 1]);
    assert_eq!(digest_from_u64(0xdead_beef), 0xdead_beefu64.to_be_bytes());
}

#[test]
fn unseeded_hasher_is_xxh3_64() {
    let hasher = default_hasher();
    assert_eq!(hasher, Hasher::Unseeded);
    for data in [&b""[..], &b"a"[..], &b"hello world"[..], &[0u8; 300][..]] {
        assert_eq!(
            hasher.hash(data),
            xxhash_rust::xxh3::xxh3_64(data).to_be_bytes()
        );
    }
}

#[test]
fn unseeded_hasher_on_empty_input() {
    assert_eq!(
        default_hasher().hash(b""),
        [0x2d, 0x06, 0x80, 0x05, 0x38, 0xd3, 0x94, 0xc2]
    );
}

#[test]
fn seeded_hasher_is_xxh3_64_with_seed() {
    let hasher = default_hasher_with_seed(42);
    assert_eq!(hasher, Hasher::Seeded(42));
    for data in [&b""[..], &b"a"[..], &b"hello world"[..], &[7u8; 300][..]] {
        assert_eq!(
            hasher.hash(data),
            xxhash_rust::xxh3::xxh3_64_with_seed(data, 42).to_be_bytes()
        );
    }
}

#[test]
fn seed_separates_domains() {
    let plain = default_hasher().hash(b"value");
    let seeded = default_hasher_with_seed(7).hash(b"value");
    let other = default_hasher_with_seed(8).hash(b"value");
    assert_ne!(plain, seeded);
    assert_ne!(seeded, other);
}

#[test]
fn hashing_is_deterministic() {
    let hasher = default_hasher_with_seed(3);
    assert_eq!(hasher.hash(b"same"), hasher.hash(b"same"));
    assert_ne!(hasher.hash(b"same"), hasher.hash(b"other"));
}

#[test]
fn digest_eq_compares_bytes() {
    let a = [1u8, 2, 3, 4, 5, 6, 7, 8];
    let b = [1u8, 2, 3, 4, 5, 6, 7, 8];
    let c = [1u8, 2, 3, 4, 5, 6, 7, 9];
    assert!(digest_eq(&a, &b));
    assert!(!digest_eq(&a, &c));
}
