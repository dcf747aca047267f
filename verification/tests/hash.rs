use early_boot::hash::{Fnv1aHasher, FNV_OFFSET_BASIS, FNV_PRIME};

fn hash_of(bytes: &[u8]) -> u64 {
    let mut h = Fnv1aHasher::new();
    h.write(bytes);
    h.finish()
}

#[test]
fn constants_are_the_fnv_parameters() {
    assert_eq!(FNV_OFFSET_BASIS, 0x811c9dc5);
    assert_eq!(FNV_PRIME, 0x01000193);
}

#[test]
fn fresh_hasher_holds_the_offset_basis() {
    assert_eq!(Fnv1aHasher::new().finish(), 0x811c9dc5);
}

#[test]
fn empty_input_leaves_the_state_unchanged() {
    assert_eq!(hash_of(b""), 0x811c9dc5);
    let mut h = Fnv1aHasher::new();
    h.write(b"abc");
    let before = h.finish();
    h.write(b"");
    assert_eq!(h.finish(), before);
}

#[test]
fn known_hashes() {
    assert_eq!(hash_of(b"a"), 0xe40c292c);
    assert_eq!(hash_of(b"b"), 0xe70c2de5);
    assert_eq!(hash_of(b"foobar"), 0xbf9cf968);
    assert_eq!(hash_of(b"hello"), 0x4f9f2cab);
}

#[test]
fn one_round_is_xor_then_wrapping_multiply() {
    // (0x811c9dc5 ^ 0x61) * 0x01000193 mod 2^32
    let expected = ((0x811c9dc5u64 ^ 0x61) * 0x01000193) & 0xffff_ffff;
    assert_eq!(hash_of(&[0x61]), expected);
    assert_eq!(expected, 0xe40c292c);
}

#[test]
fn hash_fits_in_32_bits() {
    assert!(hash_of(b"the quick brown fox jumps over the lazy dog") <= u32::MAX as u64);
    assert!(hash_of(&[0xff; 64]) <= u32::MAX as u64);
}

#[test]
fn same_bytes_same_hash() {
    assert_eq!(hash_of(b"early boot"), hash_of(b"early boot"));
    assert_ne!(hash_of(b"early boot"), hash_of(b"early boot "));
}

#[test]
fn split_writes_hash_like_one_write() {
    let whole = hash_of(b"foobar");
    for cut in 0..=6 {
        let mut h = Fnv1aHasher::new();
        h.write(&b"foobar"[..cut]);
        h.write(&b"foobar"[cut..]);
        assert_eq!(h.finish(), whole);
    }
}

#[test]
fn order_of_bytes_matters() {
    assert_ne!(hash_of(b"ab"), hash_of(b"ba"));
}

#[test]
fn default_hasher_starts_from_zero() {
    let mut h = Fnv1aHasher::default();
    assert_eq!(h.finish(), 0);
    h.write(&[0x01]);
    assert_eq!(h.finish(), 0x01000193);
}

#[test]
fn distinct_keys_may_collide() {
    assert_eq!(hash_of(b"costarring"), 0x5e4daa9d);
    assert_eq!(hash_of(b"liquid"), 0x5e4daa9d);
}
