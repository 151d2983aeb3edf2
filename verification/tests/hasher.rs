#![allow(deprecated)]

use feature_resolver::hasher::StableHasher;
use std::hash::Hasher;
use std::hash::SipHasher;

fn reference(bytes: &[u8]) -> u64 {
    let mut h = SipHasher::new();
    h.write(bytes);
    h.finish()
}

fn digest(bytes: &[u8]) -> u64 {
    let mut h = StableHasher::new();
    h.write(bytes);
    h.finish()
}

#[test]
fn empty_input_has_the_digest_of_a_fresh_hasher() {
    assert_eq!(StableHasher::new().finish(), SipHasher::new().finish());
    assert_eq!(digest(b""), StableHasher::new().finish());
    assert_eq!(StableHasher::hash_chunks(&vec![]), StableHasher::new().finish());
}

#[test]
fn digest_is_that_of_siphash_with_zero_keys() {
    for input in [&b"a"[..], b"hello world", b"\x00\x01\x02\x03\x04\x05\x06\x07\x08"] {
        assert_eq!(digest(input), reference(input));
    }
    assert_eq!(digest(b"hello world"), SipHasher::new_with_keys(0, 0).hash_bytes(b"hello world"));
}

trait HashBytes {
    fn hash_bytes(self, bytes: &[u8]) -> u64;
}

impl HashBytes for SipHasher {
    fn hash_bytes(mut self, bytes: &[u8]) -> u64 {
        self.write(bytes);
        self.finish()
    }
}

#[test]
fn digest_depends_on_the_bytes() {
    assert_ne!(digest(b"a"), digest(b"b"));
    assert_ne!(digest(b"a"), digest(b""));
    assert_ne!(digest(b"ab"), digest(b"ba"));
    assert_eq!(digest(b"ab"), digest(b"ab"));
}

#[test]
fn cutting_the_stream_makes_no_difference() {
    let whole: Vec<u8> = (0..=255u8).cycle().take(20_000).collect();
    let expected = digest(&whole);
    for size in [1usize, 7, 8, 9, 8192, 20_000] {
        let chunks: Vec<Vec<u8>> = whole.chunks(size).map(|c| c.to_vec()).collect();
        assert_eq!(StableHasher::hash_chunks(&chunks), expected);
        let mut h = StableHasher::new();
        for c in &chunks {
            h.write(c);
        }
        assert_eq!(h.finish(), expected);
    }
    assert_eq!(expected, reference(&whole));
}

#[test]
fn finish_leaves_the_hasher_usable() {
    let mut h = StableHasher::new();
    h.write(b"ab");
    let first = h.finish();
    assert_eq!(first, h.finish());
    h.write(b"cd");
    assert_eq!(h.finish(), digest(b"abcd"));
    assert_ne!(h.finish(), first);
}
