//! Block hashing.
use std::collections::hash_map::DefaultHasher;
use std::hash::{Hash, Hasher};

use llm_cache::chunk::{blocks_from_bytes, blocks_from_tokens, ByteChunker, Chunker};

#[test]
fn shared_prefixes_share_block_hashes() {
    let a: Vec<u32> = (0..1000).collect();
    let mut b = a.clone();
    b.extend(5000..5100); // divergent suffix
    let ha = blocks_from_tokens(&a, 256);
    let hb = blocks_from_tokens(&b, 256);
    assert_eq!(ha.len(), 3); // 1000 / 256 -> 3 full blocks, partial dropped
    assert_eq!(hb.len(), 4);
    assert_eq!(&ha[..3], &hb[..3]);
}

#[test]
fn different_content_differs() {
    let a: Vec<u32> = (0..512).collect();
    let mut b = a.clone();
    b[0] = 9999;
    assert_ne!(
        blocks_from_tokens(&a, 256)[0],
        blocks_from_tokens(&b, 256)[0]
    );
}

#[test]
fn byte_blocks_drop_partial_tail() {
    let data = vec![7u8; 1030];
    assert_eq!(blocks_from_bytes(&data, 1024).len(), 1);
}

#[test]
fn hashes_are_those_of_the_standard_hasher() {
    let a: Vec<u32> = (0..512).map(|i| i * 7919).collect();
    let mut h = DefaultHasher::new();
    a[256..512].hash(&mut h);
    assert_eq!(blocks_from_tokens(&a, 256)[1], h.finish());
    let b = vec![7u8; 1030];
    let mut h = DefaultHasher::new();
    b[..1024].hash(&mut h);
    assert_eq!(blocks_from_bytes(&b, 1024), vec![h.finish()]);
}

#[test]
fn short_input_has_no_blocks() {
    assert!(blocks_from_bytes(&[1, 2, 3], 4).is_empty());
    assert!(blocks_from_tokens(&[], 1).is_empty());
}

/// Blocks of two characters, hashed as one token each.
struct Pairs;

impl Chunker for Pairs {
    fn blocks(&self, prompt: &str) -> Vec<u64> {
        let tokens: Vec<u32> = prompt.chars().map(|c| c as u32).collect();
        blocks_from_tokens(&tokens, 2)
    }
}

#[test]
fn chunkers_are_pluggable() {
    let bytes = ByteChunker { bytes_per_block: 4 };
    assert_eq!(bytes.blocks("abcdefghij"), blocks_from_bytes(b"abcdefgh", 4));
    assert_eq!(Pairs.blocks("abcd").len(), 2);
    assert_eq!(Pairs.blocks("abcd")[0], Pairs.blocks("abxy")[0]);
}
