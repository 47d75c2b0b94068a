//! Chunking and hashing: turns prompts into the block-hash sequences that the
//! trie consumes.
//!
//! Only *full* blocks are emitted: a trailing partial block can never be a
//! stable prefix boundary, so it is dropped from the key. Use the same block
//! size as [`crate::engine::Config::block_tokens`].
//!
//! Hashes come from [`std::collections::hash_map::DefaultHasher`]: stable
//! within a process, **not** guaranteed stable across Rust releases. Do not
//! persist tries across binaries built with different toolchains.
use std::collections::hash_map::DefaultHasher;
use std::hash::Hasher;
use vstd::bytes::{u32_to_le_bytes, u64_to_le_bytes};
use vstd::prelude::*;

verus! {

/// Pluggable prompt-to-blocks conversion, so any tokenizer can drive the trie.
///
/// Implement this once around a real tokenizer for token-exact block
/// boundaries: encode the prompt, and hand the tokens to
/// [`blocks_from_tokens`].
pub trait Chunker {
    /// Whether the chunker is set up to cut prompts into blocks.
    open spec fn ready(&self) -> bool {
        true
    }

    /// Converts a prompt into block hashes for [`crate::engine::Engine::observe`].
    fn blocks(&self, prompt: &str) -> (r: Vec<u64>)
        requires
            self.ready(),
    ;
}

/// Tokenizer-free [`Chunker`]: fixed-size byte blocks. With about 4 bytes per
/// token on typical English text, `bytes_per_block = 4 * Config::block_tokens`
/// keeps granularity roughly token-aligned. When using this, also scale
/// token-based thresholds (`min_cacheable_tokens`) by the same approximation.
pub struct ByteChunker {
    /// Bytes per block.
    pub bytes_per_block: usize,
}

impl Chunker for ByteChunker {
    open spec fn ready(&self) -> bool {
        self.bytes_per_block > 0
    }

    fn blocks(&self, prompt: &str) -> (r: Vec<u64>)
        ensures
            r@ == byte_blocks(vstd::utf8::encode_utf8(prompt@), self.bytes_per_block as nat),
    {
        blocks_from_bytes(prompt.as_bytes(), self.bytes_per_block)
    }
}

/// The bytes of a token sequence, each token little end first.
pub open spec fn token_bytes(tokens: Seq<u32>) -> Seq<u8>
    decreases tokens.len(),
{
    if tokens.len() == 0 {
        Seq::empty()
    } else {
        token_bytes(tokens.drop_last()) + vstd::bytes::spec_u32_to_le_bytes(tokens.last())
    }
}

/// The hash of a run of `count` items that make up `bytes`: what the hasher
/// gives for the count followed by the bytes.
pub open spec fn run_hash(count: u64, bytes: Seq<u8>) -> u64 {
    <DefaultHasher as vstd::std_specs::hash::DefaultHasherAdditionalSpecFns>::spec_finish(
        seq![vstd::bytes::spec_u64_to_le_bytes(count), bytes],
    )
}

/// The hash of one block of bytes.
pub open spec fn byte_hash(block: Seq<u8>) -> u64 {
    run_hash(block.len() as u64, block)
}

/// The hash of one block of tokens.
pub open spec fn token_hash(block: Seq<u32>) -> u64 {
    run_hash(block.len() as u64, token_bytes(block))
}

/// Block `i` of `s`, cut into blocks of `n`.
pub open spec fn block_at<T>(s: Seq<T>, n: nat, i: int) -> Seq<T> {
    s.subrange(i * n, i * n + n)
}

/// The hashes of the full blocks of `bytes`, in order.
pub open spec fn byte_blocks(bytes: Seq<u8>, n: nat) -> Seq<u64> {
    Seq::new((bytes.len() / n) as nat, |i: int| byte_hash(block_at(bytes, n, i)))
}

/// The hashes of the full blocks of `tokens`, in order.
pub open spec fn token_blocks(tokens: Seq<u32>, n: nat) -> Seq<u64> {
    Seq::new((tokens.len() / n) as nat, |i: int| token_hash(block_at(tokens, n, i)))
}

fn hash_run(count: usize, bytes: &[u8]) -> (r: u64)
    ensures
        r == run_hash(count as u64, bytes@),
{
    let mut h = DefaultHasher::new();
    let prefix = u64_to_le_bytes(count as u64);
    h.write(prefix.as_slice());
    h.write(bytes);
    assert(h@ =~= seq![vstd::bytes::spec_u64_to_le_bytes(count as u64), bytes@]);
    h.finish()
}

/// The hash of one block of bytes.
pub fn hash_of(bytes: &[u8]) -> (r: u64)
    ensures
        r == byte_hash(bytes@),
{
    hash_run(bytes.len(), bytes)
}

/// Hashes a token-ID sequence into block hashes (`block_tokens` tokens each,
/// trailing partial block dropped). Use when a real tokenizer is available:
/// block boundaries then match provider-side token positions exactly.
pub fn blocks_from_tokens(tokens: &[u32], block_tokens: usize) -> (r: Vec<u64>)
    requires
        block_tokens > 0,
    ensures
        r@ == token_blocks(tokens@, block_tokens as nat),
{
    let total: usize = tokens.len();
    let count: usize = total / block_tokens;
    let mut out: Vec<u64> = Vec::new();
    let mut i: usize = 0;
    while i < count
        invariant
            block_tokens > 0,
            total == tokens@.len(),
            count == tokens@.len() / block_tokens as nat,
            i <= count,
            out@ == token_blocks(tokens@, block_tokens as nat).take(i as int),
        decreases count - i,
    {
        proof {
            full_block_fits(tokens@.len(), block_tokens as nat, i as int);
        }
        let from: usize = i * block_tokens;
        let ghost block = block_at(tokens@, block_tokens as nat, i as int);
        let mut bytes: Vec<u8> = Vec::new();
        let mut j: usize = 0;
        while j < block_tokens
            invariant
                j <= block_tokens,
                total == tokens@.len(),
                from + block_tokens <= tokens@.len(),
                from == i * block_tokens,
                block == tokens@.subrange(from as int, from + block_tokens),
                bytes@ == token_bytes(block.take(j as int)),
            decreases block_tokens - j,
        {
            let mut word = u32_to_le_bytes(tokens[from + j]);
            bytes.append(&mut word);
            assert(block.take(j + 1).drop_last() =~= block.take(j as int));
            assert(block.take(j + 1).last() == tokens@[from + j]);
            j = j + 1;
        }
        assert(block.take(block_tokens as int) =~= block);
        out.push(hash_run(block_tokens, bytes.as_slice()));
        i = i + 1;
        assert(out@ =~= token_blocks(tokens@, block_tokens as nat).take(i as int));
    }
    assert(out@ =~= token_blocks(tokens@, block_tokens as nat));
    out
}

/// Hashes raw prompt bytes into block hashes of `bytes_per_block` each (trailing
/// partial block dropped). A tokenizer-free approximation: with about 4 bytes
/// per token on typical English text, `bytes_per_block = 4 * block_tokens` keeps
/// block granularity roughly aligned with token blocks. Byte-exact prefix
/// sharing is what providers key on anyway, so approximate boundaries only
/// cost granularity, never correctness.
pub fn blocks_from_bytes(bytes: &[u8], bytes_per_block: usize) -> (r: Vec<u64>)
    requires
        bytes_per_block > 0,
    ensures
        r@ == byte_blocks(bytes@, bytes_per_block as nat),
{
    let total: usize = bytes.len();
    let count: usize = total / bytes_per_block;
    let mut out: Vec<u64> = Vec::new();
    let mut i: usize = 0;
    while i < count
        invariant
            bytes_per_block > 0,
            total == bytes@.len(),
            count == bytes@.len() / bytes_per_block as nat,
            i <= count,
            out@ == byte_blocks(bytes@, bytes_per_block as nat).take(i as int),
        decreases count - i,
    {
        proof {
            full_block_fits(bytes@.len(), bytes_per_block as nat, i as int);
        }
        let from: usize = i * bytes_per_block;
        let block = vstd::slice::slice_subrange(bytes, from, from + bytes_per_block);
        out.push(hash_of(block));
        i = i + 1;
        assert(out@ =~= byte_blocks(bytes@, bytes_per_block as nat).take(i as int));
    }
    assert(out@ =~= byte_blocks(bytes@, bytes_per_block as nat));
    out
}

/// Full block `i` lies within the sequence.
proof fn full_block_fits(len: nat, n: nat, i: int)
    requires
        n > 0,
        0 <= i < len / n,
    ensures
        0 <= i * n,
        i * n + n <= len,
{
    assert(0 <= i * n && i * n + n <= len) by (nonlinear_arith)
        requires
            n > 0,
            0 <= i < len / n,
    ;
}

/// Prompts that share their first `m` full blocks share their first `m` block
/// hashes.
pub proof fn shared_bytes_share_blocks(a: Seq<u8>, b: Seq<u8>, n: nat, m: nat)
    requires
        n > 0,
        m * n <= a.len(),
        m * n <= b.len(),
        a.take((m * n) as int) == b.take((m * n) as int),
    ensures
        byte_blocks(a, n).len() >= m,
        byte_blocks(b, n).len() >= m,
        byte_blocks(a, n).take(m as int) == byte_blocks(b, n).take(m as int),
{
    enough_blocks(a.len(), n, m);
    enough_blocks(b.len(), n, m);
    assert forall|i: int| 0 <= i < m implies byte_blocks(a, n)[i] == byte_blocks(b, n)[i] by {
        same_block(a, b, n, m, i);
    }
    assert(byte_blocks(a, n).take(m as int) =~= byte_blocks(b, n).take(m as int));
}

/// Token sequences that share their first `m` full blocks share their first `m`
/// block hashes.
pub proof fn shared_tokens_share_blocks(a: Seq<u32>, b: Seq<u32>, n: nat, m: nat)
    requires
        n > 0,
        m * n <= a.len(),
        m * n <= b.len(),
        a.take((m * n) as int) == b.take((m * n) as int),
    ensures
        token_blocks(a, n).len() >= m,
        token_blocks(b, n).len() >= m,
        token_blocks(a, n).take(m as int) == token_blocks(b, n).take(m as int),
{
    enough_blocks(a.len(), n, m);
    enough_blocks(b.len(), n, m);
    assert forall|i: int| 0 <= i < m implies token_blocks(a, n)[i] == token_blocks(b, n)[i] by {
        same_block(a, b, n, m, i);
    }
    assert(token_blocks(a, n).take(m as int) =~= token_blocks(b, n).take(m as int));
}

/// A trailing partial block leaves the block hashes as they are.
pub proof fn partial_tail_is_dropped(a: Seq<u8>, tail: Seq<u8>, n: nat)
    requires
        n > 0,
        a.len() % n == 0,
        tail.len() < n,
    ensures
        byte_blocks(a + tail, n) == byte_blocks(a, n),
{
    let m = a.len() / n;
    vstd::arithmetic::div_mod::lemma_fundamental_div_mod(a.len() as int, n as int);
    assert(m * n == a.len()) by (nonlinear_arith)
        requires
            a.len() == n * m + 0,
    ;
    assert((a + tail).take((m * n) as int) =~= a.take((m * n) as int));
    shared_bytes_share_blocks(a + tail, a, n, m);
    assert((a + tail).len() / n == m) by (nonlinear_arith)
        requires
            n > 0,
            m * n == a.len(),
            (a + tail).len() == a.len() + tail.len(),
            tail.len() < n,
    ;
    assert(byte_blocks(a + tail, n) =~= byte_blocks(a + tail, n).take(m as int));
    assert(byte_blocks(a, n) =~= byte_blocks(a, n).take(m as int));
}

proof fn enough_blocks(len: nat, n: nat, m: nat)
    requires
        n > 0,
        m * n <= len,
    ensures
        len / n >= m,
{
    assert(len / n >= m) by (nonlinear_arith)
        requires
            n > 0,
            m * n <= len,
    ;
}

proof fn same_block<T>(a: Seq<T>, b: Seq<T>, n: nat, m: nat, i: int)
    requires
        n > 0,
        0 <= i < m,
        m * n <= a.len(),
        m * n <= b.len(),
        a.take((m * n) as int) == b.take((m * n) as int),
    ensures
        block_at(a, n, i) == block_at(b, n, i),
{
    let end = (m * n) as int;
    assert(0 <= i * n && i * n + n <= m * n) by (nonlinear_arith)
        requires
            n > 0,
            0 <= i < m,
    ;
    assert(block_at(a, n, i) =~= a.take(end).subrange(i * n, i * n + n));
    assert(block_at(b, n, i) =~= b.take(end).subrange(i * n, i * n + n));
}

/// A block of bytes is hashed whole, with its length in front: block after block,
/// as many as are full.
pub proof fn bytes_are_hashed_block_by_block(bytes: Seq<u8>, n: nat, i: int)
    requires
        0 < n <= u64::MAX,
        0 <= i < bytes.len() / n,
    ensures
        byte_blocks(bytes, n).len() == bytes.len() / n,
        0 <= i * n,
        i * n + n <= bytes.len(),
        byte_blocks(bytes, n)[i]
            == <DefaultHasher as vstd::std_specs::hash::DefaultHasherAdditionalSpecFns>::spec_finish(
            seq![
                vstd::bytes::spec_u64_to_le_bytes(n as u64),
                bytes.subrange(i * n, i * n + n),
            ],
        ),
{
    full_block_fits(bytes.len(), n, i);
}

/// A block of tokens is hashed whole, with its length in front, each token by its
/// four bytes, least first, one after the other.
pub proof fn tokens_are_hashed_block_by_block(tokens: Seq<u32>, n: nat, i: int)
    requires
        0 < n <= u64::MAX,
        0 <= i < tokens.len() / n,
    ensures
        token_blocks(tokens, n).len() == tokens.len() / n,
        0 <= i * n,
        i * n + n <= tokens.len(),
        exists|bytes: Seq<u8>|
            {
                &&& token_blocks(tokens, n)[i]
                    == <DefaultHasher as vstd::std_specs::hash::DefaultHasherAdditionalSpecFns>::spec_finish(
                    #[trigger] seq![vstd::bytes::spec_u64_to_le_bytes(n as u64), bytes],
                )
                &&& bytes.len() == 4 * n
                &&& forall|j: int|
                    0 <= j < n ==> bytes.subrange(4 * j, 4 * j + 4)
                        == vstd::bytes::spec_u32_to_le_bytes(#[trigger] tokens[i * n + j])
            },
{
    full_block_fits(tokens.len(), n, i);
    let block = block_at(tokens, n, i);
    token_bytes_are_in_place(block);
    let bytes = token_bytes(block);
    assert forall|j: int| 0 <= j < n implies bytes.subrange(4 * j, 4 * j + 4)
        == vstd::bytes::spec_u32_to_le_bytes(#[trigger] tokens[i * n + j]) by {
        assert(block[j] == tokens[i * n + j]);
    }
    assert(token_blocks(tokens, n)[i]
        == <DefaultHasher as vstd::std_specs::hash::DefaultHasherAdditionalSpecFns>::spec_finish(
        seq![vstd::bytes::spec_u64_to_le_bytes(n as u64), bytes],
    ));
}

proof fn token_bytes_are_in_place(tokens: Seq<u32>)
    ensures
        token_bytes(tokens).len() == 4 * tokens.len(),
        forall|j: int|
            0 <= j < tokens.len() ==> token_bytes(tokens).subrange(4 * j, 4 * j + 4)
                == vstd::bytes::spec_u32_to_le_bytes(#[trigger] tokens[j]),
    decreases tokens.len(),
{
    if tokens.len() > 0 {
        let rest = tokens.drop_last();
        token_bytes_are_in_place(rest);
        let word = vstd::bytes::spec_u32_to_le_bytes(tokens.last());
        let before = token_bytes(rest);
        let all = token_bytes(tokens);
        vstd::bytes::lemma_auto_spec_u32_to_from_le_bytes();
        assert(word.len() == 4);
        assert forall|j: int| 0 <= j < tokens.len() implies all.subrange(4 * j, 4 * j + 4)
            == vstd::bytes::spec_u32_to_le_bytes(#[trigger] tokens[j]) by {
            if j < rest.len() {
                assert(rest[j] == tokens[j]);
                assert(all.subrange(4 * j, 4 * j + 4) =~= before.subrange(4 * j, 4 * j + 4));
            } else {
                assert(all.subrange(4 * j, 4 * j + 4) =~= word);
            }
        }
    }
}

} // verus!
