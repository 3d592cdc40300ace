//! Token sequences cut into blocks, and the keys under which blocks are filed.

use crate::kv::TokenId;
use vstd::prelude::*;

verus! {

/// The 64-bit XXH3 digest of `bytes`, as `xxhash_rust::xxh3::xxh3_64` computes it.
pub uninterp spec fn xxh3_digest(bytes: Seq<u8>) -> u64;

/// `xxhash_rust::xxh3::xxh3_64` hashes with seed 0 and the default secret: its
/// result is a function of the bytes alone, which is all that is claimed of it.
pub assume_specification[ xxhash_rust::xxh3::xxh3_64 ](input: &[u8]) -> (digest: u64)
    ensures
        digest == xxh3_digest(input@),
;

/// Byte `k` of the little-endian encoding of `token`.
pub open spec fn token_byte(token: TokenId, k: int) -> u8 {
    if k == 0 {
        (token % 256) as u8
    } else if k == 1 {
        ((token / 256) % 256) as u8
    } else if k == 2 {
        ((token / 65536) % 256) as u8
    } else {
        (token / 16777216) as u8
    }
}

/// The little-endian encoding of a token sequence, four bytes per token.
pub open spec fn token_bytes(tokens: Seq<TokenId>) -> Seq<u8> {
    Seq::new(4 * tokens.len(), |i: int| token_byte(tokens[i / 4], i % 4))
}

/// The key of a run of tokens: the digest of its encoding.
pub open spec fn key_of(tokens: Seq<TokenId>) -> u64 {
    xxh3_digest(token_bytes(tokens))
}

/// The number of whole blocks of `b` tokens in `tokens`.
pub open spec fn block_count(tokens: Seq<TokenId>, b: nat) -> nat {
    tokens.len() / b
}

/// Block `i` of `tokens`.
pub open spec fn block_at(tokens: Seq<TokenId>, b: nat, i: int) -> Seq<TokenId> {
    tokens.subrange(i * b, i * b + b)
}

/// The whole blocks of `tokens`, in order; an incomplete last block is left out.
pub open spec fn blocks_of(tokens: Seq<TokenId>, b: nat) -> Seq<Seq<TokenId>> {
    Seq::new(block_count(tokens, b), |i: int| block_at(tokens, b, i))
}

/// The keys of the whole blocks of `tokens`, in order.
pub open spec fn keys_of(tokens: Seq<TokenId>, b: nat) -> Seq<u64> {
    Seq::new(block_count(tokens, b), |i: int| key_of(block_at(tokens, b, i)))
}

/// Whole blocks: their number and the size of one give the number of tokens.
pub proof fn lemma_whole(len: nat, b: nat)
    requires
        0 < b,
        len % b == 0,
    ensures
        len == (len / b) * b,
        0 < len ==> 0 < len / b,
{
    assert(len == (len / b) * b) by (nonlinear_arith)
        requires
            0 < b,
            len % b == 0,
    ;
    if len / b == 0 {
        assert((len / b) * b == 0);
    }
}

/// A number of whole blocks within some tokens.
pub proof fn lemma_part(n: nat, len: nat, b: nat)
    requires
        0 < b,
        n <= len / b,
    ensures
        n * b <= len,
        (n * b) % b == 0,
        (n * b) / b == n,
{
    assert(n * b <= len) by (nonlinear_arith)
        requires
            0 < b,
            n <= len / b,
    ;
    lemma_multiple(n, b);
}

/// The tokens of a number of blocks are whole blocks, that many.
pub proof fn lemma_multiple(n: nat, b: nat)
    requires
        0 < b,
    ensures
        (n * b) % b == 0,
        (n * b) / b == n,
{
    vstd::arithmetic::div_mod::lemma_mod_multiples_basic(n as int, b as int);
    vstd::arithmetic::div_mod::lemma_div_by_multiple(n as int, b as int);
}

/// Block `i` lies within `tokens`.
pub proof fn lemma_block_bounds(len: nat, b: nat, i: int)
    requires
        0 < b,
        0 <= i < len / b,
    ensures
        0 <= i * b,
        i * b + b <= len,
{
    assert(0 <= i * b) by (nonlinear_arith)
        requires
            0 <= i,
            0 < b,
    ;
    assert(i * b + b <= len) by (nonlinear_arith)
        requires
            0 < b,
            i + 1 <= len / b,
    ;
}

/// Encodes tokens as bytes, least significant byte first.
pub fn encode_tokens(tokens: &[TokenId]) -> (bytes: Vec<u8>)
    ensures
        bytes@ == token_bytes(tokens@),
{
    let mut bytes: Vec<u8> = Vec::new();
    let mut i: usize = 0;
    while i < tokens.len()
        invariant
            i <= tokens.len(),
            bytes@ == token_bytes(tokens@.take(i as int)),
        decreases tokens.len() - i,
    {
        let t: u32 = tokens[i];
        bytes.push((t % 256) as u8);
        bytes.push(((t / 256) % 256) as u8);
        bytes.push(((t / 65536) % 256) as u8);
        bytes.push((t / 16777216) as u8);
        i = i + 1;
        assert(bytes@ =~= token_bytes(tokens@.take(i as int)));
    }
    assert(tokens@.take(i as int) =~= tokens@);
    bytes
}

/// The key of a run of tokens.
pub fn hash_tokens(tokens: &[TokenId]) -> (key: u64)
    ensures
        key == key_of(tokens@),
{
    let bytes = encode_tokens(tokens);
    xxhash_rust::xxh3::xxh3_64(bytes.as_slice())
}

/// Block `i` of `tokens`, as a slice.
pub fn block_slice<const B: usize>(tokens: &[TokenId], i: usize) -> (block: &[TokenId])
    requires
        0 < B,
        i < block_count(tokens@, B as nat),
    ensures
        block@ == block_at(tokens@, B as nat, i as int),
{
    let len: usize = tokens.len();
    proof {
        lemma_block_bounds(len as nat, B as nat, i as int);
    }
    vstd::slice::slice_subrange(tokens, i * B, i * B + B)
}

/// The keys of the whole blocks of `tokens`, in order.
pub fn block_keys<const B: usize>(tokens: &[TokenId]) -> (keys: Vec<u64>)
    requires
        0 < B,
    ensures
        keys@ == keys_of(tokens@, B as nat),
{
    let n: usize = tokens.len() / B;
    let mut keys: Vec<u64> = Vec::new();
    let mut i: usize = 0;
    while i < n
        invariant
            0 < B,
            i <= n,
            n == block_count(tokens@, B as nat),
            keys@ == keys_of(tokens@, B as nat).take(i as int),
        decreases n - i,
    {
        let block = block_slice::<B>(tokens, i);
        keys.push(hash_tokens(block));
        i = i + 1;
        assert(keys@ =~= keys_of(tokens@, B as nat).take(i as int));
    }
    assert(keys@ =~= keys_of(tokens@, B as nat));
    keys
}

/// Whether two token slices hold the same tokens.
pub fn same_tokens(a: &[TokenId], b: &[TokenId]) -> (same: bool)
    ensures
        same == (a@ == b@),
{
    if a.len() != b.len() {
        return false;
    }
    let mut i: usize = 0;
    while i < a.len()
        invariant
            i <= a.len(),
            a.len() == b.len(),
            a@.take(i as int) == b@.take(i as int),
        decreases a.len() - i,
    {
        if a[i] != b[i] {
            return false;
        }
        i = i + 1;
        assert(a@.take(i as int) =~= b@.take(i as int));
    }
    assert(a@ =~= a@.take(i as int));
    assert(b@ =~= b@.take(i as int));
    true
}

/// The blocks of a token sequence: as many as fit, each of `b` tokens, one after the
/// other from the first token on. Token `r` of block `i` is token `i * b + r`, and the
/// key of a block is the digest of the bytes of its tokens.
pub proof fn law_blocks(tokens: Seq<TokenId>, b: nat, i: int, r: int)
    requires
        0 < b,
    ensures
        block_count(tokens, b) * b <= tokens.len() < block_count(tokens, b) * b + b,
        blocks_of(tokens, b).len() == block_count(tokens, b),
        keys_of(tokens, b).len() == block_count(tokens, b),
        0 <= i < block_count(tokens, b) ==> {
            &&& blocks_of(tokens, b)[i].len() == b
            &&& block_at(tokens, b, i) == blocks_of(tokens, b)[i]
            &&& keys_of(tokens, b)[i] == xxh3_digest(token_bytes(blocks_of(tokens, b)[i]))
            &&& 0 <= r < b ==> blocks_of(tokens, b)[i][r] == tokens[i * b + r]
        },
{
    let n = block_count(tokens, b);
    vstd::arithmetic::div_mod::lemma_fundamental_div_mod(tokens.len() as int, b as int);
    vstd::arithmetic::div_mod::lemma_mod_bound(tokens.len() as int, b as int);
    assert(n * b == b * n) by (nonlinear_arith);
    if 0 <= i < n {
        lemma_block_bounds(tokens.len(), b, i);
    }
}

/// The bytes of a token sequence: four for each token, the least significant first, so
/// that every token can be told from its bytes, and no two sequences have the same.
pub proof fn law_encoding(tokens: Seq<TokenId>, other: Seq<TokenId>, i: int)
    ensures
        token_bytes(tokens).len() == 4 * tokens.len(),
        0 <= i < tokens.len() ==> tokens[i] == token_bytes(tokens)[4 * i] + 256 * token_bytes(
            tokens,
        )[4 * i + 1] + 65536 * token_bytes(tokens)[4 * i + 2] + 16777216 * token_bytes(tokens)[4
            * i + 3],
        token_bytes(tokens) == token_bytes(other) ==> tokens == other,
{
    lemma_token_bytes(tokens, i);
    if token_bytes(tokens) == token_bytes(other) {
        assert(4 * tokens.len() == token_bytes(tokens).len());
        assert(4 * other.len() == token_bytes(other).len());
        assert forall|k: int| 0 <= k < tokens.len() implies tokens[k] == other[k] by {
            lemma_token_bytes(tokens, k);
            lemma_token_bytes(other, k);
        }
        assert(tokens =~= other);
    }
}

/// A token is the sum of its four bytes, each in its place.
proof fn lemma_token_bytes(tokens: Seq<TokenId>, i: int)
    ensures
        0 <= i < tokens.len() ==> tokens[i] == token_bytes(tokens)[4 * i] + 256 * token_bytes(
            tokens,
        )[4 * i + 1] + 65536 * token_bytes(tokens)[4 * i + 2] + 16777216 * token_bytes(tokens)[4
            * i + 3],
{
    if 0 <= i < tokens.len() {
        let bytes = token_bytes(tokens);
        let t = tokens[i];
        assert((4 * i) / 4 == i && (4 * i) % 4 == 0);
        assert((4 * i + 1) / 4 == i && (4 * i + 1) % 4 == 1);
        assert((4 * i + 2) / 4 == i && (4 * i + 2) % 4 == 2);
        assert((4 * i + 3) / 4 == i && (4 * i + 3) % 4 == 3);
        assert(bytes[4 * i] == token_byte(t, 0));
        assert(bytes[4 * i + 1] == token_byte(t, 1));
        assert(bytes[4 * i + 2] == token_byte(t, 2));
        assert(bytes[4 * i + 3] == token_byte(t, 3));
        assert(t / 65536 == (t / 256) / 256);
        assert(t / 16777216 == (t / 65536) / 256);
    }
}

} // verus!
