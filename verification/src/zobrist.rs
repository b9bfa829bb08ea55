//! Zobrist keys: one pseudorandom 64-bit key per (piece, square) pair and
//! per scalar feature (side to move, castling rights, en-passant square),
//! drawn from a fixed xorshift stream so that a position's hash is the XOR
//! of the keys of its features.
use vstd::prelude::*;

verus! {

/// One xorshift round of the key stream.
pub open spec fn xs_round(s: u64) -> u64 {
    let a = s ^ (s >> 12u64);
    let b = a ^ (a << 25u64);
    b ^ (b >> 27u64)
}

pub open spec fn seed_at(n: nat) -> u64
    decreases n,
{
    if n == 0 {
        1070372u64
    } else {
        xs_round(seed_at((n - 1) as nat))
    }
}

/// The n-th key of the stream.
pub open spec fn key_at(n: nat) -> u64 {
    seed_at(n + 1).wrapping_mul(2685821657736338717u64)
}

/// Key of a placed piece on a square.
pub open spec fn piece_key(p: u8, s: int) -> u64 {
    key_at((p * 64 + s) as nat)
}

/// Key contribution of one board square: empty squares contribute nothing.
pub open spec fn sq_key(p: u8, s: int) -> u64 {
    if p == 0 {
        0u64
    } else {
        piece_key(p, s)
    }
}

/// Key of the en-passant target square; the sentinel 0 contributes nothing.
pub open spec fn ep_key(ep: int) -> u64 {
    if ep == 0 {
        0u64
    } else {
        key_at((960 + ep) as nat)
    }
}

/// Key of a castling-rights mask; empty rights contribute nothing.
pub open spec fn castle_key(cr: u8) -> u64 {
    if cr == 0 {
        0u64
    } else {
        key_at((1024 + cr) as nat)
    }
}

/// Key of the side to move; white contributes nothing.
pub open spec fn ctm_key(c: u8) -> u64 {
    if c == 1 {
        key_at(1040)
    } else {
        0u64
    }
}

/// XOR of the piece keys of the first `n` board squares.
pub open spec fn zob_pieces(board: Seq<u8>, n: int) -> u64
    decreases n,
{
    if n <= 0 {
        0u64
    } else {
        zob_pieces(board, n - 1) ^ sq_key(board[n - 1], n - 1)
    }
}

/// The from-scratch Zobrist hash of a full position description.
pub open spec fn zob_all(board: Seq<u8>, ctm: u8, cr: u8, ep: int) -> u64 {
    zob_pieces(board, 64) ^ ctm_key(ctm) ^ castle_key(cr) ^ ep_key(ep)
}

pub fn stream_key(n: u32) -> (r: u64)
    requires
        n <= 4096,
    ensures
        r == key_at(n as nat),
{
    let mut i: u32 = 0;
    let mut seed: u64 = 1070372;
    while i <= n
        invariant
            n <= 4096,
            i <= n + 1,
            seed == seed_at(i as nat),
        decreases n + 1 - i,
    {
        let a = seed ^ (seed >> 12u64);
        let b = a ^ (a << 25u64);
        seed = b ^ (b >> 27u64);
        i = i + 1;
    }
    seed.wrapping_mul(2685821657736338717u64)
}

pub fn piece_key_exec(p: u8, sq: u32) -> (r: u64)
    requires
        p <= 14,
        sq < 64,
    ensures
        r == piece_key(p, sq as int),
{
    stream_key((p as u32) * 64 + sq)
}

pub fn ep_key_exec(ep: u32) -> (r: u64)
    requires
        ep < 64,
    ensures
        r == ep_key(ep as int),
{
    if ep == 0 {
        0
    } else {
        stream_key(960 + ep)
    }
}

pub fn castle_key_exec(cr: u8) -> (r: u64)
    requires
        cr <= 15,
    ensures
        r == castle_key(cr),
{
    if cr == 0 {
        0
    } else {
        stream_key(1024 + cr as u32)
    }
}

pub fn ctm_flip_key() -> (r: u64)
    ensures
        r == key_at(1040),
        forall|c: u8| c <= 1 ==> ctm_key(crate::types::other(c)) == #[trigger] ctm_key(c) ^ r,
{
    let r = stream_key(1040);
    proof {
        lemma_xor_basics(r);
        assert forall|c: u8| c <= 1 implies ctm_key(crate::types::other(c)) == #[trigger] ctm_key(
            c,
        ) ^ r by {
            lemma_xor_basics(ctm_key(c));
        }
    }
    r
}

pub proof fn lemma_xor_basics(x: u64)
    by (bit_vector)
    ensures
        x ^ 0u64 == x,
        0u64 ^ x == x,
        x ^ x == 0u64,
{
}

/// Folding one more key into a hash made of four factors updates the first factor.
pub proof fn lemma_xor_fold1(h: u64, a: u64, b: u64, c: u64, d: u64, k: u64)
    by (bit_vector)
    requires
        h == a ^ b ^ c ^ d,
    ensures
        h ^ k == (a ^ k) ^ b ^ c ^ d,
        h ^ k == a ^ (b ^ k) ^ c ^ d,
        h ^ k == a ^ b ^ (c ^ k) ^ d,
        h ^ k == a ^ b ^ c ^ (d ^ k),
{
}

/// Removing one factor of a four-factor hash and folding in another replaces it.
pub proof fn lemma_xor_replace(h: u64, a: u64, b: u64, c: u64, d: u64, x: u64)
    by (bit_vector)
    requires
        h == a ^ b ^ c ^ d,
    ensures
        h ^ c ^ x == a ^ b ^ x ^ d,
        h ^ d ^ x == a ^ b ^ c ^ x,
{
}

/// Folding the same key twice changes nothing.
pub proof fn lemma_xor_cancel(x: u64, a: u64)
    by (bit_vector)
    ensures
        (x ^ a) ^ a == x,
{
}

/// Cancelling a key that was folded in, then folding another.
pub proof fn lemma_xor_cancel_fold(x: u64, a: u64, b: u64)
    by (bit_vector)
    ensures
        (x ^ a) ^ a ^ b == x ^ b,
{
}

/// Shuffling the order in which two keys were folded into a hash.
pub proof fn lemma_xor_shuffle(x: u64, a: u64, b: u64, c: u64)
    by (bit_vector)
    ensures
        ((x ^ a) ^ b) ^ c == ((x ^ c) ^ a) ^ b,
{
}

/// The piece-key fold depends only on the first `n` squares of the board.
pub proof fn lemma_zob_congruence(b1: Seq<u8>, b2: Seq<u8>, n: int)
    requires
        forall|i: int| 0 <= i < n ==> b1[i] == b2[i],
    ensures
        zob_pieces(b1, n) == zob_pieces(b2, n),
    decreases n,
{
    if n > 0 {
        lemma_zob_congruence(b1, b2, n - 1);
    }
}

/// Changing one square changes the fold by exactly the two keys of that square.
pub proof fn lemma_zob_update(b: Seq<u8>, s: int, p: u8, n: int)
    requires
        0 <= s < b.len(),
        n <= b.len(),
    ensures
        zob_pieces(b.update(s, p), n) == if s < n {
            zob_pieces(b, n) ^ sq_key(b[s], s) ^ sq_key(p, s)
        } else {
            zob_pieces(b, n)
        },
    decreases n,
{
    let b2 = b.update(s, p);
    if n <= 0 {
    } else if s == n - 1 {
        lemma_zob_congruence(b2, b, n - 1);
        lemma_xor_cancel_fold(zob_pieces(b, n - 1), sq_key(b[s], s), sq_key(p, s));
    } else {
        lemma_zob_update(b, s, p, n - 1);
        if s < n - 1 {
            lemma_xor_shuffle(zob_pieces(b, n - 1), sq_key(b[s], s), sq_key(p, s), sq_key(b2[n
                - 1], n - 1));
        }
    }
}

} // verus!
