//! The dispatcher's model: the batch width chosen for a buffer, and the
//! buffer processed head first, in batches of that width, then its tail.
use crate::block::{batched, crypt, lemma_batched_is_crypt, lemma_crypt_split};
use vstd::arithmetic::div_mod::{lemma_fundamental_div_mod, lemma_mod_pos_bound};
use vstd::prelude::*;

verus! {

/// Bytes per block.
pub const BLOCK_SIZE: usize = 8;

/// Buffers of at least this many bytes go to the worker pool when the
/// mode is picked automatically.
pub const AUTO_PAR_THRESHOLD: usize = 32768;

/// Largest batch, in blocks, of the serial path; a power of two.
pub const MAX_BLOCKS_PER_BATCH_SERIAL: usize = 512;

/// Largest batch, in blocks, of the parallel path; a power of two.
pub const MAX_BLOCKS_PER_BATCH_PARALLEL: usize = 256;

/// The largest power of two that is at most `n` (1 for `n <= 1`).
pub open spec fn pow2_floor(n: nat) -> nat
    decreases n,
{
    if n <= 1 {
        1
    } else {
        2 * pow2_floor(n / 2)
    }
}

/// The batch width for a buffer of `blocks` blocks under a cap.
pub open spec fn batch_blocks(blocks: nat, cap: nat) -> nat {
    let p = pow2_floor(blocks);
    if p < cap {
        p
    } else {
        cap
    }
}

/// Bytes of a buffer of `len` bytes covered by whole batches of `b` blocks.
pub open spec fn head_len(len: nat, b: nat) -> nat {
    ((len / 8) / b) * b * 8
}

/// A buffer as the dispatcher processes it: the head in batches of the
/// chosen width, then the tail in the same way.
pub open spec fn dispatched(ks: Seq<Seq<u32>>, data: Seq<u8>, cap: nat, decrypt: bool) -> Seq<u8>
    decreases data.len(),
{
    let b = batch_blocks(data.len() / 8, cap);
    let h = head_len(data.len(), b);
    if data.len() < 8 || b == 0 || h == 0 || h > data.len() {
        data
    } else {
        batched(ks, data.subrange(0, h as int), b, decrypt) + dispatched(
            ks,
            data.subrange(h as int, data.len() as int),
            cap,
            decrypt,
        )
    }
}

proof fn lemma_pow2_floor(n: nat)
    requires
        n >= 1,
    ensures
        1 <= pow2_floor(n) <= n,
    decreases n,
{
    if n > 1 {
        lemma_pow2_floor(n / 2);
    }
}

/// The chosen width is at least one block and at most the buffer's blocks,
/// and the head is a non-empty whole number of batches inside the buffer.
pub proof fn lemma_head(len: nat, cap: nat)
    requires
        len >= 8,
        cap >= 1,
    ensures
        ({
            let b = batch_blocks(len / 8, cap);
            let h = head_len(len, b);
            &&& 1 <= b <= len / 8
            &&& 8 * b <= h <= len
            &&& h == 8 * b * ((len / 8) / b)
            &&& h % 8 == 0
        }),
{
    let blocks = len / 8;
    lemma_pow2_floor(blocks);
    let b = batch_blocks(blocks, cap);
    let q = blocks / b;
    lemma_fundamental_div_mod(blocks as int, b as int);
    lemma_mod_pos_bound(blocks as int, b as int);
    assert(q * b <= blocks && q >= 1) by (nonlinear_arith)
        requires
            blocks == b * q + blocks % b,
            0 <= blocks % b < b,
            b <= blocks,
            q >= 0,
    ;
    assert(8 * b <= q * b * 8) by (nonlinear_arith)
        requires
            q >= 1,
            b >= 1,
    ;
    assert(q * b * 8 == 8 * b * q) by (nonlinear_arith);
    assert((q * b * 8) % 8 == 0) by (nonlinear_arith);
}

/// The dispatcher's output is the block-by-block transform, whatever the cap.
pub proof fn lemma_dispatched_is_crypt(ks: Seq<Seq<u32>>, data: Seq<u8>, cap: nat, decrypt: bool)
    requires
        data.len() % 8 == 0,
        cap >= 1,
    ensures
        dispatched(ks, data, cap, decrypt) == crypt(ks, data, decrypt),
    decreases data.len(),
{
    if data.len() < 8 {
        assert(crypt(ks, data, decrypt) =~= data);
    } else {
        lemma_head(data.len(), cap);
        let b = batch_blocks(data.len() / 8, cap);
        let h = head_len(data.len(), b);
        let head = data.subrange(0, h as int);
        let tail = data.subrange(h as int, data.len() as int);
        lemma_batched_is_crypt(ks, head, b, (data.len() / 8) / b, decrypt);
        lemma_dispatched_is_crypt(ks, tail, cap, decrypt);
        lemma_crypt_split(ks, data, h as int, decrypt);
    }
}

/// Picks the batch width for `blocks` blocks: the largest power of two
/// not above `blocks`, capped at `cap`.
pub fn batch_size(blocks: usize, cap: usize) -> (b: usize)
    requires
        blocks >= 1,
    ensures
        b == batch_blocks(blocks as nat, cap as nat),
{
    let mut p: usize = 1;
    let mut n: usize = blocks;
    proof {
        lemma_pow2_floor(blocks as nat);
    }
    while n > 1
        invariant
            n >= 1,
            p >= 1,
            p * pow2_floor(n as nat) == pow2_floor(blocks as nat),
            pow2_floor(blocks as nat) <= blocks,
        decreases n,
    {
        proof {
            lemma_pow2_floor((n / 2) as nat);
            let f = pow2_floor((n / 2) as nat);
            assert(p * 2 <= p * (2 * f)) by (nonlinear_arith)
                requires
                    f >= 1,
                    p >= 1,
            ;
            assert(p * (2 * f) == (p * 2) * f) by (nonlinear_arith);
        }
        n = n / 2;
        p = p * 2;
    }
    assert(n == 1 && pow2_floor(1) == 1);
    assert(p == pow2_floor(blocks as nat)) by (nonlinear_arith)
        requires
            p * pow2_floor(1) == pow2_floor(blocks as nat),
            pow2_floor(1) == 1,
    ;
    if p < cap {
        p
    } else {
        cap
    }
}

} // verus!
