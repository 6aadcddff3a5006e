//! Laws that relate the entry points: decryption undoes encryption, the
//! batch width never changes the output, and neither does the worker pool.
use crate::block::{batched, crypt, lemma_batched_is_crypt, lemma_crypt_round_trip};
use crate::dispatch::{
    dispatched, lemma_dispatched_is_crypt, MAX_BLOCKS_PER_BATCH_PARALLEL,
    MAX_BLOCKS_PER_BATCH_SERIAL,
};
use crate::keysched::schedule_spec;
use vstd::arithmetic::div_mod::lemma_fundamental_div_mod;
use vstd::prelude::*;

verus! {

/// For every key and level, decrypting what encryption made of a buffer of
/// whole blocks gives the buffer back, on the serial path as on the
/// block-by-block model.
pub proof fn lemma_round_trip(key: Seq<u8>, level: nat, data: Seq<u8>)
    requires
        data.len() % 8 == 0,
    ensures
        ({
            let ks = schedule_spec(key, level);
            let serial = MAX_BLOCKS_PER_BATCH_SERIAL as nat;
            &&& dispatched(ks, dispatched(ks, data, serial, false), serial, true) == data
            &&& crypt(ks, crypt(ks, data, false), true) == data
        }),
{
    let ks = schedule_spec(key, level);
    let serial = MAX_BLOCKS_PER_BATCH_SERIAL as nat;
    lemma_dispatched_is_crypt(ks, data, serial, false);
    let c = crypt(ks, data, false);
    assert(c.len() == data.len());
    lemma_dispatched_is_crypt(ks, c, serial, true);
    lemma_crypt_round_trip(ks, data);
}

/// Any two batch widths that divide a buffer give the same output, and
/// that output is the one of the dispatched entry points.
pub proof fn lemma_batch_invariance(
    ks: Seq<Seq<u32>>,
    data: Seq<u8>,
    b1: nat,
    b2: nat,
    decrypt: bool,
)
    requires
        b1 >= 1,
        b2 >= 1,
        data.len() % (8 * b1) == 0,
        data.len() % (8 * b2) == 0,
    ensures
        batched(ks, data, b1, decrypt) == batched(ks, data, b2, decrypt),
        batched(ks, data, b1, decrypt) == dispatched(
            ks,
            data,
            MAX_BLOCKS_PER_BATCH_SERIAL as nat,
            decrypt,
        ),
        batched(ks, data, b1, decrypt) == crypt(ks, data, decrypt),
{
    lemma_fundamental_div_mod(data.len() as int, (8 * b1) as int);
    lemma_fundamental_div_mod(data.len() as int, (8 * b2) as int);
    lemma_batched_is_crypt(ks, data, b1, data.len() / (8 * b1), decrypt);
    lemma_batched_is_crypt(ks, data, b2, data.len() / (8 * b2), decrypt);
    assert(data.len() % 8 == 0) by {
        assert(data.len() == 8 * (b1 * (data.len() / (8 * b1)))) by (nonlinear_arith)
            requires
                data.len() == 8 * b1 * (data.len() / (8 * b1)),
        ;
    }
    lemma_dispatched_is_crypt(ks, data, MAX_BLOCKS_PER_BATCH_SERIAL as nat, decrypt);
}

/// The serial and the parallel paths give the same output on every buffer
/// of whole blocks, though they batch it differently.
pub proof fn lemma_serial_parallel_agree(ks: Seq<Seq<u32>>, data: Seq<u8>, decrypt: bool)
    requires
        data.len() % 8 == 0,
    ensures
        dispatched(ks, data, MAX_BLOCKS_PER_BATCH_SERIAL as nat, decrypt) == dispatched(
            ks,
            data,
            MAX_BLOCKS_PER_BATCH_PARALLEL as nat,
            decrypt,
        ),
{
    lemma_dispatched_is_crypt(ks, data, MAX_BLOCKS_PER_BATCH_SERIAL as nat, decrypt);
    lemma_dispatched_is_crypt(ks, data, MAX_BLOCKS_PER_BATCH_PARALLEL as nat, decrypt);
}

} // verus!
