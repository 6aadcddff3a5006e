//! The mathematical model of the cipher on blocks and buffers: the round
//! function, the Feistel rounds in both directions, the transform of a
//! whole buffer block by block, and of a buffer taken in batches.
use crate::keysched::splice;
use crate::sbox::sbox_spec;
use vstd::arithmetic::div_mod::lemma_mod_multiples_basic;
use vstd::prelude::*;

verus! {

/// The big-endian 32-bit word of four bytes.
pub open spec fn be32(b0: u8, b1: u8, b2: u8, b3: u8) -> u32 {
    ((b0 as u32) << 24u32) | ((b1 as u32) << 16u32) | ((b2 as u32) << 8u32) | (b3 as u32)
}

/// The four big-endian bytes of a 32-bit word.
pub open spec fn be_bytes(x: u32) -> Seq<u8> {
    seq![(x >> 24u32) as u8, (x >> 16u32) as u8, (x >> 8u32) as u8, x as u8]
}

/// Left half-expansion of the round input: 20 bits.
pub open spec fn expand_left(p: u32) -> u32 {
    ((p >> 16u32) & 0x3ff) | (((p >> 14u32) | ((p << 18u32) as u32)) & 0xffc00)
}

/// Right half-expansion of the round input: 20 bits.
pub open spec fn expand_right(p: u32) -> u32 {
    (p & 0x3ff) | (((p << 2u32) as u32) & 0xffc00)
}

/// The round function on one input word and one subkey.
pub open spec fn f_spec(p: u32, sk: Seq<u32>) -> u32 {
    let tl = expand_left(p);
    let tr = expand_right(p);
    let salt = sk[2] & (tl ^ tr);
    let al = salt ^ tl ^ sk[0];
    let ar = salt ^ tr ^ sk[1];
    sbox_spec(((al >> 10u32) & 0x3ff) as int) | sbox_spec(1024 + (al & 0x3ff) as int)
        | sbox_spec(2048 + ((ar >> 10u32) & 0x3ff) as int) | sbox_spec(3072 + (ar & 0x3ff) as int)
}

/// The halves after the first `n` round pairs of encryption: pair `q`
/// uses subkeys `2q` then `2q + 1`.
pub open spec fn enc_rounds(ks: Seq<Seq<u32>>, l: u32, r: u32, n: nat) -> (u32, u32)
    decreases n,
{
    if n == 0 {
        (l, r)
    } else {
        let (a, b) = enc_rounds(ks, l, r, (n - 1) as nat);
        let q = n - 1;
        let a2 = a ^ f_spec(b, ks[2 * q]);
        (a2, b ^ f_spec(a2, ks[2 * q + 1]))
    }
}

/// The halves after the last `n` round pairs, run backwards, of
/// decryption: pair `q` uses subkeys `2q + 1` then `2q`.
pub open spec fn dec_rounds(ks: Seq<Seq<u32>>, l: u32, r: u32, n: nat) -> (u32, u32)
    decreases n,
{
    if n == 0 {
        (l, r)
    } else {
        let (a, b) = dec_rounds(ks, l, r, (n - 1) as nat);
        let q = ks.len() / 2 - n;
        let a2 = a ^ f_spec(b, ks[2 * q + 1]);
        (a2, b ^ f_spec(a2, ks[2 * q]))
    }
}

/// All round pairs of the schedule in the given direction.
pub open spec fn all_rounds(ks: Seq<Seq<u32>>, l: u32, r: u32, decrypt: bool) -> (u32, u32) {
    if decrypt {
        dec_rounds(ks, l, r, (ks.len() / 2) as nat)
    } else {
        enc_rounds(ks, l, r, (ks.len() / 2) as nat)
    }
}

/// One 8-byte block transformed: the final right half is written first.
pub open spec fn crypt_block(ks: Seq<Seq<u32>>, blk: Seq<u8>, decrypt: bool) -> Seq<u8> {
    let l = be32(blk[0], blk[1], blk[2], blk[3]);
    let r = be32(blk[4], blk[5], blk[6], blk[7]);
    let (l2, r2) = all_rounds(ks, l, r, decrypt);
    be_bytes(r2) + be_bytes(l2)
}

/// A buffer transformed block by block.
pub open spec fn crypt(ks: Seq<Seq<u32>>, data: Seq<u8>, decrypt: bool) -> Seq<u8> {
    Seq::new(
        data.len(),
        |k: int| crypt_block(ks, data.subrange(8 * (k / 8), 8 * (k / 8) + 8), decrypt)[k % 8],
    )
}

/// A buffer transformed in batches of `b` blocks, front to back; bytes
/// after the last whole batch stay as they are.
pub open spec fn batched(ks: Seq<Seq<u32>>, data: Seq<u8>, b: nat, decrypt: bool) -> Seq<u8>
    decreases data.len(),
{
    if b == 0 || data.len() < 8 * b {
        data
    } else {
        crypt(ks, data.subrange(0, 8 * b as int), decrypt) + batched(
            ks,
            data.subrange(8 * b as int, data.len() as int),
            b,
            decrypt,
        )
    }
}

/// Batching keeps the length of the buffer.
pub proof fn lemma_batched_len(ks: Seq<Seq<u32>>, data: Seq<u8>, b: nat, decrypt: bool)
    ensures
        batched(ks, data, b, decrypt).len() == data.len(),
    decreases data.len(),
{
    if !(b == 0 || data.len() < 8 * b) {
        lemma_batched_len(ks, data.subrange(8 * b as int, data.len() as int), b, decrypt);
    }
}

/// The transform of a buffer splits at any block boundary.
pub proof fn lemma_crypt_split(ks: Seq<Seq<u32>>, s: Seq<u8>, m: int, decrypt: bool)
    requires
        0 <= m <= s.len(),
        m % 8 == 0,
        s.len() % 8 == 0,
    ensures
        crypt(ks, s, decrypt) == crypt(ks, s.subrange(0, m), decrypt) + crypt(
            ks,
            s.subrange(m, s.len() as int),
            decrypt,
        ),
{
    let a = s.subrange(0, m);
    let b = s.subrange(m, s.len() as int);
    let lhs = crypt(ks, s, decrypt);
    let rhs = crypt(ks, a, decrypt) + crypt(ks, b, decrypt);
    assert forall|k: int| 0 <= k < s.len() implies lhs[k] == rhs[k] by {
        if k < m {
            assert(8 * (k / 8) + 8 <= m);
            assert(a.subrange(8 * (k / 8), 8 * (k / 8) + 8) =~= s.subrange(
                8 * (k / 8),
                8 * (k / 8) + 8,
            ));
        } else {
            let j = k - m;
            assert(8 * (j / 8) + m == 8 * (k / 8) && j % 8 == k % 8);
            assert(b.subrange(8 * (j / 8), 8 * (j / 8) + 8) =~= s.subrange(
                8 * (k / 8),
                8 * (k / 8) + 8,
            ));
        }
    }
    assert(lhs =~= rhs);
}

/// Transforming a region of a buffer in place, one block-aligned piece
/// after another, transforms the whole region.
pub proof fn lemma_splice_extend(
    ks: Seq<Seq<u32>>,
    old_data: Seq<u8>,
    start: int,
    pos: int,
    end: int,
    decrypt: bool,
)
    requires
        0 <= start <= pos <= end <= old_data.len(),
        (pos - start) % 8 == 0,
        (end - start) % 8 == 0,
    ensures
        splice(
            splice(old_data, start, crypt(ks, old_data.subrange(start, pos), decrypt)),
            pos,
            crypt(ks, old_data.subrange(pos, end), decrypt),
        ) == splice(old_data, start, crypt(ks, old_data.subrange(start, end), decrypt)),
{
    let whole = old_data.subrange(start, end);
    lemma_crypt_split(ks, whole, pos - start, decrypt);
    assert(whole.subrange(0, pos - start) =~= old_data.subrange(start, pos));
    assert(whole.subrange(pos - start, whole.len() as int) =~= old_data.subrange(pos, end));
    let lhs = splice(
        splice(old_data, start, crypt(ks, old_data.subrange(start, pos), decrypt)),
        pos,
        crypt(ks, old_data.subrange(pos, end), decrypt),
    );
    let rhs = splice(old_data, start, crypt(ks, whole, decrypt));
    assert(lhs =~= rhs);
}

/// Taking a buffer of whole batches in batches of `b` blocks gives the
/// block-by-block transform.
pub proof fn lemma_batched_is_crypt(
    ks: Seq<Seq<u32>>,
    data: Seq<u8>,
    b: nat,
    n: nat,
    decrypt: bool,
)
    requires
        b >= 1,
        data.len() == 8 * b * n,
    ensures
        batched(ks, data, b, decrypt) == crypt(ks, data, decrypt),
    decreases n,
{
    if n == 0 {
        assert(8 * b * n == 0) by (nonlinear_arith)
            requires
                n == 0,
        ;
        assert(crypt(ks, data, decrypt) =~= data);
    } else {
        assert(8 * b * n == 8 * b * (n - 1) + 8 * b) by (nonlinear_arith);
        assert(8 * b * (n - 1) >= 0) by (nonlinear_arith)
            requires
                n >= 1,
        ;
        assert(8 * b * n == (b * n) * 8) by (nonlinear_arith);
        lemma_mod_multiples_basic((b * n) as int, 8);
        let rest = data.subrange(8 * b as int, data.len() as int);
        lemma_batched_is_crypt(ks, rest, b, (n - 1) as nat, decrypt);
        lemma_crypt_split(ks, data, 8 * b as int, decrypt);
    }
}

} // verus!

verus! {

proof fn lemma_xor_cancel(x: u32, y: u32)
    ensures
        (x ^ y) ^ y == x,
{
    assert((x ^ y) ^ y == x) by (bit_vector);
}

proof fn lemma_be_word(x: u32)
    ensures
        be32((x >> 24u32) as u8, (x >> 16u32) as u8, (x >> 8u32) as u8, x as u8) == x,
{
    assert(((((x >> 24u32) as u8) as u32) << 24u32) | ((((x >> 16u32) as u8) as u32) << 16u32)
        | ((((x >> 8u32) as u8) as u32) << 8u32) | ((x as u8) as u32) == x) by (bit_vector);
}

proof fn lemma_be_bytes(b0: u8, b1: u8, b2: u8, b3: u8)
    ensures
        be_bytes(be32(b0, b1, b2, b3)) == seq![b0, b1, b2, b3],
{
    let x = be32(b0, b1, b2, b3);
    assert((x >> 24u32) as u8 == b0 && (x >> 16u32) as u8 == b1 && (x >> 8u32) as u8 == b2
        && x as u8 == b3) by (bit_vector)
        requires
            x == ((b0 as u32) << 24u32) | ((b1 as u32) << 16u32) | ((b2 as u32) << 8u32) | (
            b3 as u32),
    ;
    assert(be_bytes(x) =~= seq![b0, b1, b2, b3]);
}

/// Running the last `n` round pairs backwards on the swapped output of
/// encryption undoes them: the halves come back swapped.
proof fn lemma_rounds_inverse(ks: Seq<Seq<u32>>, l: u32, r: u32, n: nat)
    requires
        n <= ks.len() / 2,
    ensures
        ({
            let np = (ks.len() / 2) as nat;
            let (el, er) = enc_rounds(ks, l, r, np);
            let (dl, dr) = dec_rounds(ks, er, el, n);
            let (ml, mr) = enc_rounds(ks, l, r, (np - n) as nat);
            dl == mr && dr == ml
        }),
    decreases n,
{
    if n > 0 {
        lemma_rounds_inverse(ks, l, r, (n - 1) as nat);
        let np = (ks.len() / 2) as nat;
        let q = np - n;
        let (a0, b0) = enc_rounds(ks, l, r, q as nat);
        let a = a0 ^ f_spec(b0, ks[2 * q]);
        lemma_xor_cancel(b0, f_spec(a, ks[2 * q + 1]));
        lemma_xor_cancel(a0, f_spec(b0, ks[2 * q]));
    }
}

/// Decrypting an encrypted block gives the block back.
pub proof fn lemma_block_round_trip(ks: Seq<Seq<u32>>, blk: Seq<u8>)
    requires
        blk.len() == 8,
    ensures
        crypt_block(ks, crypt_block(ks, blk, false), true) == blk,
{
    let np = (ks.len() / 2) as nat;
    let l = be32(blk[0], blk[1], blk[2], blk[3]);
    let r = be32(blk[4], blk[5], blk[6], blk[7]);
    let (el, er) = enc_rounds(ks, l, r, np);
    let c = crypt_block(ks, blk, false);
    lemma_be_word(er);
    lemma_be_word(el);
    lemma_rounds_inverse(ks, l, r, np);
    lemma_be_bytes(blk[0], blk[1], blk[2], blk[3]);
    lemma_be_bytes(blk[4], blk[5], blk[6], blk[7]);
    assert(crypt_block(ks, c, true) =~= blk);
}

/// Decrypting an encrypted buffer of whole blocks gives the buffer back.
pub proof fn lemma_crypt_round_trip(ks: Seq<Seq<u32>>, data: Seq<u8>)
    requires
        data.len() % 8 == 0,
    ensures
        crypt(ks, crypt(ks, data, false), true) == data,
{
    let c = crypt(ks, data, false);
    let d = crypt(ks, c, true);
    assert forall|k: int| 0 <= k < data.len() implies d[k] == data[k] by {
        let s = 8 * (k / 8);
        let blk = data.subrange(s, s + 8);
        assert(c.subrange(s, s + 8) =~= crypt_block(ks, blk, false)) by {
            assert forall|t: int| 0 <= t < 8 implies c[s + t] == crypt_block(ks, blk, false)[t] by {
                assert((s + t) / 8 == k / 8 && (s + t) % 8 == t);
            }
        }
        lemma_block_round_trip(ks, blk);
    }
    assert(d =~= data);
}

} // verus!
