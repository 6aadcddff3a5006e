//! The cipher instance: construction, the batched round function and the
//! block-batch processor.
use crate::block::{all_rounds, be32, be_bytes, crypt, crypt_block, dec_rounds, enc_rounds, f_spec};
use crate::keysched::{
    key_set, key_slices, round_count, schedule_spec, splice, subkeys_view, IceSubkey,
};
use crate::sbox::{build_sboxes, sbox_spec};
use vstd::prelude::*;

verus! {

/// The key schedule of an instance, with its size and round count.
#[derive(Clone, Debug)]
pub struct IceKeyStruct {
    size: usize,
    rounds: usize,
    pub keysched: Vec<IceSubkey>,
}

/// A cipher instance: the substitution tables and one key's schedule.
#[derive(Clone, Debug)]
pub struct Ice {
    sbox: Vec<u32>,
    pub key: IceKeyStruct,
}

impl View for Ice {
    type V = Seq<Seq<u32>>;

    /// The words of each round's subkey, in round order.
    closed spec fn view(&self) -> Seq<Seq<u32>> {
        subkeys_view(self.key.keysched@)
    }
}

/// The left half of lane `q` of a batch: bytes `8q` to `8q + 3`.
pub open spec fn lane_left(chunk: Seq<u8>, q: int) -> u32 {
    be32(chunk[8 * q], chunk[8 * q + 1], chunk[8 * q + 2], chunk[8 * q + 3])
}

/// The right half of lane `q` of a batch: bytes `8q + 4` to `8q + 7`.
pub open spec fn lane_right(chunk: Seq<u8>, q: int) -> u32 {
    be32(chunk[8 * q + 4], chunk[8 * q + 5], chunk[8 * q + 6], chunk[8 * q + 7])
}

proof fn lemma_index_bound(x: u32)
    ensures
        x & 0x3ff < 1024,
        (x >> 10u32) & 0x3ff < 1024,
{
    assert(x & 0x3ff < 1024 && (x >> 10u32) & 0x3ff < 1024) by (bit_vector);
}

/// Stores the two halves of a block at `o`, right half first, big-endian.
fn store_block(data: &mut [u8], o: usize, lv: u32, rv: u32)
    requires
        o + 8 <= old(data)@.len(),
    ensures
        final(data)@ == splice(old(data)@, o as int, be_bytes(rv) + be_bytes(lv)),
{
    data[o] = (rv >> 24) as u8;
    data[o + 1] = (rv >> 16) as u8;
    data[o + 2] = (rv >> 8) as u8;
    data[o + 3] = rv as u8;
    data[o + 4] = (lv >> 24) as u8;
    data[o + 5] = (lv >> 16) as u8;
    data[o + 6] = (lv >> 8) as u8;
    data[o + 7] = lv as u8;
    assert(data@ =~= splice(old(data)@, o as int, be_bytes(rv) + be_bytes(lv)));
}

/// Block `i` of a transformed batch is the transform of lane `i`.
proof fn lemma_block_out(ks: Seq<Seq<u32>>, sub: Seq<u8>, i: int, decrypt: bool)
    requires
        0 <= i,
        8 * i + 8 <= sub.len(),
    ensures
        ({
            let (l2, r2) = all_rounds(ks, lane_left(sub, i), lane_right(sub, i), decrypt);
            crypt(ks, sub, decrypt).subrange(8 * i, 8 * i + 8) == be_bytes(r2) + be_bytes(l2)
        }),
{
    let blk = sub.subrange(8 * i, 8 * i + 8);
    let out = crypt(ks, sub, decrypt);
    assert forall|t: int| 0 <= t < 8 implies out[8 * i + t] == crypt_block(ks, blk, decrypt)[t] by {
        assert((8 * i + t) / 8 == i && (8 * i + t) % 8 == t);
    }
    assert(out.subrange(8 * i, 8 * i + 8) =~= crypt_block(ks, blk, decrypt));
}

proof fn lemma_splice_grow(d0: Seq<u8>, off: int, out: Seq<u8>, j: int)
    requires
        0 <= off,
        0 <= j,
        j + 8 <= out.len(),
        off + out.len() <= d0.len(),
    ensures
        splice(splice(d0, off, out.subrange(0, j)), off + j, out.subrange(j, j + 8)) == splice(
            d0,
            off,
            out.subrange(0, j + 8),
        ),
{
    assert(splice(splice(d0, off, out.subrange(0, j)), off + j, out.subrange(j, j + 8)) =~= splice(
        d0,
        off,
        out.subrange(0, j + 8),
    ));
}

impl Ice {
    /// The substitution tables hold their fixed values.
    pub closed spec fn wf(&self) -> bool {
        &&& self.sbox@.len() == 4096
        &&& forall|j: int| 0 <= j < 4096 ==> #[trigger] self.sbox@[j] == sbox_spec(j)
    }

    /// Creates an instance for `key` at `level`. Level 0 is Thin-ICE: an
    /// 8-byte key and 8 rounds; level `n >= 1` takes `8 * n` key bytes and
    /// runs `16 * n` rounds. Bytes of `key` past that are not read.
    pub fn new(level: usize, key: &[u8]) -> (ice: Self)
        requires
            key@.len() >= 8 * key_slices(level as nat),
            round_count(level as nat) <= usize::MAX,
        ensures
            ice.wf(),
            ice@.len() == round_count(level as nat),
            ice@ == schedule_spec(key@, level as nat),
    {
        let keysched = key_set(level, key);
        Ice {
            sbox: build_sboxes(),
            key: IceKeyStruct {
                size: if level < 1 { 1 } else { level },
                rounds: if level < 1 { 8 } else { level * 16 },
                keysched,
            },
        }
    }

    /// The round function on one word.
    fn ice_f(&self, p: u32, sk: &IceSubkey) -> (res: u32)
        requires
            self.wf(),
        ensures
            res == f_spec(p, sk.val@),
    {
        let tr = (p & 0x3ff) | ((p << 2) & 0xffc00);
        let tl = ((p >> 16) & 0x3ff) | (((p >> 14) | (p << 18)) & 0xffc00);
        let al_base = sk.val[2] & (tl ^ tr);
        let al = al_base ^ tl ^ sk.val[0];
        let ar = al_base ^ tr ^ sk.val[1];
        proof {
            lemma_index_bound(al);
            lemma_index_bound(ar);
        }
        let s = &self.sbox;
        s[((al >> 10) & 0x3ff) as usize] | s[1024 + (al & 0x3ff) as usize] | s[2048 + ((ar >> 10)
            & 0x3ff) as usize] | s[3072 + (ar & 0x3ff) as usize]
    }

    /// The round function on every lane of a batch; lanes do not interact.
    fn ice_f_batch(&self, p: &Vec<u32>, sk: &IceSubkey) -> (res: Vec<u32>)
        requires
            self.wf(),
        ensures
            res@.len() == p@.len(),
            forall|q: int| 0 <= q < p@.len() ==> #[trigger] res@[q] == f_spec(p@[q], sk.val@),
    {
        let mut res: Vec<u32> = Vec::with_capacity(p.len());
        let mut i: usize = 0;
        while i < p.len()
            invariant
                self.wf(),
                i <= p@.len(),
                res@.len() == i,
                forall|q: int| 0 <= q < i ==> #[trigger] res@[q] == f_spec(p@[q], sk.val@),
            decreases p@.len() - i,
        {
            res.push(self.ice_f(p[i], sk));
            i += 1;
        }
        res
    }

    /// XORs the round function of `src`'s lanes into `dst`'s lanes.
    fn xor_f_batch(&self, dst: &mut Vec<u32>, src: &Vec<u32>, sk: &IceSubkey)
        requires
            self.wf(),
            old(dst)@.len() == src@.len(),
        ensures
            final(dst)@.len() == old(dst)@.len(),
            forall|q: int|
                0 <= q < src@.len() ==> #[trigger] final(dst)@[q] == old(dst)@[q] ^ f_spec(
                    src@[q],
                    sk.val@,
                ),
    {
        let f = self.ice_f_batch(src, sk);
        let ghost d0 = dst@;
        let mut i: usize = 0;
        while i < dst.len()
            invariant
                i <= dst@.len(),
                dst@.len() == d0.len(),
                f@.len() == d0.len(),
                src@.len() == d0.len(),
                forall|q: int| 0 <= q < src@.len() ==> #[trigger] f@[q] == f_spec(src@[q], sk.val@),
                forall|q: int| 0 <= q < i ==> #[trigger] dst@[q] == d0[q] ^ f@[q],
                forall|q: int| i <= q < d0.len() ==> #[trigger] dst@[q] == d0[q],
            decreases d0.len() - i,
        {
            let v = dst[i] ^ f[i];
            dst.set(i, v);
            i += 1;
        }
    }

    /// Runs every round pair forwards on all lanes.
    fn encrypt_lanes(&self, l: &mut Vec<u32>, r: &mut Vec<u32>)
        requires
            self.wf(),
            old(l)@.len() == old(r)@.len(),
        ensures
            final(l)@.len() == old(l)@.len(),
            final(r)@.len() == old(r)@.len(),
            forall|q: int|
                0 <= q < old(l)@.len() ==> (#[trigger] final(l)@[q], final(r)@[q]) == all_rounds(
                    self@,
                    old(l)@[q],
                    old(r)@[q],
                    false,
                ),
    {
        let ghost ks = self@;
        let ghost l0 = l@;
        let ghost r0 = r@;
        let pairs = self.key.keysched.len() / 2;
        let mut t: usize = 0;
        while t < pairs
            invariant
                self.wf(),
                ks == self@,
                ks.len() == self.key.keysched.len(),
                pairs == ks.len() / 2,
                r0.len() == l0.len(),
                t <= pairs,
                l@.len() == l0.len(),
                r@.len() == l0.len(),
                forall|q: int|
                    0 <= q < l0.len() ==> (#[trigger] l@[q], r@[q]) == enc_rounds(
                        ks,
                        l0[q],
                        r0[q],
                        t as nat,
                    ),
            decreases pairs - t,
        {
            let ghost lp = l@;
            self.xor_f_batch(l, r, &self.key.keysched[2 * t]);
            self.xor_f_batch(r, l, &self.key.keysched[2 * t + 1]);
            assert forall|q: int| 0 <= q < l0.len() implies (#[trigger] l@[q], r@[q]) == enc_rounds(
                ks,
                l0[q],
                r0[q],
                (t + 1) as nat,
            ) by {
                assert(lp[q] == enc_rounds(ks, l0[q], r0[q], t as nat).0);
            }
            t += 1;
        }
    }

    /// Runs every round pair backwards on all lanes, each pair's subkeys
    /// in swapped order.
    fn decrypt_lanes(&self, l: &mut Vec<u32>, r: &mut Vec<u32>)
        requires
            self.wf(),
            old(l)@.len() == old(r)@.len(),
        ensures
            final(l)@.len() == old(l)@.len(),
            final(r)@.len() == old(r)@.len(),
            forall|q: int|
                0 <= q < old(l)@.len() ==> (#[trigger] final(l)@[q], final(r)@[q]) == all_rounds(
                    self@,
                    old(l)@[q],
                    old(r)@[q],
                    true,
                ),
    {
        let ghost ks = self@;
        let ghost l0 = l@;
        let ghost r0 = r@;
        let pairs = self.key.keysched.len() / 2;
        let mut t: usize = 0;
        while t < pairs
            invariant
                self.wf(),
                ks == self@,
                ks.len() == self.key.keysched.len(),
                pairs == ks.len() / 2,
                r0.len() == l0.len(),
                t <= pairs,
                l@.len() == l0.len(),
                r@.len() == l0.len(),
                forall|q: int|
                    0 <= q < l0.len() ==> (#[trigger] l@[q], r@[q]) == dec_rounds(
                        ks,
                        l0[q],
                        r0[q],
                        t as nat,
                    ),
            decreases pairs - t,
        {
            let ghost lp = l@;
            let p = pairs - 1 - t;
            self.xor_f_batch(l, r, &self.key.keysched[2 * p + 1]);
            self.xor_f_batch(r, l, &self.key.keysched[2 * p]);
            assert forall|q: int| 0 <= q < l0.len() implies (#[trigger] l@[q], r@[q]) == dec_rounds(
                ks,
                l0[q],
                r0[q],
                (t + 1) as nat,
            ) by {
                assert(lp[q] == dec_rounds(ks, l0[q], r0[q], t as nat).0);
            }
            t += 1;
        }
    }

    /// Transforms the batch of `b` blocks at byte `off` of `data` in
    /// place: all lanes are loaded, run through every round together, and
    /// stored with their halves swapped.
    pub(crate) fn process_chunk(&self, data: &mut [u8], off: usize, b: usize, decrypt: bool)
        requires
            self.wf(),
            off + 8 * b <= old(data)@.len(),
        ensures
            final(data)@ == splice(
                old(data)@,
                off as int,
                crypt(self@, old(data)@.subrange(off as int, off + 8 * b), decrypt),
            ),
    {
        let ghost d0 = data@;
        let ghost sub = d0.subrange(off as int, off + 8 * b);
        let ghost ks = self@;
        let mut l: Vec<u32> = Vec::with_capacity(b);
        let mut r: Vec<u32> = Vec::with_capacity(b);
        let mut i: usize = 0;
        while i < b
            invariant
                off + 8 * b <= data.len(),
                data@ == d0,
                sub == d0.subrange(off as int, off + 8 * b),
                i <= b,
                l@.len() == i,
                r@.len() == i,
                forall|q: int| 0 <= q < i ==> #[trigger] l@[q] == lane_left(sub, q),
                forall|q: int| 0 <= q < i ==> #[trigger] r@[q] == lane_right(sub, q),
            decreases b - i,
        {
            let o = off + 8 * i;
            l.push(
                ((data[o] as u32) << 24) | ((data[o + 1] as u32) << 16) | ((data[o + 2] as u32)
                    << 8) | (data[o + 3] as u32),
            );
            r.push(
                ((data[o + 4] as u32) << 24) | ((data[o + 5] as u32) << 16) | ((data[o + 6] as u32)
                    << 8) | (data[o + 7] as u32),
            );
            i += 1;
        }
        let ghost l0 = l@;
        let ghost r0 = r@;
        if decrypt {
            self.decrypt_lanes(&mut l, &mut r);
        } else {
            self.encrypt_lanes(&mut l, &mut r);
        }
        let ghost out = crypt(ks, sub, decrypt);
        let mut i: usize = 0;
        while i < b
            invariant
                off + 8 * b <= data.len(),
                sub == d0.subrange(off as int, off + 8 * b),
                out == crypt(ks, sub, decrypt),
                i <= b,
                l@.len() == b,
                r@.len() == b,
                l0.len() == b,
                r0.len() == b,
                forall|q: int| 0 <= q < b ==> #[trigger] l0[q] == lane_left(sub, q),
                forall|q: int| 0 <= q < b ==> #[trigger] r0[q] == lane_right(sub, q),
                forall|q: int|
                    0 <= q < b ==> (#[trigger] l@[q], r@[q]) == all_rounds(
                        ks,
                        l0[q],
                        r0[q],
                        decrypt,
                    ),
                data@ == splice(d0, off as int, out.subrange(0, 8 * i)),
            decreases b - i,
        {
            let lv = l[i];
            let rv = r[i];
            proof {
                assert((lv, rv) == all_rounds(ks, l0[i as int], r0[i as int], decrypt));
                lemma_block_out(ks, sub, i as int, decrypt);
                assert(out.subrange(8 * i, 8 * i + 8) == be_bytes(rv) + be_bytes(lv));
            }
            store_block(data, off + 8 * i, lv, rv);
            proof {
                lemma_splice_grow(d0, off as int, out, 8 * i as int);
            }
            i += 1;
        }
        assert(data@ =~= splice(d0, off as int, out));
    }
}

} // verus!
