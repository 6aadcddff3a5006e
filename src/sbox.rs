//! The bit permutation and the four substitution tables of the round
//! function. The tables depend on fixed constants only, never on a key.
use crate::field::{gf_exp7, gf_exp7_spec};
use vstd::prelude::*;

verus! {

/// The modulus of each table's field, row by row (`4 * table + row`).
pub open spec fn smod_table() -> Seq<u32> {
    seq![
        333u32, 313, 505, 369,
        379, 375, 319, 391,
        361, 445, 451, 397,
        397, 425, 395, 505,
    ]
}

/// The value XORed into each table's column index, row by row.
pub open spec fn sxor_table() -> Seq<u32> {
    seq![
        0x83u32, 0x85, 0x9b, 0xcd,
        0xcc, 0xa7, 0xad, 0x41,
        0x4b, 0x2e, 0xd4, 0x33,
        0xea, 0xcb, 0x2e, 0x04,
    ]
}

/// The output mask of each of the 32 input bits of the permutation.
pub open spec fn pbox_table() -> Seq<u32> {
    seq![
        0x00000001u32, 0x00000080, 0x00000400, 0x00002000,
        0x00080000, 0x00200000, 0x01000000, 0x40000000,
        0x00000008, 0x00000020, 0x00000100, 0x00004000,
        0x00010000, 0x00800000, 0x04000000, 0x20000000,
        0x00000004, 0x00000010, 0x00000200, 0x00008000,
        0x00020000, 0x00400000, 0x08000000, 0x10000000,
        0x00000002, 0x00000040, 0x00000800, 0x00001000,
        0x00040000, 0x00100000, 0x02000000, 0x80000000,
    ]
}

fn smod_array() -> (r: [u32; 16])
    ensures
        r@ == smod_table(),
{
    let t: [u32; 16] = [
        333, 313, 505, 369,
        379, 375, 319, 391,
        361, 445, 451, 397,
        397, 425, 395, 505,
    ];
    assert(t@ =~= smod_table());
    t
}

fn sxor_array() -> (r: [u32; 16])
    ensures
        r@ == sxor_table(),
{
    let t: [u32; 16] = [
        0x83, 0x85, 0x9b, 0xcd,
        0xcc, 0xa7, 0xad, 0x41,
        0x4b, 0x2e, 0xd4, 0x33,
        0xea, 0xcb, 0x2e, 0x04,
    ];
    assert(t@ =~= sxor_table());
    t
}

fn pbox_array() -> (r: [u32; 32])
    ensures
        r@ == pbox_table(),
{
    let t: [u32; 32] = [
        0x00000001, 0x00000080, 0x00000400, 0x00002000,
        0x00080000, 0x00200000, 0x01000000, 0x40000000,
        0x00000008, 0x00000020, 0x00000100, 0x00004000,
        0x00010000, 0x00800000, 0x04000000, 0x20000000,
        0x00000004, 0x00000010, 0x00000200, 0x00008000,
        0x00020000, 0x00400000, 0x08000000, 0x10000000,
        0x00000002, 0x00000040, 0x00000800, 0x00001000,
        0x00040000, 0x00100000, 0x02000000, 0x80000000,
    ];
    assert(t@ =~= pbox_table());
    t
}

/// The OR of the masks of the set bits of `x` at positions `i` and above.
pub open spec fn perm32_from(x: u32, i: nat) -> u32
    decreases 32 - i,
{
    if i >= 32 {
        0
    } else {
        let rest = perm32_from(x, i + 1);
        if (x >> (i as u32)) & 1 != 0 {
            pbox_table()[i as int] | rest
        } else {
            rest
        }
    }
}

/// The 32-bit permutation: each set input bit contributes its mask.
pub open spec fn perm32_spec(x: u32) -> u32 {
    perm32_from(x, 0)
}

proof fn lemma_or_step(res: u32, p: u32, rest: u32)
    ensures
        (res | p) | rest == res | (p | rest),
        res | 0 == res,
        0 | rest == rest,
{
    assert((res | p) | rest == res | (p | rest) && res | 0 == res && 0 | rest == rest)
        by (bit_vector);
}

proof fn lemma_shift_step(x0: u32, i: u32)
    requires
        i < 32,
    ensures
        (x0 >> i) >> 1u32 == x0 >> ((i + 1) as u32),
        (x0 >> i) & 1 == (x0 >> i) % 2,
        x0 >> 0u32 == x0,
{
    assert((x0 >> i) >> 1u32 == x0 >> ((i + 1) as u32) && (x0 >> i) & 1 == (x0 >> i) % 2
        && x0 >> 0u32 == x0) by (bit_vector)
        requires
            i < 32,
    ;
}

/// Applies the cipher's fixed 32-bit bit permutation to `x`.
pub fn ice_perm32(x: u32) -> (r: u32)
    ensures
        r == perm32_spec(x),
{
    let pbox = pbox_array();
    let ghost x_in = x;
    let mut x = x;
    let mut res: u32 = 0;
    let mut i: usize = 0;
    proof {
        lemma_shift_step(x_in, 0);
        lemma_or_step(0, 0, perm32_from(x_in, 0));
    }
    while i < 32
        invariant
            i <= 32,
            pbox@ == pbox_table(),
            x == x_in >> (i as u32),
            res | perm32_from(x_in, i as nat) == perm32_spec(x_in),
        decreases 32 - i,
    {
        proof {
            lemma_shift_step(x_in, i as u32);
        }
        let ghost r0 = res;
        let ghost rest = perm32_from(x_in, (i + 1) as nat);
        if (x & 1) != 0 {
            res |= pbox[i];
            proof {
                lemma_or_step(r0, pbox_table()[i as int], rest);
            }
        } else {
            proof {
                lemma_or_step(r0, 0, rest);
            }
        }
        x >>= 1;
        i += 1;
    }
    proof {
        lemma_or_step(res, 0, 0);
    }
    res
}

/// Entry `i` of table `t` of the substitution tables, before flattening.
pub open spec fn sbox_value(t: int, i: u32) -> u32 {
    let col = (i >> 1u32) & 0xff;
    let row = (i & 1) | ((i & 0x200) >> 8u32);
    let e = gf_exp7_spec(col ^ sxor_table()[4 * t + row], smod_table()[4 * t + row]);
    perm32_spec((e << ((24 - 8 * t) as u32)) as u32)
}

/// Entry `j` of the flattened table set: table `j / 1024`, row `j % 1024`.
pub open spec fn sbox_spec(j: int) -> u32 {
    sbox_value(j / 1024, (j % 1024) as u32)
}

proof fn lemma_row_bound(i: u32)
    ensures
        (i & 1) | ((i & 0x200) >> 8u32) < 4,
        (i >> 1u32) & 0xff < 256,
{
    assert((i & 1) | ((i & 0x200) >> 8u32) < 4 && (i >> 1u32) & 0xff < 256) by (bit_vector);
}

/// Builds the four substitution tables, flattened: table `t` holds
/// entries `1024 * t` up to `1024 * (t + 1)`.
pub fn build_sboxes() -> (out: Vec<u32>)
    ensures
        out@.len() == 4096,
        forall|j: int| 0 <= j < 4096 ==> #[trigger] out@[j] == sbox_spec(j),
{
    let smod = smod_array();
    let sxor = sxor_array();
    let mut out: Vec<u32> = Vec::new();
    let mut t: usize = 0;
    while t < 4
        invariant
            t <= 4,
            smod@ == smod_table(),
            sxor@ == sxor_table(),
            out@.len() == 1024 * t,
            forall|j: int| 0 <= j < out@.len() ==> #[trigger] out@[j] == sbox_spec(j),
        decreases 4 - t,
    {
        let mut i: u32 = 0;
        while i < 1024
            invariant
                t < 4,
                i <= 1024,
                smod@ == smod_table(),
                sxor@ == sxor_table(),
                out@.len() == 1024 * t + i,
                forall|j: int| 0 <= j < out@.len() ==> #[trigger] out@[j] == sbox_spec(j),
            decreases 1024 - i,
        {
            proof {
                lemma_row_bound(i);
            }
            let col = (i >> 1) & 0xff;
            let row = ((i & 1) | ((i & 0x200) >> 8)) as usize;
            let k = 4 * t + row;
            let e = gf_exp7(col ^ sxor[k], smod[k]);
            let shift = (24 - 8 * t) as u32;
            let v = ice_perm32(e << shift);
            proof {
                let j = 1024 * t + i;
                assert(j / 1024 == t as int && j % 1024 == i as int);
                assert(v == sbox_value(t as int, i));
            }
            out.push(v);
            i += 1;
        }
        t += 1;
    }
    out
}

} // verus!
