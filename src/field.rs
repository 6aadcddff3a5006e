//! Arithmetic in the small Galois fields that the substitution tables use.
use vstd::prelude::*;

verus! {

/// `a * 2` reduced by `m` once it reaches 256, on 32-bit words.
pub open spec fn gf_double(a: u32, m: u32) -> u32 {
    let d = (a << 1u32) as u32;
    if d >= 256 {
        d ^ m
    } else {
        d
    }
}

/// Shift-and-add product of `a` and `b`, reducing by `m` after each doubling.
pub open spec fn gf_mult_spec(a: u32, b: u32, m: u32) -> u32
    decreases b,
{
    if b == 0 {
        0
    } else {
        let rest = gf_mult_spec(gf_double(a, m), b / 2, m);
        if b % 2 == 1 {
            a ^ rest
        } else {
            rest
        }
    }
}

/// `b` raised to the seventh power in the field given by `m`.
pub open spec fn gf_exp7_spec(b: u32, m: u32) -> u32 {
    if b == 0 {
        0
    } else {
        let x2 = gf_mult_spec(b, b, m);
        let x3 = gf_mult_spec(b, x2, m);
        let x6 = gf_mult_spec(x3, x3, m);
        gf_mult_spec(b, x6, m)
    }
}

proof fn lemma_xor_assoc(x: u32, y: u32, z: u32)
    ensures
        (x ^ y) ^ z == x ^ (y ^ z),
{
    assert((x ^ y) ^ z == x ^ (y ^ z)) by (bit_vector);
}

proof fn lemma_xor_zero(x: u32)
    ensures
        x ^ 0 == x,
        0 ^ x == x,
{
    assert(x ^ 0 == x && 0 ^ x == x) by (bit_vector);
}

/// Galois-field multiplication of `a` by `b` modulo `m`.
pub fn gf_mult(a: u32, b: u32, m: u32) -> (r: u32)
    ensures
        r == gf_mult_spec(a, b, m),
{
    let ghost (a_in, b_in) = (a, b);
    let mut a = a;
    let mut b = b;
    let mut res: u32 = 0;
    proof {
        lemma_xor_zero(gf_mult_spec(a, b, m));
    }
    while b != 0
        invariant
            res ^ gf_mult_spec(a, b, m) == gf_mult_spec(a_in, b_in, m),
        decreases b,
    {
        let ghost (a0, b0, r0) = (a, b, res);
        assert(b & 1 == b % 2 && b >> 1 == b / 2) by (bit_vector);
        if (b & 1) != 0 {
            res ^= a;
        }
        a <<= 1;
        b >>= 1;
        if a >= 256 {
            a ^= m;
        }
        assert(a == gf_double(a0, m));
        proof {
            lemma_xor_assoc(r0, a0, gf_mult_spec(a, b, m));
        }
    }
    proof {
        lemma_xor_zero(res);
    }
    res
}

/// Raises `b` to the seventh power modulo `m`; zero stays zero.
pub fn gf_exp7(b: u32, m: u32) -> (r: u32)
    ensures
        r == gf_exp7_spec(b, m),
{
    if b == 0 {
        return 0;
    }
    let mut x = gf_mult(b, b, m);
    x = gf_mult(b, x, m);
    x = gf_mult(x, x, m);
    gf_mult(b, x, m)
}

} // verus!
