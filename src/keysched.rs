//! The key schedule: a caller's key expanded into one subkey of three
//! 32-bit words per round, by rotating four 16-bit registers.
use vstd::prelude::*;

verus! {

/// The three words one round of the round function consumes.
#[derive(Clone, Copy, Debug)]
pub struct IceSubkey {
    pub val: [u32; 3],
}

/// The register rotation table: entries 0 to 7 drive the forward group of
/// rounds of a key slice, entries 8 to 15 its mirror group.
pub open spec fn keyrot_table() -> Seq<u32> {
    seq![0u32, 1, 2, 3, 2, 1, 3, 0, 1, 3, 2, 0, 3, 1, 0, 2]
}

fn keyrot_array() -> (r: [u32; 16])
    ensures
        r@ == keyrot_table(),
{
    let t: [u32; 16] = [0, 1, 2, 3, 2, 1, 3, 0, 1, 3, 2, 0, 3, 1, 0, 2];
    assert(t@ =~= keyrot_table());
    t
}

/// One rotation step on register `ri`: its low bit comes out and its
/// complement goes in at the top.
pub open spec fn rotate_reg(reg: u16) -> u16 {
    ((reg >> 1u16) | (((reg & 1) ^ 1) << 15u16)) as u16
}

/// The registers and the subkey words after `s` extraction steps of one
/// round whose rotation entry is `kr`. Step `t` feeds word `(t / 4) % 3`
/// from register `(kr + t % 4) % 4`.
pub open spec fn round_after(kb: Seq<u16>, kr: u32, s: nat) -> (Seq<u16>, Seq<u32>)
    decreases s,
{
    if s == 0 {
        (kb, seq![0u32, 0u32, 0u32])
    } else {
        let (kb1, sk1) = round_after(kb, kr, (s - 1) as nat);
        let t = s - 1;
        let w = (t / 4) % 3;
        let ri = (kr + t % 4) % 4;
        let reg = kb1[ri];
        let bit = reg & 1;
        (
            kb1.update(ri, rotate_reg(reg)),
            sk1.update(w, ((sk1[w] << 1u32) | (bit as u32)) as u32),
        )
    }
}

/// The registers and the subkeys after the first `n` rounds of a group of
/// eight, whose rotation entries are `rot`.
pub open spec fn group_after(kb: Seq<u16>, rot: Seq<u32>, n: nat) -> (Seq<u16>, Seq<Seq<u32>>)
    decreases n,
{
    if n == 0 {
        (kb, seq![])
    } else {
        let (kb1, subs) = group_after(kb, rot, (n - 1) as nat);
        let (kb2, sk) = round_after(kb1, rot[n - 1], 60);
        (kb2, subs.push(sk))
    }
}

/// The four registers loaded from the eight key bytes at `base`: big-endian
/// pairs, the last pair in register 0.
pub open spec fn key_regs(key: Seq<u8>, base: int) -> Seq<u16> {
    let pair = |o: int| (((key[base + o] as u16) << 8u16) | (key[base + o + 1] as u16)) as u16;
    seq![pair(6), pair(4), pair(2), pair(0)]
}

/// `s` with the entries from `off` on replaced by `g`.
pub open spec fn splice<T>(s: Seq<T>, off: int, g: Seq<T>) -> Seq<T> {
    Seq::new(s.len(), |k: int| if off <= k < off + g.len() { g[k - off] } else { s[k] })
}

/// The schedule of `rounds` rounds after the first `n` key slices of
/// eight bytes have been expanded.
pub open spec fn slices_after(key: Seq<u8>, rounds: nat, n: nat) -> Seq<Seq<u32>>
    decreases n,
{
    if n == 0 {
        Seq::new(rounds, |k: int| seq![0u32, 0u32, 0u32])
    } else {
        let i = n - 1;
        let prev = slices_after(key, rounds, i as nat);
        let (kb1, fwd) = group_after(key_regs(key, 8 * i), keyrot_table().subrange(0, 8), 8);
        let (kb2, mir) = group_after(kb1, keyrot_table().subrange(8, 16), 8);
        splice(splice(prev, 8 * i, fwd), rounds - 8 - 8 * i, mir)
    }
}

/// Key size in eight-byte slices: `level`, and one for level 0.
pub open spec fn key_slices(level: nat) -> nat {
    if level < 1 {
        1
    } else {
        level
    }
}

/// Number of rounds: 8 for level 0, else `16 * level`.
pub open spec fn round_count(level: nat) -> nat {
    if level < 1 {
        8
    } else {
        16 * level
    }
}

/// The key schedule of `key` at `level`. Level 0 builds only the forward
/// group of its one slice.
pub open spec fn schedule_spec(key: Seq<u8>, level: nat) -> Seq<Seq<u32>> {
    if level < 1 {
        group_after(key_regs(key, 0), keyrot_table().subrange(0, 8), 8).1
    } else {
        slices_after(key, round_count(level), level)
    }
}

/// The words of each subkey.
pub open spec fn subkeys_view(ks: Seq<IceSubkey>) -> Seq<Seq<u32>> {
    ks.map_values(|s: IceSubkey| s.val@)
}

/// Builds one group of eight rounds into `keysched` at `n`, with the
/// rotation entries `keyrot[rot_base..rot_base + 8]`.
fn key_sched_build(
    keysched: &mut Vec<IceSubkey>,
    kb: &mut [u16; 4],
    n: usize,
    keyrot: &[u32; 16],
    rot_base: usize,
)
    requires
        n + 8 <= old(keysched)@.len(),
        rot_base + 8 <= 16,
        forall|i: int| 0 <= i < 16 ==> #[trigger] keyrot@[i] < 4,
    ensures
        final(keysched)@.len() == old(keysched)@.len(),
        ({
            let (kb2, g) = group_after(old(kb)@, keyrot@.subrange(rot_base as int, rot_base + 8), 8);
            final(kb)@ == kb2 && subkeys_view(final(keysched)@) == splice(
                subkeys_view(old(keysched)@),
                n as int,
                g,
            )
        }),
{
    let ghost rot = keyrot@.subrange(rot_base as int, rot_base + 8);
    let ghost kb0 = kb@;
    let ghost ks0 = subkeys_view(keysched@);
    let mut i: usize = 0;
    while i < 8
        invariant
            i <= 8,
            n + 8 <= keysched.len(),
            rot_base + 8 <= 16,
            rot == keyrot@.subrange(rot_base as int, rot_base + 8),
            forall|q: int| 0 <= q < 16 ==> #[trigger] keyrot@[q] < 4,
            kb@ == group_after(kb0, rot, i as nat).0,
            group_after(kb0, rot, i as nat).1.len() == i,
            subkeys_view(keysched@) == splice(ks0, n as int, group_after(kb0, rot, i as nat).1),
        decreases 8 - i,
    {
        let kr = keyrot[rot_base + i];
        let ghost kb_start = kb@;
        let mut val: [u32; 3] = [0, 0, 0];
        assert(val@ =~= seq![0u32, 0u32, 0u32]);
        let mut j: usize = 0;
        while j < 15
            invariant
                j <= 15,
                kr < 4,
                (kb@, val@) == round_after(kb_start, kr, (4 * j) as nat),
            decreases 15 - j,
        {
            let mut k: u32 = 0;
            while k < 4
                invariant
                    j < 15,
                    k <= 4,
                    kr < 4,
                    (kb@, val@) == round_after(kb_start, kr, (4 * j + k) as nat),
                decreases 4 - k,
            {
                let ghost t = 4 * j + k;
                assert(t / 4 == j && t % 4 == k);
                let ri = ((kr + k) % 4) as usize;
                let reg = kb[ri];
                let bit = reg & 1;
                val[j % 3] = (val[j % 3] << 1) | (bit as u32);
                kb[ri] = (reg >> 1) | ((bit ^ 1) << 15);
                proof {
                    let (kb1, sk1) = round_after(kb_start, kr, t as nat);
                    assert(kb@ =~= kb1.update(ri as int, rotate_reg(reg)));
                    assert(val@ =~= sk1.update((j % 3) as int, ((sk1[(j % 3) as int] << 1u32) | (bit as u32)) as u32));
                }
                k += 1;
            }
            j += 1;
        }
        let ghost prev = subkeys_view(keysched@);
        let ghost subs = group_after(kb0, rot, i as nat).1;
        assert(kr == rot[i as int]);
        assert(4 * 15 == 60);
        keysched.set(n + i, IceSubkey { val });
        proof {
            let g = group_after(kb0, rot, (i + 1) as nat).1;
            assert(g == subs.push(val@));
            assert(subkeys_view(keysched@) =~= prev.update(n + i, val@));
            assert(subkeys_view(keysched@) =~= splice(ks0, n as int, g));
        }
        i += 1;
    }
}

} // verus!

verus! {

proof fn lemma_group_len(kb: Seq<u16>, rot: Seq<u32>, n: nat)
    ensures
        group_after(kb, rot, n).1.len() == n,
    decreases n,
{
    if n > 0 {
        lemma_group_len(kb, rot, (n - 1) as nat);
    }
}

/// Loads the four registers from the eight key bytes at `base`.
fn load_regs(key: &[u8], base: usize) -> (kb: [u16; 4])
    requires
        base + 8 <= key.len(),
    ensures
        kb@ == key_regs(key@, base as int),
{
    let mut kb: [u16; 4] = [0, 0, 0, 0];
    let mut j: usize = 0;
    while j < 4
        invariant
            j <= 4,
            base + 8 <= key.len(),
            forall|q: int|
                0 <= q < j ==> #[trigger] kb@[3 - q] == key_regs(key@, base as int)[3 - q],
        decreases 4 - j,
    {
        let b = base + j * 2;
        kb[3 - j] = ((key[b] as u16) << 8) | (key[b + 1] as u16);
        j += 1;
    }
    assert(kb@ =~= key_regs(key@, base as int)) by {
        assert forall|q: int| 0 <= q < 4 implies kb@[q] == key_regs(key@, base as int)[q] by {
            assert(kb@[3 - (3 - q)] == key_regs(key@, base as int)[3 - (3 - q)]);
        }
    }
    kb
}

/// Expands `key` into the schedule of `level`: one subkey per round.
pub fn key_set(level: usize, key: &[u8]) -> (ks: Vec<IceSubkey>)
    requires
        key@.len() >= 8 * key_slices(level as nat),
        round_count(level as nat) <= usize::MAX,
    ensures
        ks@.len() == round_count(level as nat),
        subkeys_view(ks@) == schedule_spec(key@, level as nat),
{
    let keyrot = keyrot_array();
    let size: usize = if level < 1 { 1 } else { level };
    let rounds: usize = if level < 1 { 8 } else { level * 16 };
    let mut ks: Vec<IceSubkey> = Vec::new();
    let mut r: usize = 0;
    while r < rounds
        invariant
            r <= rounds,
            ks@.len() == r,
            forall|q: int| 0 <= q < r ==> (#[trigger] ks@[q]).val@ == seq![0u32, 0u32, 0u32],
        decreases rounds - r,
    {
        ks.push(IceSubkey { val: [0, 0, 0] });
        proof {
            assert(ks@[r as int].val@ =~= seq![0u32, 0u32, 0u32]);
        }
        r += 1;
    }
    proof {
        assert(subkeys_view(ks@) =~= slices_after(key@, rounds as nat, 0));
        assert(keyrot@.subrange(0, 8) == keyrot_table().subrange(0, 8));
        assert(keyrot@.subrange(8, 16) == keyrot_table().subrange(8, 16));
    }
    if level < 1 {
        let mut kb = load_regs(key, 0);
        key_sched_build(&mut ks, &mut kb, 0, &keyrot, 0);
        proof {
            let g = group_after(key_regs(key@, 0), keyrot_table().subrange(0, 8), 8).1;
            lemma_group_len(key_regs(key@, 0), keyrot_table().subrange(0, 8), 8);
            assert(subkeys_view(ks@) =~= g);
        }
        return ks;
    }
    let mut i: usize = 0;
    while i < size
        invariant
            level >= 1,
            size == level,
            rounds == 16 * size,
            i <= size,
            key@.len() >= 8 * size,
            keyrot@ == keyrot_table(),
            ks@.len() == rounds,
            subkeys_view(ks@) == slices_after(key@, rounds as nat, i as nat),
        decreases size - i,
    {
        let mut kb = load_regs(key, i * 8);
        key_sched_build(&mut ks, &mut kb, i * 8, &keyrot, 0);
        key_sched_build(&mut ks, &mut kb, rounds - 8 - i * 8, &keyrot, 8);
        i += 1;
    }
    ks
}

} // verus!
