//! The velocities of a variation take: the clean take as it is asked for, later
//! ones perturbed by a fixed pseudo-random sequence.
use vstd::prelude::*;

verus! {

/// The SplitMix64 finalizer of a seed.
pub open spec fn mixed(seed: u64) -> u64 {
    let a = seed.wrapping_add(0x9E37_79B9_7F4A_7C15);
    let b = (a ^ (a >> 30u64)).wrapping_mul(0xBF58_476D_1CE4_E5B9);
    let c = (b ^ (b >> 27u64)).wrapping_mul(0x94D0_49BB_1331_11EB);
    c ^ (c >> 31u64)
}

/// A small deterministic hash to a pseudo-random `u64` (SplitMix64 finalizer).
pub fn splitmix64(seed: u64) -> (r: u64)
    ensures
        r == mixed(seed),
{
    let mut z: u64 = seed.wrapping_add(0x9E37_79B9_7F4A_7C15);
    z = (z ^ (z >> 30u64)).wrapping_mul(0xBF58_476D_1CE4_E5B9);
    z = (z ^ (z >> 27u64)).wrapping_mul(0x94D0_49BB_1331_11EB);
    z ^ (z >> 31u64)
}

/// The seed of a slot of a take.
pub open spec fn take_seed(variation: u32, i: u64) -> u64 {
    ((variation as u64) << 40u64) ^ i ^ 0xA5A5_1234_5678
}

/// The perturbed velocity of slot `i` of a take: at most `jitter` away, within
/// 1 and 127.
pub open spec fn jittered(base: u8, jitter: u8, variation: u32, i: u64) -> u8 {
    let span = 2 * jitter + 1;
    let v = base + mixed(take_seed(variation, i)) as int % span - jitter;
    if v < 1 {
        1
    } else if v > 127 {
        127
    } else {
        v as u8
    }
}

/// The velocities of a take.
pub open spec fn take_velocities(n: nat, base: u8, jitter: u8, variation: u32) -> Seq<u8> {
    Seq::new(
        n,
        |i: int|
            if variation == 0 || jitter == 0 {
                base
            } else {
                jittered(base, jitter, variation, i as u64)
            },
    )
}

/// Per-slot velocities for a take. Variation 0 (or zero jitter) is the clean
/// take; later variations perturb each slot deterministically within the jitter.
pub fn slot_velocities(n: usize, base: u8, jitter: u8, variation: u32) -> (r: Vec<u8>)
    ensures
        r@ == take_velocities(n as nat, base, jitter, variation),
{
    let mut out: Vec<u8> = Vec::new();
    let mut i: usize = 0;
    while i < n
        invariant
            i <= n,
            out@ =~= take_velocities(i as nat, base, jitter, variation),
        decreases n - i,
    {
        if variation == 0 || jitter == 0 {
            out.push(base);
        } else {
            let seed: u64 = ((variation as u64) << 40u64) ^ (i as u64) ^ 0xA5A5_1234_5678;
            let span: u64 = 2 * (jitter as u64) + 1;
            let delta: i32 = (splitmix64(seed) % span) as i32 - jitter as i32;
            let v: i32 = base as i32 + delta;
            let clamped: u8 = if v < 1 {
                1
            } else if v > 127 {
                127
            } else {
                v as u8
            };
            out.push(clamped);
        }
        i += 1;
    }
    out
}

/// The clean take, and any take without jitter, plays every slot as asked for.
pub proof fn lemma_clean_take(n: nat, base: u8, jitter: u8, variation: u32, i: int)
    requires
        variation == 0 || jitter == 0,
        0 <= i < n,
    ensures
        take_velocities(n, base, jitter, variation)[i] == base,
{
}

/// A perturbed velocity is a valid one that sounds, and no further from the one
/// asked for than the jitter, as far as that is within 1 and 127 itself.
pub proof fn lemma_jitter_stays_close(n: nat, base: u8, jitter: u8, variation: u32, i: int)
    requires
        variation > 0,
        jitter > 0,
        0 <= i < n,
    ensures
        1 <= take_velocities(n, base, jitter, variation)[i] <= 127,
        1 <= base <= 127 ==> base - jitter <= take_velocities(n, base, jitter, variation)[i] <= base
            + jitter,
{
}

/// No two slots of any takes share a seed: neither two slots of one take nor the same
/// slot of two takes.
pub proof fn lemma_seeds_differ(variation: u32, i: u64, other: u32, j: u64)
    requires
        variation < 0x100_0000,
        other < 0x100_0000,
        i < 0x100_0000_0000,
        j < 0x100_0000_0000,
        take_seed(variation, i) == take_seed(other, j),
    ensures
        variation == other,
        i == j,
{
    let (a, b) = (variation as u64, other as u64);
    assert(a == b && i == j) by (bit_vector)
        requires
            a < 0x100_0000,
            b < 0x100_0000,
            i < 0x100_0000_0000,
            j < 0x100_0000_0000,
            (a << 40u64) ^ i ^ 0xA5A5_1234_5678 == (b << 40u64) ^ j ^ 0xA5A5_1234_5678,
    ;
}

} // verus!
