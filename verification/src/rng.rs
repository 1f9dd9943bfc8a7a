//! The deterministic pseudo-random generator: a 32-bit linear-congruential
//! generator whose draws derive a puzzle's unit order and drive the
//! randomized solver. Exact reproducibility of the sequence is the point.
use vstd::prelude::*;

verus! {

/// The LCG multiplier.
pub const LCG_MUL: u32 = 1103515245;

/// The LCG increment.
pub const LCG_INC: u32 = 12345;

/// One LCG step: `x <- (1103515245 * x + 12345) mod 2^32`.
pub open spec fn lcg_next(x: u32) -> u32 {
    vstd::wrapping::u32_specs::wrapping_add(
        vstd::wrapping::u32_specs::wrapping_mul(LCG_MUL, x),
        LCG_INC,
    )
}

/// The generator's state after `k` steps from `seed`.
pub open spec fn lcg_state(seed: u32, k: nat) -> u32
    decreases k,
{
    if k == 0 {
        seed
    } else {
        lcg_next(lcg_state(seed, (k - 1) as nat))
    }
}

/// What one draw emits: bits 16 through 30 of the current state.
pub open spec fn lcg_out(x: u32) -> i32 {
    ((x >> 16u32) & 0x7fffu32) as i32
}

/// The emitted sequence for `num` requested draws: the very first draw is
/// emitted before any update, so the sequence has length `num + 1`.
pub open spec fn source_order(seed: u32, num: int) -> Seq<i32> {
    Seq::new((num + 1) as nat, |k: int| lcg_out(lcg_state(seed, k as nat)))
}

/// Draw `num + 1` values from the generator seeded with `seed`; the template
/// for piece `i` of a game is chosen by value `i` of this sequence.
pub fn get_source_order(seed: i32, num: i32) -> (out: Vec<i32>)
    requires
        num >= 0,
    ensures
        out@ == source_order(#[verifier::truncate] (seed as u32), num as int),
{
    let ghost s0 = #[verifier::truncate] (seed as u32);
    let mut out: Vec<i32> = Vec::new();
    let mut x: u32 = #[verifier::truncate] (seed as u32);

    proof {
        assert(((x >> 16u32) & 0x7fffu32) <= 0x7fffu32) by (bit_vector);
    }
    out.push((((x >> 16) & 0x7fff) as i32));

    let n = num as usize;
    for i in 0..n
        invariant
            n == num,
            x == lcg_state(s0, i as nat),
            out@.len() == i + 1,
            forall|k: int| 0 <= k <= i ==> out@[k] == lcg_out(lcg_state(s0, k as nat)),
    {
        x = LCG_MUL.wrapping_mul(x).wrapping_add(LCG_INC);
        proof {
            assert(((x >> 16u32) & 0x7fffu32) <= 0x7fffu32) by (bit_vector);
        }
        out.push((((x >> 16) & 0x7fff) as i32));
    }
    proof {
        assert(out@ =~= source_order(s0, num as int));
    }
    out
}

} // verus!
