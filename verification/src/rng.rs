use vstd::prelude::*;
use rand::RngCore;

verus! {

/// `rand::rngs::StdRng`, the seedable generator every random choice of the
/// simulator draws from. Declared so that verified code can hold and pass
/// one; its inside stays opaque.
#[verifier::external_type_specification]
#[verifier::external_body]
pub struct ExStdRng(rand::rngs::StdRng);

/// Relies on rand's `RngCore::next_u64` for `StdRng`: one word of the
/// generator's stream. Nothing is promised of the value.
#[verifier::external_body]
pub fn rng_next_u64(rng: &mut rand::rngs::StdRng) -> u64 {
    rng.next_u64()
}

/// One uniformly random bit.
pub fn rand_bit(rng: &mut rand::rngs::StdRng) -> bool {
    rng_next_u64(rng) & 1 == 1
}

/// One uniform draw of 53 bits, the grain of a Bernoulli comparison.
pub fn rand_u53(rng: &mut rand::rngs::StdRng) -> (r: u64)
    ensures
        r < crate::decimal::TWO_POW_53,
{
    let u = rng_next_u64(rng);
    let r = u >> 11;
    proof {
        assert(u >> 11 < 0x20_0000_0000_0000) by (bit_vector);
    }
    r
}

/// A draw in `[0, n)` by the fixed-point multiply of a full word.
pub fn rand_below(rng: &mut rand::rngs::StdRng, n: u32) -> (r: u32)
    requires
        1 <= n,
    ensures
        r < n,
{
    let u = rng_next_u64(rng);
    proof {
        let ui = u as int;
        let ni = n as int;
        assert(0 <= ui * ni <= 0x1_0000_0000_0000_0000 * ni - ni) by (nonlinear_arith)
            requires
                0 <= ui < 0x1_0000_0000_0000_0000,
                1 <= ni,
        ;
        assert(0x1_0000_0000_0000_0000 * ni - ni < 0x1_0000_0000_0000_0000_0000_0000)
            by (nonlinear_arith)
            requires
                1 <= ni < 0x1_0000_0000,
        ;
    }
    let wide: u128 = (u as u128) * (n as u128);
    let high: u128 = wide >> 64;
    proof {
        let ui = u as int;
        let ni = n as int;
        let w = wide;
        assert(w >> 64 == w / 0x1_0000_0000_0000_0000u128) by (bit_vector);
        assert((ui * ni) / 0x1_0000_0000_0000_0000 < ni) by (nonlinear_arith)
            requires
                0 <= ui * ni <= 0x1_0000_0000_0000_0000 * ni - ni,
                1 <= ni,
        ;
    }
    high as u32
}

} // verus!
