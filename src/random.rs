use vstd::prelude::*;

use vstd::arithmetic::div_mod::{lemma_div_pos_is_pos, lemma_multiply_divide_lt};

verus! {

/// First constant mixed into the state by [`hash`].
pub const HASH_SEED: u32 = 2747636419;

/// Multiplier of the mixing rounds of [`hash`].
pub const HASH_MUL: u32 = 2654435769;

/// One xor-shift-multiply round of the mixing function.
pub open spec fn mix_round(s: u32) -> u32 {
    (s ^ (s >> 16u32)).wrapping_mul(HASH_MUL)
}

/// The stateless integer mixing function.
pub open spec fn hash_spec(state: u32) -> u32 {
    mix_round(mix_round((state ^ HASH_SEED).wrapping_mul(HASH_MUL)))
}

/// Mixes a 32-bit state into a well-distributed 32-bit value; a pure function of its input.
pub fn hash(state: u32) -> (r: u32)
    ensures
        r == hash_spec(state),
{
    let mut s: u32 = state ^ HASH_SEED;
    s = s.wrapping_mul(HASH_MUL);
    s = s ^ (s >> 16u32);
    s = s.wrapping_mul(HASH_MUL);
    s = s ^ (s >> 16u32);
    s = s.wrapping_mul(HASH_MUL);
    s
}


/// `amount` scaled by the hash value `h` read as a fraction `h / 2^32` in `[0, 1)`.
pub open spec fn fraction_of(h: u32, amount: int) -> int {
    (h * amount) / 0x1_0000_0000
}

/// A positive amount scaled by a fraction in `[0, 1)` stays between zero and the amount.
pub proof fn lemma_fraction_below(h: u32, amount: int)
    requires
        amount > 0,
    ensures
        0 <= fraction_of(h, amount) < amount,
{
    let p = h * amount;
    assert(0 <= p < 0x1_0000_0000 * amount) by (nonlinear_arith)
        requires p == h * amount, 0 <= h < 0x1_0000_0000, amount > 0;
    lemma_div_pos_is_pos(p, 0x1_0000_0000);
    lemma_multiply_divide_lt(p, 0x1_0000_0000, amount);
}

/// Scales `amount` by the hash value `h` read as a fraction in `[0, 1)`; the result lies
/// below `amount` whenever `amount` is positive.
pub fn fraction(h: u32, amount: u64) -> (r: u64)
    ensures
        r == fraction_of(h, amount as int),
        r <= amount,
        amount > 0 ==> r < amount,
{
    proof {
        let p = h as int * amount as int;
        assert(0 <= p <= 0xffff_ffff * 0xffff_ffff_ffff_ffff) by (nonlinear_arith)
            requires p == h as int * amount as int, 0 <= h <= 0xffff_ffff, 0 <= amount <= 0xffff_ffff_ffff_ffff;
        lemma_div_pos_is_pos(p, 0x1_0000_0000);
        if amount > 0 {
            lemma_fraction_below(h, amount as int);
        } else {
            assert(p == 0);
        }
    }
    ((h as u128 * amount as u128) / 0x1_0000_0000u128) as u64
}


/// Relies on rand's `Rng::gen_range` on `thread_rng()`: a value drawn from `0 .. n`.
/// `gen_range` panics on an empty range, which `n > 0` rules out.
#[verifier::external_body]
pub(crate) fn random_below(n: u32) -> (r: u32)
    requires
        n > 0,
    ensures
        r < n,
{
    rand::Rng::gen_range(&mut rand::thread_rng(), 0..n)
}

} // verus!
