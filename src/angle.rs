use vstd::prelude::*;

use vstd::arithmetic::div_mod::{lemma_div_is_ordered, lemma_div_multiples_vanish, lemma_div_pos_is_pos};

verus! {

/// Heading units in a full turn; a heading is a `u16`, so angles wrap on their own.
pub const ANGLE_TURN: u32 = 65536;

/// Heading units in half a turn (pi radians).
pub const ANGLE_HALF: u32 = 32768;

/// Heading units in a quarter turn (pi / 2 radians).
pub const ANGLE_QUARTER: u32 = 16384;

/// Fixed-point scale of sines and cosines: `TRIG_ONE` stands for 1.0.
pub const TRIG_ONE: u64 = 65536;

/// Denominator base of the sine approximation: five quarters of `ANGLE_HALF` squared.
pub const SINE_DENOMINATOR: u64 = 1342177280;

/// Bhaskara's rational approximation of the sine on the first half turn, scaled by `TRIG_ONE`:
/// `4 t (H - t) / (5 H^2 / 4 - t (H - t))` with `H = ANGLE_HALF`.
pub open spec fn half_sine(t: int) -> int {
    let p = t * (ANGLE_HALF - t);
    (4 * p * TRIG_ONE) / (SINE_DENOMINATOR - p)
}

/// Sine of a heading `a` in `0 .. ANGLE_TURN`, scaled by `TRIG_ONE`.
pub open spec fn sin_spec(a: int) -> int {
    if a < ANGLE_HALF {
        half_sine(a)
    } else {
        -half_sine(a - ANGLE_HALF)
    }
}

/// Cosine of a heading `a` in `0 .. ANGLE_TURN`, scaled by `TRIG_ONE`.
pub open spec fn cos_spec(a: int) -> int {
    sin_spec((a + ANGLE_QUARTER) % (ANGLE_TURN as int))
}

/// The heading `h + plus - minus`, wrapped to a full turn.
pub open spec fn rotated(h: int, plus: int, minus: int) -> int {
    (h + plus - minus) % (ANGLE_TURN as int)
}

proof fn lemma_half_sine_bound(t: int)
    requires
        0 <= t <= ANGLE_HALF,
    ensures
        0 <= t * (ANGLE_HALF - t) <= 0x1000_0000,
        0 <= half_sine(t) <= TRIG_ONE,
{
    let h = ANGLE_HALF as int;
    let p = t * (h - t);
    assert(0 <= p) by (nonlinear_arith)
        requires p == t * (h - t), 0 <= t <= h;
    assert(4 * p <= h * h) by (nonlinear_arith)
        requires p == t * (h - t);
    let den = SINE_DENOMINATOR - p;
    let num = 4 * p * TRIG_ONE;
    assert(num <= den * TRIG_ONE) by (nonlinear_arith)
        requires num == 4 * p * 65536, den == 1342177280 - p, 4 * p <= 32768 * 32768;
    lemma_div_is_ordered(num, den * TRIG_ONE, den);
    assert(den * (TRIG_ONE as int) == (TRIG_ONE as int) * den) by (nonlinear_arith);
    lemma_div_multiples_vanish(TRIG_ONE as int, den);
    lemma_div_pos_is_pos(num, den);
}

/// The approximate sine on the first half turn, scaled by `TRIG_ONE`.
fn half_sine_exec(t: u64) -> (r: u64)
    requires
        t <= ANGLE_HALF,
    ensures
        r == half_sine(t as int),
        r <= TRIG_ONE,
{
    proof {
        lemma_half_sine_bound(t as int);
    }
    let p: u64 = t * (ANGLE_HALF as u64 - t);
    (4 * p * TRIG_ONE) / (SINE_DENOMINATOR - p)
}

/// The approximate sine of a heading, scaled by `TRIG_ONE`.
pub fn sine(a: u16) -> (r: i64)
    ensures
        r == sin_spec(a as int),
        -(TRIG_ONE as int) <= r <= TRIG_ONE,
{
    if (a as u32) < ANGLE_HALF {
        half_sine_exec(a as u64) as i64
    } else {
        -(half_sine_exec(a as u64 - ANGLE_HALF as u64) as i64)
    }
}

/// The approximate cosine of a heading, scaled by `TRIG_ONE`.
pub fn cosine(a: u16) -> (r: i64)
    ensures
        r == cos_spec(a as int),
        -(TRIG_ONE as int) <= r <= TRIG_ONE,
{
    let b: u16 = ((a as u32 + ANGLE_QUARTER) % ANGLE_TURN) as u16;
    sine(b)
}

/// Turns heading `h` by `plus` one way and `minus` the other, wrapping to a full turn.
pub fn rotate(h: u16, plus: u64, minus: u64) -> (r: u16)
    ensures
        r == rotated(h as int, plus as int, minus as int),
{
    let t: u64 = ANGLE_TURN as u64;
    let v: u64 = (h as u64 + plus % t + (t - minus % t)) % t;
    v as u16
}

} // verus!
