//! Bit-level facts about IEEE-754 single-precision numbers.
//!
//! A number is a `u32`: one sign bit, eight exponent bits, twenty-three
//! fraction bits. Everything here is decided on the pattern alone.
use vstd::prelude::*;
use vstd::arithmetic::power2::{pow2, lemma_pow2_unfold, lemma2_to64};

verus! {

/// The quiet not-a-number pattern that marks a coefficient as not computed.
pub const NAN: u32 = 0x7fc0_0000;

/// Positive zero.
pub const ZERO: u32 = 0;

/// The number one.
pub const ONE: u32 = 0x3f80_0000;

/// The number two.
pub const TWO: u32 = 0x4000_0000;

/// The number minus two.
pub const MINUS_TWO: u32 = 0xc000_0000;

/// Positive infinity: the largest magnitude that is still a number.
pub const INFINITY: u32 = 0x7f80_0000;

/// The gap between one and the next larger number, two to the power -23.
pub const EPSILON: u32 = 0x3400_0000;

/// The lowest pattern with the sign bit set.
pub const SIGN: u32 = 0x8000_0000;

/// The pattern without its sign bit.
pub open spec fn magnitude(x: u32) -> u32 {
    (x % SIGN) as u32
}

/// Whether the sign bit is set.
pub open spec fn sign_set(x: u32) -> bool {
    x >= SIGN
}

/// Whether the pattern is a not-a-number: exponent all ones, fraction not zero.
pub open spec fn nan(x: u32) -> bool {
    magnitude(x) > INFINITY
}

/// Position of a number on the real line, up to a monotone rescaling: both
/// zeros are at 0, positive numbers ascend with their magnitude, negative
/// numbers descend with it.
pub open spec fn rank(x: u32) -> int {
    if sign_set(x) {
        -(magnitude(x) as int)
    } else {
        magnitude(x) as int
    }
}

/// The comparison `a < b` of the two numbers: false as soon as one of them is
/// a not-a-number.
pub open spec fn less(a: u32, b: u32) -> bool {
    !nan(a) && !nan(b) && rank(a) < rank(b)
}

/// The comparison `a <= b` of the two numbers: false as soon as one of them
/// is a not-a-number.
pub open spec fn less_eq(a: u32, b: u32) -> bool {
    !nan(a) && !nan(b) && rank(a) <= rank(b)
}

/// Tells whether `x` is a not-a-number.
pub fn is_nan(x: u32) -> (r: bool)
    ensures
        r == nan(x),
{
    x % SIGN > INFINITY
}

/// The absolute value: the same pattern with the sign bit cleared.
pub fn abs(x: u32) -> (r: u32)
    ensures
        r == magnitude(x),
{
    x % SIGN
}

fn rank_of(x: u32) -> (r: i64)
    ensures
        r == rank(x),
{
    let m: u32 = x % SIGN;
    if x >= SIGN {
        -(m as i64)
    } else {
        m as i64
    }
}

/// Decides `a < b` as the numbers compare.
pub fn is_less(a: u32, b: u32) -> (r: bool)
    ensures
        r == less(a, b),
{
    !is_nan(a) && !is_nan(b) && rank_of(a) < rank_of(b)
}

/// Decides `a <= b` as the numbers compare.
pub fn is_less_eq(a: u32, b: u32) -> (r: bool)
    ensures
        r == less_eq(a, b),
{
    !is_nan(a) && !is_nan(b) && rank_of(a) <= rank_of(b)
}

/// The weight of the lowest exponent step in a pattern: two to the power 23.
pub const EXPONENT_STEP: u32 = 0x80_0000;

/// The pattern `p` is the number `x`: zero is all bits clear; a positive `x`
/// between two to the power `e` and the next power has the exponent field
/// `127 + e` and, as its fraction, what `x` exceeds that power by, scaled to
/// twenty-three bits.
pub open spec fn holds_integer(p: u32, x: nat) -> bool {
    if x == 0 {
        p == ZERO
    } else {
        exists|e: nat|
            e <= 23 && #[trigger] pow2(e) <= x < 2 * pow2(e) && p == (127 + e) * EXPONENT_STEP + (x - pow2(e)) * pow2(
                (23 - e) as nat,
            )
    }
}

/// The exponent of the largest power of two that does not exceed `x`.
pub open spec fn floor_log2(x: nat) -> nat
    decreases x,
{
    if x < 2 {
        0
    } else {
        1 + floor_log2(x / 2)
    }
}

/// The pattern of the whole number `x`, for `x` below two to the power 24.
pub open spec fn integer_pattern(x: nat) -> u32 {
    if x == 0 {
        ZERO
    } else {
        ((127 + floor_log2(x)) * EXPONENT_STEP + (x - pow2(floor_log2(x))) * pow2((23 - floor_log2(x)) as nat)) as u32
    }
}

/// A number between a power of two and the next has that power's exponent.
pub proof fn lemma_floor_log2(x: nat, e: nat)
    requires
        pow2(e) <= x < 2 * pow2(e),
    ensures
        floor_log2(x) == e,
    decreases e,
{
    lemma2_to64();
    if e == 0 {
    } else {
        lemma_pow2_unfold(e);
        lemma_floor_log2(x / 2, (e - 1) as nat);
    }
}

/// A pattern that is the number `x` is the pattern of `x`.
pub proof fn lemma_holds_integer(p: u32, x: nat)
    requires
        holds_integer(p, x),
    ensures
        p == integer_pattern(x),
{
    if x > 0 {
        let e = choose|e: nat|
            e <= 23 && #[trigger] pow2(e) <= x < 2 * pow2(e) && p == (127 + e) * EXPONENT_STEP + (x - pow2(e)) * pow2(
                (23 - e) as nat,
            );
        lemma_floor_log2(x, e);
    }
}

/// The single-precision number that equals the byte `x`.
pub fn from_byte(x: u8) -> (p: u32)
    ensures
        holds_integer(p, x as nat),
        p == integer_pattern(x as nat),
{
    if x == 0 {
        return ZERO;
    }
    let p = from_positive_byte(x);
    proof {
        lemma_holds_integer(p, x as nat);
    }
    p
}

/// The single-precision number that equals the byte `x`, which is not zero.
fn from_positive_byte(x: u8) -> (p: u32)
    requires
        x > 0,
    ensures
        holds_integer(p, x as nat),
{
    let mut e: u32 = 0;
    let mut top: u32 = 1;
    let mut scale: u32 = EXPONENT_STEP;
    proof {
        lemma2_to64();
    }
    while top * 2 <= x as u32
        invariant
            0 < x,
            e <= 7,
            top == pow2(e as nat),
            scale == pow2((23 - e) as nat),
            top <= x,
            top <= 128,
            scale <= EXPONENT_STEP,
        decreases 256 - top,
    {
        proof {
            lemma_pow2_unfold((e + 1) as nat);
            lemma_pow2_unfold((23 - e) as nat);
            lemma2_to64();
            assert(e < 7) by {
                if e == 7 {
                    assert(top == 128);
                }
            }
        }
        top = top * 2;
        scale = scale / 2;
        e = e + 1;
    }
    proof {
        assert((x - top) * scale <= 127 * EXPONENT_STEP) by (nonlinear_arith)
            requires
                0 <= x - top <= 127,
                0 <= scale <= EXPONENT_STEP,
        ;
        assert((127 + e) * EXPONENT_STEP <= 134 * EXPONENT_STEP) by (nonlinear_arith)
            requires
                e <= 7,
        ;
    }
    (127 + e) * EXPONENT_STEP + (x as u32 - top) * scale
}

} // verus!
