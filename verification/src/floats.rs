//! Floats as their bits.
//!
//! The panel takes its temperature as a raw IEEE-754 single, and every measured value is
//! one before it is rounded into its field. What the driver has to decide about such a
//! value (whether it is finite, which integer it rounds to) is decided here from its 32
//! bits: a sign, eight exponent bits and 23 fraction bits. The refresh period is a double,
//! with eleven exponent bits and 52 fraction bits.

use vstd::arithmetic::power2;
use vstd::prelude::*;

verus! {

/// Whether the sign bit is set.
pub open spec fn negative(bits: u32) -> bool {
    bits >= 0x8000_0000
}

/// The exponent field.
pub open spec fn exponent(bits: u32) -> int {
    (bits % 0x8000_0000) as int / 0x80_0000
}

/// The fraction field.
pub open spec fn fraction(bits: u32) -> int {
    (bits % 0x8000_0000) as int % 0x80_0000
}

/// Whether the value is a number at all, and not infinite.
pub open spec fn finite(bits: u32) -> bool {
    exponent(bits) != 255
}

/// Whether the value is not a number.
pub open spec fn nan(bits: u32) -> bool {
    exponent(bits) == 255 && fraction(bits) != 0
}

/// The significand: a finite value is this many times two to the power of its scale.
pub open spec fn significand(bits: u32) -> int {
    if exponent(bits) == 0 {
        fraction(bits)
    } else {
        0x80_0000 + fraction(bits)
    }
}

/// The power of two that the significand is scaled by.
pub open spec fn scale(bits: u32) -> int {
    if exponent(bits) == 0 {
        -149
    } else {
        exponent(bits) - 150
    }
}

/// The integer nearest to the absolute value of a finite value, halves going up.
pub open spec fn nearest(bits: u32) -> int {
    let k = scale(bits);
    if k >= 0 {
        significand(bits) * power2::pow2(k as nat)
    } else {
        (significand(bits) + power2::pow2((-k - 1) as nat)) / (power2::pow2((-k) as nat) as int)
    }
}

/// The value rounded and brought into an unsigned field that holds at most `max`: what is
/// too small, or not a number, becomes zero, and what is too large becomes `max`.
pub open spec fn field(bits: u32, max: int) -> int {
    if negative(bits) || nan(bits) {
        0
    } else if !finite(bits) || nearest(bits) > max {
        max
    } else {
        nearest(bits)
    }
}

/// Whether the value is finite and greater than zero.
pub open spec fn positive(bits: u32) -> bool {
    finite(bits) && !negative(bits) && significand(bits) > 0
}

/// Whether the value is finite.
pub fn is_finite(bits: u32) -> (r: bool)
    ensures
        r == finite(bits),
{
    (bits % 0x8000_0000) / 0x80_0000 != 255
}

/// Whether the value is finite and greater than zero.
pub fn is_positive(bits: u32) -> (r: bool)
    ensures
        r == positive(bits),
{
    0 < bits && bits < 0x7F80_0000
}

/// Whether two values are equal as numbers: what is not a number equals nothing, and the two
/// zeros are equal.
pub open spec fn equal(a: u32, b: u32) -> bool {
    !nan(a) && !nan(b) && (a == b || (a % 0x8000_0000 == 0 && b % 0x8000_0000 == 0))
}

/// Whether two values are equal as numbers.
pub fn is_equal(a: u32, b: u32) -> (r: bool)
    ensures
        r == equal(a, b),
{
    let (x, y): (u32, u32) = (a % 0x8000_0000, b % 0x8000_0000);
    x <= 0x7F80_0000 && y <= 0x7F80_0000 && (a == b || (x == 0 && y == 0))
}

/// The bits of the smallest double-precision number of seconds that is more than half a
/// nanosecond. Anything less is no time at all once it is told in whole nanoseconds.
pub const SHORTEST_PERIOD: u64 = 0x3E01_2E0B_E826_D695;

/// The exponent field of a double-precision value.
pub open spec fn double_exponent(bits: u64) -> int {
    (bits % 0x8000_0000_0000_0000) as int / 0x10_0000_0000_0000
}

/// The fraction field of a double-precision value.
pub open spec fn double_fraction(bits: u64) -> int {
    (bits % 0x8000_0000_0000_0000) as int % 0x10_0000_0000_0000
}

/// The significand of a double-precision value.
pub open spec fn double_significand(bits: u64) -> int {
    if double_exponent(bits) == 0 {
        double_fraction(bits)
    } else {
        0x10_0000_0000_0000 + double_fraction(bits)
    }
}

/// The power of two that a double-precision significand is scaled by.
pub open spec fn double_scale(bits: u64) -> int {
    if double_exponent(bits) == 0 {
        -1074
    } else {
        double_exponent(bits) - 1075
    }
}

/// Whether a double-precision number of seconds is finite and lasts: sign clear, exponent
/// field not all ones, and long enough to be at least one nanosecond when rounded to the
/// nearest.
pub open spec fn lasting(bits: u64) -> bool {
    &&& bits < 0x8000_0000_0000_0000
    &&& double_exponent(bits) != 0x7FF
    &&& bits >= SHORTEST_PERIOD
}

/// Whether a double-precision number of seconds is finite and lasts.
pub fn is_lasting(bits: u64) -> (r: bool)
    ensures
        r == lasting(bits),
{
    SHORTEST_PERIOD <= bits && bits < 0x7FF0_0000_0000_0000
}

/// Round the value and bring it into an unsigned field that holds at most `max`.
pub fn to_field(bits: u32, max: u16) -> (r: u16)
    ensures
        r == field(bits, max as int),
{
    let size: u32 = bits % 0x8000_0000;
    let exp: u32 = size / 0x80_0000;
    let frac: u32 = size % 0x80_0000;
    if exp == 255 && frac != 0 {
        return 0;
    }
    if bits >= 0x8000_0000 {
        return 0;
    }
    if exp == 255 {
        return max;
    }
    let sig: u32 = if exp == 0 {
        frac
    } else {
        0x80_0000 + frac
    };
    if exp >= 150 {
        proof {
            let p = power2::pow2((exp - 150) as nat) as int;
            power2::lemma_pow2_pos((exp - 150) as nat);
            assert(sig * p >= sig) by (nonlinear_arith)
                requires
                    sig >= 0,
                    p >= 1,
            ;
        }
        return max;
    }
    let shift: u32 = if exp == 0 {
        149
    } else {
        150 - exp
    };
    if shift > 24 {
        proof {
            power2::lemma2_to64();
            if shift > 25 {
                power2::lemma_pow2_strictly_increases(24, (shift - 1) as nat);
            }
            power2::lemma_pow2_unfold(shift as nat);
            let half = power2::pow2((shift - 1) as nat) as int;
            assert((sig + half) / (2 * half) == 0) by (nonlinear_arith)
                requires
                    0 <= sig < half,
            ;
        }
        return 0;
    }
    let mut half: u32 = 1;
    let mut n: u32 = 1;
    proof {
        power2::lemma2_to64();
    }
    while n < shift
        invariant
            1 <= n <= shift <= 24,
            half == power2::pow2((n - 1) as nat),
            half <= 0x80_0000,
        decreases shift - n,
    {
        proof {
            power2::lemma_pow2_unfold(n as nat);
            power2::lemma2_to64();
            if n < 23 {
                power2::lemma_pow2_strictly_increases(n as nat, 23);
            }
        }
        half = half * 2;
        n = n + 1;
    }
    proof {
        power2::lemma_pow2_unfold(shift as nat);
    }
    let value: u32 = (sig + half) / (half * 2);
    if value > max as u32 {
        max
    } else {
        value as u16
    }
}

/// Rounding is to the nearest integer: it moves a value with a fractional part by at most
/// one half, both sides here taken in units of the value's scale.
pub proof fn law_rounding_is_to_nearest(bits: u32)
    requires
        finite(bits),
        scale(bits) < 0,
    ensures
        ({
            let unit = power2::pow2((-scale(bits)) as nat) as int;
            let moved = 2 * (nearest(bits) * unit - significand(bits));
            -unit < moved <= unit
        }),
{
    let k = (-scale(bits)) as nat;
    power2::lemma_pow2_unfold(k);
    power2::lemma_pow2_pos((k - 1) as nat);
    let half = power2::pow2((k - 1) as nat) as int;
    let sig = significand(bits);
    let n = (sig + half) / (2 * half);
    assert(-(2 * half) < 2 * (n * (2 * half) - sig) <= 2 * half) by (nonlinear_arith)
        requires
            half >= 1,
            sig >= 0,
            n == (sig + half) / (2 * half),
    ;
}

/// A value reaches its field as an integer that fits, whatever the value was.
pub proof fn law_field_fits(bits: u32, max: int)
    requires
        max >= 0,
    ensures
        0 <= field(bits, max) <= max,
{
    let k = scale(bits);
    if k >= 0 {
        let p = power2::pow2(k as nat) as int;
        let sig = significand(bits);
        power2::lemma_pow2_pos(k as nat);
        assert(sig * p >= 0) by (nonlinear_arith)
            requires
                sig >= 0,
                p >= 1,
        ;
    } else {
        let unit = power2::pow2((-k) as nat) as int;
        let sum = significand(bits) + power2::pow2((-k - 1) as nat);
        power2::lemma_pow2_pos((-k) as nat);
        assert(sum / unit >= 0) by (nonlinear_arith)
            requires
                sum >= 0,
                unit >= 1,
        ;
    }
}

/// A number of seconds that is finite and not negative lasts exactly if it is more than half
/// a nanosecond: its significand times two to the power of its scale, counted in halves of a
/// nanosecond, is more than one.
pub proof fn law_what_lasts_is_over_half_a_nanosecond(bits: u64)
    requires
        bits < 0x8000_0000_0000_0000,
        double_exponent(bits) != 0x7FF,
    ensures
        lasting(bits) <==> (double_scale(bits) >= 0 || 2_000_000_000 * double_significand(bits)
            > power2::pow2((-double_scale(bits)) as nat)),
{
    let k = -double_scale(bits);
    power2::lemma2_to64();
    power2::lemma_pow2_adds(64, 18);
    power2::lemma_pow2_adds(64, 19);
    power2::lemma_pow2_adds(64, 20);
    if 0 < k < 82 {
        power2::lemma_pow2_strictly_increases(k as nat, 82);
    } else if k > 84 {
        power2::lemma_pow2_strictly_increases(84, k as nat);
    }
}

/// A positive value reaches its field as the nearest integer, halves going up, or as the most
/// that the field holds: with exponent field `e` and fraction field `f` the value is
/// `2^23 + f` units of which there are `2^(150 - e)` to one, and the field is off by at most
/// half of one unless it is full.
pub proof fn law_field_is_the_nearest_integer(bits: u32, e: int, f: int, max: int)
    requires
        bits == e * 0x80_0000 + f,
        1 <= e < 150,
        0 <= f < 0x80_0000,
        max >= 0,
    ensures
        ({
            let unit = power2::pow2((150 - e) as nat) as int;
            let off = 2 * (field(bits, max) * unit - (0x80_0000 + f));
            &&& off <= unit
            &&& field(bits, max) < max ==> off > -unit
            &&& 0 <= field(bits, max) <= max
        }),
{
    assert(bits < 0x8000_0000);
    assert(exponent(bits) == e && fraction(bits) == f);
    let unit = power2::pow2((150 - e) as nat) as int;
    power2::lemma_pow2_pos((150 - e) as nat);
    law_field_fits(bits, max);
    law_rounding_is_to_nearest(bits);
    if nearest(bits) > max {
        assert(max * unit <= nearest(bits) * unit) by (nonlinear_arith)
            requires
                max <= nearest(bits),
                unit >= 1,
        ;
    }
}

/// What is not a positive value of ordinary size has its field too: a value below any normal
/// one, a negative one and what is not a number are zero, and one too large for any field, as
/// infinity is, fills it.
pub proof fn law_fields_of_extreme_values(bits: u32, max: int)
    requires
        0 <= max <= 0xFFFF,
    ensures
        bits >= 0x8000_0000 ==> field(bits, max) == 0,
        bits % 0x8000_0000 > 0x7F80_0000 ==> field(bits, max) == 0,
        bits < 0x80_0000 ==> field(bits, max) == 0,
        0x4B00_0000 <= bits <= 0x7F80_0000 ==> field(bits, max) == max,
        finite(bits) <==> bits % 0x8000_0000 < 0x7F80_0000,
        positive(bits) <==> 0 < bits < 0x7F80_0000,
{
    if bits < 0x80_0000 {
        power2::lemma_pow2_unfold(149);
        power2::lemma2_to64();
        power2::lemma_pow2_strictly_increases(24, 148);
        let half = power2::pow2(148) as int;
        let sig = significand(bits);
        assert((sig + half) / (2 * half) == 0) by (nonlinear_arith)
            requires
                0 <= sig < half,
        ;
        assert(nearest(bits) == 0);
    } else if 0x4B00_0000 <= bits < 0x7F80_0000 {
        let k = scale(bits);
        let p = power2::pow2(k as nat) as int;
        let sig = significand(bits);
        power2::lemma_pow2_pos(k as nat);
        assert(sig * p >= sig) by (nonlinear_arith)
            requires
                sig >= 0,
                p >= 1,
        ;
    }
}

/// A refresh period with exponent field `e` and fraction field `f` lasts exactly if it is more
/// than half a nanosecond; one that is negative, infinite or not a number does not.
pub proof fn law_periods_that_last(bits: u64, e: int, f: int)
    requires
        bits == e * 0x10_0000_0000_0000 + f,
        0 <= e < 0x1000,
        0 <= f < 0x10_0000_0000_0000,
    ensures
        e >= 0x7FF ==> !lasting(bits),
        e == 0 ==> !lasting(bits),
        1075 <= e < 0x7FF ==> lasting(bits),
        0 < e < 1075 ==> (lasting(bits) <==> 2_000_000_000 * (0x10_0000_0000_0000 + f)
            > power2::pow2((1075 - e) as nat)),
{
    if e < 0x7FF {
        assert(double_exponent(bits) == e && double_fraction(bits) == f);
        law_what_lasts_is_over_half_a_nanosecond(bits);
    }
}

/// Two values are equal exactly if they are numbers with the same bits, or both zero.
pub proof fn law_equality_of_values(a: u32, b: u32)
    ensures
        equal(a, b) == equal(b, a),
        a % 0x8000_0000 > 0x7F80_0000 ==> !equal(a, b),
        a % 0x8000_0000 <= 0x7F80_0000 ==> equal(a, a),
        equal(a, b) && a != b ==> a % 0x8000_0000 == 0 && b % 0x8000_0000 == 0,
        equal(0, 0x8000_0000),
{
}

} // verus!
