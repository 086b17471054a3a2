//! Double-precision numbers, read off their IEEE 754 bits.

use vstd::prelude::*;

verus! {

/// The biased exponent: the eleven bits below the sign.
pub open spec fn exponent(bits: u64) -> u64 {
    (bits / 0x10_0000_0000_0000) % 2048
}

/// The fraction: the fifty-two low bits.
pub open spec fn fraction(bits: u64) -> u64 {
    bits % 0x10_0000_0000_0000
}

/// Whether the bits stand for a number, and not for an infinity or no number at all.
pub open spec fn finite(bits: u64) -> bool {
    exponent(bits) != 2047
}

/// Whether the bits stand for no number at all.
pub open spec fn not_a_number(bits: u64) -> bool {
    exponent(bits) == 2047 && fraction(bits) != 0
}

/// The bits themselves, or nothing where they stand for no number at all: there are
/// many such bits, with nothing to tell them apart.
pub open spec fn number_of(bits: u64) -> Option<u64> {
    if not_a_number(bits) {
        None
    } else {
        Some(bits)
    }
}

/// Whether the bits stand for zero, of either sign.
pub open spec fn zero(bits: u64) -> bool {
    bits % 0x8000_0000_0000_0000 == 0
}

/// Whether a finite number has no fractional part.
///
/// A number with biased exponent `e` is its 53-bit significand times two to the
/// `e - 1075`, so below 1075 the low `1075 - e` bits of the fraction have to be
/// zero, and below 1023 the number lies strictly between minus one and one.
pub open spec fn integral(bits: u64) -> bool {
    if exponent(bits) >= 1075 {
        true
    } else if exponent(bits) < 1023 {
        zero(bits)
    } else {
        fraction(bits) % (1u64 << ((1075 - exponent(bits)) as u64)) == 0
    }
}

/// Whether two doubles compare equal: nothing equals a value that is no number,
/// and the two zeros equal each other.
pub open spec fn doubles_equal(a: u64, b: u64) -> bool {
    &&& !not_a_number(a)
    &&& !not_a_number(b)
    &&& a == b || (zero(a) && zero(b))
}

/// Whether the bits stand for a number, and not for an infinity or no number at all.
pub fn is_finite(bits: u64) -> (yes: bool)
    ensures
        yes == finite(bits),
{
    (bits / 0x10_0000_0000_0000) % 2048 != 2047
}

/// Whether a finite number has no fractional part.
pub fn is_integral(bits: u64) -> (yes: bool)
    ensures
        yes == integral(bits),
{
    let e: u64 = (bits / 0x10_0000_0000_0000) % 2048;
    if e >= 1075 {
        true
    } else if e < 1023 {
        bits % 0x8000_0000_0000_0000 == 0
    } else {
        let shift: u64 = 1075 - e;
        let unit: u64 = 1u64 << shift;
        assert(1u64 << shift != 0) by (bit_vector)
            requires
                shift <= 52,
        ;
        (bits % 0x10_0000_0000_0000) % unit == 0
    }
}

/// Whether two doubles compare equal.
pub fn are_equal(a: u64, b: u64) -> (yes: bool)
    ensures
        yes == doubles_equal(a, b),
{
    let a_number = is_finite(a) || a % 0x10_0000_0000_0000 == 0;
    let b_number = is_finite(b) || b % 0x10_0000_0000_0000 == 0;
    a_number && b_number && (a == b || (a % 0x8000_0000_0000_0000 == 0 && b
        % 0x8000_0000_0000_0000 == 0))
}

// ---------------------------------------------------------------------------
// Laws
// ---------------------------------------------------------------------------

/// Without the sign, the bits of numbers are in order of their size, with infinity
/// behind them and what is no number behind that.
pub proof fn numbers_lie_below_infinity(bits: u64)
    ensures
        finite(bits) <==> bits % 0x8000_0000_0000_0000 < 0x7ff0_0000_0000_0000,
        not_a_number(bits) <==> bits % 0x8000_0000_0000_0000 > 0x7ff0_0000_0000_0000,
{
    assert((bits / 0x10_0000_0000_0000) % 2048 != 2047 <==> bits % 0x8000_0000_0000_0000
        < 0x7ff0_0000_0000_0000) by (bit_vector);
    assert(((bits / 0x10_0000_0000_0000) % 2048 == 2047 && bits % 0x10_0000_0000_0000 != 0)
        <==> bits % 0x8000_0000_0000_0000 > 0x7ff0_0000_0000_0000) by (bit_vector);
}

/// Doubles are equal only to themselves, but for the two zeros, and what is no number
/// equals nothing.
pub proof fn doubles_equal_means(a: u64, b: u64)
    ensures
        doubles_equal(a, b) == doubles_equal(b, a),
        doubles_equal(a, a) <==> bits_of_number(a),
        a != b ==> (doubles_equal(a, b) <==> (a == 0 && b == 0x8000_0000_0000_0000) || (a
            == 0x8000_0000_0000_0000 && b == 0)),
{
    numbers_lie_below_infinity(a);
    numbers_lie_below_infinity(b);
    assert(a % 0x8000_0000_0000_0000 == 0 <==> a == 0 || a == 0x8000_0000_0000_0000)
        by (bit_vector);
    assert(b % 0x8000_0000_0000_0000 == 0 <==> b == 0 || b == 0x8000_0000_0000_0000)
        by (bit_vector);
}

/// Whether bits, without the sign, lie no higher than those of infinity.
pub open spec fn bits_of_number(bits: u64) -> bool {
    bits % 0x8000_0000_0000_0000 <= 0x7ff0_0000_0000_0000
}

/// The bits are kept for everything that is a number.
pub proof fn numbers_keep_their_bits(bits: u64)
    ensures
        number_of(bits) == if bits_of_number(bits) { Some(bits) } else { None::<u64> },
{
    numbers_lie_below_infinity(bits);
}

/// The whole number that a double is a fraction of: its significand, fraction and
/// hidden bit together.
pub open spec fn significand(bits: u64) -> nat {
    (0x10_0000_0000_0000 + fraction(bits)) as nat
}

/// A double is its significand times a power of two. From two to the fifty-second on
/// it has no fractional part; from one up to there it has none exactly where the
/// significand is a multiple of the power that it is divided by; and below one it has
/// none only as zero.
pub proof fn integral_means_no_fraction(bits: u64)
    ensures
        exponent(bits) >= 1075 ==> integral(bits),
        exponent(bits) < 1023 ==> (integral(bits) <==> bits == 0 || bits == 0x8000_0000_0000_0000),
        1023 <= exponent(bits) < 1075 ==> (integral(bits) <==> significand(bits)
            % vstd::arithmetic::power2::pow2((1075 - exponent(bits)) as nat) == 0),
{
    assert(bits % 0x8000_0000_0000_0000 == 0 <==> bits == 0 || bits == 0x8000_0000_0000_0000)
        by (bit_vector);
    let e = exponent(bits);
    if 1023 <= e < 1075 {
        let shift: u64 = (1075 - e) as u64;
        let unit: u64 = 1u64 << shift;
        let rest: u64 = fraction(bits);
        assert(unit != 0 && 0x10_0000_0000_0000u64 % unit == 0 && unit <= 0x10_0000_0000_0000)
            by (bit_vector)
            requires
                1 <= shift <= 52,
                unit == 1u64 << shift,
        ;
        vstd::arithmetic::power2::lemma2_to64();
        vstd::arithmetic::power2::lemma_pow2_strictly_increases(shift as nat, 63);
        assert(vstd::arithmetic::power2::pow2(63) == 0x8000_0000_0000_0000) by {
            vstd::arithmetic::power2::lemma_pow2_adds(32, 31);
            assert(0x1_0000_0000 * 0x8000_0000 == 0x8000_0000_0000_0000int);
        }
        vstd::bits::lemma_u64_shl_is_mul(1, shift);
        assert(unit == vstd::arithmetic::power2::pow2(shift as nat));
        vstd::arithmetic::div_mod::lemma_mod_adds(
            0x10_0000_0000_0000,
            rest as int,
            unit as int,
        );
        vstd::arithmetic::div_mod::lemma_add_mod_noop(
            0x10_0000_0000_0000,
            rest as int,
            unit as int,
        );
        vstd::arithmetic::div_mod::lemma_mod_twice(rest as int, unit as int);
    }
}

} // verus!
