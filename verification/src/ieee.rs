//! Tests and orders of IEEE 754 numbers on their bit patterns.
//!
//! The numbers of the localisation stack cross this library as the bits that store them: a
//! double-precision number as a `u64`, a single-precision number as a `u32`. What the library
//! decides of them (whether one is finite, which of two is smaller) is integer arithmetic.
use vstd::arithmetic::power2::{lemma_pow2_pos, lemma_pow2_unfold, pow2};
use vstd::prelude::*;

verus! {

/// Values of the fraction field of a double-precision number.
pub const DOUBLE_FRACTIONS: u64 = 0x10_0000_0000_0000;

/// The sign bit of a double-precision number.
pub const DOUBLE_SIGN: u64 = 0x8000_0000_0000_0000;

/// The bits of double-precision infinity.
pub const DOUBLE_INFINITY: u64 = 0x7ff0_0000_0000_0000;

/// Values of the fraction field of a single-precision number.
pub const SINGLE_FRACTIONS: u32 = 0x80_0000;

/// The sign bit of a single-precision number.
pub const SINGLE_SIGN: u32 = 0x8000_0000;

/// The bits of single-precision infinity.
pub const SINGLE_INFINITY: u32 = 0x7f80_0000;

/// The bits of single-precision negative infinity.
pub const SINGLE_NEGATIVE_INFINITY: u32 = 0xff80_0000;

/// The number that a magnitude field stores, in units of the smallest positive number of the
/// format. `fractions` is the number of values of the fraction field.
pub open spec fn magnitude_value(magnitude: nat, fractions: nat) -> nat {
    if magnitude / fractions == 0 {
        magnitude % fractions
    } else {
        (fractions + magnitude % fractions) * pow2((magnitude / fractions - 1) as nat)
    }
}

proof fn magnitude_value_step(m: nat, f: nat)
    requires
        f > 0,
    ensures
        magnitude_value(m, f) < magnitude_value(m + 1, f),
{
    let e = m / f;
    let r = m % f;
    vstd::arithmetic::div_mod::lemma_fundamental_div_mod(m as int, f as int);
    if r + 1 < f {
        vstd::arithmetic::div_mod::lemma_fundamental_div_mod_converse(
            (m + 1) as int,
            f as int,
            e as int,
            (r + 1) as int,
        );
        if e > 0 {
            let p = pow2((e - 1) as nat);
            lemma_pow2_pos((e - 1) as nat);
            assert((f + r + 1) * p == (f + r) * p + p) by (nonlinear_arith);
            assert(f + (r + 1) == f + r + 1);
        }
    } else {
        assert((m + 1) as int == f * (e + 1) + 0) by (nonlinear_arith)
            requires
                m == f * e + r,
                r + 1 == f,
        ;
        vstd::arithmetic::div_mod::lemma_fundamental_div_mod_converse(
            (m + 1) as int,
            f as int,
            (e + 1) as int,
            0,
        );
        let q = pow2(e);
        lemma_pow2_pos(e);
        if e > 0 {
            let p = pow2((e - 1) as nat);
            lemma_pow2_pos((e - 1) as nat);
            lemma_pow2_unfold(e);
            assert(((f + r) as nat) * p < f * (2 * p)) by (nonlinear_arith)
                requires
                    r + 1 == f,
                    p > 0,
            ;
            assert((f + 0) * q == f * (2 * p));
        } else {
            vstd::arithmetic::power2::lemma2_to64();
            assert((f + 0) * q == f) by (nonlinear_arith)
                requires
                    q == 1,
            ;
        }
    }
}

/// A larger magnitude field stores a larger number.
pub proof fn magnitude_value_is_monotone(a: nat, b: nat, fractions: nat)
    requires
        fractions > 0,
        a < b,
    ensures
        magnitude_value(a, fractions) < magnitude_value(b, fractions),
    decreases b - a,
{
    magnitude_value_step(a, fractions);
    if a + 1 < b {
        magnitude_value_is_monotone(a + 1, b, fractions);
    }
}

/// The signed magnitude of a double-precision number.
pub open spec fn double_rank(bits: u64) -> int {
    if bits >= DOUBLE_SIGN {
        DOUBLE_SIGN - bits
    } else {
        bits as int
    }
}

/// Whether the double-precision number is neither infinite nor not a number.
pub open spec fn double_finite(bits: u64) -> bool {
    -DOUBLE_INFINITY < double_rank(bits) < DOUBLE_INFINITY
}

/// Whether the bits store no number.
pub open spec fn double_nan(bits: u64) -> bool {
    double_rank(bits) < -DOUBLE_INFINITY || double_rank(bits) > DOUBLE_INFINITY
}

/// The value of a finite double-precision number, in units of the smallest positive one.
pub open spec fn double_value(bits: u64) -> int {
    if bits >= DOUBLE_SIGN {
        -(magnitude_value((bits - DOUBLE_SIGN) as nat, DOUBLE_FRACTIONS as nat) as int)
    } else {
        magnitude_value(bits as nat, DOUBLE_FRACTIONS as nat) as int
    }
}

/// `a < b` on double-precision numbers: false where either is not a number.
pub open spec fn double_less(a: u64, b: u64) -> bool {
    !double_nan(a) && !double_nan(b) && double_rank(a) < double_rank(b)
}

/// `a <= b` on double-precision numbers: false where either is not a number.
pub open spec fn double_at_most(a: u64, b: u64) -> bool {
    !double_nan(a) && !double_nan(b) && double_rank(a) <= double_rank(b)
}

/// The place of a double-precision number in the total order of the format: negative before
/// positive, and negative zero before zero.
pub open spec fn double_total(bits: u64) -> int {
    if bits >= DOUBLE_SIGN {
        DOUBLE_SIGN - bits - 1
    } else {
        bits as int
    }
}

/// On finite numbers the order of the bits is the order of the values.
pub proof fn double_less_is_value_order(a: u64, b: u64)
    requires
        double_finite(a),
        double_finite(b),
    ensures
        double_less(a, b) <==> double_value(a) < double_value(b),
        double_at_most(a, b) <==> double_value(a) <= double_value(b),
{
    let f = DOUBLE_FRACTIONS as nat;
    let ma = if a >= DOUBLE_SIGN { (a - DOUBLE_SIGN) as nat } else { a as nat };
    let mb = if b >= DOUBLE_SIGN { (b - DOUBLE_SIGN) as nat } else { b as nat };
    if ma < mb {
        magnitude_value_is_monotone(ma, mb, f);
    } else if mb < ma {
        magnitude_value_is_monotone(mb, ma, f);
    }
    assert(magnitude_value(0, f) == 0);
    if ma > 0 {
        magnitude_value_is_monotone(0, ma, f);
    }
    if mb > 0 {
        magnitude_value_is_monotone(0, mb, f);
    }
}

/// The total order refines the numeric order.
pub proof fn double_total_refines_less(a: u64, b: u64)
    ensures
        double_less(a, b) ==> double_total(a) < double_total(b),
        double_total(a) == double_total(b) <==> a == b,
{
}

fn double_magnitude(bits: u64) -> (magnitude: u64)
    ensures
        magnitude == if bits >= DOUBLE_SIGN { bits - DOUBLE_SIGN } else { bits as int },
{
    if bits >= DOUBLE_SIGN {
        bits - DOUBLE_SIGN
    } else {
        bits
    }
}

/// Whether a double-precision number is finite.
pub fn is_double_finite(bits: u64) -> (finite: bool)
    ensures
        finite == double_finite(bits),
{
    double_magnitude(bits) < DOUBLE_INFINITY
}

fn is_double_number(bits: u64) -> (number: bool)
    ensures
        number == !double_nan(bits),
{
    double_magnitude(bits) <= DOUBLE_INFINITY
}

fn double_rank_of(bits: u64) -> (rank: i64)
    ensures
        rank == double_rank(bits),
{
    if bits >= DOUBLE_SIGN {
        -((bits - DOUBLE_SIGN) as i64)
    } else {
        bits as i64
    }
}

/// Whether one double-precision number is smaller than another.
pub fn is_double_less(a: u64, b: u64) -> (less: bool)
    ensures
        less == double_less(a, b),
{
    is_double_number(a) && is_double_number(b) && double_rank_of(a) < double_rank_of(b)
}

/// Whether one double-precision number is at most another.
pub fn is_double_at_most(a: u64, b: u64) -> (at_most: bool)
    ensures
        at_most == double_at_most(a, b),
{
    is_double_number(a) && is_double_number(b) && double_rank_of(a) <= double_rank_of(b)
}

/// Whether one double-precision number precedes another in the total order.
pub fn is_double_total_less(a: u64, b: u64) -> (less: bool)
    ensures
        less == (double_total(a) < double_total(b)),
{
    if a >= DOUBLE_SIGN {
        b < DOUBLE_SIGN || b < a
    } else {
        b < DOUBLE_SIGN && a < b
    }
}

/// The signed magnitude of a single-precision number.
pub open spec fn single_rank(bits: u32) -> int {
    if bits >= SINGLE_SIGN {
        SINGLE_SIGN - bits
    } else {
        bits as int
    }
}

/// Whether the single-precision number is neither infinite nor not a number.
pub open spec fn single_finite(bits: u32) -> bool {
    -SINGLE_INFINITY < single_rank(bits) < SINGLE_INFINITY
}

/// Whether the bits store no number.
pub open spec fn single_nan(bits: u32) -> bool {
    single_rank(bits) < -SINGLE_INFINITY || single_rank(bits) > SINGLE_INFINITY
}

/// The value of a finite single-precision number, in units of the smallest positive one.
pub open spec fn single_value(bits: u32) -> int {
    if bits >= SINGLE_SIGN {
        -(magnitude_value((bits - SINGLE_SIGN) as nat, SINGLE_FRACTIONS as nat) as int)
    } else {
        magnitude_value(bits as nat, SINGLE_FRACTIONS as nat) as int
    }
}

/// `a < b` on single-precision numbers: false where either is not a number.
pub open spec fn single_less(a: u32, b: u32) -> bool {
    !single_nan(a) && !single_nan(b) && single_rank(a) < single_rank(b)
}

/// `a <= b` on single-precision numbers: false where either is not a number.
pub open spec fn single_at_most(a: u32, b: u32) -> bool {
    !single_nan(a) && !single_nan(b) && single_rank(a) <= single_rank(b)
}

/// The place of a single-precision number in the total order of the format.
pub open spec fn single_total(bits: u32) -> int {
    if bits >= SINGLE_SIGN {
        SINGLE_SIGN - bits - 1
    } else {
        bits as int
    }
}

/// On finite numbers the order of the bits is the order of the values.
pub proof fn single_less_is_value_order(a: u32, b: u32)
    requires
        single_finite(a),
        single_finite(b),
    ensures
        single_less(a, b) <==> single_value(a) < single_value(b),
        single_at_most(a, b) <==> single_value(a) <= single_value(b),
{
    let f = SINGLE_FRACTIONS as nat;
    let ma = if a >= SINGLE_SIGN { (a - SINGLE_SIGN) as nat } else { a as nat };
    let mb = if b >= SINGLE_SIGN { (b - SINGLE_SIGN) as nat } else { b as nat };
    if ma < mb {
        magnitude_value_is_monotone(ma, mb, f);
    } else if mb < ma {
        magnitude_value_is_monotone(mb, ma, f);
    }
    assert(magnitude_value(0, f) == 0);
    if ma > 0 {
        magnitude_value_is_monotone(0, ma, f);
    }
    if mb > 0 {
        magnitude_value_is_monotone(0, mb, f);
    }
}

fn single_magnitude(bits: u32) -> (magnitude: u32)
    ensures
        magnitude == if bits >= SINGLE_SIGN { bits - SINGLE_SIGN } else { bits as int },
{
    if bits >= SINGLE_SIGN {
        bits - SINGLE_SIGN
    } else {
        bits
    }
}

/// Whether a single-precision number is finite.
pub fn is_single_finite(bits: u32) -> (finite: bool)
    ensures
        finite == single_finite(bits),
{
    single_magnitude(bits) < SINGLE_INFINITY
}

fn is_single_number(bits: u32) -> (number: bool)
    ensures
        number == !single_nan(bits),
{
    single_magnitude(bits) <= SINGLE_INFINITY
}

fn single_rank_of(bits: u32) -> (rank: i32)
    ensures
        rank == single_rank(bits),
{
    if bits >= SINGLE_SIGN {
        -((bits - SINGLE_SIGN) as i32)
    } else {
        bits as i32
    }
}

/// Whether one single-precision number is smaller than another.
pub fn is_single_less(a: u32, b: u32) -> (less: bool)
    ensures
        less == single_less(a, b),
{
    is_single_number(a) && is_single_number(b) && single_rank_of(a) < single_rank_of(b)
}

/// Whether one single-precision number is at most another.
pub fn is_single_at_most(a: u32, b: u32) -> (at_most: bool)
    ensures
        at_most == single_at_most(a, b),
{
    is_single_number(a) && is_single_number(b) && single_rank_of(a) <= single_rank_of(b)
}

/// Whether one single-precision number precedes another in the total order.
pub fn is_single_total_less(a: u32, b: u32) -> (less: bool)
    ensures
        less == (single_total(a) < single_total(b)),
{
    if a >= SINGLE_SIGN {
        b < SINGLE_SIGN || b < a
    } else {
        b < SINGLE_SIGN && a < b
    }
}

/// A double-precision number is finite exactly where its exponent field is not full, and is no number exactly
/// where that is full and its fraction is not zero; the sign does not count.
pub proof fn double_classes_go_by_the_exponent(bits: u64)
    ensures
        double_finite(bits) <==> bits / 0x10_0000_0000_0000 % 2048 != 2047,
        double_nan(bits) <==> bits / 0x10_0000_0000_0000 % 2048 == 2047 && bits
            % 0x10_0000_0000_0000 != 0,
{
}

/// A single-precision number is finite exactly where its exponent field is not full, and is no number exactly
/// where that is full and its fraction is not zero; the sign does not count.
pub proof fn single_classes_go_by_the_exponent(bits: u32)
    ensures
        single_finite(bits) <==> bits / 0x80_0000 % 256 != 255,
        single_nan(bits) <==> bits / 0x80_0000 % 256 == 255 && bits % 0x80_0000 != 0,
{
}

/// Numbers that are none compare to nothing; of the others exactly one of two is less or they are equal, and
/// the two zeros are equal. Infinity is above, and negative infinity below, every finite number.
pub proof fn comparisons_are_those_of_numbers(a: u64, b: u64, x: u32, y: u32)
    ensures
        double_nan(a) || double_nan(b) ==> !double_less(a, b) && !double_at_most(a, b),
        !double_nan(a) && !double_nan(b) ==> (double_at_most(a, b) <==> !double_less(b, a)),
        single_nan(x) || single_nan(y) ==> !single_less(x, y) && !single_at_most(x, y),
        !single_nan(x) && !single_nan(y) ==> (single_at_most(x, y) <==> !single_less(y, x)),
        double_finite(a) ==> double_less(a, 0x7ff0_0000_0000_0000) && double_less(
            0xfff0_0000_0000_0000,
            a,
        ),
        single_finite(x) ==> single_less(x, 0x7f80_0000) && single_less(0xff80_0000, x),
        !double_less(0x8000_0000_0000_0000, 0) && !double_less(0, 0x8000_0000_0000_0000),
        !single_less(0x8000_0000, 0) && !single_less(0, 0x8000_0000),
{
}

} // verus!
