//! Exact arithmetic on the bit patterns of single-precision numbers: whether a
//! difference, rounded as IEEE 754 rounds it, reaches a minimum.
use vstd::prelude::*;

use crate::forecast;
use crate::forecast::ForecastAxis;

verus! {

/// The exponent of a pattern; the smallest numbers share the lowest one.
pub open spec fn exponent(bits: u32) -> nat {
    let field = (bits / 0x80_0000) % 256;
    if field == 0 {
        1
    } else {
        field as nat
    }
}

/// The significand of a pattern, with its sign.
pub open spec fn significand(bits: u32) -> int {
    let fraction = (bits % 0x80_0000) as int;
    let magnitude = if (bits / 0x80_0000) % 256 == 0 {
        fraction
    } else {
        fraction + 0x80_0000
    };
    if bits < forecast::NEGATIVE_ZERO_BITS {
        magnitude
    } else {
        -magnitude
    }
}

/// The number that a finite pattern stands for, times two to the 150th.
pub open spec fn scaled(bits: u32) -> int {
    significand(bits) * vstd::arithmetic::power2::pow2(exponent(bits))
}

/// The number that a pattern stands for is negative.
pub open spec fn below_zero(bits: u32) -> bool {
    bits > forecast::NEGATIVE_ZERO_BITS
}

/// The difference of two finite numbers, rounded to the nearest number with ties
/// to the even pattern, is at least a minimum that is not negative.
///
/// Rounding keeps order, so the rounded difference reaches the minimum exactly
/// when the true one lies at or above the middle between the minimum and the next
/// smaller number, the middle itself counting for an even minimum only. No
/// difference rounds to zero but zero itself, so for a minimum of zero the
/// difference must not be negative.
pub open spec fn difference_reaches(left: u32, right: u32, minimum: u32) -> bool {
    if forecast::magnitude(minimum) == 0 {
        scaled(left) >= scaled(right)
    } else {
        let twice = 2 * scaled(left) - 2 * scaled(right);
        let middle = scaled(minimum) + scaled((minimum - 1) as u32);
        twice > middle || twice == middle && minimum % 2 == 0
    }
}

/// What a treatment gains over its control on an axis reaches a minimum.
pub open spec fn advantage_reaches(
    axis: ForecastAxis,
    treatment: u32,
    control: u32,
    minimum: u32,
) -> bool {
    if axis.rewards_growth() {
        difference_reaches(treatment, control, minimum)
    } else {
        difference_reaches(control, treatment, minimum)
    }
}

/// A multiple of a power of two.
#[derive(Clone, Copy)]
struct Term {
    factor: i64,
    power: u32,
}

/// The part of a term from a power upwards, counted in that power.
spec fn part(term: Term, power: nat) -> int {
    if term.power >= power {
        term.factor * vstd::arithmetic::power2::pow2((term.power - power) as nat)
    } else {
        0
    }
}

spec fn parts(terms: [Term; 4], power: nat) -> int {
    part(terms@[0], power) + part(terms@[1], power) + part(terms@[2], power) + part(
        terms@[3],
        power,
    )
}

spec fn at_power(term: Term, power: nat) -> int {
    if term.power == power {
        term.factor as int
    } else {
        0
    }
}

spec fn small(term: Term) -> bool {
    -0x200_0000 <= term.factor <= 0x200_0000 && 1 <= term.power <= 255
}

proof fn lemma_part_unfolds(term: Term, power: nat)
    ensures
        part(term, power) == 2 * part(term, power + 1) + at_power(term, power),
{
    if term.power > power {
        let above = (term.power - power - 1) as nat;
        vstd::arithmetic::power2::lemma_pow2_unfold((term.power - power) as nat);
        let factor = term.factor as int;
        let unit = vstd::arithmetic::power2::pow2(above) as int;
        assert(factor * (2 * unit) == 2 * (factor * unit)) by (nonlinear_arith);
    } else if term.power == power {
        vstd::arithmetic::power2::lemma2_to64();
        assert(vstd::arithmetic::power2::pow2(0) == 1);
        let factor = term.factor as int;
        assert(factor * 1 == factor) by (nonlinear_arith);
    }
}

/// A large partial sum decides the sign of the whole.
proof fn lemma_large_part_decides(terms: [Term; 4], power: nat)
    requires
        forall|i: int| 0 <= i < 4 ==> small(#[trigger] terms@[i]),
        power >= 1,
    ensures
        parts(terms, power) >= 0x1000_0000 ==> parts(terms, 1) >= 0x1000_0000,
        parts(terms, power) <= -0x1000_0000 ==> parts(terms, 1) <= -0x1000_0000,
    decreases power,
{
    if power > 1 {
        let below = (power - 1) as nat;
        lemma_part_unfolds(terms@[0], below);
        lemma_part_unfolds(terms@[1], below);
        lemma_part_unfolds(terms@[2], below);
        lemma_part_unfolds(terms@[3], below);
        assert(small(terms@[0]) && small(terms@[1]) && small(terms@[2]) && small(terms@[3]));
        lemma_large_part_decides(terms, below);
    }
}

/// The sign of a sum of four terms: one, zero or minus one.
fn sign_of_sum(terms: &[Term; 4]) -> (sign: i8)
    requires
        forall|i: int| 0 <= i < 4 ==> small(#[trigger] terms@[i]),
    ensures
        sign == 1 <==> parts(*terms, 1) > 0,
        sign == 0 <==> parts(*terms, 1) == 0,
        sign == -1 <==> parts(*terms, 1) < 0,
        -1 <= sign <= 1,
{
    let mut power: u32 = 256;
    let mut sum: i64 = 0;
    assert(small(terms@[0]) && small(terms@[1]) && small(terms@[2]) && small(terms@[3]));
    assert(parts(*terms, 256) == 0);
    while power > 1
        invariant
            1 <= power <= 256,
            -0x1000_0000 < sum < 0x1000_0000,
            sum == parts(*terms, power as nat),
            forall|i: int| 0 <= i < 4 ==> small(#[trigger] terms@[i]),
        decreases power,
    {
        power = power - 1;
        proof {
            lemma_part_unfolds(terms@[0], power as nat);
            lemma_part_unfolds(terms@[1], power as nat);
            lemma_part_unfolds(terms@[2], power as nat);
            lemma_part_unfolds(terms@[3], power as nat);
            assert(small(terms@[0]) && small(terms@[1]) && small(terms@[2]) && small(terms@[3]));
        }
        sum = 2 * sum;
        if terms[0].power == power {
            sum = sum + terms[0].factor;
        }
        if terms[1].power == power {
            sum = sum + terms[1].factor;
        }
        if terms[2].power == power {
            sum = sum + terms[2].factor;
        }
        if terms[3].power == power {
            sum = sum + terms[3].factor;
        }
        if sum >= 0x1000_0000 || sum <= -0x1000_0000 {
            proof {
                lemma_large_part_decides(*terms, power as nat);
            }
            return if sum > 0 {
                1
            } else {
                -1
            };
        }
    }
    if sum > 0 {
        1
    } else if sum < 0 {
        -1
    } else {
        0
    }
}

fn exponent_of(bits: u32) -> (power: u32)
    ensures
        power == exponent(bits),
        1 <= power <= 255,
{
    let field: u32 = (bits / 0x80_0000) % 256;
    if field == 0 {
        1
    } else {
        field
    }
}

fn significand_of(bits: u32) -> (factor: i64)
    ensures
        factor == significand(bits),
        -0x100_0000 < factor < 0x100_0000,
{
    let fraction: i64 = (bits % 0x80_0000) as i64;
    let magnitude: i64 = if (bits / 0x80_0000) % 256 == 0 {
        fraction
    } else {
        fraction + 0x80_0000
    };
    if bits < forecast::NEGATIVE_ZERO_BITS {
        magnitude
    } else {
        -magnitude
    }
}

/// A pattern as a term, times a small number.
fn term_of(bits: u32, times: i64) -> (term: Term)
    requires
        -2 <= times <= 2,
    ensures
        small(term),
        term.factor == times * significand(bits),
        term.power == exponent(bits),
{
    let factor: i64 = significand_of(bits);
    assert(-0x200_0000 <= times * factor <= 0x200_0000) by (nonlinear_arith)
        requires
            -2 <= times <= 2,
            -0x100_0000 < factor < 0x100_0000,
    ;
    Term { factor: times * factor, power: exponent_of(bits) }
}

proof fn lemma_term(term: Term, bits: u32, times: int)
    requires
        term.factor == times * significand(bits),
        term.power == exponent(bits),
    ensures
        2 * part(term, 1) == times * scaled(bits),
{
    let above = (exponent(bits) - 1) as nat;
    vstd::arithmetic::power2::lemma_pow2_unfold(exponent(bits));
    let factor = significand(bits);
    let unit = vstd::arithmetic::power2::pow2(above) as int;
    assert(2 * ((times * factor) * unit) == times * (factor * (2 * unit))) by (nonlinear_arith);
}

/// Whether a rounded difference reaches a minimum.
pub fn reaches(left: u32, right: u32, minimum: u32) -> (result: bool)
    ensures
        result == difference_reaches(left, right, minimum),
{
    if minimum == 0 || minimum == forecast::NEGATIVE_ZERO_BITS {
        let nothing = Term { factor: 0, power: 1 };
        let terms: [Term; 4] = [term_of(left, 2), term_of(right, -2), nothing, nothing];
        proof {
            lemma_term(terms@[0], left, 2);
            lemma_term(terms@[1], right, -2);
            assert(part(nothing, 1) == 0) by {
                assert(0 * vstd::arithmetic::power2::pow2(0) == 0) by (nonlinear_arith);
            }
        }
        return sign_of_sum(&terms) >= 0;
    }
    let terms: [Term; 4] = [
        term_of(left, 2),
        term_of(right, -2),
        term_of(minimum, -1),
        term_of(minimum - 1, -1),
    ];
    proof {
        lemma_term(terms@[0], left, 2);
        lemma_term(terms@[1], right, -2);
        lemma_term(terms@[2], minimum, -1);
        lemma_term(terms@[3], (minimum - 1) as u32, -1);
    }
    let sign: i8 = sign_of_sum(&terms);
    sign > 0 || sign == 0 && minimum % 2 == 0
}

/// Whether what a treatment gains on an axis reaches a minimum.
pub fn gains(axis: ForecastAxis, treatment: u32, control: u32, minimum: u32) -> (result: bool)
    ensures
        result == advantage_reaches(axis, treatment, control, minimum),
{
    if axis.higher_is_better() {
        reaches(treatment, control, minimum)
    } else {
        reaches(control, treatment, minimum)
    }
}

// ---------------------------------------------------------------------------
// Laws
// ---------------------------------------------------------------------------
/// A larger pattern that is not negative stands for a larger number.
pub proof fn law_patterns_ascend(left: u32, right: u32)
    requires
        left < right < 0x7f80_0000,
    ensures
        scaled(left) < scaled(right),
    decreases right - left,
{
    let below = (right - 1) as u32;
    if left < below {
        law_patterns_ascend(left, below);
    }
    let low = exponent(below);
    let high = exponent(right);
    vstd::arithmetic::power2::lemma_pow2_pos(low);
    let unit = vstd::arithmetic::power2::pow2(low) as int;
    if high == low {
        assert(significand(right) == significand(below) + 1);
        let part = significand(below);
        assert((part + 1) * unit == part * unit + unit) by (nonlinear_arith);
    } else {
        assert(high == low + 1);
        vstd::arithmetic::power2::lemma_pow2_unfold(high);
        assert(significand(right) == 0x80_0000 && significand(below) == 0xff_ffff);
        assert(0x80_0000 * (2 * unit) > 0xff_ffff * unit) by (nonlinear_arith)
            requires
                unit > 0,
        ;
    }
}

/// The sign bit negates, zero is the pattern of zero, and a step of the exponent
/// doubles: with the order of patterns this says which number each stands for.
pub proof fn law_patterns_scale(bits: u32)
    requires
        bits < 0x7f80_0000,
    ensures
        scaled(0) == 0,
        scaled((bits + 0x8000_0000) as u32) == -scaled(bits),
        0x80_0000 <= bits < 0x7f00_0000 ==> scaled((bits + 0x80_0000) as u32) == 2 * scaled(bits),
        bits < 0x80_0000 ==> scaled(bits) == 2 * bits,
{
    let unit = vstd::arithmetic::power2::pow2(exponent(bits)) as int;
    let part = significand(bits);
    assert(significand(0) == 0);
    assert((0) * vstd::arithmetic::power2::pow2(exponent(0)) == 0) by (nonlinear_arith);
    let negative = (bits + 0x8000_0000) as u32;
    assert(exponent(negative) == exponent(bits) && significand(negative) == -part);
    assert((-part) * unit == -(part * unit)) by (nonlinear_arith);
    if 0x80_0000 <= bits < 0x7f00_0000 {
        let next = (bits + 0x80_0000) as u32;
        assert(exponent(next) == exponent(bits) + 1 && significand(next) == part);
        vstd::arithmetic::power2::lemma_pow2_unfold(exponent(next));
        assert(part * (2 * unit) == 2 * (part * unit)) by (nonlinear_arith);
    }
    if bits < 0x80_0000 {
        vstd::arithmetic::power2::lemma2_to64();
    }
}

/// What is better by so much: more on every axis but risks and costs, and less on
/// those.
pub open spec fn improvement(axis: ForecastAxis, treatment: u32, control: u32) -> int {
    match axis {
        ForecastAxis::DeadEndRisk => scaled(control) - scaled(treatment),
        ForecastAxis::VerificationCost => scaled(control) - scaled(treatment),
        _ => scaled(treatment) - scaled(control),
    }
}

/// A minimum is reached wherever the improvement is as large, and nowhere but where it
/// is at least half-way from the next smaller number.
pub proof fn law_reached_minimum_is_an_improvement(
    axis: ForecastAxis,
    treatment: u32,
    control: u32,
    minimum: u32,
)
    requires
        forecast::finite(minimum),
        !below_zero(minimum),
    ensures
        improvement(axis, treatment, control) >= scaled(minimum) ==> advantage_reaches(
            axis,
            treatment,
            control,
            minimum,
        ),
        advantage_reaches(axis, treatment, control, minimum) ==> if minimum == 0 || minimum
            == 0x8000_0000 {
            improvement(axis, treatment, control) >= 0
        } else {
            improvement(axis, treatment, control) > 0 && 2 * improvement(axis, treatment, control)
                >= scaled(minimum) + scaled((minimum - 1) as u32)
        },
{
    law_patterns_scale(0);
    if minimum != 0 && minimum != 0x8000_0000 {
        law_patterns_ascend((minimum - 1) as u32, minimum);
        if minimum > 1 {
            law_patterns_ascend(0, (minimum - 1) as u32);
        }
    }
}

/// An improvement just in the middle between two neighbouring numbers counts as the one
/// whose pattern is even: it reaches the lower one, and the upper one where that is even.
pub proof fn law_middle_rounds_to_even(axis: ForecastAxis, treatment: u32, control: u32, lower: u32)
    requires
        lower < 0x7f7f_ffff,
        2 * improvement(axis, treatment, control) == scaled(lower) + scaled((lower + 1) as u32),
    ensures
        advantage_reaches(axis, treatment, control, lower),
        advantage_reaches(axis, treatment, control, (lower + 1) as u32) <==> lower % 2 == 1,
{
    law_patterns_ascend(lower, (lower + 1) as u32);
    law_reached_minimum_is_an_improvement(axis, treatment, control, lower);
}

} // verus!
