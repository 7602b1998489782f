//! Comparisons of single-precision numbers given by their bits.
//!
//! The rules of the belts only compare, select and move such numbers. They treat them
//! as the integers whose bits they are; whoever does arithmetic on them hands in the
//! results.

use vstd::arithmetic::power2::{
    lemma_pow2_pos, lemma_pow2_strictly_increases, lemma_pow2_unfold, pow2,
};
use vstd::prelude::*;

verus! {

/// The bits of 0.0.
pub const ZERO: u32 = 0;

/// The bits of 1.0.
pub const ONE: u32 = 0x3F80_0000;

/// The bits of 0.5.
pub const HALF: u32 = 0x3F00_0000;

/// Whether the bits are those of a number that compares with nothing.
pub open spec fn not_a_number(b: u32) -> bool {
    b % 0x8000_0000 > 0x7F80_0000
}

/// Whether the bits are those of a finite number.
pub open spec fn finite(b: u32) -> bool {
    b % 0x8000_0000 < 0x7F80_0000
}

/// Where the number stands among the others: numbers compare as their ranks do.
pub open spec fn rank(b: u32) -> int {
    if b >= 0x8000_0000 { -(b - 0x8000_0000) } else { b as int }
}

/// `a < b`.
pub open spec fn below(a: u32, b: u32) -> bool {
    !not_a_number(a) && !not_a_number(b) && rank(a) < rank(b)
}

/// `a <= b`.
pub open spec fn at_most(a: u32, b: u32) -> bool {
    !not_a_number(a) && !not_a_number(b) && rank(a) <= rank(b)
}

/// The smaller of two numbers, or the one that is a number.
pub open spec fn smaller(a: u32, b: u32) -> u32 {
    if not_a_number(a) {
        b
    } else if below(b, a) {
        b
    } else {
        a
    }
}

/// The larger of two numbers, or the one that is a number.
pub open spec fn larger(a: u32, b: u32) -> u32 {
    if not_a_number(a) {
        b
    } else if below(a, b) {
        b
    } else {
        a
    }
}

/// The number, or the bound that it lies beyond.
pub open spec fn clamped(x: u32, low: u32, high: u32) -> u32 {
    if below(x, low) {
        low
    } else if below(high, x) {
        high
    } else {
        x
    }
}

pub fn is_nan(b: u32) -> (r: bool)
    ensures
        r == not_a_number(b),
{
    b % 0x8000_0000 > 0x7F80_0000
}

pub fn is_finite(b: u32) -> (r: bool)
    ensures
        r == finite(b),
{
    b % 0x8000_0000 < 0x7F80_0000
}

fn rank_of(b: u32) -> (r: i64)
    ensures
        r == rank(b),
{
    if b >= 0x8000_0000 { -((b - 0x8000_0000) as i64) } else { b as i64 }
}

pub fn lt(a: u32, b: u32) -> (r: bool)
    ensures
        r == below(a, b),
{
    !is_nan(a) && !is_nan(b) && rank_of(a) < rank_of(b)
}

pub fn le(a: u32, b: u32) -> (r: bool)
    ensures
        r == at_most(a, b),
{
    !is_nan(a) && !is_nan(b) && rank_of(a) <= rank_of(b)
}

pub fn min_of(a: u32, b: u32) -> (r: u32)
    ensures
        r == smaller(a, b),
{
    if is_nan(a) || lt(b, a) { b } else { a }
}

pub fn max_of(a: u32, b: u32) -> (r: u32)
    ensures
        r == larger(a, b),
{
    if is_nan(a) || lt(a, b) { b } else { a }
}

pub fn clamp_to(x: u32, low: u32, high: u32) -> (r: u32)
    ensures
        r == clamped(x, low, high),
{
    if lt(x, low) {
        low
    } else if lt(high, x) {
        high
    } else {
        x
    }
}

// ---------------------------------------------------------------------------
// What the bits stand for.

/// How far the number with these bits and no sign lies from zero, counted in the smallest
/// number above zero.
pub open spec fn magnitude(m: nat) -> nat {
    if m < 0x80_0000 {
        m
    } else {
        (0x80_0000 + m % 0x80_0000) * pow2((m / 0x80_0000 - 1) as nat)
    }
}

/// The number that the bits stand for, counted in the smallest number above zero.
pub open spec fn measure(b: u32) -> int {
    if b >= 0x8000_0000 {
        -(magnitude((b - 0x8000_0000) as nat) as int)
    } else {
        magnitude(b as nat) as int
    }
}

proof fn lemma_magnitude_grows(a: nat, b: nat)
    requires
        a <= b,
    ensures
        magnitude(a) <= magnitude(b),
{
    let p: int = 0x80_0000;
    if b >= p {
        let eb = b / 0x80_0000;
        let fb = p + b % 0x80_0000;
        lemma_pow2_pos((eb - 1) as nat);
        let wb = pow2((eb - 1) as nat);
        if a < p {
            assert(a <= fb * wb) by (nonlinear_arith)
                requires
                    a < p <= fb,
                    wb >= 1,
            ;
        } else {
            let ea = a / 0x80_0000;
            let fa = p + a % 0x80_0000;
            let wa = pow2((ea - 1) as nat);
            lemma_pow2_pos((ea - 1) as nat);
            if ea == eb {
                assert(fa <= fb);
                assert(fa * wa <= fb * wb) by (nonlinear_arith)
                    requires
                        fa <= fb,
                        wa == wb,
                        wa >= 0,
                ;
            } else {
                assert(ea < eb);
                lemma_pow2_unfold(ea);
                if ea < (eb - 1) as nat {
                    lemma_pow2_strictly_increases(ea, (eb - 1) as nat);
                }
                assert(2 * wa <= wb);
                assert(fa * wa <= fb * wb) by (nonlinear_arith)
                    requires
                        fa < 2 * p,
                        p <= fb,
                        2 * wa <= wb,
                        wa >= 0,
                        fa >= 0,
                        p > 0,
                ;
            }
        }
    }
}

/// Numbers compare as the bits say.
pub proof fn law_measure_follows_the_order(a: u32, b: u32)
    requires
        at_most(a, b),
    ensures
        measure(a) <= measure(b),
{
    if a >= 0x8000_0000 && b >= 0x8000_0000 {
        lemma_magnitude_grows((b - 0x8000_0000) as nat, (a - 0x8000_0000) as nat);
    } else if a < 0x8000_0000 && b < 0x8000_0000 {
        lemma_magnitude_grows(a as nat, b as nat);
    }
}

pub proof fn lemma_measure_of_larger(a: u32, b: u32)
    requires
        !not_a_number(a),
        !not_a_number(b),
    ensures
        !not_a_number(larger(a, b)),
        measure(larger(a, b)) == if measure(a) < measure(b) { measure(b) } else { measure(a) },
{
    if below(a, b) {
        law_measure_follows_the_order(a, b);
    } else {
        law_measure_follows_the_order(b, a);
    }
}

pub proof fn lemma_measure_of_clamped(x: u32, low: u32, high: u32)
    requires
        !not_a_number(x),
        at_most(low, high),
    ensures
        at_most(low, clamped(x, low, high)),
        at_most(clamped(x, low, high), high),
        measure(clamped(x, low, high)) == if measure(x) < measure(low) {
            measure(low)
        } else if measure(high) < measure(x) {
            measure(high)
        } else {
            measure(x)
        },
{
    law_measure_follows_the_order(low, high);
    if below(x, low) {
        law_measure_follows_the_order(x, low);
    } else if below(high, x) {
        law_measure_follows_the_order(high, x);
        law_measure_follows_the_order(low, x);
    } else {
        law_measure_follows_the_order(low, x);
        law_measure_follows_the_order(x, high);
    }
}

} // verus!
