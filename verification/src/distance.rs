//! The normalised Euclidean distance between two display colours.
//!
//! With each channel scaled to the unit interval, the distance of two
//! colours is the norm of their difference divided by the greatest norm
//! there is, the square root of three. Its square is therefore
//! `squared_distance / MAX_SQUARED`, a ratio of two integers, and this
//! module keeps the numerator. Comparing two distances is comparing their
//! numerators; comparing a distance with a fraction is comparing squares.

use vstd::prelude::*;
use crate::color::Color;
use crate::fraction::Fraction;

verus! {

/// The squared numerator of the greatest distance: that of black and white,
/// three channels each 255 apart.
pub const MAX_SQUARED: u32 = 195_075;

/// The signed difference of two channel values, in 255ths.
pub open spec fn spec_delta(a: u8, b: u8) -> int {
    a - b
}

/// The squared distance of two colours, in units of `1 / MAX_SQUARED`.
pub open spec fn squared_distance(a: Color, b: Color) -> int {
    spec_delta(a.red, b.red) * spec_delta(a.red, b.red) + spec_delta(a.green, b.green) * spec_delta(
        a.green,
        b.green,
    ) + spec_delta(a.blue, b.blue) * spec_delta(a.blue, b.blue)
}

/// A distance whose squared numerator is `squared` lies strictly below
/// `threshold`. Both sides are non-negative, so their squares compare as
/// they do.
pub open spec fn below(squared: nat, threshold: Fraction) -> bool {
    squared * threshold.den() * threshold.den() < threshold.num() * threshold.num() * MAX_SQUARED
}

/// The signed difference of two channel values, in 255ths.
pub fn delta(a: u8, b: u8) -> (d: i16)
    ensures
        d == spec_delta(a, b),
{
    a as i16 - b as i16
}

/// The squared distance of two colours, in units of `1 / MAX_SQUARED`.
pub fn distance(a: &Color, b: &Color) -> (d: u32)
    ensures
        d == squared_distance(*a, *b),
        d <= MAX_SQUARED,
        d == 0 <==> *a == *b,
{
    let red = delta(a.red, b.red) as i32;
    let green = delta(a.green, b.green) as i32;
    let blue = delta(a.blue, b.blue) as i32;
    proof {
        lemma_square_bound(red as int);
        lemma_square_bound(green as int);
        lemma_square_bound(blue as int);
        lemma_distance_zero(*a, *b);
    }
    (red * red + green * green + blue * blue) as u32
}

/// Whether a distance with squared numerator `squared` lies strictly below
/// `threshold`.
pub fn closer_than(squared: u32, threshold: &Fraction) -> (r: bool)
    ensures
        r == below(squared as nat, *threshold),
{
    let s: u128 = squared as u128;
    let n: u128 = threshold.numerator() as u128;
    let d: u128 = threshold.denominator() as u128;
    assert(d * d <= 0xffff_ffff * 0xffff_ffff) by (nonlinear_arith)
        requires
            d <= 0xffff_ffff,
    ;
    assert(n * n <= 0xffff_ffff * 0xffff_ffff) by (nonlinear_arith)
        requires
            n <= 0xffff_ffff,
    ;
    let dd: u128 = d * d;
    let nn: u128 = n * n;
    assert(s * dd <= 0xffff_ffff * (0xffff_ffff * 0xffff_ffff)) by (nonlinear_arith)
        requires
            s <= 0xffff_ffff,
            dd <= 0xffff_ffff * 0xffff_ffff,
    ;
    assert(nn * 195_075 <= 0xffff_ffff * 0xffff_ffff * 195_075) by (nonlinear_arith)
        requires
            nn <= 0xffff_ffff * 0xffff_ffff,
    ;
    assert(s * d * d == s * dd) by (nonlinear_arith)
        requires
            dd == d * d,
    ;
    s * dd < nn * (MAX_SQUARED as u128)
}

/// The square of a channel difference is at most 255 squared.
proof fn lemma_square_bound(d: int)
    requires
        -255 <= d <= 255,
    ensures
        0 <= d * d <= 65_025,
{
    assert(0 <= d * d <= 65_025) by (nonlinear_arith)
        requires
            -255 <= d <= 255,
    ;
}

/// A square is zero only for zero.
proof fn lemma_square_zero(d: int)
    ensures
        d * d >= 0,
        d * d == 0 <==> d == 0,
{
    assert(d * d >= 0 && (d * d == 0 <==> d == 0)) by (nonlinear_arith);
}

/// The distance from a colour to itself is zero.
pub proof fn lemma_distance_self(a: Color)
    ensures
        squared_distance(a, a) == 0,
{
}

/// Two colours at distance zero are the same colour.
pub proof fn lemma_distance_zero(a: Color, b: Color)
    ensures
        squared_distance(a, b) == 0 <==> a == b,
{
    lemma_square_zero(spec_delta(a.red, b.red));
    lemma_square_zero(spec_delta(a.green, b.green));
    lemma_square_zero(spec_delta(a.blue, b.blue));
}

/// The distance does not depend on the order of the two colours.
pub proof fn lemma_distance_symmetric(a: Color, b: Color)
    ensures
        squared_distance(a, b) == squared_distance(b, a),
{
    lemma_square_flip(spec_delta(a.red, b.red));
    lemma_square_flip(spec_delta(a.green, b.green));
    lemma_square_flip(spec_delta(a.blue, b.blue));
}

proof fn lemma_square_flip(d: int)
    ensures
        d * d == (-d) * (-d),
{
    assert(d * d == (-d) * (-d)) by (nonlinear_arith);
}

/// The distance lies between zero and one: its squared numerator lies
/// between zero and `MAX_SQUARED`.
pub proof fn lemma_distance_bounded(a: Color, b: Color)
    ensures
        0 <= squared_distance(a, b) <= MAX_SQUARED,
{
    lemma_square_bound(spec_delta(a.red, b.red));
    lemma_square_bound(spec_delta(a.green, b.green));
    lemma_square_bound(spec_delta(a.blue, b.blue));
}

/// Distance zero lies below every positive threshold, and no distance lies
/// below the threshold zero.
pub proof fn lemma_below_edges(squared: nat, threshold: Fraction)
    ensures
        threshold.positive() ==> below(0, threshold),
        !threshold.positive() ==> !below(squared, threshold),
{
    let n = threshold.num();
    let d = threshold.den();
    assert(n > 0 ==> n * n * 195_075 > 0) by (nonlinear_arith);
    assert(squared * d * d >= 0) by (nonlinear_arith);
    assert(0 * d * d == 0) by (nonlinear_arith);
}

/// A smaller distance lies below every threshold that a greater one lies
/// below.
pub proof fn lemma_below_monotone(small: nat, large: nat, threshold: Fraction)
    requires
        small <= large,
        below(large, threshold),
    ensures
        below(small, threshold),
{
    let d = threshold.den();
    assert(small * d * d <= large * d * d) by (nonlinear_arith)
        requires
            small <= large,
    ;
}

} // verus!
