//! Non-negative fractions, compared exactly by cross-multiplication.

use vstd::prelude::*;

verus! {

/// A non-negative rational number, `num / den`, with a positive
/// denominator. Thresholds are given as fractions so that no comparison
/// ever rounds.
#[derive(Clone, Copy, Debug)]
pub struct Fraction {
    num: u32,
    den: u32,
}

impl Fraction {
    /// The denominator is positive.
    pub closed spec fn wf(self) -> bool {
        self.den > 0
    }

    #[verifier::type_invariant]
    spec fn inv(self) -> bool {
        self.wf()
    }

    /// The numerator.
    pub closed spec fn num(self) -> nat {
        self.num as nat
    }

    /// The denominator.
    pub closed spec fn den(self) -> nat {
        self.den as nat
    }

    /// The fraction is greater than zero.
    pub open spec fn positive(self) -> bool {
        self.num() > 0
    }

    /// The fraction is at most `count / total`.
    pub open spec fn at_most(self, count: nat, total: nat) -> bool {
        self.num() * total <= count * self.den()
    }

    /// A well-formed fraction has a positive denominator that fits its field.
    pub proof fn lemma_wf(self)
        requires
            self.wf(),
        ensures
            0 < self.den() <= u32::MAX,
            self.num() <= u32::MAX,
    {
    }

    /// `num / den`, or nothing where `den` is zero.
    pub fn new(num: u32, den: u32) -> (r: Option<Fraction>)
        ensures
            r.is_none() <==> den == 0,
            r matches Some(f) ==> f.wf() && f.num() == num && f.den() == den,
    {
        if den == 0 {
            None
        } else {
            Some(Fraction { num, den })
        }
    }

    /// The numerator.
    pub fn numerator(&self) -> (n: u32)
        ensures
            n == self.num(),
    {
        self.num
    }

    /// The denominator, which is never zero.
    pub fn denominator(&self) -> (d: u32)
        ensures
            d == self.den(),
            d > 0,
            self.wf(),
    {
        proof {
            use_type_invariant(self);
        }
        self.den
    }

    /// Whether the fraction is at most `count / total`.
    pub fn at_most_ratio(&self, count: usize, total: usize) -> (r: bool)
        ensures
            r == self.at_most(count as nat, total as nat),
    {
        let n: u128 = self.num as u128;
        let d: u128 = self.den as u128;
        let c: u128 = count as u128;
        let t: u128 = total as u128;
        assert(n * t <= 0xffff_ffff * 0xffff_ffff_ffff_ffff) by (nonlinear_arith)
            requires
                n <= 0xffff_ffff,
                t <= 0xffff_ffff_ffff_ffff,
        ;
        assert(c * d <= 0xffff_ffff_ffff_ffff * 0xffff_ffff) by (nonlinear_arith)
            requires
                d <= 0xffff_ffff,
                c <= 0xffff_ffff_ffff_ffff,
        ;
        n * t <= c * d
    }
}

/// A smaller part of the same whole clears no threshold that the larger
/// part misses.
pub proof fn lemma_at_most_monotone(f: Fraction, small: nat, large: nat, total: nat)
    requires
        small <= large,
        f.at_most(small, total),
    ensures
        f.at_most(large, total),
{
    assert(small * f.den() <= large * f.den()) by (nonlinear_arith)
        requires
            small <= large,
    ;
}

} // verus!
