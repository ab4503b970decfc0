//! Representative colours: a colour together with the share of an image's
//! pixels that it stands for.

use vstd::prelude::*;
use crate::color::Color;
use crate::fraction::Fraction;
use crate::rank::{ ascending, insert_ranked, lemma_insert_len, stable_sort, Ranked };

verus! {

/// A colour that stands for `count` of the `total` pixels of an image. Its
/// coverage is the fraction `count / total`.
#[derive(Clone, Copy, Debug, PartialEq, Eq, Structural)]
pub struct RepresentativeColor {
    pub color: Color,
    pub count: usize,
    pub total: usize,
}

impl RepresentativeColor {
    /// The colour stands for some pixels, and for no more than there are.
    pub open spec fn wf(self) -> bool {
        0 < self.count <= self.total
    }

    /// Numerator of the coverage. A colour of an image without pixels covers
    /// nothing.
    pub open spec fn part(self) -> nat {
        if self.total == 0 {
            0
        } else {
            self.count as nat
        }
    }

    /// Denominator of the coverage, never zero.
    pub open spec fn whole(self) -> nat {
        if self.total == 0 {
            1
        } else {
            self.total as nat
        }
    }

    /// The coverage is at least `min`.
    pub open spec fn covers(self, min: Fraction) -> bool {
        min.at_most(self.part(), self.whole())
    }

    /// The coverage is at least that of `other`.
    pub open spec fn covers_as_much_as(self, other: RepresentativeColor) -> bool {
        self.part() * other.whole() >= other.part() * self.whole()
    }

    /// Whether the coverage is at least `min`.
    pub fn meets(&self, min: &Fraction) -> (r: bool)
        ensures
            r == self.covers(*min),
    {
        if self.total == 0 {
            min.at_most_ratio(0, 1)
        } else {
            min.at_most_ratio(self.count, self.total)
        }
    }

    /// Whether the coverage is at least that of `other`.
    pub fn outweighs(&self, other: &RepresentativeColor) -> (r: bool)
        ensures
            r == self.covers_as_much_as(*other),
    {
        let a: u128 = if self.total == 0 { 0 } else { self.count as u128 };
        let b: u128 = if self.total == 0 { 1 } else { self.total as u128 };
        let c: u128 = if other.total == 0 { 0 } else { other.count as u128 };
        let d: u128 = if other.total == 0 { 1 } else { other.total as u128 };
        assert(a * d <= 0xffff_ffff_ffff_ffff * 0xffff_ffff_ffff_ffff) by (nonlinear_arith)
            requires
                a <= 0xffff_ffff_ffff_ffff,
                d <= 0xffff_ffff_ffff_ffff,
        ;
        assert(c * b <= 0xffff_ffff_ffff_ffff * 0xffff_ffff_ffff_ffff) by (nonlinear_arith)
            requires
                c <= 0xffff_ffff_ffff_ffff,
                b <= 0xffff_ffff_ffff_ffff,
        ;
        a * d >= c * b
    }
}

/// Fractions with positive denominators compare transitively.
pub proof fn lemma_ratio_transitive(a: nat, b: nat, c: nat, d: nat, e: nat, f: nat)
    requires
        b > 0,
        d > 0,
        f > 0,
        a * d >= c * b,
        c * f >= e * d,
    ensures
        a * f >= e * b,
{
    assert(a * d * f >= c * b * f) by (nonlinear_arith)
        requires
            a * d >= c * b,
    ;
    assert(c * f * b >= e * d * b) by (nonlinear_arith)
        requires
            c * f >= e * d,
    ;
    assert(c * b * f == c * f * b) by (nonlinear_arith);
    assert(a * d * f == (a * f) * d) by (nonlinear_arith);
    assert(e * d * b == (e * b) * d) by (nonlinear_arith);
    assert(a * f >= e * b) by (nonlinear_arith)
        requires
            (a * f) * d >= (e * b) * d,
            d > 0,
    ;
}

/// Representative colours rank by descending coverage.
impl Ranked for RepresentativeColor {
    open spec fn ranks_before(&self, other: &Self) -> bool {
        self.covers_as_much_as(*other)
    }

    fn precedes(&self, other: &Self) -> (r: bool) {
        self.outweighs(other)
    }

    proof fn total(a: &Self, b: &Self) {
    }

    proof fn transitive(a: &Self, b: &Self, c: &Self) {
        lemma_ratio_transitive(a.part(), a.whole(), b.part(), b.whole(), c.part(), c.whole());
    }
}

/// The number of pixels that the colours of `colors` stand for together.
pub open spec fn covered(colors: Seq<RepresentativeColor>) -> nat
    decreases colors.len(),
{
    if colors.len() == 0 {
        0
    } else {
        covered(colors.drop_last()) + colors.last().count as nat
    }
}

/// Every colour of `colors` stands for some of the same `total` pixels.
pub open spec fn all_of(colors: Seq<RepresentativeColor>, total: nat) -> bool {
    forall|i: int| 0 <= i < colors.len() ==> (#[trigger] colors[i]).wf() && colors[i].total == total
}

/// Ranking a colour in adds its pixels to the sum, wherever it lands.
pub proof fn lemma_covered_insert(colors: Seq<RepresentativeColor>, x: RepresentativeColor)
    ensures
        covered(insert_ranked(colors, x)) == covered(colors) + x.count,
    decreases colors.len(),
{
    if colors.len() == 0 {
        assert(seq![x].drop_last() =~= colors);
    } else if colors.last().ranks_before(&x) {
        assert(colors.push(x).drop_last() =~= colors);
    } else {
        let init = colors.drop_last();
        lemma_covered_insert(init, x);
        assert(insert_ranked(init, x).push(colors.last()).drop_last() =~= insert_ranked(init, x));
    }
}

/// Sorting changes neither the pixels covered nor what holds of every
/// colour.
pub proof fn lemma_covered_sort(colors: Seq<RepresentativeColor>, total: nat)
    ensures
        covered(stable_sort(colors)) == covered(colors),
        all_of(colors, total) ==> all_of(stable_sort(colors), total),
    decreases colors.len(),
{
    if colors.len() > 0 {
        let init = colors.drop_last();
        lemma_covered_sort(init, total);
        lemma_covered_insert(stable_sort(init), colors.last());
        if all_of(colors, total) {
            assert(all_of(init, total)) by {
                assert forall|i: int| 0 <= i < init.len() implies (#[trigger] init[i]).wf()
                    && init[i].total == total by {
                    assert(init[i] == colors[i]);
                }
            }
            assert(colors[colors.len() - 1].wf());
            lemma_all_of_insert(stable_sort(init), colors.last(), total);
        }
    }
}

proof fn lemma_all_of_insert(colors: Seq<RepresentativeColor>, x: RepresentativeColor, total: nat)
    requires
        all_of(colors, total),
        x.wf(),
        x.total == total,
    ensures
        all_of(insert_ranked(colors, x), total),
    decreases colors.len(),
{
    if colors.len() == 0 {
    } else if colors.last().ranks_before(&x) {
        assert forall|i: int| 0 <= i < colors.push(x).len() implies (#[trigger] colors.push(x)[i]).wf()
            && colors.push(x)[i].total == total by {
            if i < colors.len() {
                assert(colors[i].wf());
            }
        }
    } else {
        let init = colors.drop_last();
        assert(all_of(init, total)) by {
            assert forall|i: int| 0 <= i < init.len() implies (#[trigger] init[i]).wf()
                && init[i].total == total by {
                assert(init[i] == colors[i]);
            }
        }
        lemma_all_of_insert(init, x, total);
        lemma_insert_len(init, x);
        let q = insert_ranked(init, x);
        let r = q.push(colors.last());
        assert(colors[colors.len() - 1].wf());
        assert forall|i: int| 0 <= i < r.len() implies (#[trigger] r[i]).wf() && r[i].total
            == total by {
            if i < q.len() {
                assert(q[i].wf());
            }
        }
    }
}

/// The counts never rise from one colour to the next.
pub open spec fn counts_descend(colors: Seq<RepresentativeColor>) -> bool {
    forall|i: int, j: int|
        0 <= i <= j < colors.len() ==> (#[trigger] colors[i]).count >= (#[trigger] colors[j]).count
}

/// Colours of one image that ascend in rank descend in count.
pub proof fn lemma_counts_descend(colors: Seq<RepresentativeColor>, total: nat)
    requires
        ascending(colors),
        all_of(colors, total),
    ensures
        counts_descend(colors),
{
    assert forall|i: int, j: int| 0 <= i <= j < colors.len() implies (#[trigger] colors[i]).count
        >= (#[trigger] colors[j]).count by {
        if i < j {
            assert(colors[i].ranks_before(&colors[j]));
            assert(colors[i].wf() && colors[j].wf());
            lemma_same_image_order(colors[i], colors[j]);
        }
    }
}

/// Among colours of one image, ranking by coverage is ranking by count.
pub proof fn lemma_same_image_order(a: RepresentativeColor, b: RepresentativeColor)
    requires
        a.total == b.total,
        a.total > 0,
    ensures
        a.ranks_before(&b) <==> a.count >= b.count,
{
    let t = a.total as nat;
    assert(a.count * t >= b.count * t <==> a.count >= b.count) by (nonlinear_arith)
        requires
            t > 0,
    ;
}

} // verus!
