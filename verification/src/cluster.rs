//! Clustering the pixels of an image into representative colours.
//!
//! The clustering itself is the work of `kmeans_colors`, on colours that
//! `palette` has carried into the Lab space. This module decides what is
//! asked of it and what is made of the answer: which seeds are tried, which
//! attempt is kept, how many pixels each centroid stands for, and in what
//! order the colours come out.

use vstd::prelude::*;
use kmeans_colors::{ get_kmeans, Kmeans };
use palette::{ FromColor, IntoColor, Lab, Srgb };
use crate::color::Color;
use crate::coverage::{
    all_of,
    counts_descend,
    covered,
    lemma_counts_descend,
    lemma_covered_sort,
    RepresentativeColor,
};
use crate::rank::{ ascending, lemma_sort_ascending, lemma_sort_len, sort_ranked, stable_sort };

verus! {

/// The score of a run that has not been made. Every score that can win is
/// lower.
pub const UNSCORED: u32 = 0x7f7f_ffff;

/// The most clusters that can be asked for: an assignment names its
/// centroid in one byte.
pub const MAX_CLUSTERS: usize = 256;

/// The most pixels that are clustered: as many as fit in memory once each
/// has been turned into three four-byte components.
pub const MAX_SAMPLES: usize = usize::MAX / 24;

/// The outcome of one clustering attempt.
///
/// `score` orders attempts, lower being better. `assignments` holds, for
/// each pixel in turn, the index in `centroids` of the centroid it belongs
/// to.
#[derive(Debug)]
pub struct ClusterRun {
    pub score: u32,
    pub centroids: Vec<Color>,
    pub assignments: Vec<u8>,
}

/// What a `ClusterRun` holds, as sequences.
pub struct ClusterRunView {
    pub score: u32,
    pub centroids: Seq<Color>,
    pub assignments: Seq<u8>,
}

impl View for ClusterRun {
    type V = ClusterRunView;

    open spec fn view(&self) -> ClusterRunView {
        ClusterRunView {
            score: self.score,
            centroids: self.centroids@,
            assignments: self.assignments@,
        }
    }
}

impl ClusterRunView {
    /// Every pixel is assigned to a centroid that exists.
    pub open spec fn wf(self) -> bool {
        forall|i: int|
            0 <= i < self.assignments.len() ==> (#[trigger] self.assignments[i]) < self.centroids.len()
    }

    /// The run that stands for no attempt: no centroids, no pixels, and a
    /// score that any finite score beats.
    pub open spec fn unscored() -> ClusterRunView {
        ClusterRunView { score: UNSCORED, centroids: Seq::empty(), assignments: Seq::empty() }
    }
}

/// Of the best run so far and a new one, the one to keep: the new one only
/// if its score is strictly lower.
pub open spec fn better(best: ClusterRunView, candidate: ClusterRunView) -> ClusterRunView {
    if candidate.score < best.score {
        candidate
    } else {
        best
    }
}

/// How often the value `v` occurs in `s`.
pub open spec fn occurrences(s: Seq<u8>, v: int) -> nat
    decreases s.len(),
{
    if s.len() == 0 {
        0
    } else {
        occurrences(s.drop_last(), v) + if s.last() == v {
            1nat
        } else {
            0nat
        }
    }
}

/// The representative colours of the first `upto` centroids of `run`, in
/// the order of the centroids. A centroid to which no pixel belongs has
/// none.
pub open spec fn present(run: ClusterRunView, upto: int) -> Seq<RepresentativeColor>
    decreases upto,
{
    if upto <= 0 {
        Seq::empty()
    } else {
        let rest = present(run, upto - 1);
        let count = occurrences(run.assignments, upto - 1);
        if count > 0 {
            rest.push(
                RepresentativeColor {
                    color: run.centroids[upto - 1],
                    count: count as usize,
                    total: run.assignments.len() as usize,
                },
            )
        } else {
            rest
        }
    }
}

/// The representative colours of a run: one for each centroid that has
/// pixels, by descending coverage, centroids of equal coverage in the order
/// of their indices.
pub open spec fn colors_of_run(run: ClusterRunView) -> Seq<RepresentativeColor> {
    stable_sort(present(run, run.centroids.len() as int))
}

/// The number of entries of `s` that are less than `classes`.
pub open spec fn classified(s: Seq<u8>, classes: int) -> nat
    decreases classes,
{
    if classes <= 0 {
        0
    } else {
        classified(s, classes - 1) + occurrences(s, classes - 1)
    }
}

/// What `get_kmeans` returns for these pixels, carried into Lab, and these
/// settings: its assignments as they are, its centroids carried back to
/// display colours, and its score as a bit pattern.
pub uninterp spec fn kmeans_of(
    pixels: Seq<Color>,
    k: usize,
    max_iter: usize,
    converge: u16,
    verbose: bool,
    seed: u64,
) -> ClusterRunView;

/// Calls `kmeans_colors::get_kmeans` on the pixels, which `palette` first
/// carries from sRGB into Lab, and hands back the run with each centroid
/// carried back to an sRGB colour of eight bits per channel.
///
/// The contract claims that the run depends on the arguments alone (the
/// crate draws its random numbers from a generator seeded with `seed`), that
/// it assigns every pixel, that it has at least one centroid and at most
/// `k`, and that every assignment names one of them. The score is handed
/// over as the bit pattern of the crate's non-negative floating-point score,
/// which orders as the score does. `converge` is passed on as a whole
/// number. The crate panics on an empty buffer and keeps the index of a
/// centroid in a byte, so `requires` leaves out the empty buffer and more
/// clusters than a byte can tell apart.
#[verifier::external_body]
pub(crate) fn run_kmeans(
    pixels: &Vec<Color>,
    k: usize,
    max_iter: usize,
    converge: u16,
    verbose: bool,
    seed: u64,
) -> (run: ClusterRun)
    requires
        0 < pixels@.len() <= MAX_SAMPLES,
        0 < k <= MAX_CLUSTERS,
    ensures
        run@ == kmeans_of(pixels@, k, max_iter, converge, verbose, seed),
        run@.assignments.len() == pixels@.len(),
        0 < run@.centroids.len() <= k,
        run@.wf(),
{
    let lab: Vec<Lab> = pixels.iter().map(
        |p| Srgb::new(p.red, p.green, p.blue).into_format().into_color(),
    ).collect();
    let run = get_kmeans(k, max_iter, converge.into(), verbose, &lab, seed);
    let centroids = run.centroids.iter().map(
        |c| {
            let rgb: Srgb<u8> = Srgb::from_color(*c).into_format();
            Color { red: rgb.red, green: rgb.green, blue: rgb.blue }
        },
    ).collect();
    ClusterRun { score: run.score.to_bits(), centroids, assignments: run.indices }
}

/// Calls `kmeans_colors::Kmeans::new`, which makes the run that stands for
/// no attempt: no centroids, no assignments, and the greatest finite score,
/// handed over as its bit pattern.
#[verifier::external_body]
fn unscored_run() -> (run: ClusterRun)
    ensures
        run@ == ClusterRunView::unscored(),
{
    let run = Kmeans::<Lab>::new();
    ClusterRun { score: run.score.to_bits(), centroids: Vec::new(), assignments: run.indices }
}

impl ClusterRun {
    /// The run to start from, before any attempt has been made.
    pub fn unscored() -> (run: ClusterRun)
        ensures
            run@ == ClusterRunView::unscored(),
    {
        unscored_run()
    }
}

/// Keeps the better of the best run so far and a new one. A tie keeps the
/// earlier run.
pub fn keep_better(best: ClusterRun, candidate: ClusterRun) -> (kept: ClusterRun)
    ensures
        kept@ == better(best@, candidate@),
{
    if candidate.score < best.score {
        candidate
    } else {
        best
    }
}

/// No value occurs more often than there are entries.
pub proof fn lemma_occurrences_bound(s: Seq<u8>, v: int)
    ensures
        occurrences(s, v) <= s.len(),
        !(0 <= v < 256) ==> occurrences(s, v) == 0,
    decreases s.len(),
{
    if s.len() > 0 {
        lemma_occurrences_bound(s.drop_last(), v);
    }
}

/// The counts of the first `classes` values add up to the number of entries
/// below `classes`: one more for each such entry.
proof fn lemma_classified_push(s: Seq<u8>, x: u8, classes: int)
    ensures
        classified(s.push(x), classes) == classified(s, classes) + if x < classes {
            1nat
        } else {
            0nat
        },
    decreases classes,
{
    if classes > 0 {
        lemma_classified_push(s, x, classes - 1);
        assert(s.push(x).drop_last() =~= s);
    }
}

/// Where every entry is below `classes`, the counts of the classes add up
/// to the number of entries.
pub proof fn lemma_classified_all(s: Seq<u8>, classes: int)
    requires
        forall|i: int| 0 <= i < s.len() ==> (#[trigger] s[i]) < classes,
    ensures
        classified(s, classes) == s.len(),
    decreases s.len(),
{
    if s.len() == 0 {
        lemma_classified_empty(s, classes);
    } else {
        let init = s.drop_last();
        assert forall|i: int| 0 <= i < init.len() implies (#[trigger] init[i]) < classes by {
            assert(init[i] == s[i]);
        }
        lemma_classified_all(init, classes);
        lemma_classified_push(init, s.last(), classes);
        assert(init.push(s.last()) =~= s);
        assert(s[s.len() - 1] < classes);
    }
}

proof fn lemma_classified_empty(s: Seq<u8>, classes: int)
    requires
        s.len() == 0,
    ensures
        classified(s, classes) == 0,
    decreases classes,
{
    if classes > 0 {
        lemma_classified_empty(s, classes - 1);
    }
}

/// What holds of the colours of the first `upto` centroids: there are at
/// most `upto`, each stands for some of the run's pixels, and together they
/// stand for as many pixels as are assigned below `upto`.
pub proof fn lemma_present(run: ClusterRunView, upto: int)
    requires
        run.assignments.len() <= usize::MAX,
    ensures
        present(run, upto).len() <= if upto < 0 {
            0
        } else {
            upto
        },
        all_of(present(run, upto), run.assignments.len()),
        covered(present(run, upto)) == classified(run.assignments, upto),
        upto >= 256 ==> present(run, upto) == present(run, 256),
    decreases upto,
{
    if upto > 0 {
        lemma_present(run, upto - 1);
        lemma_occurrences_bound(run.assignments, upto - 1);
        let rest = present(run, upto - 1);
        let count = occurrences(run.assignments, upto - 1);
        if count > 0 {
            let item = RepresentativeColor {
                color: run.centroids[upto - 1],
                count: count as usize,
                total: run.assignments.len() as usize,
            };
            assert(rest.push(item).drop_last() =~= rest);
            assert forall|i: int| 0 <= i < rest.push(item).len() implies (#[trigger] rest.push(
                item,
            )[i]).wf() && rest.push(item)[i].total == run.assignments.len() by {
                if i < rest.len() {
                    assert(rest[i].wf());
                }
            }
        }
    }
}

/// Counts how often each byte value occurs.
fn tally(assignments: &Vec<u8>) -> (counts: Vec<usize>)
    ensures
        counts@.len() == 256,
        forall|v: int| 0 <= v < 256 ==> (#[trigger] counts@[v]) == occurrences(assignments@, v),
{
    let n = assignments.len();
    let mut counts: Vec<usize> = vec![0usize; 256];
    let mut j: usize = 0;
    proof {
        assert(assignments@.take(0).len() == 0);
    }
    while j < n
        invariant
            n == assignments@.len(),
            j <= n,
            counts@.len() == 256,
            forall|v: int|
                0 <= v < 256 ==> (#[trigger] counts@[v]) == occurrences(
                    assignments@.take(j as int),
                    v,
                ),
        decreases n - j,
    {
        let a = assignments[j] as usize;
        let ghost before = counts@;
        proof {
            lemma_occurrences_bound(assignments@.take(j as int), a as int);
            assert(assignments@.take(j + 1).drop_last() =~= assignments@.take(j as int));
        }
        let bumped = counts[a] + 1;
        counts.set(a, bumped);
        proof {
            assert forall|v: int| 0 <= v < 256 implies (#[trigger] counts@[v]) == occurrences(
                assignments@.take(j + 1),
                v,
            ) by {
                assert(before[v] == occurrences(assignments@.take(j as int), v));
            }
        }
        j = j + 1;
    }
    proof {
        assert(assignments@.take(n as int) =~= assignments@);
    }
    counts
}

/// Turns a run into its representative colours: counts the pixels of each
/// centroid, leaves out the centroids that have none, and sorts by
/// descending coverage, centroids of equal coverage staying in the order of
/// their indices.
///
/// The colours stand for disjoint sets of pixels. Where every assignment of
/// the run names a centroid, they stand for all pixels together, so that
/// their coverages add up to one.
pub fn representative_colors(run: &ClusterRun) -> (colors: Vec<RepresentativeColor>)
    ensures
        colors@ == colors_of_run(run@),
        colors@.len() <= run@.centroids.len(),
        all_of(colors@, run@.assignments.len()),
        ascending(colors@),
        counts_descend(colors@),
        covered(colors@) <= run@.assignments.len(),
        run@.wf() ==> covered(colors@) == run@.assignments.len(),
{
    let counts = tally(&run.assignments);
    let total = run.assignments.len();
    let classes = if run.centroids.len() < 256 {
        run.centroids.len()
    } else {
        256
    };
    let mut colors: Vec<RepresentativeColor> = Vec::new();
    let mut c: usize = 0;
    while c < classes
        invariant
            c <= classes,
            classes <= 256,
            classes <= run@.centroids.len(),
            total == run@.assignments.len(),
            counts@.len() == 256,
            forall|v: int|
                0 <= v < 256 ==> (#[trigger] counts@[v]) == occurrences(run@.assignments, v),
            colors@ == present(run@, c as int),
        decreases classes - c,
    {
        if counts[c] > 0 {
            colors.push(RepresentativeColor { color: run.centroids[c], count: counts[c], total });
        }
        c = c + 1;
    }
    proof {
        let all = run@.centroids.len() as int;
        lemma_present(run@, all);
        lemma_present(run@, 256);
        assert(colors@ == present(run@, all));
        lemma_sort_len(colors@);
        lemma_sort_ascending(colors@);
        lemma_covered_sort(colors@, total as nat);
        lemma_counts_descend(stable_sort(colors@), total as nat);
        lemma_classified_bound(run@.assignments, all);
        if run@.wf() {
            lemma_classified_all(run@.assignments, all);
        }
    }
    sort_ranked(&mut colors);
    colors
}

/// The counts of any number of classes add up to no more than there are
/// entries.
pub proof fn lemma_classified_bound(s: Seq<u8>, classes: int)
    ensures
        classified(s, classes) <= s.len(),
    decreases s.len(),
{
    if s.len() == 0 {
        lemma_classified_empty(s, classes);
    } else {
        let init = s.drop_last();
        lemma_classified_bound(init, classes);
        lemma_classified_push(init, s.last(), classes);
        assert(init.push(s.last()) =~= s);
    }
}

} // verus!
