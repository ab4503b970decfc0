//! The settings of the clustering, and the extraction of an image's
//! representative colours under them.

use vstd::prelude::*;
use crate::cluster::{
    better,
    colors_of_run,
    keep_better,
    kmeans_of,
    representative_colors,
    run_kmeans,
    ClusterRun,
    ClusterRunView,
    MAX_CLUSTERS,
    MAX_SAMPLES,
    UNSCORED,
};
use crate::color::Color;
use crate::coverage::{ all_of, counts_descend, covered, RepresentativeColor };
use crate::rank::ascending;

verus! {

/// One of the settings of `FindColors`.
#[derive(Clone, Copy, Debug, PartialEq, Eq, Structural)]
pub enum Setting {
    Runs,
    K,
    MaxIter,
    Coverage,
    Verbose,
    Seed,
}

/// Why a builder holds no valid settings.
#[derive(Clone, Copy, Debug, PartialEq, Eq, Structural)]
pub enum BuildError {
    /// A setting was never given.
    Uninitialized(Setting),
    /// No attempt would be made.
    NoRuns,
    /// No cluster was asked for.
    NoClusters,
    /// More clusters were asked for than `MAX_CLUSTERS`.
    TooManyClusters,
    /// No iteration was allowed.
    NoIterations,
    /// The seed of the last attempt would not fit in a `usize`.
    SeedOverflow,
}

/// Whether these settings are valid: at least one attempt, between one
/// and `MAX_CLUSTERS` clusters, at least one iteration, and a seed for each
/// attempt.
pub open spec fn valid_settings(runs: usize, k: usize, max_iter: usize, seed: usize) -> bool {
    &&& runs >= 1
    &&& 1 <= k <= MAX_CLUSTERS
    &&& max_iter >= 1
    &&& seed + runs - 1 <= usize::MAX
}

/// The settings under which the colours of an image are clustered. They
/// are valid by construction.
#[derive(Debug)]
pub struct FindColors {
    runs: usize,
    k: usize,
    max_iter: usize,
    coverage: u16,
    verbose: bool,
    seed: usize,
}

/// Collects the settings of a `FindColors` one by one.
#[derive(Clone, Copy, Debug)]
pub struct FindColorsBuilder {
    pub runs: Option<usize>,
    pub k: Option<usize>,
    pub max_iter: Option<usize>,
    pub coverage: Option<u16>,
    pub verbose: Option<bool>,
    pub seed: Option<usize>,
}

impl Default for FindColorsBuilder {
    fn default() -> (b: FindColorsBuilder)
        ensures
            b == FindColorsBuilder::empty(),
    {
        FindColorsBuilder {
            runs: None,
            k: None,
            max_iter: None,
            coverage: None,
            verbose: None,
            seed: None,
        }
    }
}

impl FindColorsBuilder {
    /// The builder to which nothing has been given.
    pub open spec fn empty() -> FindColorsBuilder {
        FindColorsBuilder {
            runs: None,
            k: None,
            max_iter: None,
            coverage: None,
            verbose: None,
            seed: None,
        }
    }

    /// The first setting that has not been given, in the order of their
    /// declaration.
    pub open spec fn missing(self) -> Option<Setting> {
        if self.runs.is_none() {
            Some(Setting::Runs)
        } else if self.k.is_none() {
            Some(Setting::K)
        } else if self.max_iter.is_none() {
            Some(Setting::MaxIter)
        } else if self.coverage.is_none() {
            Some(Setting::Coverage)
        } else if self.verbose.is_none() {
            Some(Setting::Verbose)
        } else if self.seed.is_none() {
            Some(Setting::Seed)
        } else {
            None
        }
    }

    /// Why `build` fails, if it does: a missing setting first, then the
    /// first rule that the settings break.
    pub open spec fn fault(self) -> Option<BuildError> {
        match self.missing() {
            Some(setting) => Some(BuildError::Uninitialized(setting)),
            None => if self.runs.unwrap() == 0 {
                Some(BuildError::NoRuns)
            } else if self.k.unwrap() == 0 {
                Some(BuildError::NoClusters)
            } else if self.k.unwrap() > MAX_CLUSTERS {
                Some(BuildError::TooManyClusters)
            } else if self.max_iter.unwrap() == 0 {
                Some(BuildError::NoIterations)
            } else if self.seed.unwrap() + self.runs.unwrap() - 1 > usize::MAX {
                Some(BuildError::SeedOverflow)
            } else {
                None
            },
        }
    }

    /// Sets the number of attempts.
    pub fn runs(self, value: usize) -> (b: FindColorsBuilder)
        ensures
            b == (FindColorsBuilder { runs: Some(value), ..self }),
    {
        FindColorsBuilder { runs: Some(value), ..self }
    }

    /// Sets the number of clusters.
    pub fn k(self, value: usize) -> (b: FindColorsBuilder)
        ensures
            b == (FindColorsBuilder { k: Some(value), ..self }),
    {
        FindColorsBuilder { k: Some(value), ..self }
    }

    /// Sets the greatest number of iterations of one attempt.
    pub fn max_iter(self, value: usize) -> (b: FindColorsBuilder)
        ensures
            b == (FindColorsBuilder { max_iter: Some(value), ..self }),
    {
        FindColorsBuilder { max_iter: Some(value), ..self }
    }

    /// Sets the score at or below which an attempt has converged.
    pub fn coverage(self, value: u16) -> (b: FindColorsBuilder)
        ensures
            b == (FindColorsBuilder { coverage: Some(value), ..self }),
    {
        FindColorsBuilder { coverage: Some(value), ..self }
    }

    /// Sets whether the clustering reports its progress.
    pub fn verbose(self, value: bool) -> (b: FindColorsBuilder)
        ensures
            b == (FindColorsBuilder { verbose: Some(value), ..self }),
    {
        FindColorsBuilder { verbose: Some(value), ..self }
    }

    /// Sets the seed of the first attempt.
    pub fn seed(self, value: usize) -> (b: FindColorsBuilder)
        ensures
            b == (FindColorsBuilder { seed: Some(value), ..self }),
    {
        FindColorsBuilder { seed: Some(value), ..self }
    }

    /// The settings, if all were given and are valid; else the first fault.
    pub fn build(self) -> (r: Result<FindColors, BuildError>)
        ensures
            match r {
                Ok(f) => {
                    &&& self.fault().is_none()
                    &&& f.wf()
                    &&& f.attempts() == self.runs.unwrap()
                    &&& f.clusters() == self.k.unwrap()
                    &&& f.iterations() == self.max_iter.unwrap()
                    &&& f.convergence() == self.coverage.unwrap()
                    &&& f.is_verbose() == self.verbose.unwrap()
                    &&& f.first_seed() == self.seed.unwrap()
                },
                Err(e) => self.fault() == Some(e),
            },
    {
        let runs = match self.runs {
            Some(v) => v,
            None => { return Err(BuildError::Uninitialized(Setting::Runs)); },
        };
        let k = match self.k {
            Some(v) => v,
            None => { return Err(BuildError::Uninitialized(Setting::K)); },
        };
        let max_iter = match self.max_iter {
            Some(v) => v,
            None => { return Err(BuildError::Uninitialized(Setting::MaxIter)); },
        };
        let coverage = match self.coverage {
            Some(v) => v,
            None => { return Err(BuildError::Uninitialized(Setting::Coverage)); },
        };
        let verbose = match self.verbose {
            Some(v) => v,
            None => { return Err(BuildError::Uninitialized(Setting::Verbose)); },
        };
        let seed = match self.seed {
            Some(v) => v,
            None => { return Err(BuildError::Uninitialized(Setting::Seed)); },
        };
        if runs == 0 {
            Err(BuildError::NoRuns)
        } else if k == 0 {
            Err(BuildError::NoClusters)
        } else if k > MAX_CLUSTERS {
            Err(BuildError::TooManyClusters)
        } else if max_iter == 0 {
            Err(BuildError::NoIterations)
        } else if seed > usize::MAX - (runs - 1) {
            Err(BuildError::SeedOverflow)
        } else {
            Ok(FindColors { runs, k, max_iter, coverage, verbose, seed })
        }
    }
}

impl FindColors {
    /// The settings are valid.
    pub closed spec fn wf(self) -> bool {
        valid_settings(self.runs, self.k, self.max_iter, self.seed)
    }

    #[verifier::type_invariant]
    spec fn inv(self) -> bool {
        self.wf()
    }

    /// The number of attempts.
    pub closed spec fn attempts(self) -> usize {
        self.runs
    }

    /// The number of clusters asked for.
    pub closed spec fn clusters(self) -> usize {
        self.k
    }

    /// The greatest number of iterations of one attempt.
    pub closed spec fn iterations(self) -> usize {
        self.max_iter
    }

    /// The score at or below which an attempt has converged.
    pub closed spec fn convergence(self) -> u16 {
        self.coverage
    }

    /// Whether the clustering reports its progress.
    pub closed spec fn is_verbose(self) -> bool {
        self.verbose
    }

    /// The seed of the first attempt.
    pub closed spec fn first_seed(self) -> usize {
        self.seed
    }

    /// The run that attempt number `i` makes of `pixels`: the clustering
    /// seeded with the first seed plus `i`.
    pub open spec fn attempt(self, pixels: Seq<Color>, i: nat) -> ClusterRunView {
        kmeans_of(
            pixels,
            self.clusters(),
            self.iterations(),
            self.convergence(),
            self.is_verbose(),
            (self.first_seed() + i) as u64,
        )
    }

    /// The run that is kept after the first `n` attempts.
    pub open spec fn best_of_first(self, pixels: Seq<Color>, n: nat) -> ClusterRunView
        decreases n,
    {
        if n == 0 {
            ClusterRunView::unscored()
        } else {
            better(self.best_of_first(pixels, (n - 1) as nat), self.attempt(pixels, (n - 1) as nat))
        }
    }

    /// The representative colours of an image with these pixels: those of
    /// the run kept after all attempts. An image without pixels has none,
    /// nor has one of more pixels than `MAX_SAMPLES`.
    pub open spec fn colors(self, pixels: Seq<Color>) -> Seq<RepresentativeColor> {
        if pixels.len() == 0 || pixels.len() > MAX_SAMPLES {
            Seq::empty()
        } else {
            colors_of_run(self.best_of_first(pixels, self.attempts() as nat))
        }
    }

    /// What valid settings hold.
    pub proof fn lemma_wf(self)
        requires
            self.wf(),
        ensures
            valid_settings(self.attempts(), self.clusters(), self.iterations(), self.first_seed()),
    {
    }

    /// The number of attempts, at least one.
    pub fn runs(&self) -> (runs: usize)
        ensures
            runs == self.attempts(),
            runs >= 1,
            self.wf(),
    {
        proof {
            use_type_invariant(self);
        }
        self.runs
    }

    /// The number of clusters asked for, between one and `MAX_CLUSTERS`.
    pub fn k(&self) -> (k: usize)
        ensures
            k == self.clusters(),
            1 <= k <= MAX_CLUSTERS,
            self.wf(),
    {
        proof {
            use_type_invariant(self);
        }
        self.k
    }

    /// The greatest number of iterations of one attempt, at least one.
    pub fn max_iter(&self) -> (max_iter: usize)
        ensures
            max_iter == self.iterations(),
            max_iter >= 1,
            self.wf(),
    {
        proof {
            use_type_invariant(self);
        }
        self.max_iter
    }

    /// The score at or below which an attempt has converged.
    pub fn coverage(&self) -> (coverage: u16)
        ensures
            coverage == self.convergence(),
    {
        self.coverage
    }

    /// Whether the clustering reports its progress.
    pub fn verbose(&self) -> (verbose: bool)
        ensures
            verbose == self.is_verbose(),
    {
        self.verbose
    }

    /// The seed of the first attempt. The seed of the last fits in a
    /// `usize`.
    pub fn seed(&self) -> (seed: usize)
        ensures
            seed == self.first_seed(),
            seed + self.attempts() - 1 <= usize::MAX,
            self.wf(),
    {
        proof {
            use_type_invariant(self);
        }
        self.seed
    }

    /// A builder to which nothing has been given yet.
    pub fn builder() -> (b: FindColorsBuilder)
        ensures
            b == FindColorsBuilder::empty(),
    {
        FindColorsBuilder::default()
    }

    /// Clusters the pixels of one image and returns its representative
    /// colours, by descending coverage.
    ///
    /// Makes one attempt for each of the seeds `seed`, `seed + 1`, and so
    /// on, and keeps the attempt with the lowest score, the earliest of
    /// them on a tie. There are at most as many colours as clusters were
    /// asked for. If there are any, each stands for some of the image's
    /// pixels and together they stand for all of them.
    pub fn get_colors(&self, pixels: &Vec<Color>) -> (colors: Vec<RepresentativeColor>)
        ensures
            colors@ == self.colors(pixels@),
            colors@.len() <= self.clusters(),
            all_of(colors@, pixels@.len()),
            ascending(colors@),
            counts_descend(colors@),
            colors@.len() > 0 ==> covered(colors@) == pixels@.len(),
    {
        proof {
            use_type_invariant(self);
        }
        if pixels.len() == 0 || pixels.len() > MAX_SAMPLES {
            return Vec::new();
        }
        let mut best = ClusterRun::unscored();
        let mut i: usize = 0;
        while i < self.runs
            invariant
                self.wf(),
                i <= self.runs,
                0 < pixels@.len() <= MAX_SAMPLES,
                best@ == self.best_of_first(pixels@, i as nat),
                best@ == ClusterRunView::unscored() || {
                    &&& best@.wf()
                    &&& best@.assignments.len() == pixels@.len()
                    &&& best@.centroids.len() <= self.k
                },
            decreases self.runs - i,
        {
            let seed = (self.seed + i) as u64;
            let run = run_kmeans(pixels, self.k, self.max_iter, self.coverage, self.verbose, seed);
            best = keep_better(best, run);
            i = i + 1;
        }
        representative_colors(&best)
    }
}

/// Clustering is a function of the pixels and the settings: equal inputs
/// have equal representative colours.
pub proof fn lemma_colors_deterministic(
    a: FindColors,
    b: FindColors,
    pixels_a: Seq<Color>,
    pixels_b: Seq<Color>,
)
    requires
        a == b,
        pixels_a == pixels_b,
    ensures
        a.colors(pixels_a) == b.colors(pixels_b),
{
}

/// The run that is kept scores no higher than any attempt made, and no
/// higher than the run that stands for no attempt.
pub proof fn lemma_best_is_least(f: FindColors, pixels: Seq<Color>, n: nat, i: nat)
    requires
        i < n,
    ensures
        f.best_of_first(pixels, n).score <= f.attempt(pixels, i).score,
        f.best_of_first(pixels, n).score <= UNSCORED,
    decreases n,
{
    if n > 1 {
        if i < n - 1 {
            lemma_best_is_least(f, pixels, (n - 1) as nat, i);
        } else {
            lemma_best_is_least(f, pixels, (n - 1) as nat, 0);
        }
    } else {
        assert(f.best_of_first(pixels, 0) == ClusterRunView::unscored());
    }
}

/// The run that is kept is the earliest attempt with the lowest score,
/// unless no attempt scored below `UNSCORED`.
pub proof fn lemma_best_is_first(f: FindColors, pixels: Seq<Color>, n: nat) -> (winner: nat)
    requires
        f.best_of_first(pixels, n).score < UNSCORED,
    ensures
        winner < n,
        f.best_of_first(pixels, n) == f.attempt(pixels, winner),
        forall|j: nat| j < winner ==> f.attempt(pixels, j).score > f.attempt(pixels, winner).score,
    decreases n,
{
    let last = f.attempt(pixels, (n - 1) as nat);
    let before = f.best_of_first(pixels, (n - 1) as nat);
    if last.score < before.score {
        assert forall|j: nat| j < n - 1 implies f.attempt(pixels, j).score > last.score by {
            lemma_best_is_least(f, pixels, (n - 1) as nat, j);
        }
        (n - 1) as nat
    } else {
        lemma_best_is_first(f, pixels, (n - 1) as nat)
    }
}

} // verus!
