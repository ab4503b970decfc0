//! Matching candidates against a target colour and ranking the matches.
//!
//! A candidate matches through the closest of its colours that cover
//! enough of the image, if that colour lies within the threshold and the
//! file's name gives a track identifier. The caller looks each match up in
//! the catalog; `rank` joins the answers and puts the matches in order.

use vstd::prelude::*;
use crate::color::Color;
use crate::coverage::{ lemma_ratio_transitive, RepresentativeColor };
use crate::distance::{ below, closer_than, distance, lemma_distance_bounded, squared_distance };
use crate::find_colors::FindColors;
use crate::fraction::Fraction;
use crate::identify::{ borrowed_name, identified, track_id_by_image_path, IdentifyError };
use crate::rank::{
    ascending,
    lemma_sort_ascending,
    lemma_sort_len,
    lemma_sort_members,
    sort_ranked,
    stable_sort,
    Ranked,
};
use crate::scan::{
    candidate_views,
    scan,
    scanned,
    taken,
    ImageCandidate,
    ImageCandidateView,
    ScanEntry,
};

verus! {

/// What is looked for and how: the target colour, how close a colour must
/// come, how much of an image it must cover, how many entries are scanned,
/// and the settings of the clustering.
#[derive(Debug)]
pub struct Finder {
    /// A colour matches only at a distance strictly below this.
    pub threshold: Fraction,
    /// A colour counts only if it covers at least this much of its image.
    pub min_coverage: Fraction,
    /// The colour that is looked for.
    pub target_color: Color,
    /// The most entries of the directory that are scanned.
    pub limit: usize,
    /// The settings of the clustering.
    pub finder: FindColors,
}

/// An image that matches the target colour.
#[derive(Debug)]
pub struct Match {
    /// The catalog identifier that the file's name stands for.
    pub identifier: String,
    /// Where the file lies.
    pub path: String,
    /// The squared distance of the matching colour from the target, in
    /// units of `1 / MAX_SQUARED`.
    pub distance: u32,
    /// The matching colour with its coverage.
    pub color: RepresentativeColor,
}

/// What a `Match` holds, with its texts as sequences.
pub struct MatchView {
    pub identifier: Seq<char>,
    pub path: Seq<char>,
    pub distance: u32,
    pub color: RepresentativeColor,
}

impl View for Match {
    type V = MatchView;

    open spec fn view(&self) -> MatchView {
        MatchView {
            identifier: self.identifier@,
            path: self.path@,
            distance: self.distance,
            color: self.color,
        }
    }
}

/// The views of the matches of a sequence.
pub open spec fn match_views(matches: Seq<Match>) -> Seq<MatchView> {
    Seq::new(matches.len(), |i: int| matches[i]@)
}

/// What the catalog knows of a track.
#[derive(Debug)]
pub struct TrackInfo {
    pub name: String,
    pub preview_url: Option<String>,
}

/// The catalog's answer to the lookup of one identifier.
#[derive(Debug)]
pub enum Lookup {
    /// The catalog knows the track.
    Found(TrackInfo),
    /// The catalog knows no such track.
    NotFound,
    /// The catalog could not be asked.
    TransientError,
}

/// A match that the catalog has resolved.
#[derive(Debug)]
pub struct MatchResult {
    pub found: Match,
    pub track: TrackInfo,
}

/// Results rank by ascending distance, and at equal distance by descending
/// coverage of the matching colour.
impl Ranked for MatchResult {
    open spec fn ranks_before(&self, other: &Self) -> bool {
        self.found.distance < other.found.distance || (self.found.distance == other.found.distance
            && self.found.color.covers_as_much_as(other.found.color))
    }

    fn precedes(&self, other: &Self) -> (r: bool) {
        self.found.distance < other.found.distance || (self.found.distance == other.found.distance
            && self.found.color.outweighs(&other.found.color))
    }

    proof fn total(a: &Self, b: &Self) {
    }

    proof fn transitive(a: &Self, b: &Self, c: &Self) {
        if a.found.distance == b.found.distance && b.found.distance == c.found.distance {
            lemma_ratio_transitive(
                a.found.color.part(),
                a.found.color.whole(),
                b.found.color.part(),
                b.found.color.whole(),
                c.found.color.part(),
                c.found.color.whole(),
            );
        }
    }
}

/// Among `colors`, the index of the closest to `target` of those that
/// cover at least `min`; of several equally close, the first. Nothing if
/// none covers that much.
pub open spec fn best_qualifying(colors: Seq<RepresentativeColor>, target: Color, min: Fraction) -> Option<
    int,
>
    decreases colors.len(),
{
    if colors.len() == 0 {
        None
    } else {
        let before = best_qualifying(colors.drop_last(), target, min);
        let last = colors.len() - 1;
        if !colors[last].covers(min) {
            before
        } else {
            match before {
                None => Some(last),
                Some(i) => if squared_distance(target, colors[last].color) < squared_distance(
                    target,
                    colors[i].color,
                ) {
                    Some(last)
                } else {
                    Some(i)
                },
            }
        }
    }
}

/// What `best_qualifying` picks: a colour that covers enough, no farther
/// from the target than any other that does, and the first of its kind.
pub proof fn lemma_best_qualifying(colors: Seq<RepresentativeColor>, target: Color, min: Fraction)
    ensures
        match best_qualifying(colors, target, min) {
            Some(best) => {
                &&& 0 <= best < colors.len()
                &&& colors[best].covers(min)
                &&& forall|j: int|
                    0 <= j < colors.len() && (#[trigger] colors[j]).covers(min)
                        ==> squared_distance(target, colors[best].color) <= squared_distance(
                        target,
                        colors[j].color,
                    )
                &&& forall|j: int|
                    0 <= j < best && (#[trigger] colors[j]).covers(min) ==> squared_distance(
                        target,
                        colors[best].color,
                    ) < squared_distance(target, colors[j].color)
            },
            None => forall|j: int| 0 <= j < colors.len() ==> !(#[trigger] colors[j]).covers(min),
        },
    decreases colors.len(),
{
    if colors.len() > 0 {
        let init = colors.drop_last();
        lemma_best_qualifying(init, target, min);
        assert forall|j: int| 0 <= j < init.len() implies init[j] == colors[j] by {}
        match best_qualifying(colors, target, min) {
            Some(best) => {
                assert forall|j: int|
                    0 <= j < colors.len() && (#[trigger] colors[j]).covers(
                        min,
                    ) implies squared_distance(target, colors[best].color) <= squared_distance(
                    target,
                    colors[j].color,
                ) by {
                    if j < init.len() {
                        assert(init[j].covers(min));
                    }
                }
                assert forall|j: int|
                    0 <= j < best && (#[trigger] colors[j]).covers(min) implies squared_distance(
                    target,
                    colors[best].color,
                ) < squared_distance(target, colors[j].color) by {
                    assert(init[j].covers(min));
                }
            },
            None => {
                assert forall|j: int| 0 <= j < colors.len() implies !(#[trigger] colors[j]).covers(
                    min,
                ) by {
                    if j < init.len() {
                        assert(!init[j].covers(min));
                    }
                }
            },
        }
    }
}

/// The results among `outcomes`: the matches that the catalog found, each
/// with what it found, in the order of the outcomes.
pub open spec fn resolved(outcomes: Seq<(Match, Lookup)>) -> Seq<MatchResult>
    decreases outcomes.len(),
{
    if outcomes.len() == 0 {
        Seq::empty()
    } else {
        let rest = resolved(outcomes.drop_last());
        match outcomes.last().1 {
            Lookup::Found(track) => rest.push(MatchResult { found: outcomes.last().0, track }),
            _ => rest,
        }
    }
}

/// Every result is one of the outcomes, with the catalog's answer to it.
pub proof fn lemma_resolved(outcomes: Seq<(Match, Lookup)>, i: int) -> (k: int)
    requires
        0 <= i < resolved(outcomes).len(),
    ensures
        0 <= k < outcomes.len(),
        outcomes[k].0 == resolved(outcomes)[i].found,
        outcomes[k].1 == Lookup::Found(resolved(outcomes)[i].track),
        resolved(outcomes).len() <= outcomes.len(),
    decreases outcomes.len(),
{
    let init = outcomes.drop_last();
    lemma_resolved_len(init);
    match outcomes.last().1 {
        Lookup::Found(track) => {
            if i < resolved(init).len() {
                lemma_resolved(init, i)
            } else {
                outcomes.len() - 1
            }
        },
        _ => lemma_resolved(init, i),
    }
}

/// There are no more results than outcomes.
pub proof fn lemma_resolved_len(outcomes: Seq<(Match, Lookup)>)
    ensures
        resolved(outcomes).len() <= outcomes.len(),
    decreases outcomes.len(),
{
    if outcomes.len() > 0 {
        lemma_resolved_len(outcomes.drop_last());
    }
}

/// Every ranked result is one of the outcomes, with the catalog's answer
/// to it: ranking invents no match and none that the catalog did not find.
pub proof fn lemma_ranked_from_outcomes(outcomes: Seq<(Match, Lookup)>, i: int) -> (k: int)
    requires
        0 <= i < stable_sort(resolved(outcomes)).len(),
    ensures
        0 <= k < outcomes.len(),
        outcomes[k].0 == stable_sort(resolved(outcomes))[i].found,
        outcomes[k].1 == Lookup::Found(stable_sort(resolved(outcomes))[i].track),
{
    let j = lemma_sort_members(resolved(outcomes), i);
    lemma_resolved(outcomes, j)
}

/// In an ascending sequence of results the distances never fall.
pub proof fn lemma_ascending_distances(results: Seq<MatchResult>, i: int, j: int)
    requires
        ascending(results),
        0 <= i <= j < results.len(),
    ensures
        results[i].found.distance <= results[j].found.distance,
{
    if i < j {
        assert(results[i].ranks_before(&results[j]));
    }
}

/// Joins each match with the catalog's answer and ranks the results.
///
/// A match that the catalog did not find, or could not be asked about, is
/// left out. The rest come by ascending distance, at equal distance by
/// descending coverage, and otherwise in the order in which they were
/// handed in, whatever order the lookups finished in.
pub fn rank(outcomes: Vec<(Match, Lookup)>) -> (results: Vec<MatchResult>)
    ensures
        results@ == stable_sort(resolved(outcomes@)),
        ascending(results@),
        forall|i: int, j: int|
            0 <= i <= j < results@.len() ==> (#[trigger] results@[i]).found.distance
                <= (#[trigger] results@[j]).found.distance,
        results@.len() <= outcomes@.len(),
        forall|i: int|
            0 <= i < results@.len() ==> exists|k: int|
                0 <= k < outcomes@.len() && (#[trigger] outcomes@[k]).0 == (#[trigger] results@[i]).found
                    && outcomes@[k].1 == Lookup::Found(results@[i].track),
{
    let ghost all = outcomes@;
    let mut results: Vec<MatchResult> = Vec::new();
    for outcome in it: outcomes
        invariant
            it.seq() == all,
            results@ == resolved(all.take(it.index() as int)),
    {
        proof {
            assert(all.take(it.index() + 1).drop_last() =~= all.take(it.index() as int));
        }
        let (found, lookup) = outcome;
        match lookup {
            Lookup::Found(track) => {
                results.push(MatchResult { found, track });
            },
            _ => {},
        }
    }
    proof {
        assert(all.take(all.len() as int) =~= all);
        lemma_resolved_len(all);
        lemma_sort_len(results@);
        lemma_sort_ascending(results@);
        let sorted = stable_sort(results@);
        assert forall|i: int, j: int| 0 <= i <= j < sorted.len() implies (#[trigger] sorted[i])
            .found.distance <= (#[trigger] sorted[j]).found.distance by {
            lemma_ascending_distances(sorted, i, j);
        }
        assert forall|i: int| 0 <= i < sorted.len() implies exists|k: int|
            0 <= k < all.len() && (#[trigger] all[k]).0 == (#[trigger] sorted[i]).found && all[k].1
                == Lookup::Found(sorted[i].track) by {
            let k = lemma_ranked_from_outcomes(all, i);
            assert(all[k].0 == sorted[i].found);
        }
    }
    sort_ranked(&mut results);
    results
}

impl Finder {
    /// What a candidate matches with, if it matches: the closest of its
    /// colours that cover enough, provided that it lies within the
    /// threshold and that the file's name gives an identifier.
    pub open spec fn matched(self, candidate: ImageCandidateView) -> Option<MatchView> {
        match best_qualifying(candidate.colors, self.target_color, self.min_coverage) {
            None => None,
            Some(best) => {
                let color = candidate.colors[best];
                let d = squared_distance(self.target_color, color.color);
                if !below(d as nat, self.threshold) {
                    None
                } else {
                    match identified(candidate.file_name) {
                        Ok(identifier) => Some(
                            MatchView {
                                identifier,
                                path: candidate.path,
                                distance: d as u32,
                                color,
                            },
                        ),
                        Err(_) => None,
                    }
                }
            },
        }
    }

    /// The matches among `candidates`, in the order of the candidates.
    pub open spec fn selected(self, candidates: Seq<ImageCandidateView>) -> Seq<MatchView>
        decreases candidates.len(),
    {
        if candidates.len() == 0 {
            Seq::empty()
        } else {
            let rest = self.selected(candidates.drop_last());
            match self.matched(candidates.last()) {
                Some(found) => rest.push(found),
                None => rest,
            }
        }
    }

    /// What it takes to match: a match lies within the threshold, through
    /// the colour that is closest to the target among those of the image
    /// that cover enough, and under the identifier of the file's name.
    pub proof fn lemma_matched(self, candidate: ImageCandidateView)
        ensures
            self.matched(candidate) matches Some(found) ==> {
                &&& below(found.distance as nat, self.threshold)
                &&& found.color.covers(self.min_coverage)
                &&& found.distance == squared_distance(self.target_color, found.color.color)
                &&& candidate.colors.contains(found.color)
                &&& forall|j: int|
                    0 <= j < candidate.colors.len() && (#[trigger] candidate.colors[j]).covers(
                        self.min_coverage,
                    ) ==> found.distance <= squared_distance(
                        self.target_color,
                        candidate.colors[j].color,
                    )
                &&& found.path == candidate.path
                &&& identified(candidate.file_name) == Ok::<Seq<char>, IdentifyError>(
                    found.identifier,
                )
            },
    {
        lemma_best_qualifying(candidate.colors, self.target_color, self.min_coverage);
        match best_qualifying(candidate.colors, self.target_color, self.min_coverage) {
            Some(best) => {
                lemma_distance_bounded(self.target_color, candidate.colors[best].color);
            },
            None => {},
        }
    }

    /// Every match that is selected lies within the threshold, through a
    /// colour that covers enough; and there is at most one for each
    /// candidate.
    pub proof fn lemma_selected(self, candidates: Seq<ImageCandidateView>)
        ensures
            self.selected(candidates).len() <= candidates.len(),
            forall|i: int|
                0 <= i < self.selected(candidates).len() ==> {
                    &&& below(
                        (#[trigger] self.selected(candidates)[i]).distance as nat,
                        self.threshold,
                    )
                    &&& self.selected(candidates)[i].color.covers(self.min_coverage)
                },
        decreases candidates.len(),
    {
        if candidates.len() > 0 {
            self.lemma_selected(candidates.drop_last());
            self.lemma_matched(candidates.last());
        }
    }

    /// The settings of a search.
    pub fn new(
        threshold: Fraction,
        min_coverage: Fraction,
        target_color: Color,
        limit: usize,
        finder: FindColors,
    ) -> (f: Finder)
        ensures
            f.threshold == threshold,
            f.min_coverage == min_coverage,
            f.target_color == target_color,
            f.limit == limit,
            f.finder == finder,
    {
        Finder { threshold, min_coverage, target_color, limit, finder }
    }

    /// Scans the entries of a directory under the limit and the clustering
    /// settings of this search. There are never more candidates than the
    /// limit, nor than there are entries.
    pub fn scan(&self, entries: Vec<ScanEntry>) -> (candidates: Vec<ImageCandidate>)
        ensures
            candidate_views(candidates@) == scanned(self.finder, self.limit as nat, entries@),
            candidates@.len() <= taken(self.limit as nat, entries@.len()),
    {
        scan(&self.finder, self.limit, entries)
    }

    /// The index of the colour through which an image would match, if any
    /// of its colours covers enough.
    pub fn best_color(&self, colors: &Vec<RepresentativeColor>) -> (r: Option<usize>)
        ensures
            match r {
                Some(i) => best_qualifying(colors@, self.target_color, self.min_coverage) == Some(
                    i as int,
                ),
                None => best_qualifying(colors@, self.target_color, self.min_coverage).is_none(),
            },
    {
        let mut best: Option<usize> = None;
        let mut best_distance: u32 = 0;
        let n = colors.len();
        let mut i: usize = 0;
        while i < n
            invariant
                n == colors@.len(),
                i <= n,
                match best {
                    Some(b) => best_qualifying(
                        colors@.take(i as int),
                        self.target_color,
                        self.min_coverage,
                    ) == Some(b as int) && b < i && best_distance == squared_distance(
                        self.target_color,
                        colors@[b as int].color,
                    ),
                    None => best_qualifying(
                        colors@.take(i as int),
                        self.target_color,
                        self.min_coverage,
                    ).is_none(),
                },
            decreases n - i,
        {
            proof {
                assert(colors@.take(i + 1).drop_last() =~= colors@.take(i as int));
            }
            if colors[i].meets(&self.min_coverage) {
                let d = distance(&self.target_color, &colors[i].color);
                match best {
                    None => {
                        best = Some(i);
                        best_distance = d;
                    },
                    Some(_) => {
                        if d < best_distance {
                            best = Some(i);
                            best_distance = d;
                        }
                    },
                }
            }
            i = i + 1;
        }
        proof {
            assert(colors@.take(n as int) =~= colors@);
        }
        best
    }

    /// Matches one candidate against the target colour.
    pub fn match_candidate(&self, candidate: &ImageCandidate) -> (r: Option<Match>)
        ensures
            match r {
                Some(found) => self.matched(candidate@) == Some(found@),
                None => self.matched(candidate@).is_none(),
            },
    {
        let best = match self.best_color(&candidate.colors) {
            None => { return None; },
            Some(best) => best,
        };
        proof {
            lemma_best_qualifying(candidate.colors@, self.target_color, self.min_coverage);
        }
        let color = candidate.colors[best];
        let d = distance(&self.target_color, &color.color);
        if !closer_than(d, &self.threshold) {
            return None;
        }
        match track_id_by_image_path(borrowed_name(&candidate.file_name)) {
            Ok(identifier) => Some(
                Match { identifier, path: candidate.path.clone(), distance: d, color },
            ),
            Err(_) => None,
        }
    }

    /// Finds the images that match the target colour.
    ///
    /// A candidate matches through the closest of its colours that cover
    /// at least `min_coverage`, if that colour's distance from the target
    /// lies strictly below `threshold` and the file's name gives a track
    /// identifier. Each candidate gives at most one match; the matches come
    /// in the order of the candidates.
    pub fn find(&self, candidates: &Vec<ImageCandidate>) -> (matches: Vec<Match>)
        ensures
            match_views(matches@) == self.selected(candidate_views(candidates@)),
            matches@.len() <= candidates@.len(),
            forall|i: int|
                0 <= i < matches@.len() ==> {
                    &&& below((#[trigger] matches@[i]).distance as nat, self.threshold)
                    &&& matches@[i].color.covers(self.min_coverage)
                },
    {
        let ghost views = candidate_views(candidates@);
        let n = candidates.len();
        let mut matches: Vec<Match> = Vec::new();
        let mut i: usize = 0;
        while i < n
            invariant
                n == candidates@.len(),
                i <= n,
                views == candidate_views(candidates@),
                match_views(matches@) == self.selected(views.take(i as int)),
            decreases n - i,
        {
            let ghost before = matches@;
            proof {
                assert(views.take(i + 1).drop_last() =~= views.take(i as int));
                assert(views.take(i + 1).last() == candidates@[i as int]@);
            }
            match self.match_candidate(&candidates[i]) {
                Some(found) => {
                    matches.push(found);
                    proof {
                        assert(match_views(matches@) =~= match_views(before).push(found@));
                    }
                },
                None => {},
            }
            i = i + 1;
        }
        proof {
            assert(views.take(n as int) =~= views);
            self.lemma_selected(views);
            assert(match_views(matches@).len() == matches@.len());
            assert forall|i: int| 0 <= i < matches@.len() implies {
                &&& below((#[trigger] matches@[i]).distance as nat, self.threshold)
                &&& matches@[i].color.covers(self.min_coverage)
            } by {
                assert(match_views(matches@)[i] == matches@[i]@);
            }
        }
        matches
    }
}

} // verus!
