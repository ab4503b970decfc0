//! The scan of a directory, from its decoded entries to the candidates for
//! a match.
//!
//! Reading the directory and decoding the files is the caller's work. What
//! is decided here is how many entries are taken, what becomes of each, and
//! which of them are handed on.

use vstd::prelude::*;
use crate::color::Color;
use crate::coverage::RepresentativeColor;
use crate::find_colors::FindColors;

verus! {

/// One entry of the directory, after the attempt to decode it.
#[derive(Debug)]
pub struct ScanEntry {
    /// Where the file lies.
    pub path: String,
    /// The last component of the path, if it is text.
    pub file_name: Option<String>,
    /// The pixels of the image, or nothing if the file could not be decoded.
    pub pixels: Option<Vec<Color>>,
}

/// An image with its representative colours.
#[derive(Debug)]
pub struct ImageCandidate {
    /// Where the file lies.
    pub path: String,
    /// The last component of the path, if it is text.
    pub file_name: Option<String>,
    /// The representative colours of the image, by descending coverage.
    pub colors: Vec<RepresentativeColor>,
}

/// What an `ImageCandidate` holds, as sequences.
pub struct ImageCandidateView {
    pub path: Seq<char>,
    pub file_name: Option<Seq<char>>,
    pub colors: Seq<RepresentativeColor>,
}

/// The file could not be decoded as an image.
#[derive(Clone, Copy, Debug, PartialEq, Eq, Structural)]
pub struct DecodeError {}

/// A name, if there is one, as a sequence of characters.
pub open spec fn name_view(name: Option<String>) -> Option<Seq<char>> {
    match name {
        Some(n) => Some(n@),
        None => None,
    }
}

impl View for ImageCandidate {
    type V = ImageCandidateView;

    open spec fn view(&self) -> ImageCandidateView {
        ImageCandidateView {
            path: self.path@,
            file_name: name_view(self.file_name),
            colors: self.colors@,
        }
    }
}

/// The views of the candidates of a sequence.
pub open spec fn candidate_views(candidates: Seq<ImageCandidate>) -> Seq<ImageCandidateView> {
    Seq::new(candidates.len(), |i: int| candidates[i]@)
}

/// The number of entries that a scan takes: all of them, up to the limit.
pub open spec fn taken(limit: nat, entries: nat) -> nat {
    if limit < entries {
        limit
    } else {
        entries
    }
}

/// What becomes of one entry: a candidate with the colours of its image,
/// or nothing if it could not be decoded.
pub open spec fn extracted(finder: FindColors, entry: ScanEntry) -> Option<ImageCandidateView> {
    match entry.pixels {
        None => None,
        Some(pixels) => Some(
            ImageCandidateView {
                path: entry.path@,
                file_name: name_view(entry.file_name),
                colors: finder.colors(pixels@),
            },
        ),
    }
}

/// The candidates among `entries`, in the order of the entries.
pub open spec fn extracted_all(finder: FindColors, entries: Seq<ScanEntry>) -> Seq<
    ImageCandidateView,
>
    decreases entries.len(),
{
    if entries.len() == 0 {
        Seq::empty()
    } else {
        let rest = extracted_all(finder, entries.drop_last());
        match extracted(finder, entries.last()) {
            Some(candidate) => rest.push(candidate),
            None => rest,
        }
    }
}

/// The candidates that a scan with this limit returns.
pub open spec fn scanned(finder: FindColors, limit: nat, entries: Seq<ScanEntry>) -> Seq<
    ImageCandidateView,
> {
    extracted_all(finder, entries.take(taken(limit, entries.len()) as int))
}

/// The outcomes that are a success, in their order.
pub open spec fn successes<T>(outcomes: Seq<Option<T>>) -> Seq<T>
    decreases outcomes.len(),
{
    if outcomes.len() == 0 {
        Seq::empty()
    } else if outcomes.last().is_some() {
        successes(outcomes.drop_last()).push(outcomes.last().unwrap())
    } else {
        successes(outcomes.drop_last())
    }
}

/// There are no more candidates than entries.
pub proof fn lemma_extracted_all_len(finder: FindColors, entries: Seq<ScanEntry>)
    ensures
        extracted_all(finder, entries).len() <= entries.len(),
    decreases entries.len(),
{
    if entries.len() > 0 {
        lemma_extracted_all_len(finder, entries.drop_last());
    }
}

/// A scan returns no more candidates than its limit, and no more than
/// there are entries.
pub proof fn lemma_scanned_len(finder: FindColors, limit: nat, entries: Seq<ScanEntry>)
    ensures
        scanned(finder, limit, entries).len() <= taken(limit, entries.len()),
        taken(limit, entries.len()) <= limit,
        taken(limit, entries.len()) <= entries.len(),
{
    lemma_extracted_all_len(finder, entries.take(taken(limit, entries.len()) as int));
}

/// There are no more successes than outcomes.
pub proof fn lemma_successes_len<T>(outcomes: Seq<Option<T>>)
    ensures
        successes(outcomes).len() <= outcomes.len(),
    decreases outcomes.len(),
{
    if outcomes.len() > 0 {
        lemma_successes_len(outcomes.drop_last());
    }
}

/// Where every entry could be decoded, every entry is a candidate.
pub proof fn lemma_extracted_all_decoded(finder: FindColors, entries: Seq<ScanEntry>)
    requires
        forall|i: int| 0 <= i < entries.len() ==> (#[trigger] entries[i]).pixels.is_some(),
    ensures
        extracted_all(finder, entries).len() == entries.len(),
    decreases entries.len(),
{
    if entries.len() > 0 {
        let init = entries.drop_last();
        assert forall|i: int| 0 <= i < init.len() implies (#[trigger] init[i]).pixels.is_some() by {
            assert(init[i] == entries[i]);
        }
        lemma_extracted_all_decoded(finder, init);
        assert(entries[entries.len() - 1].pixels.is_some());
    }
}

/// How many entries to take of `entries` under `limit`.
pub fn dispatched(limit: usize, entries: usize) -> (n: usize)
    ensures
        n == taken(limit as nat, entries as nat),
        n <= limit,
        n <= entries,
{
    if limit < entries {
        limit
    } else {
        entries
    }
}

/// The representative colours of the image of one entry, or `DecodeError`
/// if the entry could not be decoded. An image without pixels has no
/// colours, which is no error.
pub fn get_color_by_entry(finder: &FindColors, entry: &ScanEntry) -> (r: Result<
    Vec<RepresentativeColor>,
    DecodeError,
>)
    ensures
        r.is_ok() <==> entry.pixels.is_some(),
        r matches Ok(colors) ==> colors@ == finder.colors(entry.pixels.unwrap()@),
{
    match &entry.pixels {
        None => Err(DecodeError {  }),
        Some(pixels) => Ok(finder.get_colors(pixels)),
    }
}

/// Turns one entry into a candidate, or into nothing if it could not be
/// decoded.
pub fn extract(finder: &FindColors, entry: ScanEntry) -> (r: Option<ImageCandidate>)
    ensures
        match r {
            Some(candidate) => extracted(*finder, entry) == Some(candidate@),
            None => extracted(*finder, entry).is_none(),
        },
{
    match get_color_by_entry(finder, &entry) {
        Err(_) => None,
        Ok(colors) => Some(ImageCandidate { path: entry.path, file_name: entry.file_name, colors }),
    }
}

/// Gathers what the workers hand back: the successes among the first
/// `limit` outcomes, in their order.
pub fn gather<T>(limit: usize, outcomes: Vec<Option<T>>) -> (gathered: Vec<T>)
    ensures
        gathered@ == successes(
            outcomes@.take(taken(limit as nat, outcomes@.len()) as int),
        ),
        gathered@.len() <= limit,
        gathered@.len() <= outcomes@.len(),
{
    let mut outcomes = outcomes;
    let ghost all = outcomes@;
    let n = dispatched(limit, outcomes.len());
    outcomes.truncate(n);
    let ghost first = all.take(n as int);
    assert(outcomes@ =~= first);
    let mut gathered: Vec<T> = Vec::new();
    for outcome in it: outcomes
        invariant
            it.seq() == first,
            gathered@ == successes(first.take(it.index() as int)),
    {
        proof {
            assert(first.take(it.index() + 1).drop_last() =~= first.take(it.index() as int));
        }
        match outcome {
            Some(value) => {
                gathered.push(value);
            },
            None => {},
        }
    }
    proof {
        assert(first.take(first.len() as int) =~= first);
        lemma_successes_len(first);
    }
    gathered
}

/// Scans the entries of a directory: takes the first `limit` of them and
/// returns a candidate for each that could be decoded, in the order of the
/// entries. An entry that could not be decoded is left out and stops
/// nothing.
pub fn scan(finder: &FindColors, limit: usize, entries: Vec<ScanEntry>) -> (candidates: Vec<
    ImageCandidate,
>)
    ensures
        candidate_views(candidates@) == scanned(*finder, limit as nat, entries@),
        candidates@.len() <= limit,
        candidates@.len() <= entries@.len(),
{
    let mut entries = entries;
    let ghost all = entries@;
    let n = dispatched(limit, entries.len());
    entries.truncate(n);
    let ghost first = all.take(n as int);
    assert(entries@ =~= first);
    let mut candidates: Vec<ImageCandidate> = Vec::new();
    for entry in it: entries
        invariant
            it.seq() == first,
            candidate_views(candidates@) == extracted_all(*finder, first.take(it.index() as int)),
    {
        let ghost before = candidates@;
        proof {
            assert(first.take(it.index() + 1).drop_last() =~= first.take(it.index() as int));
        }
        match extract(finder, entry) {
            Some(candidate) => {
                candidates.push(candidate);
                proof {
                    assert(candidate_views(candidates@) =~= candidate_views(before).push(
                        candidate@,
                    ));
                }
            },
            None => {},
        }
    }
    proof {
        assert(first.take(first.len() as int) =~= first);
        lemma_scanned_len(*finder, limit as nat, all);
        assert(candidate_views(candidates@).len() == candidates@.len());
    }
    candidates
}

} // verus!
