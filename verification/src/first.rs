//! The plain way of matching: one mean colour for each image, compared
//! with the target channel by channel.

use vstd::prelude::*;
use crate::color::{ color_diff, get_one_color_by_image, mean_color, spec_color_diff, Color };
use crate::identify::{ borrowed_name, identified, track_id_by_image_path };
use crate::scan::{ dispatched, name_view, taken, ScanEntry };

verus! {

/// The texts of a sequence, each as a sequence of characters.
pub open spec fn text_views(texts: Seq<String>) -> Seq<Seq<char>> {
    Seq::new(texts.len(), |i: int| texts[i]@)
}

/// The identifier of an entry if its image matches: it could be decoded,
/// has pixels, its mean colour differs from the target by less than
/// `threshold` in every channel, and its name gives an identifier.
pub open spec fn first_match(target: Color, threshold: u8, entry: ScanEntry) -> Option<Seq<char>> {
    match entry.pixels {
        None => None,
        Some(pixels) => if pixels@.len() == 0 {
            None
        } else if !spec_color_diff(target, mean_color(pixels@)).all_below(threshold) {
            None
        } else {
            match identified(name_view(entry.file_name)) {
                Ok(identifier) => Some(identifier),
                Err(_) => None,
            }
        },
    }
}

/// The identifiers of the entries that match, in the order of the entries.
pub open spec fn first_matches(target: Color, threshold: u8, entries: Seq<ScanEntry>) -> Seq<
    Seq<char>,
>
    decreases entries.len(),
{
    if entries.len() == 0 {
        Seq::empty()
    } else {
        let rest = first_matches(target, threshold, entries.drop_last());
        match first_match(target, threshold, entries.last()) {
            Some(identifier) => rest.push(identifier),
            None => rest,
        }
    }
}

/// There are no more matches than entries.
pub proof fn lemma_first_matches_len(target: Color, threshold: u8, entries: Seq<ScanEntry>)
    ensures
        first_matches(target, threshold, entries).len() <= entries.len(),
    decreases entries.len(),
{
    if entries.len() > 0 {
        lemma_first_matches_len(target, threshold, entries.drop_last());
    }
}

/// With the threshold zero nothing matches.
pub proof fn lemma_first_matches_none(target: Color, entries: Seq<ScanEntry>)
    ensures
        first_matches(target, 0, entries).len() == 0,
    decreases entries.len(),
{
    if entries.len() > 0 {
        lemma_first_matches_none(target, entries.drop_last());
    }
}

/// Matches one entry by its mean colour.
pub fn match_first(color: &Color, threshold: u8, entry: &ScanEntry) -> (r: Option<String>)
    ensures
        match r {
            Some(identifier) => first_match(*color, threshold, *entry) == Some(identifier@),
            None => first_match(*color, threshold, *entry).is_none(),
        },
{
    let pixels = match &entry.pixels {
        None => { return None; },
        Some(pixels) => pixels,
    };
    if pixels.len() == 0 {
        return None;
    }
    let mean = get_one_color_by_image(pixels);
    if !color_diff(color, &mean).within(threshold) {
        return None;
    }
    match track_id_by_image_path(borrowed_name(&entry.file_name)) {
        Ok(identifier) => Some(identifier),
        Err(_) => None,
    }
}

/// Finds, among the first `limit` entries, the images whose mean colour
/// differs from `color` by less than `threshold` in every channel, and
/// returns the track identifiers that their names stand for, in the order
/// of the entries. Entries that could not be decoded, that hold no pixel or
/// whose name gives no identifier are left out.
pub fn find_first(color: &Color, threshold: u8, limit: usize, entries: &Vec<ScanEntry>) -> (found: Vec<
    String,
>)
    ensures
        text_views(found@) == first_matches(
            *color,
            threshold,
            entries@.take(taken(limit as nat, entries@.len()) as int),
        ),
        found@.len() <= limit,
        found@.len() <= entries@.len(),
{
    let n = dispatched(limit, entries.len());
    let ghost first = entries@.take(n as int);
    let mut found: Vec<String> = Vec::new();
    let mut i: usize = 0;
    while i < n
        invariant
            n <= entries@.len(),
            i <= n,
            first == entries@.take(n as int),
            text_views(found@) == first_matches(*color, threshold, first.take(i as int)),
        decreases n - i,
    {
        let ghost before = found@;
        proof {
            assert(first.take(i + 1).drop_last() =~= first.take(i as int));
            assert(first.take(i + 1).last() == entries@[i as int]);
        }
        match match_first(color, threshold, &entries[i]) {
            Some(identifier) => {
                found.push(identifier);
                proof {
                    assert(text_views(found@) =~= text_views(before).push(identifier@));
                }
            },
            None => {},
        }
        i = i + 1;
    }
    proof {
        assert(first.take(n as int) =~= first);
        lemma_first_matches_len(*color, threshold, first);
        assert(text_views(found@).len() == found@.len());
    }
    found
}

} // verus!
