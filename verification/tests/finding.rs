use color_finder::color::Color;
use color_finder::coverage::RepresentativeColor;
use color_finder::find::{rank, Finder, Lookup, Match, TrackInfo};
use color_finder::find_colors::FindColors;
use color_finder::first::{find_first, match_first};
use color_finder::fraction::Fraction;
use color_finder::scan::{ImageCandidate, ScanEntry};

const RED: Color = Color { red: 255, green: 0, blue: 0 };
const BLUE: Color = Color { red: 0, green: 0, blue: 255 };

fn settings() -> FindColors {
    FindColors::builder().runs(2).k(3).max_iter(20).coverage(5).verbose(false).seed(0).build().unwrap()
}

fn finder(threshold: (u32, u32), min_coverage: (u32, u32), target: Color) -> Finder {
    Finder::new(
        Fraction::new(threshold.0, threshold.1).unwrap(),
        Fraction::new(min_coverage.0, min_coverage.1).unwrap(),
        target,
        10,
        settings(),
    )
}

fn entry(name: &str, color: Color) -> ScanEntry {
    ScanEntry { path: format!("dir/{name}"), file_name: Some(name.to_string()), pixels: Some(vec![color; 25]) }
}

fn candidate(name: &str, colors: &[(Color, usize)]) -> ImageCandidate {
    let total = colors.iter().map(|c| c.1).sum();
    ImageCandidate {
        path: format!("dir/{name}"),
        file_name: Some(name.to_string()),
        colors: colors.iter().map(|&(color, count)| RepresentativeColor { color, count, total }).collect(),
    }
}

fn found(id: &str, distance: u32, count: usize, total: usize) -> Match {
    Match {
        identifier: id.to_string(),
        path: format!("dir/{id}.jpg"),
        distance,
        color: RepresentativeColor { color: Color::new(0, 0, 0), count, total },
    }
}

fn known(name: &str) -> Lookup {
    Lookup::Found(TrackInfo { name: name.to_string(), preview_url: None })
}

fn order(results: &[color_finder::find::MatchResult]) -> Vec<&str> {
    results.iter().map(|r| r.found.identifier.as_str()).collect()
}

#[test]
fn red_image_matches_red_under_any_positive_threshold() {
    for threshold in [(1, 1_000_000), (1, 10), (1, 1), (7, 1)] {
        let f = finder(threshold, (1, 10), RED);
        let candidates = f.scan(vec![entry("4iV5W9uYEdYUVa79Axb7Rh.jpg", RED)]);
        assert_eq!(candidates.len(), 1);
        assert_eq!(candidates[0].colors, vec![RepresentativeColor { color: RED, count: 25, total: 25 }]);
        let matches = f.find(&candidates);
        assert_eq!(matches.len(), 1);
        assert_eq!(matches[0].identifier, "4iV5W9uYEdYUVa79Axb7Rh");
        assert_eq!(matches[0].path, "dir/4iV5W9uYEdYUVa79Axb7Rh.jpg");
        assert_eq!(matches[0].distance, 0);
        assert_eq!(matches[0].color, RepresentativeColor { color: RED, count: 25, total: 25 });
    }
    let f = finder((0, 1), (1, 10), RED);
    let candidates = f.scan(vec![entry("4iV5W9uYEdYUVa79Axb7Rh.jpg", RED)]);
    assert!(f.find(&candidates).is_empty());
}

#[test]
fn blue_image_lies_at_the_distance_of_two_channels_from_red() {
    // Two of three channels differ fully: the distance is the square root
    // of two thirds, about 0.8165.
    let far = finder((1, 1), (1, 10), RED);
    let candidates = far.scan(vec![entry("4iV5W9uYEdYUVa79Axb7Rh.jpg", BLUE)]);
    assert_eq!(candidates[0].colors, vec![RepresentativeColor { color: BLUE, count: 25, total: 25 }]);
    let matches = far.find(&candidates);
    assert_eq!(matches.len(), 1);
    assert_eq!(matches[0].distance, 130_050);
    for threshold in [(1, 10), (1, 2), (4, 5), (81, 100), (8164, 10_000)] {
        assert!(finder(threshold, (1, 10), RED).find(&candidates).is_empty());
    }
    for threshold in [(82, 100), (8165, 10_000), (99, 100)] {
        assert_eq!(finder(threshold, (1, 10), RED).find(&candidates).len(), 1);
    }
}

#[test]
fn black_and_white_lie_at_the_greatest_distance() {
    let black = Color::new(0, 0, 0);
    let white = Color::new(255, 255, 255);
    let candidates = vec![candidate("a.jpg", &[(white, 1)])];
    for threshold in [(1, 2), (99, 100), (999_999, 1_000_000), (1, 1)] {
        assert!(finder(threshold, (0, 1), black).find(&candidates).is_empty());
    }
    let matches = finder((1_000_001, 1_000_000), (0, 1), black).find(&candidates);
    assert_eq!(matches.len(), 1);
    assert_eq!(matches[0].distance, 195_075);
}

#[test]
fn colors_below_the_minimum_coverage_are_ignored() {
    let f = finder((1, 10), (1, 10), RED);
    // red covers 9 of 100: too little; the rest is far from red
    let noise = vec![candidate("a.jpg", &[(BLUE, 91), (RED, 9)])];
    assert!(f.find(&noise).is_empty());
    // red covers 10 of 100: exactly enough
    let enough = vec![candidate("a.jpg", &[(BLUE, 90), (RED, 10)])];
    let matches = f.find(&enough);
    assert_eq!(matches.len(), 1);
    assert_eq!(matches[0].color, RepresentativeColor { color: RED, count: 10, total: 100 });
    assert_eq!(matches[0].distance, 0);
}

#[test]
fn closest_of_the_covering_colors_is_the_match() {
    let f = finder((1, 2), (1, 10), Color::new(100, 100, 100));
    let near = Color::new(110, 100, 100);
    let nearer = Color::new(100, 103, 100);
    let c = vec![candidate("a.jpg", &[(BLUE, 50), (near, 30), (nearer, 20)])];
    let matches = f.find(&c);
    assert_eq!(matches.len(), 1);
    assert_eq!(matches[0].color.color, nearer);
    assert_eq!(matches[0].distance, 9);
    // of two equally close colours the first, which covers more
    let left = Color::new(95, 100, 100);
    let right = Color::new(105, 100, 100);
    let c = vec![candidate("a.jpg", &[(left, 60), (right, 40)])];
    let matches = f.find(&c);
    assert_eq!(matches[0].color.color, left);
    assert_eq!(matches[0].distance, 25);
}

#[test]
fn image_whose_best_color_is_too_far_is_dropped_whole() {
    let f = finder((1, 100), (1, 10), RED);
    let c = vec![
        candidate("a.jpg", &[(BLUE, 70), (Color::new(200, 0, 0), 30)]),
        candidate("b.jpg", &[(Color::new(254, 1, 0), 100)]),
    ];
    let matches = f.find(&c);
    assert_eq!(matches.len(), 1);
    assert_eq!(matches[0].identifier, "b");
    assert_eq!(matches[0].distance, 2);
}

#[test]
fn file_that_gives_no_identifier_is_dropped() {
    let f = finder((1, 2), (1, 10), RED);
    let mut nameless = candidate("a.jpg", &[(RED, 1)]);
    nameless.file_name = None;
    let c = vec![
        nameless,
        candidate("b.png", &[(RED, 1)]),
        candidate("not an id.jpg", &[(RED, 1)]),
        candidate("spotify:album:4iV5W9uYEdYUVa79Axb7Rh.jpg", &[(RED, 1)]),
        candidate("good1.jpg", &[(RED, 1)]),
        candidate("x.jpg", &[]),
    ];
    let matches = f.find(&c);
    assert_eq!(matches.len(), 1);
    assert_eq!(matches[0].identifier, "good1");
    assert_eq!(matches[0].path, "dir/good1.jpg");
}

#[test]
fn matches_come_in_the_order_of_the_candidates() {
    let f = finder((1, 1), (0, 1), RED);
    let c = vec![
        candidate("far.jpg", &[(Color::new(0, 0, 0), 1)]),
        candidate("near.jpg", &[(RED, 1)]),
        candidate("mid.jpg", &[(Color::new(200, 0, 0), 1)]),
    ];
    let matches = f.find(&c);
    let ids: Vec<&str> = matches.iter().map(|m| m.identifier.as_str()).collect();
    assert_eq!(ids, vec!["far", "near", "mid"]);
    assert!(f.find(&Vec::new()).is_empty());
}

#[test]
fn rank_sorts_by_distance() {
    let results = rank(vec![
        (found("c", 300, 1, 2), known("C")),
        (found("a", 100, 1, 2), known("A")),
        (found("d", 400, 1, 2), known("D")),
        (found("b", 200, 1, 2), known("B")),
    ]);
    assert_eq!(order(&results), vec!["a", "b", "c", "d"]);
    assert_eq!(results[0].track.name, "A");
    assert_eq!(results[3].track.name, "D");
    for pair in results.windows(2) {
        assert!(pair[0].found.distance <= pair[1].found.distance);
    }
}

#[test]
fn rank_breaks_ties_by_descending_coverage_and_then_by_order() {
    let results = rank(vec![
        (found("low", 100, 1, 10), known("x")),
        (found("high", 100, 9, 10), known("x")),
        (found("first", 100, 1, 2), known("x")),
        (found("second", 100, 2, 4), known("x")),
        (found("near", 99, 1, 100), known("x")),
    ]);
    assert_eq!(order(&results), vec!["near", "high", "first", "second", "low"]);
}

#[test]
fn rank_drops_what_the_catalog_did_not_find() {
    let results = rank(vec![
        (found("b", 2, 1, 1), Lookup::NotFound),
        (found("c", 3, 1, 1), known("C")),
        (found("a", 1, 1, 1), Lookup::TransientError),
        (found("d", 0, 1, 1), Lookup::Found(TrackInfo { name: "D".to_string(), preview_url: Some("u".to_string()) })),
    ]);
    assert_eq!(order(&results), vec!["d", "c"]);
    assert_eq!(results[0].track.preview_url.as_deref(), Some("u"));
    assert!(rank(Vec::new()).is_empty());
    assert!(rank(vec![(found("a", 1, 1, 1), Lookup::NotFound)]).is_empty());
}

#[test]
fn whole_search_from_entries_to_ranked_results() {
    let f = Finder::new(
        Fraction::new(3, 10).unwrap(),
        Fraction::new(1, 10).unwrap(),
        RED,
        4,
        settings(),
    );
    let entries = vec![
        entry("idB.jpg", Color::new(230, 20, 20)),
        ScanEntry { path: "dir/broken.jpg".to_string(), file_name: Some("broken.jpg".to_string()), pixels: None },
        entry("idA.jpg", Color::new(250, 0, 0)),
        entry("idFar.jpg", BLUE),
        entry("idBeyondLimit.jpg", RED),
    ];
    let candidates = f.scan(entries);
    assert_eq!(candidates.len(), 3);
    let matches = f.find(&candidates);
    assert_eq!(matches.len(), 2);
    let outcomes = matches.into_iter().map(|m| { let name = m.identifier.to_uppercase(); (m, known(&name)) }).collect();
    let results = rank(outcomes);
    assert_eq!(order(&results), vec!["idA", "idB"]);
    assert_eq!(results[0].found.distance, 25);
    assert_eq!(results[1].found.distance, 625 + 400 + 400);
    assert_eq!(results[0].track.name, "IDA");
}

#[test]
fn first_way_matches_by_the_mean_color() {
    let target = Color::new(100, 100, 100);
    let mixed = ScanEntry {
        path: "dir/m.jpg".to_string(),
        file_name: Some("mixed.jpg".to_string()),
        pixels: Some(vec![Color::new(90, 100, 110), Color::new(100, 100, 100)]),
    };
    // mean (95, 100, 105): differs by 5 in two channels
    assert_eq!(match_first(&target, 6, &mixed), Some("mixed".to_string()));
    assert_eq!(match_first(&target, 5, &mixed), None);
    assert_eq!(match_first(&target, 0, &mixed), None);
}

#[test]
fn first_way_leaves_out_what_cannot_match() {
    let target = Color::new(10, 10, 10);
    let entries = vec![
        entry("near1.jpg", Color::new(12, 10, 9)),
        ScanEntry { path: "p".to_string(), file_name: Some("broken.jpg".to_string()), pixels: None },
        ScanEntry { path: "p".to_string(), file_name: Some("empty.jpg".to_string()), pixels: Some(Vec::new()) },
        entry("far.jpg", Color::new(10, 10, 30)),
        entry("no-id.jpg", Color::new(10, 10, 10)),
        entry("near2.png", Color::new(10, 10, 10)),
        ScanEntry { path: "p".to_string(), file_name: None, pixels: Some(vec![target]) },
        entry("near3.jpg", Color::new(10, 10, 10)),
    ];
    assert_eq!(find_first(&target, 3, 10, &entries), vec!["near1".to_string(), "near3".to_string()]);
    assert_eq!(find_first(&target, 3, 7, &entries), vec!["near1".to_string()]);
    assert_eq!(find_first(&target, 2, 10, &entries), vec!["near3".to_string()]);
    assert_eq!(find_first(&target, 3, 0, &entries), Vec::<String>::new());
    assert_eq!(find_first(&target, 255, 10, &entries), vec!["near1".to_string(), "far".to_string(), "near3".to_string()]);
}
