use color_finder::color::Color;
use color_finder::find_colors::FindColors;
use color_finder::scan::{dispatched, extract, gather, get_color_by_entry, scan, DecodeError, ScanEntry};

fn settings() -> FindColors {
    FindColors::builder().runs(2).k(3).max_iter(20).coverage(5).verbose(false).seed(0).build().unwrap()
}

fn valid(name: &str, color: Color) -> ScanEntry {
    ScanEntry {
        path: format!("images/{name}"),
        file_name: Some(name.to_string()),
        pixels: Some(vec![color; 16]),
    }
}

fn corrupt(name: &str) -> ScanEntry {
    ScanEntry { path: format!("images/{name}"), file_name: Some(name.to_string()), pixels: None }
}

#[test]
fn corrupt_file_contributes_nothing() {
    let entries = vec![
        valid("a.jpg", Color::new(1, 1, 1)),
        valid("b.jpg", Color::new(2, 2, 2)),
        corrupt("broken.jpg"),
        valid("c.jpg", Color::new(3, 3, 3)),
        valid("d.jpg", Color::new(4, 4, 4)),
        valid("e.jpg", Color::new(5, 5, 5)),
    ];
    let candidates = scan(&settings(), 10, entries);
    assert_eq!(candidates.len(), 5);
    let names: Vec<&str> = candidates.iter().map(|c| c.file_name.as_deref().unwrap()).collect();
    assert_eq!(names, vec!["a.jpg", "b.jpg", "c.jpg", "d.jpg", "e.jpg"]);
    for (i, c) in candidates.iter().enumerate() {
        let tag = (i + 1) as u8;
        assert_eq!(c.colors.len(), 1);
        assert_eq!(c.colors[0].color, Color::new(tag, tag, tag));
        assert_eq!(c.colors[0].count, 16);
        assert_eq!(c.colors[0].total, 16);
    }
}

#[test]
fn limit_bounds_the_entries_that_are_processed() {
    let entries: Vec<ScanEntry> =
        (1..=5u8).map(|i| valid(&format!("{i}.jpg"), Color::new(i, i, i))).collect();
    let candidates = scan(&settings(), 2, entries);
    assert_eq!(candidates.len(), 2);
    assert_eq!(candidates[0].path, "images/1.jpg");
    assert_eq!(candidates[1].path, "images/2.jpg");
}

#[test]
fn limit_counts_entries_not_successes() {
    let entries = vec![
        corrupt("x.jpg"),
        valid("a.jpg", Color::new(1, 1, 1)),
        valid("b.jpg", Color::new(2, 2, 2)),
    ];
    let candidates = scan(&settings(), 2, entries);
    assert_eq!(candidates.len(), 1);
    assert_eq!(candidates[0].path, "images/a.jpg");
}

#[test]
fn scan_of_nothing_or_with_limit_zero_is_empty() {
    assert!(scan(&settings(), 10, Vec::new()).is_empty());
    assert!(scan(&settings(), 0, vec![valid("a.jpg", Color::new(1, 1, 1))]).is_empty());
}

#[test]
fn image_without_pixels_is_a_candidate_without_colors() {
    let entry = ScanEntry { path: "p".to_string(), file_name: None, pixels: Some(Vec::new()) };
    let candidates = scan(&settings(), 1, vec![entry]);
    assert_eq!(candidates.len(), 1);
    assert!(candidates[0].colors.is_empty());
    assert_eq!(candidates[0].file_name, None);
}

#[test]
fn dispatched_is_the_lesser_of_limit_and_entries() {
    assert_eq!(dispatched(10, 6), 6);
    assert_eq!(dispatched(2, 5), 2);
    assert_eq!(dispatched(5, 5), 5);
    assert_eq!(dispatched(0, 5), 0);
    assert_eq!(dispatched(5, 0), 0);
    assert_eq!(dispatched(usize::MAX, 3), 3);
}

#[test]
fn entry_that_cannot_be_decoded_is_an_error_of_its_own() {
    assert_eq!(get_color_by_entry(&settings(), &corrupt("x.jpg")), Err(DecodeError {}));
    let colors = get_color_by_entry(&settings(), &valid("a.jpg", Color::new(9, 9, 9))).unwrap();
    assert_eq!(colors.len(), 1);
    assert_eq!(colors[0].color, Color::new(9, 9, 9));
    assert!(extract(&settings(), corrupt("x.jpg")).is_none());
    let candidate = extract(&settings(), valid("a.jpg", Color::new(9, 9, 9))).unwrap();
    assert_eq!(candidate.path, "images/a.jpg");
    assert_eq!(candidate.file_name.as_deref(), Some("a.jpg"));
    assert_eq!(candidate.colors, colors);
}

#[test]
fn gather_keeps_the_successes_among_the_first() {
    let outcomes = vec![Some(1), None, Some(3), Some(4), None, Some(6)];
    assert_eq!(gather(10, outcomes.clone()), vec![1, 3, 4, 6]);
    assert_eq!(gather(6, outcomes.clone()), vec![1, 3, 4, 6]);
    assert_eq!(gather(3, outcomes.clone()), vec![1, 3]);
    assert_eq!(gather(2, outcomes.clone()), vec![1]);
    assert_eq!(gather(0, outcomes), Vec::<i32>::new());
    assert_eq!(gather(4, Vec::<Option<i32>>::new()), Vec::<i32>::new());
}
