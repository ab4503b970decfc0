use color_finder::color::Color;
use color_finder::coverage::RepresentativeColor;
use color_finder::fraction::Fraction;
use color_finder::rank::{sort_ranked, Ranked};

fn rc(tag: u8, count: usize, total: usize) -> RepresentativeColor {
    RepresentativeColor { color: Color::new(tag, 0, 0), count, total }
}

#[test]
fn sort_puts_greater_coverage_first() {
    let mut v = vec![rc(1, 1, 10), rc(2, 5, 10), rc(3, 4, 10)];
    sort_ranked(&mut v);
    assert_eq!(v, vec![rc(2, 5, 10), rc(3, 4, 10), rc(1, 1, 10)]);
}

#[test]
fn sort_keeps_ties_in_their_order() {
    let mut v = vec![rc(1, 2, 10), rc(2, 3, 10), rc(3, 2, 10), rc(4, 3, 10), rc(5, 2, 10)];
    sort_ranked(&mut v);
    assert_eq!(v, vec![rc(2, 3, 10), rc(4, 3, 10), rc(1, 2, 10), rc(3, 2, 10), rc(5, 2, 10)]);
}

#[test]
fn sort_takes_equal_fractions_for_ties() {
    let mut v = vec![rc(1, 1, 2), rc(2, 2, 4), rc(3, 3, 4), rc(4, 50, 100)];
    sort_ranked(&mut v);
    assert_eq!(v, vec![rc(3, 3, 4), rc(1, 1, 2), rc(2, 2, 4), rc(4, 50, 100)]);
}

#[test]
fn sort_of_nothing_and_of_one() {
    let mut none: Vec<RepresentativeColor> = Vec::new();
    sort_ranked(&mut none);
    assert!(none.is_empty());
    let mut one = vec![rc(1, 1, 1)];
    sort_ranked(&mut one);
    assert_eq!(one, vec![rc(1, 1, 1)]);
}

#[test]
fn sort_of_a_reversed_sequence() {
    let mut v: Vec<RepresentativeColor> = (1..=50).map(|i| rc(i as u8, i, 100)).collect();
    sort_ranked(&mut v);
    let expected: Vec<RepresentativeColor> = (1..=50).rev().map(|i| rc(i as u8, i, 100)).collect();
    assert_eq!(v, expected);
}

#[test]
fn coverage_is_compared_as_a_fraction() {
    assert!(rc(0, 1, 2).outweighs(&rc(0, 49, 100)));
    assert!(!rc(0, 49, 100).outweighs(&rc(0, 1, 2)));
    assert!(rc(0, 1, 2).outweighs(&rc(0, 2, 4)));
    assert!(rc(0, 2, 4).outweighs(&rc(0, 1, 2)));
    assert!(rc(0, 1, 2).precedes(&rc(0, 1, 3)));
    assert!(!rc(0, 1, 3).precedes(&rc(0, 1, 2)));
    assert!(rc(0, usize::MAX, usize::MAX).outweighs(&rc(0, usize::MAX - 1, usize::MAX)));
    assert!(!rc(0, usize::MAX - 1, usize::MAX).outweighs(&rc(0, usize::MAX, usize::MAX)));
}

#[test]
fn a_color_of_no_pixels_covers_nothing() {
    assert!(rc(0, 1, 100).outweighs(&rc(0, 5, 0)));
    assert!(!rc(0, 5, 0).outweighs(&rc(0, 1, 100)));
    assert!(!rc(0, 5, 0).meets(&Fraction::new(1, 100).unwrap()));
    assert!(rc(0, 5, 0).meets(&Fraction::new(0, 1).unwrap()));
}

#[test]
fn minimum_coverage_is_inclusive() {
    let tenth = Fraction::new(1, 10).unwrap();
    assert!(rc(0, 10, 100).meets(&tenth));
    assert!(rc(0, 1, 10).meets(&tenth));
    assert!(!rc(0, 9, 100).meets(&tenth));
    assert!(rc(0, 100, 100).meets(&Fraction::new(1, 1).unwrap()));
    assert!(!rc(0, 100, 100).meets(&Fraction::new(2, 1).unwrap()));
}
