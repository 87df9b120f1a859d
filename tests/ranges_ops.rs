use epiclist_scraper::ranges::{RangeOps, Ranges};

#[test]
fn basic_subtractions() {
    assert_eq!((0..10).sub(4..5), Ranges::from(vec![0..4, 5..10]));
    assert_eq!((0..10).sub(0..5), Ranges::from(vec![5..10]));
    assert_eq!((0..10).sub(5..10), Ranges::from(vec![0..5]));
    assert_eq!((0..10).sub(0..10), Ranges::from(vec![]));
    assert_eq!((0..10).sub(0..0), Ranges::from(vec![0..10]));
    assert_eq!((0..10).sub(5..5), Ranges::from(vec![0..10]));

    assert_eq!(
        (0..10).sub(4..5).sub(6..7),
        Ranges::from(vec![0..4, 5..6, 7..10])
    );
}

#[test]
fn union_sorts_merges_and_drops_empty() {
    let u = Ranges::union_of(&[7..9, 0..3, 3..5, 4..4, 2..4, 12..15]);
    assert_eq!(u, Ranges::from(vec![0..5, 7..9, 12..15]));
    assert_eq!(Ranges::union_of(&[]), Ranges::from(vec![]));
    assert_eq!(Ranges::union_of(&[5..5, 9..2]), Ranges::from(vec![]));
}

#[test]
fn subtract_nothing_keeps_the_range() {
    assert_eq!((3..8).sub(10..12), Ranges::from(vec![3..8]));
    assert_eq!((3..8).sub(7..3), Ranges::from(vec![3..8]));
}

#[test]
fn subtract_self_leaves_nothing() {
    assert_eq!((3..8).sub(3..8), Ranges::from(vec![]));
    assert_eq!((3..8).sub(0..20), Ranges::from(vec![]));
}

#[test]
fn subtract_twice_is_subtract_once() {
    let once = Ranges::from(vec![0..4, 6..12]).sub(3..7);
    assert_eq!(once, Ranges::from(vec![0..3, 7..12]));
    assert_eq!(once.sub(3..7), once);
}

#[test]
fn ranges_subtraction_splits_each_part() {
    let r = Ranges::from(vec![0..10, 20..30]).sub(5..25);
    assert_eq!(r, Ranges::from(vec![0..5, 25..30]));
}

#[test]
fn outer_range_bridges_gaps() {
    assert_eq!(Ranges::from(vec![2..4, 8..11]).outer_range(), Some(2..11));
    assert_eq!(Ranges::from(vec![]).outer_range(), None);
    let r = Ranges::from(vec![1..2, 5..6]);
    assert_eq!(r.len(), 2);
    assert_eq!(r.get(1), 5..6);
}
