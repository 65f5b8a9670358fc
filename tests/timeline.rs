use prproj::timeline::{Timeline, TimelineItem};

fn windows(t: &Timeline) -> Vec<(usize, i128, i128)> {
    t.items().iter().map(|i| (i.cut(), i.start(), i.end())).collect()
}

#[test]
fn partial_cover_trims_the_earlier_window() {
    let mut t = Timeline::new();
    t.add(0, 0, 10);
    t.add(1, 5, 15);
    assert_eq!(windows(&t), vec![(0, 0, 5), (1, 5, 15)]);
}

#[test]
fn full_cover_removes_the_earlier_window() {
    let mut t = Timeline::new();
    t.add(0, 0, 10);
    t.add(1, -1, 20);
    assert_eq!(windows(&t), vec![(1, -1, 20)]);
}

#[test]
fn end_inside_moves_the_start_forward() {
    let mut t = Timeline::new();
    t.add(0, 5, 15);
    t.add(1, 0, 10);
    assert_eq!(windows(&t), vec![(1, 0, 10), (0, 10, 15)]);
}

#[test]
fn window_inside_splits_nothing_and_trims_the_end() {
    let mut t = Timeline::new();
    t.add(0, 0, 20);
    t.add(1, 5, 10);
    assert_eq!(windows(&t), vec![(0, 0, 5), (1, 5, 10)]);
}

#[test]
fn disjoint_windows_stay_sorted() {
    let mut t = Timeline::new();
    t.add(0, 30, 40);
    t.add(1, 0, 10);
    t.add(2, 15, 20);
    assert_eq!(windows(&t), vec![(1, 0, 10), (2, 15, 20), (0, 30, 40)]);
}

#[test]
fn empty_and_reversed_windows_are_not_added() {
    let mut t = Timeline::new();
    t.add(0, 0, 10);
    t.add(1, 5, 5);
    t.add(2, 8, 3);
    assert_eq!(windows(&t), vec![(0, 0, 10)]);
}

#[test]
fn moved_window_goes_back_in_start_order() {
    let mut t = Timeline::new();
    t.add(0, 0, 20);
    t.add(1, 0, 10);
    assert_eq!(windows(&t), vec![(1, 0, 10), (0, 10, 20)]);
}

#[test]
fn no_instant_is_covered_twice() {
    let mut t = Timeline::new();
    let adds: Vec<(usize, i128, i128)> = vec![
        (0, 0, 100),
        (1, 50, 150),
        (2, 10, 20),
        (3, 140, 300),
        (4, -50, 60),
        (5, 200, 210),
    ];
    for (c, s, e) in adds {
        t.add(c, s, e);
    }
    let items: Vec<TimelineItem> = t.items().clone();
    for instant in -60..310 {
        let covering = items
            .iter()
            .filter(|i| i.start() < instant && instant < i.end())
            .count();
        assert!(covering <= 1, "instant {} covered {} times", instant, covering);
    }
}

#[test]
fn later_window_never_widens_an_earlier_one() {
    let mut t = Timeline::new();
    t.add(0, 0, 10);
    t.add(1, 8, 30);
    let items = windows(&t);
    let first = items.iter().find(|w| w.0 == 0).unwrap();
    assert!(first.1 >= 0 && first.2 <= 10);
    assert_eq!(*first, (0, 0, 8));
    assert!(items.len() <= 2);
}

#[test]
fn covered_window_sharing_a_start_survives() {
    let mut t = Timeline::new();
    t.add(0, 0, 10);
    t.add(1, 0, 10);
    assert_eq!(windows(&t), vec![(0, 0, 10), (1, 0, 10)]);
}
