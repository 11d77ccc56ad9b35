use parser_lib::VecWindow;

fn numbers() -> Vec<i32> {
    vec![10, 11, 12, 13, 14, 15]
}

fn bounds<T>(window: &VecWindow<T>) -> (usize, usize) {
    (window.start(), window.end())
}

#[test]
fn new_checks_the_bounds() {
    let items = numbers();
    assert!(VecWindow::new(&items, 0, 6).is_some());
    assert!(VecWindow::new(&items, 3, 3).is_some());
    assert!(VecWindow::new(&items, 4, 3).is_none());
    assert!(VecWindow::new(&items, 0, 7).is_none());
    let window = VecWindow::new(&items, 2, 5).unwrap();
    assert_eq!(bounds(&window), (2, 5));
    assert_eq!(window.size(), 3);
    assert!(!window.is_empty());
    let whole: VecWindow<i32> = (&items).into();
    assert_eq!(bounds(&whole), (0, 6));
}

#[test]
fn reading_does_not_consume() {
    let items = numbers();
    let window = VecWindow::new(&items, 2, 5).unwrap();
    assert_eq!(window.first(), Some(&12));
    assert_eq!(window.last(), Some(&14));
    assert_eq!(window.get(0), Some(&12));
    assert_eq!(window.get(2), Some(&14));
    assert_eq!(window.get(3), None);
    assert_eq!(window.size(), 3);
    let none = VecWindow::new(&items, 4, 4).unwrap();
    assert!(none.is_empty());
    assert_eq!(none.first(), None);
    assert_eq!(none.last(), None);
    assert_eq!(none.get(0), None);
}

#[test]
fn popping_shrinks_one_end() {
    let items = numbers();
    let mut window = VecWindow::new(&items, 2, 5).unwrap();
    assert_eq!(window.pop_first(), Some(&12));
    assert_eq!(bounds(&window), (3, 5));
    assert_eq!(window.pop_last(), Some(&14));
    assert_eq!(bounds(&window), (3, 4));
    assert_eq!(window.pop_last(), Some(&13));
    assert_eq!(window.pop_first(), None);
    assert_eq!(window.pop_last(), None);
    assert_eq!(bounds(&window), (3, 3));
}

#[test]
fn skip_and_take_are_clamped() {
    let items = numbers();
    let window = VecWindow::new(&items, 1, 5).unwrap();
    assert_eq!(bounds(&window.clone().skip(0)), (1, 5));
    assert_eq!(bounds(&window.clone().skip(3)), (4, 5));
    assert_eq!(bounds(&window.clone().skip(4)), (5, 5));
    assert_eq!(bounds(&window.clone().skip(usize::MAX)), (5, 5));
    assert_eq!(bounds(&window.clone().take(0)), (1, 1));
    assert_eq!(bounds(&window.clone().take(3)), (1, 4));
    assert_eq!(bounds(&window.clone().take(4)), (1, 5));
    assert_eq!(bounds(&window.clone().take(usize::MAX)), (1, 5));
}

#[test]
fn shrinking_never_widens() {
    let items = numbers();
    let mut window = VecWindow::new(&items, 2, 5).unwrap();
    window.shrink_start_to(1);
    assert_eq!(bounds(&window), (2, 5));
    window.shrink_start_to(6);
    assert_eq!(bounds(&window), (2, 5));
    window.shrink_end_to(6);
    assert_eq!(bounds(&window), (2, 5));
    window.shrink_end_to(1);
    assert_eq!(bounds(&window), (2, 5));
    window.shrink_start_to(3);
    assert_eq!(bounds(&window), (3, 5));
    window.shrink_end_to(4);
    assert_eq!(bounds(&window), (3, 4));
    window.shrink_start_to(4);
    assert_eq!(bounds(&window), (4, 4));
    window.shrink_end_to(4);
    assert_eq!(bounds(&window), (4, 4));
}

#[test]
fn a_run_of_narrowing_steps_stays_inside() {
    let items = numbers();
    let first = VecWindow::new(&items, 1, 6).unwrap();
    let mut window = first.clone().skip(1).take(3);
    window.pop_first();
    window.shrink_end_to(4);
    window.pop_last();
    assert!(first.start() <= window.start());
    assert!(window.end() <= first.end());
    assert!(window.size() <= first.size());
    assert_eq!(bounds(&window), (3, 3));
    let window = first.clone().take(2).empty();
    assert!(first.start() <= window.start());
    assert!(window.end() <= first.end());
    assert_eq!(bounds(&window), (3, 3));
}

#[test]
fn empty_shows_nothing_at_the_end_of_the_window() {
    let items = numbers();
    let window = VecWindow::new(&items, 2, 5).unwrap().empty();
    assert_eq!(bounds(&window), (5, 5));
    assert!(window.is_empty());
    assert_eq!(window.size(), 0);
    let window = VecWindow::new(&items, 1, 3).unwrap().empty();
    assert_eq!(bounds(&window), (3, 3));
    let window = VecWindow::new(&items, 4, 4).unwrap().empty();
    assert_eq!(bounds(&window), (4, 4));
}

#[test]
fn snip_cuts_in_two() {
    let items = numbers();
    let window = VecWindow::new(&items, 1, 5).unwrap();
    let (head, tail) = window.clone().snip(1).unwrap();
    assert_eq!(bounds(&head), (1, 2));
    assert_eq!(bounds(&tail), (2, 5));
    let (head, tail) = window.clone().snip(0).unwrap();
    assert_eq!(bounds(&head), (1, 1));
    assert_eq!(bounds(&tail), (1, 5));
    assert!(window.clone().snip(4).is_none());
    assert!(window.snip(9).is_none());
}

#[test]
fn find_gives_the_first_match_from_the_start_of_the_window() {
    let items = numbers();
    let window = VecWindow::new(&items, 1, 5).unwrap();
    assert_eq!(window.find(|n| n % 2 == 0), Some(1));
    assert_eq!(window.find(|n| *n == 11), Some(0));
    assert_eq!(window.find(|n| *n == 15), None);
    assert_eq!(window.find(|n| *n == 10), None);
}

#[test]
fn split_including_start_cuts_in_front_of_matches() {
    let items = vec![0, 1, 0, 2, 3, 0];
    let window = VecWindow::new(&items, 0, 6).unwrap();
    let parts: Vec<(usize, usize)> = window
        .split_including_start(|n| *n == 0)
        .iter()
        .map(bounds)
        .collect();
    assert_eq!(parts, vec![(0, 2), (2, 5), (5, 6)]);
}

#[test]
fn split_drops_the_matches_but_a_leading_one() {
    let items = vec![0, 1, 0, 2, 3, 0];
    let window = VecWindow::new(&items, 0, 6).unwrap();
    let parts: Vec<(usize, usize)> = window.split(|n| *n == 0).iter().map(bounds).collect();
    assert_eq!(parts, vec![(0, 2), (3, 5), (6, 6)]);
    let window = VecWindow::new(&items, 1, 5).unwrap();
    let parts: Vec<(usize, usize)> = window.split(|n| *n == 0).iter().map(bounds).collect();
    assert_eq!(parts, vec![(1, 2), (3, 5)]);
}

#[test]
fn splitting_small_windows() {
    let items = vec![0, 1];
    let none = VecWindow::new(&items, 1, 1).unwrap();
    assert!(none.clone().split(|_| true).is_empty());
    assert!(none.split_including_start(|_| true).is_empty());
    let one = VecWindow::new(&items, 0, 1).unwrap();
    let parts: Vec<(usize, usize)> = one.split(|_| true).iter().map(bounds).collect();
    assert_eq!(parts, vec![(0, 1)]);
}

#[test]
fn split_once_cuts_at_the_first_match() {
    let items = vec![1, 0, 2, 0, 3];
    let window = VecWindow::new(&items, 0, 5).unwrap();
    let (head, tail) = window.clone().split_once(|n| *n == 0).unwrap();
    assert_eq!(bounds(&head), (0, 1));
    assert_eq!(bounds(&tail), (2, 5));
    assert!(window.clone().split_once(|n| *n == 9).is_none());
    let (head, tail) = window.split_once(|n| *n == 1).unwrap();
    assert_eq!(bounds(&head), (0, 0));
    assert_eq!(bounds(&tail), (1, 5));
}
