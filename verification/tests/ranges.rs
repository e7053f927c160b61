use sniprun::interpreter::{in_vec, included, squash_vec_range, Range};
use sniprun::treesitter_utils::{parse_node_listing, same_ranges, DependencyWalk, WalkStep};
use sniprun::DataHolder;

fn r(a: usize, b: usize, c: usize, d: usize) -> Range {
    Range { start_row: a, start_col: b, end_row: c, end_col: d }
}

#[test]
fn inclusion_of_ranges() {
    assert!(included(&r(2, 0, 3, 5), &r(1, 4, 3, 5)));
    assert!(included(&r(1, 4, 3, 5), &r(1, 4, 3, 5)));
    assert!(!included(&r(1, 3, 3, 5), &r(1, 4, 3, 5)));
    assert!(!included(&r(2, 0, 3, 6), &r(1, 4, 3, 5)));
    assert!(in_vec(&r(2, 0, 2, 1), &vec![r(5, 0, 6, 0), r(0, 0, 9, 0)]));
    assert!(!in_vec(&r(2, 0, 2, 1), &vec![]));
}

#[test]
fn squashing_keeps_outer_ranges_in_order() {
    let v = vec![r(0, 0, 10, 0), r(2, 0, 3, 0), r(12, 0, 14, 0), r(0, 0, 10, 0), r(11, 0, 20, 0)];
    let s = squash_vec_range(v.clone());
    assert_eq!(s, vec![r(0, 0, 10, 0), r(12, 0, 14, 0), r(11, 0, 20, 0)]);
    // every input range lies within a kept one
    for x in &v {
        assert!(in_vec(x, &s));
    }
    // squashing again changes nothing
    assert_eq!(squash_vec_range(s.clone()), s);
    assert_eq!(squash_vec_range(vec![]), vec![]);
}

#[test]
fn range_from_words() {
    assert_eq!(Range::from(vec!["1", "2", "3", "4"]), r(1, 2, 3, 4));
    assert_eq!(Range::from(vec!["+10", "0", "12", "7", "extra"]), r(10, 0, 12, 7));
    assert_eq!(Range::from_words(&vec!["1", "2", "3"]), None);
    assert_eq!(Range::from_words(&vec!["1", "2", "-3", "4"]), None);
    assert_eq!(Range::from_words(&vec!["1", "2", "", "4"]), None);
    assert_eq!(Range::from_words(&vec!["+", "2", "3", "4"]), None);
    assert_eq!(Range::from_words(&vec!["99999999999999999999999", "2", "3", "4"]), None);
    assert_eq!(Range::from_words(&vec!["18446744073709551615", "0", "0", "0"]), Some(r(usize::MAX, 0, 0, 0)));
}

#[test]
fn node_listing() {
    assert_eq!(parse_node_listing("0 0 3 4\n5 1 7 2\n"), Some(vec![r(0, 0, 3, 4), r(5, 1, 7, 2)]));
    assert_eq!(parse_node_listing(""), Some(vec![]));
    assert_eq!(parse_node_listing("0 0 3"), None);
    assert_eq!(parse_node_listing("0  0 3 4"), None);
    assert_eq!(parse_node_listing("1 2 3 4\r\n"), Some(vec![r(1, 2, 3, 4)]));
}

#[test]
fn dependency_walk() {
    let mut data = DataHolder::new();
    data.range = [3, 5];
    let walk = DependencyWalk::start(&data);
    assert_eq!(walk.initial, r(2, 0, 4, 0));
    assert_eq!(walk.queries(), vec![(2, 4)]);
    // the editor finds a function around the selection and a global it uses
    let step = walk.step(vec![r(0, 0, 6, 1), r(8, 0, 8, 9)]);
    let walk = match step {
        WalkStep::Continue(w) => w,
        WalkStep::Done(_) => panic!("the ranges grew"),
    };
    assert_eq!(walk.ranges, vec![r(0, 0, 6, 1), r(8, 0, 8, 9)]);
    assert_eq!(walk.queries(), vec![(0, 6), (8, 8)]);
    // nothing new: the walk is over
    let step = walk.step(vec![r(0, 0, 6, 1), r(8, 0, 8, 9)]);
    let deps = match step {
        WalkStep::Done(d) => d,
        WalkStep::Continue(_) => panic!("nothing changed"),
    };
    assert_eq!(deps, vec![r(0, 0, 6, 1), r(8, 0, 8, 9)]);
    // taking out the selection swaps the last range into its place
    let out = DependencyWalk::finish(vec![r(2, 0, 4, 0), r(0, 0, 1, 0), r(7, 0, 9, 0)], r(2, 0, 4, 0));
    assert_eq!(out, vec![r(7, 0, 9, 0), r(0, 0, 1, 0)]);
    let out = DependencyWalk::finish(vec![r(0, 0, 1, 0), r(2, 0, 4, 0)], r(2, 0, 4, 0));
    assert_eq!(out, vec![r(0, 0, 1, 0)]);
    assert!(same_ranges(&vec![r(1, 1, 1, 1)], &vec![r(1, 1, 1, 1)]));
    assert!(!same_ranges(&vec![r(1, 1, 1, 1)], &vec![]));
}

#[test]
fn inclusion_is_a_partial_order() {
    let a = r(3, 2, 4, 1);
    let b = r(3, 0, 5, 0);
    let c = r(1, 0, 9, 0);
    assert!(included(&a, &a));
    assert!(included(&a, &b) && included(&b, &c) && included(&a, &c));
    assert!(!included(&b, &a));
}

#[test]
fn unenclosed_selection_survives_squashing() {
    let selection = r(2, 0, 4, 0);
    let found = vec![r(3, 0, 3, 5), r(8, 0, 9, 0)];
    let mut all = found.clone();
    all.push(selection);
    assert!(squash_vec_range(all).contains(&selection));
    let mut enclosed = vec![r(0, 0, 9, 0)];
    enclosed.push(selection);
    assert!(!squash_vec_range(enclosed).contains(&selection));
}
