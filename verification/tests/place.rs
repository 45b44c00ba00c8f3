use std::collections::HashSet;

use vyges_dpl::diamond::diamond_points;
use vyges_dpl::place::{check_overlap, dist_to_rect, nearest_pt, place_before, sort_for_placement, Movable, OrderKey};

fn cell(x: i32, y: i32, w: i32, h: i32) -> Movable {
    Movable {
        name: "c".into(),
        x,
        y,
        w,
        h,
        site: "S".into(),
        key: OrderKey { multi_row: false, area: 0, center_dist: 0, name: "c".into() },
    }
}

#[test]
fn nearest_pt_matches_the_reference_trace() {
    let er1 = (0, 2800, 7000, 5600);
    assert!(!check_overlap(&cell(7980, 0, 760, 2800), &er1));
    assert_eq!(nearest_pt(&cell(7980, 0, 760, 2800), &er1), (6240, 2800));
    assert_eq!(nearest_pt(&cell(7600, 0, 760, 2800), &er1), (6240, 2800));
}

#[test]
fn check_overlap_is_the_left_edge_only() {
    let r = (1000, 0, 2000, 100);
    assert!(check_overlap(&cell(900, 0, 200, 100), &r), "straddles the left edge");
    assert!(!check_overlap(&cell(1900, 0, 200, 100), &r), "straddles the RIGHT edge: no");
    assert!(!check_overlap(&cell(1200, 0, 200, 100), &r), "wholly inside: no");
}

#[test]
fn nearest_pt_on_an_overlapping_cell_steps_out_on_the_shorter_axis() {
    let r = (1000, 0, 2000, 1000);
    assert_eq!(nearest_pt(&cell(900, 0, 200, 100), &r), (900, -100), "dist_y 0 < dist_x 100");
}

#[test]
fn dist_to_rect_is_zero_inside_and_manhattan_outside() {
    let r = (1000, 1000, 2000, 2000);
    assert_eq!(dist_to_rect(&cell(1200, 1200, 100, 100), &r), 0);
    assert_eq!(dist_to_rect(&cell(900, 2000, 100, 100), &r), 100 + 100);
}

fn key(multi: bool, area: i64, dist: i64, name: &str) -> OrderKey {
    OrderKey { multi_row: multi, area, center_dist: dist, name: name.into() }
}

#[test]
fn multi_row_cells_are_placed_first_whatever_their_area() {
    let small_multi = key(true, 1, 0, "a");
    let huge_single = key(false, 1_000_000, 0, "a");
    assert!(place_before(&small_multi, &huge_single));
    assert!(!place_before(&huge_single, &small_multi));
}

#[test]
fn larger_area_precedes_smaller() {
    assert!(place_before(&key(false, 10, 0, "a"), &key(false, 5, 0, "a")));
}

#[test]
fn equal_area_breaks_on_distance_then_on_name() {
    assert!(place_before(&key(false, 10, 1, "z"), &key(false, 10, 2, "a")), "nearer the core centre wins before the name is consulted");
    assert!(place_before(&key(false, 10, 5, "aaa"), &key(false, 10, 5, "aab")));
    assert!(!place_before(&key(false, 10, 5, "aab"), &key(false, 10, 5, "aaa")));
}

#[test]
fn the_sort_is_stable_against_input_order() {
    let mk = || vec![key(false, 10, 5, "b"), key(true, 1, 9, "m"), key(false, 10, 5, "a"), key(false, 20, 0, "c")];
    let mut one = mk();
    let mut two = mk();
    two.reverse();
    sort_for_placement(&mut one);
    sort_for_placement(&mut two);
    assert_eq!(one, two);
    assert_eq!(one.iter().map(|k| k.name.as_str()).collect::<Vec<_>>(), ["m", "c", "a", "b"]);
}

fn manhattan(a: (i64, i64), b: (i64, i64)) -> i64 {
    (a.0 - b.0).abs() + (a.1 - b.1).abs()
}

#[test]
fn the_search_starts_at_the_centre_and_grows_by_distance() {
    let pts = diamond_points(0, 0, (-5, -5, 5, 5), &manhattan, 9);
    assert_eq!(pts[0], (0, 0), "the cell's own position is tried first");
    let d: Vec<i64> = pts.iter().map(|p| manhattan((0, 0), *p)).collect();
    assert!(d.windows(2).all(|w| w[0] <= w[1]), "distances not monotonic: {d:?}");
}

#[test]
fn equally_distant_points_come_out_in_insertion_order() {
    // The four neighbours of the centre are all at distance 1: West, East, South, North.
    let pts = diamond_points(0, 0, (-5, -5, 5, 5), &manhattan, 5);
    assert_eq!(&pts[1..5], &[(-1, 0), (1, 0), (0, -1), (0, 1)]);
}

#[test]
fn the_search_stays_inside_its_bounds() {
    let pts = diamond_points(0, 0, (0, 0, 1, 1), &manhattan, 99);
    assert_eq!(pts.len(), 4, "a 2x2 box has four points and the search must not leave it");
    for p in &pts {
        assert!((0..=1).contains(&p.0) && (0..=1).contains(&p.1), "{p:?} is out of bounds");
    }
}

#[test]
fn a_visited_point_is_never_queued_twice() {
    // Every point of the box appears exactly once.
    let pts = diamond_points(2, 2, (0, 0, 4, 4), &manhattan, 999);
    let uniq: HashSet<_> = pts.iter().collect();
    assert_eq!(uniq.len(), pts.len());
    assert_eq!(pts.len(), 25);
}

#[test]
fn a_diamond_search_gives_its_limit_or_all_there_is() {
    for (limit, want) in [(4, 4), (9, 9), (100, 9)] {
        let pts = diamond_points(0, 0, (-1, -1, 1, 1), &manhattan, limit);
        assert_eq!(pts.len(), want, "{limit}");
        let mut distinct = pts.clone();
        distinct.sort();
        distinct.dedup();
        assert_eq!(distinct.len(), want, "{limit}");
    }
}
