use std::cell::Cell;

use vyges_dpl::check::{check_in_rows, check_one_site_gaps, rects_overlap};
use vyges_dpl::grid::{Grid, Pixel};

/// A grid of whole rows of site `S`, every square valid.
fn uniform(core: (i32, i32, i32, i32), site_width: i32, row_y: Vec<i32>) -> Grid {
    let rows = row_y.len() - 1;
    let cols = ((core.2 - core.0) / site_width) as usize;
    let mut pixels = Vec::new();
    let mut row_sites = Vec::new();
    let mut row_orient = Vec::new();
    for _ in 0..rows {
        let mut row = Vec::new();
        for _ in 0..cols {
            row.push(Pixel { is_valid: true, ..Default::default() });
        }
        pixels.push(row);
        row_sites.push(vec![(0, cols, "S".to_string())]);
        row_orient.push("R0".to_string());
    }
    Grid {
        core,
        site_width,
        row_count: rows,
        row_site_count: cols,
        pixels,
        row_sites,
        row_y,
        row_orient,
        blocked_layers_populated: false,
    }
}

#[test]
fn a_multi_row_cell_must_be_power_compatible_with_its_start_row() {
    let g = uniform((0, 0, 100, 20), 10, vec![0, 10, 20]);
    let accept = |_: i64, _: i64| true;
    let none = if false { Some(&accept) } else { None };
    assert!(check_in_rows(&g, 0, 0, 20, 20, "S", none), "not multi-row: no power test");
    let asked = Cell::new((-1, -1));
    let reject = |row: i64, rows: i64| {
        asked.set((row, rows));
        false
    };
    assert!(!check_in_rows(&g, 0, 0, 20, 20, "S", Some(&reject)));
    assert_eq!(asked.get(), (0, 2), "asked at the start row, over both rows");
    assert!(check_in_rows(&g, 0, 0, 20, 20, "S", Some(&accept)));
}

#[test]
fn a_gap_is_seen_on_both_sides_and_a_later_edge_can_clear_it() {
    // Row of 10 squares, all valid; the cell spans 4..6.
    let grid = |cells: &'static [i64]| {
        move |x: i64, y: i64| {
            if y == 0 && (0..10).contains(&x) {
                Some((true, cells.contains(&x)))
            } else {
                None
            }
        }
    };
    // A neighbour two squares right: a gap.
    assert!(check_one_site_gaps(4, 0, 6, 1, &grid(&[4, 5, 7])));
    // A neighbour two squares left, and the cell abutted on the right: the east edge finds an
    // occupied square next door and assigns nothing.
    assert!(check_one_site_gaps(4, 0, 6, 1, &grid(&[4, 5, 2, 6])));
    // The same left neighbour with open space to the right: the east edge runs last and clears it.
    assert!(!check_one_site_gaps(4, 0, 6, 1, &grid(&[4, 5, 2])));
    // Abutting on the left: not a gap.
    assert!(!check_one_site_gaps(4, 0, 6, 1, &grid(&[4, 5, 3, 2])));
}

#[test]
fn abutting_cells_do_not_overlap() {
    let a = (0, 0, 10, 10);
    assert!(!rects_overlap(a, (10, 0, 10, 10)), "side by side");
    assert!(!rects_overlap(a, (0, 10, 10, 10)), "stacked");
    assert!(rects_overlap(a, (9, 0, 10, 10)), "one unit of real overlap");
    assert!(rects_overlap(a, (0, 9, 10, 10)));
}

#[test]
fn containment_and_identity_overlap() {
    assert!(rects_overlap((0, 0, 10, 10), (2, 2, 3, 3)), "fully contained");
    assert!(rects_overlap((0, 0, 10, 10), (0, 0, 10, 10)), "identical");
}

#[test]
fn disjoint_cells_do_not_overlap() {
    assert!(!rects_overlap((0, 0, 10, 10), (100, 100, 5, 5)));
}

#[test]
fn a_square_off_the_grid_is_in_no_row() {
    let g = uniform((0, 0, 100, 20), 10, vec![0, 10, 20]);
    let any = |_: i64, _: i64| true;
    let none = if false { Some(&any) } else { None };
    assert!(!check_in_rows(&g, 90, 0, 20, 10, "S", none), "past the right end");
    assert!(!check_in_rows(&g, 0, 0, 20, 10, "T", none), "another site");
}
