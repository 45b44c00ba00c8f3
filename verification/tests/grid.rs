use vyges_dpl::grid::{Grid, Pixel};

/// A bare grid with `w` sites in one row, every square valid.
fn grid(w: usize) -> Grid {
    let mut row = Vec::new();
    for _ in 0..w {
        row.push(Pixel { is_valid: true, ..Default::default() });
    }
    Grid {
        core: (0, 0, w as i32 * 10, 10),
        site_width: 10,
        row_count: 1,
        row_site_count: w,
        pixels: vec![row],
        row_sites: vec![vec![(0, w, "S".to_string())]],
        row_y: vec![0, 10],
        row_orient: vec!["R0".to_string()],
        blocked_layers_populated: false,
    }
}

fn uniform(pitch: i32, rows: usize) -> Grid {
    let mut pixels = Vec::new();
    for _ in 0..rows {
        let mut row = Vec::new();
        for _ in 0..10 {
            row.push(Pixel::default());
        }
        pixels.push(row);
    }
    Grid {
        core: (0, 0, 100, pitch * rows as i32),
        site_width: 10,
        row_count: rows,
        row_site_count: 10,
        pixels,
        row_sites: vec![vec![(0, 10, "S".to_string())]; rows],
        row_y: (0..=rows).map(|i| i as i32 * pitch).collect(),
        row_orient: vec!["R0".to_string(); rows],
        blocked_layers_populated: false,
    }
}

#[test]
fn the_body_is_not_reserved_by_its_own_padding() {
    let mut g = grid(10);
    g.paint_cell_padding(4, 0, 2, 10, 1, 1, 7);
    assert_eq!(g.pixel(3, 0).unwrap().padding_reserved_by, Some(7), "left pad");
    assert_eq!(g.pixel(4, 0).unwrap().padding_reserved_by, None, "the body is NOT reserved");
    assert_eq!(g.pixel(5, 0).unwrap().padding_reserved_by, None, "the body is NOT reserved");
    assert_eq!(g.pixel(6, 0).unwrap().padding_reserved_by, Some(7), "right pad");
    assert_eq!(g.pixel(7, 0).unwrap().padding_reserved_by, None, "past the pad");
}

#[test]
fn zero_padding_reserves_nothing_at_all() {
    let mut g = grid(6);
    g.paint_cell_padding(2, 0, 2, 10, 0, 0, 1);
    assert!((0..6).all(|x| g.pixel(x, 0).unwrap().padding_reserved_by.is_none()), "zero padding claims no square");
}

#[test]
fn the_later_cells_padding_wins_the_square() {
    let mut g = grid(8);
    g.paint_cell_padding(4, 0, 1, 10, 1, 0, 1);
    g.paint_cell_padding(2, 0, 1, 10, 0, 1, 2);
    assert_eq!(g.pixel(3, 0).unwrap().padding_reserved_by, Some(2));
}

#[test]
fn the_first_cell_keeps_the_square_it_occupies() {
    let mut g = grid(8);
    g.paint_cell(20, 0, 20, 10, Some(1));
    g.paint_cell(20, 0, 20, 10, Some(2));
    assert_eq!(g.pixel(2, 0).unwrap().cell, Some(1), "first writer keeps `cell`");
}

#[test]
fn a_pad_reaching_past_the_core_edge_is_clipped_not_wrapped() {
    let mut g = grid(4);
    g.paint_cell_padding(0, 0, 1, 10, 3, 5, 9);
    assert_eq!(g.pixel(0, 0).unwrap().padding_reserved_by, None, "the body");
    assert!((1..4).all(|x| g.pixel(x, 0).unwrap().padding_reserved_by == Some(9)));
}

#[test]
fn a_single_height_master_is_one_row_however_the_cell_sits() {
    // The cell is at y = 10 in a 2800-pitch design, so `rows_spanned` says 2 and `grid_height` 1.
    let g = uniform(2800, 4);
    assert_eq!(g.grid_height(2800, 0), 1);
    assert_eq!(g.rows_spanned(10, 2800), 2, "the OTHER question, and its answer differs");
}

#[test]
fn a_taller_master_rounds_up() {
    let g = uniform(2800, 6);
    assert_eq!(g.grid_height(5600, 0), 2);
    assert_eq!(g.grid_height(8400, 0), 3);
    // A master a hair over two rows needs three.
    assert_eq!(g.grid_height(5601, 0), 3);
    assert_eq!(g.grid_height(1, 0), 1, "and never zero");
}

#[test]
fn hybrid_rows_use_the_pattern_length_not_a_division() {
    // Rows of 2800 then 1400, alternating: no uniform height.
    let mut g = uniform(2800, 4);
    g.row_y = vec![0, 2800, 4200, 7000, 8400];
    assert_eq!(g.uniform_row_height(), None);
    // The pattern's length is the answer; the master height is not consulted at all.
    assert_eq!(g.grid_height(999999, 3), 3);
    assert_eq!(g.grid_height(2800, 0), 1, "no pattern on a hybrid design means one row");
}

#[test]
fn a_uniform_design_ignores_the_row_pattern() {
    let g = uniform(2800, 4);
    assert_eq!(g.grid_height(2800, 3), 1);
}
