use vyges_dpl::grid::{Grid, Pixel};
use vyges_dpl::regions::{group_init_pixels, placement_groups, Box4, Fences, Group, GroupInput, Regions};

/// Two abutting regions, one grouped cell assigned to the left one. Site 10, rows 0/100/200.
fn two_regions() -> Regions {
    Regions { rtree: vec![(0, 0, 99, 199), (100, 0, 199, 199)], assigned: vec![("u1".to_string(), (0, 0, 100, 200))] }
}

const ROWS: &[i32] = &[0, 100, 200];

#[test]
fn ungrouped_cell_passes() {
    assert!(two_regions().check("other", 150, 0, 40, 100, 10, ROWS, 200));
}

#[test]
fn cell_flush_with_the_shared_edge_passes() {
    assert!(two_regions().check("u1", 60, 0, 40, 100, 10, ROWS, 200));
}

#[test]
fn cell_past_its_region_fails() {
    assert!(!two_regions().check("u1", 70, 0, 40, 100, 10, ROWS, 200));
}

#[test]
fn query_hitting_two_rtree_boxes_fails() {
    let mut r = two_regions();
    r.assigned.push(("u2".to_string(), (0, 0, 200, 200)));
    assert!(!r.check("u2", 80, 0, 40, 100, 10, ROWS, 200));
}

#[test]
fn one_past_the_last_boundary_reads_absolute_core_top() {
    let r = Regions { rtree: vec![(0, 0, 99, 299)], assigned: vec![("u".to_string(), (0, 0, 100, 300))] };
    // h = 100, y = 200: the end is one past the last boundary.
    assert!(r.check("u", 0, 200, 40, 100, 10, &[0, 100, 200], 300));
    assert!(!r.check("u", 0, 200, 40, 100, 10, &[0, 100, 200], 1000));
}

/// Core (28000, 28000) to (39780, 33600), site 380, two rows of 2800.
fn nangate_grid() -> Grid {
    let core = (28000, 28000, 39780, 33600);
    let row_y = vec![0, 2800, 5600];
    let cols = ((core.2 - core.0) / 380) as usize;
    let mut pixels = Vec::new();
    for _ in 0..2 {
        let mut row = Vec::new();
        for _ in 0..cols {
            row.push(Pixel { is_valid: true, ..Default::default() });
        }
        pixels.push(row);
    }
    Grid {
        core,
        site_width: 380,
        row_count: 2,
        row_site_count: cols,
        pixels,
        row_sites: vec![vec![(0, cols, "S".to_string())]; 2],
        row_y,
        row_orient: vec!["R0".to_string(); 2],
        blocked_layers_populated: false,
    }
}

fn summary(g: &Grid) -> (Vec<(i64, i64)>, Vec<usize>) {
    let mut invalid = Vec::new();
    let mut per_group = vec![0usize; 2];
    for y in 0..g.row_count as i64 {
        for x in 0..g.row_site_count as i64 {
            let p = g.pixel(x, y).unwrap();
            if !p.is_valid {
                invalid.push((x, y));
            }
            if let Some(id) = p.group {
                per_group[id] += 1;
            }
        }
    }
    (invalid, per_group)
}

fn group(name: &str, rect: Box4) -> Group {
    Group { name: name.into(), rects: vec![rect], cells: vec![format!("{name}/cell")] }
}

#[test]
fn fence01_boundary_squares_match_the_reference() {
    let mut g = nangate_grid();
    group_init_pixels(&mut g, &[group("er0", (0, 0, 5890, 5600)), group("er1", (5890, 0, 11780, 5600))]);
    let (invalid, per_group) = summary(&g);
    assert_eq!(invalid, vec![(15, 0), (16, 0), (15, 1), (16, 1)]);
    assert_eq!(per_group, vec![28, 28]);
    assert!(g.pixel(14, 0).unwrap().is_valid && g.pixel(14, 0).unwrap().group.is_none());
}

#[test]
fn regions3_boundary_squares_match_the_reference() {
    let mut g = nangate_grid();
    group_init_pixels(&mut g, &[group("er1", (0, 0, 4000, 2800)), group("er2", (7000, 0, 11780, 5600))]);
    let (invalid, per_group) = summary(&g);
    assert_eq!(invalid, vec![(10, 0), (18, 0), (19, 0), (18, 1), (19, 1)]);
    assert_eq!(per_group, vec![9, 22]);
}

#[test]
fn an_empty_group_still_blocks_its_boundary() {
    let mut g = nangate_grid();
    let mut empty = group("er1", (0, 0, 4000, 2800));
    empty.cells.clear();
    group_init_pixels(&mut g, &[empty]);
    let (invalid, per_group) = summary(&g);
    assert_eq!(invalid, vec![(10, 0)]);
    assert_eq!(per_group, vec![0, 0]);
}

fn regions1_fences() -> Fences {
    Fences { rects: vec![vec![(-73, 0, 104, 1)], vec![(-73, 1, 18, 2)]], cell_fence: vec![("f1/_283_".to_string(), 1)] }
}

#[test]
fn a_fenced_cell_must_lie_inside_its_fence() {
    let f = regions1_fences();
    assert!(f.respects("f1/_283_", 10, 1, 4, 1));
    assert!(f.respects("f1/_283_", 14, 1, 4, 1), "ending ON the fence's edge is inside");
    assert!(!f.respects("f1/_283_", 15, 1, 4, 1), "one site past");
    assert!(!f.respects("f1/_283_", 10, 0, 4, 1), "the other fence's row");
}

#[test]
fn a_default_cell_fails_only_wholly_inside_a_fence() {
    let f = Fences { rects: vec![vec![(0, 0, 10, 1)]], cell_fence: Vec::new() };
    assert!(!f.respects("u", 2, 0, 4, 1), "inside");
    assert!(f.respects("u", 8, 0, 4, 1), "straddles the edge");
    assert!(f.respects("u", 12, 0, 4, 1), "outside");
}
