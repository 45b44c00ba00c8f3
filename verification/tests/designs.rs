use vyges_dpl::check::{check_placement, check_placement_opts, CheckCell, CheckInput};
use vyges_dpl::fillers::{filler_placement, FillError, FillInput, FillInst, LibMaster};
use vyges_dpl::grid::{Grid, GridError, GridInput, RowInfo};
use vyges_dpl::mirror::{find_mirror_candidates, find_net_boxes, nets_by_length, Mirror, MirrorNet, NetPin};
use vyges_dpl::negotiate::{self, NegInput, NegInst, Options};
use vyges_dpl::network::{network_insts, row_boxes, NetInst, OuterShell};
use vyges_dpl::padding::Padding;
use vyges_dpl::place::{self, PlaceInput, PlaceInst};
use vyges_dpl::regions::{placement_groups, Fences, FenceCell, GroupInput, RegionInput, Regions};

fn row(x: i32, y: i32, orient: &str) -> RowInfo {
    RowInfo {
        x,
        y,
        site: "S".into(),
        site_class: "CORE".into(),
        site_width: 10,
        site_height: 20,
        site_count: 20,
        orient: orient.into(),
    }
}

/// A core at (100, 100) with two rows of twenty sites.
fn grid() -> GridInput {
    GridInput { core: (100, 100, 300, 140), rows: vec![row(100, 100, "R0"), row(100, 120, "MX")], blockages: Vec::new(), straps: Vec::new() }
}

fn check_cell(name: &str, x: i32, y: i32) -> CheckCell {
    CheckCell {
        name: name.into(),
        x,
        y,
        w: 20,
        h: 20,
        master_type: "CORE".into(),
        site: "S".into(),
        multi_row: false,
        placed: true,
        used_layers: 0,
        rails: vec![true, true],
        edges_ok: true,
    }
}

fn checked(cells: Vec<CheckCell>) -> CheckInput {
    CheckInput { grid: grid(), cells, groups: Vec::new(), has_one_site_master: true, rails_known: true, edges_known: true }
}

fn families(d: &CheckInput) -> Vec<(String, String, Option<String>)> {
    check_placement(d).failures.into_iter().map(|f| (f.family, f.cell, f.with)).collect()
}

#[test]
fn a_grid_has_the_boundaries_of_its_rows() {
    let g = match Grid::build(&grid()) {
        Ok(g) => g,
        Err(e) => panic!("{e:?}"),
    };
    assert_eq!((g.row_count, g.row_site_count, g.site_width), (2, 20, 10));
    assert_eq!(g.row_y, vec![0, 20, 40]);
    assert_eq!(g.row_orient, vec!["R0", "MX"]);
    assert_eq!(g.valid_sites(), 40);
    assert_eq!((g.grid_y(0), g.grid_y(39), g.grid_y(40)), (Some(0), Some(1), None));
    assert_eq!((g.grid_snap_down_y(-5), g.grid_snap_down_y(25), g.grid_snap_down_y(99)), (Some(0), Some(1), Some(1)));
    assert_eq!((g.grid_boundary_down_y(39), g.grid_boundary_down_y(40)), (1, 2));
}

#[test]
fn a_hard_blockage_takes_squares_away_and_a_soft_one_does_not() {
    let mut d = grid();
    d.blockages = vec![((100, 100, 120, 120), false), ((200, 100, 220, 120), true)];
    d.straps = vec![(3, (150, 100, 155, 140))];
    let g = match Grid::build(&d) {
        Ok(g) => g,
        Err(e) => panic!("{e:?}"),
    };
    assert_eq!(g.valid_sites(), 38);
    assert_eq!(g.blocked_layer_status(), (true, 2));
    assert_eq!(g.pixel(5, 0).unwrap().blocked_layers, 1 << 3);
}

#[test]
fn no_grid_without_rows_or_with_two_site_widths() {
    let mut none = grid();
    none.rows.clear();
    assert!(matches!(Grid::build(&none), Err(GridError::NoRows)));
    let mut two = grid();
    two.rows[1].site_width = 5;
    match Grid::build(&two) {
        Err(e) => assert_eq!(e.message(), "site widths are not equal: 10 != 5 (S)"),
        Ok(_) => panic!("two widths"),
    }
    let mut zero = grid();
    zero.rows[0].site_width = 0;
    zero.rows[1].site_width = 0;
    assert!(matches!(Grid::build(&zero), Err(GridError::ZeroSiteWidth)));
}

#[test]
fn a_legal_placement_is_clean() {
    let d = checked(vec![check_cell("a", 100, 100), check_cell("b", 120, 100)]);
    let r = check_placement(&d);
    assert!(r.is_clean(), "{:?}", r.failures);
    assert_eq!(r.cells_checked, 2);
    assert_eq!(r.not_checked.len(), 2, "{:?}", r.not_checked);
}

#[test]
fn every_fault_is_named_with_its_cell() {
    let overlap = families(&checked(vec![check_cell("a", 100, 100), check_cell("b", 110, 100)]));
    assert!(overlap.iter().any(|f| f.0 == "overlap"), "{overlap:?}");
    let off_site = families(&checked(vec![check_cell("a", 103, 100)]));
    assert!(off_site.iter().any(|f| f.0 == "site_align" && f.1 == "a"), "{off_site:?}");
    let off_grid = families(&checked(vec![check_cell("a", 290, 100)]));
    assert!(off_grid.iter().any(|f| f.0 == "in_rows" && f.1 == "a"), "{off_grid:?}");
    let mut unplaced = check_cell("a", 100, 100);
    unplaced.placed = false;
    assert!(families(&checked(vec![unplaced])).iter().any(|f| f.0 == "placed"), "unplaced");
    let mut edge = check_cell("a", 100, 100);
    edge.edges_ok = false;
    assert!(families(&checked(vec![edge])).iter().any(|f| f.0 == "edge_spacing"), "edges");
}

#[test]
fn a_gap_of_one_site_is_a_fault_only_where_it_cannot_be_filled() {
    let d = checked(vec![check_cell("a", 100, 100), check_cell("b", 130, 100)]);
    assert!(check_placement_opts(&d, false, None).is_clean());
    let r = check_placement_opts(&d, true, None);
    assert!(r.failures.iter().any(|f| f.family == "one_site_gap"), "{:?}", r.failures);
    let kept = "one_site_gap: PlacementDRC's reading, where a square off the grid counts as OCCUPIED — Place.cpp reads the same test the other way";
    assert!(r.limitations.iter().any(|t| t == kept), "{:?}", r.limitations);
    let left_out = "one_site_gap (the technology HAS a one-site master, so upstream does not apply it)";
    assert!(check_placement_opts(&d, false, None).not_checked.iter().any(|t| t == left_out));
}

#[test]
fn padding_keeps_cells_apart() {
    let d = checked(vec![check_cell("a", 100, 100), check_cell("b", 120, 100)]);
    let r = check_placement_opts(&d, false, Some(&vec![(0, 1), (0, 0)]));
    assert!(r.failures.iter().any(|f| f.family == "padding"), "{:?}", r.failures);
    assert!(check_placement_opts(&d, false, Some(&vec![(0, 0), (0, 0)])).is_clean());
}

fn neg_inst(name: &str, x: i32, y: i32, status: &str) -> NegInst {
    NegInst {
        name: name.into(),
        x,
        y,
        width: 20,
        height: 20,
        master_type: "CORE".into(),
        status: status.into(),
        site: "S".into(),
        row_pattern_len: 0,
        rails: vec![true, true],
    }
}

#[test]
fn negotiation_separates_cells_and_leaves_a_legal_placement() {
    let insts = vec![neg_inst("a", 140, 100, "PLACED"), neg_inst("b", 150, 100, "PLACED"), neg_inst("f", 200, 100, "FIRM"), neg_inst("c", 205, 102, "PLACED")];
    let d = NegInput { grid: grid(), insts, has_one_site_master: true, opts: Options::default() };
    let out = match negotiate::legalize(&d) {
        Ok(o) => o,
        Err(e) => panic!("{e:?}"),
    };
    assert!(out.failures.is_empty(), "{:?}", out.failures);
    assert_eq!(out.placed.iter().map(|p| p.name.as_str()).collect::<Vec<_>>(), vec!["a", "b", "c"], "fixed cells stay out");
    let cells: Vec<CheckCell> = out.placed.iter().map(|p| check_cell(&p.name, p.x, p.y)).chain([check_cell("f", 200, 100)]).collect();
    assert!(families(&checked(cells)).is_empty(), "{:?}", out.placed);
    assert_eq!(out.placed[0].orient.as_deref(), Some(if out.placed[0].y == 100 { "R0" } else { "MX" }));
}

#[test]
fn negotiation_leaves_a_legal_placement_alone() {
    let d = NegInput { grid: grid(), insts: vec![neg_inst("a", 100, 100, "PLACED"), neg_inst("b", 120, 120, "PLACED")], has_one_site_master: true, opts: Options::default() };
    let out = match negotiate::legalize(&d) {
        Ok(o) => o,
        Err(e) => panic!("{e:?}"),
    };
    assert_eq!(out.placed.iter().map(|p| (p.x, p.y, p.moved)).collect::<Vec<_>>(), vec![(100, 100, false), (120, 120, false)]);
}

#[test]
fn a_cell_that_may_not_move_far_enough_is_left_unseated() {
    // The fixed cell covers the cell's place and the next ones; no place is within a site.
    let insts = vec![neg_inst("f", 200, 100, "FIRM"), neg_inst("g", 200, 120, "FIRM"), neg_inst("a", 200, 100, "PLACED")];
    let near = Options { max_displacement_x: 0, max_displacement_y: 0, ..Options::default() };
    let d = NegInput { grid: grid(), insts, has_one_site_master: true, opts: near };
    let out = match negotiate::legalize(&d) {
        Ok(o) => o,
        Err(e) => panic!("{e:?}"),
    };
    let far = NegInput { opts: Options::default(), ..d };
    let free = match negotiate::legalize(&far) {
        Ok(o) => o,
        Err(e) => panic!("{e:?}"),
    };
    assert_eq!((out.placed.iter().filter(|p| p.moved).count(), free.placed.iter().filter(|p| p.moved).count()), (0, 1));
}

fn place_inst(name: &str, x: i32, y: i32, status: &str) -> PlaceInst {
    PlaceInst { name: name.into(), x, y, w: 20, h: 20, master_type: "CORE".into(), status: status.into(), site: "S".into(), row_pattern_len: 0 }
}

#[test]
fn diamond_search_finds_the_nearest_free_place() {
    let insts = vec![place_inst("f", 200, 100, "LOCKED"), place_inst("a", 205, 103, "PLACED")];
    let d = PlaceInput { grid: grid(), insts, groups: Vec::new(), network: vec!["a".into(), "f".into()] };
    let out = match place::legalize(&d) {
        Ok(o) => o,
        Err(e) => panic!("{e:?}"),
    };
    assert!(out.failures.is_empty());
    assert_eq!(out.placed.len(), 1);
    let p = &out.placed[0];
    assert!(p.moved && p.name == "a");
    let cells = vec![check_cell("a", p.x, p.y), check_cell("f", 200, 100)];
    assert!(families(&checked(cells)).is_empty(), "{p:?}");
    assert!((p.x - 205).abs() + (p.y - 103).abs() <= 25, "{p:?}");
}

#[test]
fn how_many_rows_a_cell_has_is_its_masters() {
    let order = |height: i32| {
        let big = PlaceInst { w: 50, ..place_inst("big", 200, 100, "PLACED") };
        let small = PlaceInst { h: height, ..place_inst("small", 200, 104, "PLACED") };
        let d = PlaceInput { grid: grid(), insts: vec![small, big], groups: Vec::new(), network: vec!["big".into(), "small".into()] };
        let out = match place::legalize(&d) {
            Ok(o) => o,
            Err(e) => panic!("{e:?}"),
        };
        assert!(out.failures.is_empty(), "{:?}", out.failures);
        out.placed.iter().find(|p| p.name == "big").map(|p| (p.x, p.y))
    };
    assert_eq!(order(20), Some((200, 100)), "a cell above its row still has one: the larger cell goes first");
    assert_ne!(order(40), Some((200, 100)), "a cell of two rows goes first");
}

fn master(name: &str, sites: i32) -> LibMaster {
    LibMaster { name: name.into(), width: 10 * sites, height: 20, obstructions: Vec::new(), is_pad: false, is_block: false }
}

fn filled(masters: Vec<LibMaster>) -> FillInput {
    let insts = vec![FillInst { name: "u".into(), bbox: Some((130, 100, 290, 120)), orient: "R0".into(), origin: (130, 100), obstructions: Vec::new() }];
    FillInput { grid: grid(), masters, insts, inst_names: vec!["u".into()], site_heights: vec![("S".into(), 20)] }
}

#[test]
fn gaps_are_filled_row_by_row() {
    let d = filled(vec![master("FILL_X4", 4), master("FILL_X1", 1), master("FILL_X2", 2), master("BUF", 2)]);
    let out = match filler_placement(&d, &vec!["FILL*".into(), "NONE*".into()], "F_") {
        Ok(o) => o,
        Err(e) => panic!("{e:?}"),
    };
    assert_eq!(out.unmatched_patterns, vec!["NONE*"]);
    let first: Vec<(&str, &str, i32, i32, &str)> =
        out.fillers.iter().take(3).map(|f| (f.name.as_str(), f.master.as_str(), f.x, f.y, f.orient.as_str())).collect();
    assert_eq!(first, vec![("F_0_0", "FILL_X2", 100, 100, "R0"), ("F_0_2", "FILL_X1", 120, 100, "R0"), ("F_0_19", "FILL_X1", 290, 100, "R0")]);
    let upper: Vec<&str> = out.fillers.iter().filter(|f| f.y == 120).map(|f| f.master.as_str()).collect();
    assert_eq!(upper, vec!["FILL_X4"; 5]);
    assert!(out.fillers.iter().filter(|f| f.y == 120).all(|f| f.orient == "MX"));
}

#[test]
fn a_fill_that_cannot_be_done_says_why() {
    let none = filler_placement(&filled(vec![master("BUF", 2)]), &vec!["FILL*".into()], "F_");
    assert_eq!(none.err(), Some(FillError::NoMasters("FILL*".into())));
    match filler_placement(&filled(vec![master("FILL_X2", 2)]), &vec!["FILL*".into()], "F_") {
        Err(FillError::CannotFill(g)) => {
            assert_eq!((g.sites, g.width, g.height, g.x, g.y), (3, 30, 20, 100, 100));
            assert_eq!(g.right, "u");
        }
        other => panic!("{other:?}"),
    }
}

fn pin(iterm: &str, at: (i32, i32)) -> NetPin {
    NetPin { iterm: iterm.into(), is_core: true, is_fixed: false, at: Some(at) }
}

fn mirror_net(pins: Vec<NetPin>, bbox: (i32, i32, i32, i32)) -> MirrorNet {
    let hpwl = i64::from(bbox.2 - bbox.0) + i64::from(bbox.3 - bbox.1);
    MirrorNet { sig_type: "SIGNAL".into(), is_special: false, pins, bbox, hpwl }
}

#[test]
fn only_flips_that_lengthen_no_net_stay() {
    let nets = vec![
        mirror_net(vec![pin("u/A", (0, 0)), pin("v/A", (50, 50))], (0, 0, 50, 50)),
        mirror_net(vec![pin("w/A", (10, 10)), pin("u/B", (90, 90))], (0, 0, 200, 200)),
    ];
    let boxes = find_net_boxes(&nets);
    let order = nets_by_length(&boxes);
    assert_eq!(order, vec![1, 0], "the longest first");
    let candidates = find_mirror_candidates(&nets, &order, &boxes);
    assert_eq!(candidates, vec!["u", "v"], "pins on the edge of their net's box");
    let mut m = Mirror::new(boxes, vec!["R0".into(), "MX".into()], 2);
    assert_eq!(m.propose(0), "MY");
    assert!(!m.decide(0, &"u".to_string(), &vec![0, 1], &vec![((0, 0, 60, 50), 110), ((0, 0, 200, 200), 400)]));
    assert_eq!(m.orients[0], "R0");
    assert!(m.decide(1, &"v".to_string(), &vec![0], &vec![((0, 0, 40, 50), 90)]));
    assert_eq!((m.orients[1].as_str(), m.boxes[0].hpwl), ("R180", 90));
    m.reject(&"w".to_string());
    assert_eq!(m.report.mirrored, vec!["v"]);
    assert_eq!(m.report.edge_spacing_rejected, vec!["w"]);
}

#[test]
fn fixed_instances_outside_the_rows_are_no_cells() {
    let rows = vec![((0, 0, 40, 20), "CORE".to_string()), ((0, 100, 40, 120), "PAD".to_string())];
    let boxes = row_boxes(&rows);
    assert_eq!(boxes, vec![(0, 0, 40, 20)]);
    let shell = OuterShell::build(&boxes);
    let inst = |name: &str, placeable: bool, fixed: bool, b: (i32, i32, i32, i32)| NetInst { name: name.into(), auto_placeable: placeable, fixed, bbox: Some(b) };
    let insts = vec![
        inst("z", true, false, (500, 500, 510, 510)),
        inst("out", true, true, (500, 500, 510, 510)),
        inst("in", true, true, (10, 0, 20, 20)),
        inst("pad", false, false, (0, 0, 10, 10)),
    ];
    assert_eq!(network_insts(&insts, &shell), vec!["in", "z"]);
}

#[test]
fn groups_are_clipped_to_the_core_and_fences_are_not() {
    let g = GroupInput { name: "g".into(), has_region: true, boundaries: vec![(50, 100, 200, 500)], insts: vec!["a".into(), "gone".into()] };
    let bare = GroupInput { name: "h".into(), has_region: false, boundaries: Vec::new(), insts: vec!["b".into()] };
    let groups = placement_groups(&[g, bare], (100, 100, 300, 140), &["a".to_string(), "b".to_string()]);
    assert_eq!(groups.len(), 1);
    assert_eq!((groups[0].rects.clone(), groups[0].cells.clone()), (vec![(0, 0, 100, 40)], vec!["a".to_string()]));
    assert_eq!(groups[0].bbox(), Some((0, 0, 100, 40)));

    let built = match Grid::build(&grid()) {
        Ok(g) => g,
        Err(e) => panic!("{e:?}"),
    };
    let f = Fences::build(
        &[RegionInput { name: "r".into(), boundaries: vec![(50, 100, 200, 500)] }],
        &built,
        &[FenceCell { name: "a".into(), region: String::new(), group_region: "r".into() }],
    );
    assert!(!f.is_empty());
    assert_eq!(f.rects, vec![vec![(-5, 0, 10, 2)]]);
    assert_eq!(f.cell_fence, vec![("a".to_string(), 0)]);
    assert!(f.respects("a", 8, 1, 2, 1) && !f.respects("a", 9, 1, 2, 1));

    let r = Regions::from_groups(&groups, &|_: &str| Some((0, 0, 20, 20)));
    assert!(!r.is_empty());
    assert!(r.no_region_overlap(12, 0, 14, 1, 10, &[0, 20, 40], 140));
    assert!(!r.no_region_overlap(8, 0, 10, 1, 10, &[0, 20, 40], 140));
}

#[test]
fn instances_outside_the_model_are_counted_by_type_and_status() {
    let mut pads = vec![neg_inst("p", 100, 100, "PLACED"), neg_inst("q", 100, 100, "PLACED")];
    for p in &mut pads {
        p.master_type = "PAD".into();
    }
    let insts: Vec<NegInst> = [neg_inst("a", 140, 100, "PLACED"), neg_inst("n", 160, 100, "NONE")].into_iter().chain(pads).collect();
    let d = NegInput { grid: grid(), insts, has_one_site_master: true, opts: Options::default() };
    let out = match negotiate::legalize(&d) {
        Ok(o) => o,
        Err(e) => panic!("{e:?}"),
    };
    assert_eq!(out.filtered_out, vec![("CORE/NONE".to_string(), 1), ("PAD/PLACED".to_string(), 2)]);
    assert_eq!(out.placed.len(), 1);
    assert!(out.not_done.iter().any(|n| n == "incremental placement"), "{:?}", out.not_done);
}

#[test]
fn the_diamond_legalizer_counts_what_it_leaves_out() {
    let mut pad = place_inst("p", 100, 100, "PLACED");
    pad.master_type = "PAD".into();
    let insts = vec![place_inst("a", 140, 100, "PLACED"), pad];
    let d = PlaceInput { grid: grid(), insts, groups: Vec::new(), network: vec!["a".into()] };
    let out = match place::legalize(&d) {
        Ok(o) => o,
        Err(e) => panic!("{e:?}"),
    };
    assert_eq!(out.filtered_out, vec![("PAD/PLACED".to_string(), 1)]);
    assert!(out.not_done.iter().any(|n| n == "incremental placement"), "{:?}", out.not_done);
}

#[test]
fn the_columns_beside_a_fixed_cell_stay_usable() {
    let insts = vec![neg_inst("f", 200, 100, "FIRM"), neg_inst("a", 220, 100, "PLACED"), neg_inst("b", 180, 100, "PLACED")];
    let d = NegInput { grid: grid(), insts, has_one_site_master: true, opts: Options::default() };
    let out = match negotiate::legalize(&d) {
        Ok(o) => o,
        Err(e) => panic!("{e:?}"),
    };
    assert_eq!(out.placed.iter().map(|p| (p.x, p.y, p.moved)).collect::<Vec<_>>(), vec![(220, 100, false), (180, 100, false)]);
}

#[test]
fn a_cell_taller_than_the_rows_left_has_no_place() {
    let mut one = grid();
    one.rows.truncate(1);
    let g = match Grid::build(&one) {
        Ok(g) => g,
        Err(e) => panic!("{e:?}"),
    };
    assert!(g.can_place(0, 0, 2, 20, "S"));
    assert!(!g.can_place(0, 0, 2, 40, "S"));
    let both = match Grid::build(&grid()) {
        Ok(g) => g,
        Err(e) => panic!("{e:?}"),
    };
    assert!(both.can_place(0, 0, 2, 40, "S") && !both.can_place(0, 1, 2, 40, "S"));
}

#[test]
fn a_check_without_a_grid_names_every_family_that_needs_one() {
    let mut d = checked(vec![check_cell("a", 100, 100), check_cell("b", 110, 100)]);
    d.grid.rows.clear();
    let r = check_placement_opts(&d, true, None);
    let named: Vec<&str> = r.not_checked.iter().map(|t| t.split(' ').next().unwrap_or("")).collect();
    assert_eq!(named, vec!["in_rows", "region_placement", "padding", "edge_spacing", "one_site_gap", "blocked_layers"]);
    assert!(r.limitations.is_empty(), "{:?}", r.limitations);
    assert!(r.failures.iter().any(|f| f.family == "overlap" && f.cell == "b"), "{:?}", r.failures);
}

#[test]
fn what_is_not_given_is_not_called_checked() {
    let mut d = checked(vec![check_cell("a", 100, 100)]);
    d.rails_known = false;
    d.edges_known = false;
    let r = check_placement_opts(&d, true, Some(&vec![(0, 0)]));
    assert!(r.not_checked.iter().any(|t| t.starts_with("edge_spacing")), "{:?}", r.not_checked);
    assert!(r.limitations.iter().any(|t| t.starts_with("in_rows")), "{:?}", r.limitations);
    assert!(!r.limitations.iter().any(|t| t.starts_with("padding")), "{:?}", r.limitations);
}

#[test]
fn padding_is_by_instance_then_by_master_then_for_all() {
    let p = Padding {
        global: (1, 1),
        masters: vec![("BUF*".into(), (2, 3)), ("BUF_X1".into(), (4, 5))],
        insts: vec![("u1".into(), (6, 7)), ("u1".into(), (8, 9))],
    };
    assert_eq!(p.of("u1", "BUF_X1", "CORE"), (8, 9), "the last one given");
    assert_eq!(p.of("u2", "BUF_X1", "CORE"), (4, 5), "the last pattern that matches");
    assert_eq!(p.of("u2", "BUF_X2", "CORE SPACER"), (2, 3));
    assert_eq!(p.of("u2", "INV", "CORE"), (1, 1));
    assert_eq!(p.of("u1", "BUF_X1", "BLOCK"), (0, 0), "core cells only");
    assert!(!p.is_none());
    assert!(Padding { global: (0, 0), masters: Vec::new(), insts: Vec::new() }.is_none());
}
