use vyges_dpl::driver::{finish, plan, Options, Stage};
use vyges_dpl::drc::Class;
use vyges_dpl::grid::{Grid, Pixel};
use vyges_dpl::improve::{setup, setup_with, Arch, Kind, Node, Setup, SetupError, SetupInput};
use vyges_dpl::improver::{gained_little, Mesh, Tried};
use vyges_dpl::inject::{read_cells, Put, ReadError};
use vyges_dpl::lines::{running_line, Trials};
use vyges_dpl::land::{adjust_curr_orient, EdgeFault, Pin};
use vyges_dpl::matching::{mis_place, Bins};
use vyges_dpl::netlist::{build_pins, create_network, CellInput, InstPin, NetInput, TermInput, TermPin};
use vyges_dpl::objective::Hpwl;
use vyges_dpl::orient::Orient;
use vyges_dpl::random::Mt19937;
use vyges_dpl::records::stage_line;
use vyges_dpl::rows::{create_architecture, ArchRow};
use vyges_dpl::setup::{max_displacement, movers};
use vyges_dpl::swap_passes::{changes_little, global_swap, vertical_swap};

fn cell(name: &str, x: i32, y: i32, fixed: bool) -> CellInput {
    CellInput { name: name.into(), master: "BUF".into(), x, y, width: 20, height: 20, fixed, block: false, placed: true }
}

fn term(name: &str, x: i32, y: i32) -> TermInput {
    TermInput { name: name.into(), has_net: true, supply: false, placed: true, x_min: x, y_min: y, x_max: x }
}

fn net(inst: &str, term: &str) -> NetInput {
    NetInput {
        supply: false,
        insts: vec![InstPin { inst: inst.into(), auto_placeable: true, x_min: 0, y_min: 0, x_max: 20, y_max: 20, width: 20, height: 20 }],
        terms: vec![TermPin { term: term.into(), placed: true }],
    }
}

fn arch_row(y: i32) -> ArchRow {
    ArchRow {
        site_class: "CORE".into(),
        direction: "HORIZONTAL".into(),
        x: 0,
        y,
        spacing: 10,
        site_count: 20,
        site_width: 10,
        site_height: 20,
        sym_y: true,
        orient: Orient::R0,
    }
}

fn grid() -> Grid {
    let mut pixels = Vec::new();
    for _ in 0..2 {
        let mut row = Vec::new();
        for _ in 0..20 {
            row.push(Pixel { is_valid: true, ..Default::default() });
        }
        pixels.push(row);
    }
    Grid {
        core: (0, 0, 200, 40),
        site_width: 10,
        row_count: 2,
        row_site_count: 20,
        pixels,
        row_sites: vec![vec![(0, 20, "S".to_string())]; 2],
        row_y: vec![0, 20, 40],
        row_orient: vec!["R0".to_string(); 2],
        blocked_layers_populated: false,
    }
}

/// Two rows of twenty sites, with these cells and a net from each of the first two to a terminal.
fn design(cells: Vec<CellInput>) -> SetupInput {
    let terms = vec![term("right", 190, 0), term("left", 0, 0)];
    let nets = vec![net("a", "right"), net("b", "left")];
    let mut nodes = create_network(&cells, &terms, 0, 0);
    let wiring = build_pins(&nets, &nodes);
    let arch = create_architecture(&vec![arch_row(0), arch_row(20)], 0, 0, &mut nodes);
    let n = nodes.len();
    SetupInput {
        arch,
        grid: grid(),
        wiring,
        sites: vec!["S".to_string(); n],
        sym: vec![(true, true, false); n],
        used_layers: vec![0; n],
        classes: vec![Class::Cr; n],
        rails: vec![vec![(true, false); 2]; n],
        master_rails: vec![(0, 0); n],
        pad_sites: vec![(0, 0); n],
        turns: vec![Orient::R0; n],
        boxes: Vec::new(),
        groups: Vec::new(),
        disallow_gaps: false,
        edge_faults: Vec::new(),
        nodes,
    }
}

fn two_cells() -> Setup {
    match setup(design(vec![cell("a", 0, 0, false), cell("b", 100, 0, false)])) {
        Ok(s) => s,
        Err(e) => panic!("{e:?}"),
    }
}

#[test]
fn the_network_is_the_instances_and_then_the_terminals_that_are_taken() {
    let mut block = cell("m", 30, 20, false);
    block.block = true;
    let mut off = term("off", 5, 5);
    off.placed = false;
    let mut power = term("vdd", 5, 5);
    power.supply = true;
    let nodes = create_network(&vec![cell("a", 10, 20, false), block], &vec![off, power, term("in", 50, 40)], 10, 20);
    assert_eq!(nodes.len(), 3);
    assert_eq!((nodes[0].left, nodes[0].bottom, nodes[0].fixed), (0, 0, false));
    assert_eq!((nodes[1].left, nodes[1].bottom, nodes[1].fixed), (20, 0, true), "a block is fixed");
    assert_eq!((nodes[2].kind, nodes[2].left, nodes[2].bottom, nodes[2].width, nodes[2].height), (Kind::Terminal, 40, 20, 0, 0));
    assert!(nodes[2].fixed && nodes[2].group == -1);
}

#[test]
fn pins_sit_at_the_offset_of_their_terminal_from_the_centre() {
    let nodes = create_network(&vec![cell("a", 0, 0, false)], &vec![term("t", 5, 5)], 0, 0);
    let mut n = net("a", "t");
    n.insts[0].x_max = 5;
    n.insts.push(InstPin { inst: "gone".into(), auto_placeable: true, x_min: 0, y_min: 0, x_max: 0, y_max: 0, width: 0, height: 0 });
    let supply = NetInput { supply: true, insts: Vec::new(), terms: Vec::new() };
    let w = build_pins(&vec![supply, n], &nodes);
    assert_eq!(w.edges, vec![vec![0, 1]], "the supply has no edge");
    assert_eq!((w.pins[0].node, w.pins[0].ox, w.pins[0].oy), (0, 5 / 2 - 10, 0));
    assert_eq!((w.pins[1].node, w.pins[1].ox, w.pins[1].oy), (1, 0, 0));
    assert_eq!(w.node_pins, vec![vec![0], vec![1]]);
}

#[test]
fn a_legal_placement_is_left_where_it_is() {
    let s = two_cells();
    assert!(!s.displaced);
    assert_eq!(s.movement, (0, 0));
    assert_eq!((s.live.nodes[0].left, s.live.nodes[1].left), (0, 100));
    assert_eq!(s.single, vec![0, 1]);
    assert_eq!(s.fixed, vec![2, 3]);
    assert!(s.wide.is_empty());
    let c = &s.checks;
    assert_eq!((c.wrong_region, c.row_alignment, c.site_alignment, c.overlaps, c.edge_spacing, c.padding), (0, 0, 0, 0, 0, 0));
    assert_eq!(s.live.total_hpwl(&s.land), 190 + 120);
    assert_eq!(s.land.max_disp, (400, 400), "twice the rows' greater extent");
}

#[test]
fn a_cell_off_its_row_is_put_on_the_nearest() {
    let s = match setup(design(vec![cell("a", 0, 5, false), cell("b", 100, 18, false)])) {
        Ok(s) => s,
        Err(e) => panic!("{e:?}"),
    };
    assert!(s.displaced);
    assert_eq!((s.live.nodes[0].bottom, s.live.nodes[1].bottom), (0, 20));
    assert_eq!(s.movement, (0, 5 + 2));
}

#[test]
fn overlapping_cells_are_shifted_apart() {
    let s = match setup(design(vec![cell("a", 50, 0, false), cell("b", 50, 0, false)])) {
        Ok(s) => s,
        Err(e) => panic!("{e:?}"),
    };
    assert!(s.displaced);
    assert_eq!(s.checks.overlaps, 0);
    let (a, b) = (s.live.nodes[0].left, s.live.nodes[1].left);
    assert_eq!((a - b).abs(), 20, "side by side: {a} {b}");
}

#[test]
fn without_rows_there_is_nothing_to_improve() {
    let mut d = design(vec![cell("a", 0, 0, false), cell("b", 100, 0, false)]);
    d.arch = Arch::default();
    assert!(matches!(setup(d), Err(SetupError::NoRows)));
}

#[test]
fn a_fixed_cell_splits_its_row() {
    let s = match setup(design(vec![cell("a", 0, 0, false), cell("b", 100, 0, true)])) {
        Ok(s) => s,
        Err(e) => panic!("{e:?}"),
    };
    assert_eq!(s.single, vec![0]);
    let spans: Vec<(usize, i32, i32)> = s.land.segments.iter().map(|g| (g.row, g.min_x, g.max_x)).collect();
    assert_eq!(spans, vec![(0, 0, 100), (0, 120, 200), (1, 0, 200)]);
    assert_eq!(s.live.squares[0][10].cell, Some(1), "it holds its squares");
}

#[test]
fn how_far_cells_may_get_is_asked_in_heights_of_the_lowest_row() {
    let s = match setup_with(design(vec![cell("a", 0, 0, false), cell("b", 100, 0, false)]), 1, (3, 1000)) {
        Ok(s) => s,
        Err(e) => panic!("{e:?}"),
    };
    assert_eq!(s.land.max_disp, (60, 400));
    assert_eq!(max_displacement(&s.land.arch, (0, 1)), (400, 20));
}

#[test]
fn matching_exchanges_two_cells_that_are_better_off_at_each_others_spots() {
    let mut s = two_cells();
    let mut cands = movers(&s.single, &s.multi);
    assert_eq!(cands, vec![0, 1]);
    let colors = s.live.mis_color(&s.land, &cands);
    assert_eq!(colors, vec![0, 0, -1, -1], "they share no net, so one colour does");
    let bins = Bins { cols: 1, rows: 1, at: vec![0; 4] };
    mis_place(&s.land, &mut s.live, &mut s.rng, &mut cands, &colors, &bins);
    assert_eq!((s.live.nodes[0].left, s.live.nodes[1].left), (100, 0));
    assert_eq!(s.live.total_hpwl(&s.land), 90 + 20);
}

#[test]
fn cells_that_share_a_net_have_different_colours() {
    let mut d = design(vec![cell("a", 0, 0, false), cell("b", 100, 0, false)]);
    let mut both = net("a", "right");
    both.insts.push(InstPin { inst: "b".into(), auto_placeable: true, x_min: 0, y_min: 0, x_max: 20, y_max: 20, width: 20, height: 20 });
    d.wiring = build_pins(&vec![both], &d.nodes);
    let s = match setup(d) {
        Ok(s) => s,
        Err(e) => panic!("{e:?}"),
    };
    assert_eq!(s.live.mis_color(&s.land, &s.single), vec![0, 1, -1, -1]);
}

#[test]
fn swaps_never_make_the_nets_longer() {
    let mut s = two_cells();
    let before = s.live.total_hpwl(&s.land);
    let lengths = global_swap(&s.land, &mut s.live, &mut s.rng, &s.single);
    let mid = s.live.total_hpwl(&s.land);
    assert_eq!((lengths.first(), lengths.last()), (Some(&before), Some(&mid)));
    assert!(lengths.len() > 2, "the first pass changes much");
    assert!(mid < before, "{mid} < {before}");
    let lengths = vertical_swap(&s.land, &mut s.live, &mut s.rng, &s.single);
    let after = s.live.total_hpwl(&s.land);
    assert!(after <= mid, "{after} <= {mid}");
    assert_eq!((lengths.first(), lengths.last()), (Some(&mid), Some(&after)));
    let lengths = s.live.reorder(&s.land);
    let end = s.live.total_hpwl(&s.land);
    assert!(end <= after);
    assert_eq!((lengths.first(), lengths.last()), (Some(&after), Some(&end)));
    let c = s.live.run_checks(&s.land);
    assert_eq!((c.wrong_region, c.row_alignment, c.site_alignment, c.overlaps, c.edge_spacing, c.padding), (0, 0, 0, 0, 0, 0));
}

#[test]
fn a_random_move_is_kept_only_where_the_nets_do_not_get_longer() {
    let mut s = two_cells();
    let mesh = Mesh { places: (0..20).map(|i| (10 * i, 10 * i, 10 * i)).collect(), rows: vec![0, 1] };
    let mut kept = Hpwl::new(&s.land);
    let start = kept.curr(&s.land, &s.live);
    let mut gain = 0;
    for _ in 0..40 {
        let Some(nd) = s.live.pick(&s.land, &mut s.rng, &s.single) else { continue };
        let n = &s.live.nodes[nd];
        let (x, y) = (((n.left + n.width / 2) / 10) as usize, ((n.bottom + n.height / 2) / 20) as usize);
        if s.live.generate(&s.land, &mut s.rng, nd, &mesh, x, y) != Tried::Failed {
            gain += kept.decide(&s.land, &mut s.live);
        }
    }
    let end = kept.curr(&s.land, &s.live);
    assert_eq!(end, start - gain);
    assert!(end <= start);
    assert_eq!(s.live.run_checks(&s.land).overlaps, 0);
}

#[test]
fn little_is_a_hundredth() {
    assert!(changes_little(0, 5));
    assert!(changes_little(1000, 990));
    assert!(!changes_little(1000, 989));
    assert!(gained_little(1000, 991));
    assert!(!gained_little(1000, 990));
    assert!(!gained_little(0, 0));
}

#[test]
fn stages_run_from_the_first_named_to_the_one_to_stop_at() {
    let mut o = Options { rng_skip: None, trace_stages: false, inject_file: None, start_stage: None, stop_stage: None, report_gaps: false };
    let all = plan(&o, true);
    assert_eq!(all.run, vec![Stage::Matching, Stage::GlobalSwap, Stage::VerticalSwap, Stage::Reorder, Stage::Random]);
    assert!(all.skipped.is_empty() && all.finish && all.show_gap_rule);
    o.start_stage = Some("gs".to_string());
    o.stop_stage = Some("vs".to_string());
    let some = plan(&o, true);
    assert_eq!(some.skipped, vec![Stage::Matching]);
    assert_eq!(some.run, vec![Stage::GlobalSwap, Stage::VerticalSwap]);
    assert!(!some.finish && !some.show_gap_rule);
    o.stop_stage = Some("mis".to_string());
    assert!(plan(&o, false).finish, "a stage before the first is not reached");
    o.start_stage = Some("nothing".to_string());
    assert!(plan(&o, false).run.is_empty());
}

#[test]
fn after_the_stages_cells_are_turned_and_checked() {
    let mut s = two_cells();
    let f = match finish(&s.land, &mut s.live, true) {
        Some(f) => f,
        None => panic!("too many cells"),
    };
    assert!(f.gaps.is_empty());
    assert_eq!(f.gaps_left, 0);
    assert_eq!(f.hpwl, s.live.total_hpwl(&s.land));
    assert_eq!(f.checks.overlaps, 0);
}

#[test]
fn setting_up_says_what_it_does() {
    let s = match setup_with(design(vec![cell("a", 0, 5, false), cell("b", 103, 18, false), cell("c", 60, 0, true)]), 7, (3, 0)) {
        Ok(s) => s,
        Err(e) => panic!("{e:?}"),
    };
    assert_eq!(
        s.log,
        vec![
            "[INFO DPL-0401] Setting random seed to 7.",
            "[INFO DPL-0402] Setting maximum displacement 3 0 to 60 400 units.",
            "[INFO DPL-0320] Collected 3 fixed cells.",
            "[INFO DPL-0318] Collected 2 single height cells.",
            "[INFO DPL-0321] Collected 0 wide cells.",
            "[INFO DPL-0322] Image (0, 0) - (200, 40)",
            "[INFO DPL-0310] Assigned 2 cells into segments.  Movement in X-direction is 0.000000, movement in Y-direction is 7.000000.",
            "[INFO DPL-0313] Found 0 cells in wrong regions.",
            "[INFO DPL-0315] Found 0 row alignment problems.",
            "[INFO DPL-0314] Found 1 site alignment problems.",
            "[INFO DPL-0311] Found 0 overlaps between adjacent cells.",
            "[INFO DPL-0312] Found 0 edge spacing violations and 0 padding violations.",
        ]
    );
}

#[test]
fn cells_of_each_height_have_a_line_of_their_own() {
    let mut tall = cell("t", 40, 0, false);
    tall.height = 40;
    let mut d = design(vec![cell("a", 0, 0, false), cell("b", 100, 0, false), tall]);
    d.grid.row_sites = vec![vec![(0, 20, "S".to_string())]; 2];
    let s = match setup(d) {
        Ok(s) => s,
        Err(e) => panic!("{e:?}"),
    };
    assert_eq!(s.log[4], "[INFO DPL-0319] Collected 1 multi-height cells spanning 2 rows.");
    assert_eq!(s.log.iter().filter(|l| l.starts_with("[INFO DPL-0310]")).count(), 2);
}

#[test]
fn stages_say_what_they_are() {
    assert_eq!(Stage::GlobalSwap.opening_lines(), vec!["[INFO DPL-0303] Running algorithm for global swaps."]);
    assert_eq!(
        Stage::Matching.opening_lines(),
        vec!["[INFO DPL-0303] Running algorithm for independent set matching.", "[INFO DPL-0300] Set matching objective is wirelength."]
    );
    assert_eq!(Stage::Random.opening_lines().len(), 4);
    assert_eq!(Stage::Random.opening_lines()[3], "[INFO DPL-0326] Random improver cost string is (a).");
    assert_eq!(Stage::Matching.idle_line().as_deref(), Some("[INFO DPL-0202] No movable cells found"));
    assert_eq!(Stage::Random.idle_line().as_deref(), Some("[INFO DPL-0203] No movable cells found"));
    assert_eq!(Stage::Reorder.idle_line(), None);
    assert_eq!(running_line("disallow_one_site_gaps"), "[INFO DPL-0303] Running algorithm for disallow_one_site_gaps.");
    assert_eq!(
        Trials { attempts: 40, moves: 7, swaps: 123456 }.lines(20),
        vec![
            "[INFO DPL-0332] End of pass, Generator random called 20 times.",
            "[INFO DPL-0335] Generator random, Cumulative attempts 40, swaps 123456, moves     7 since last reset.",
        ]
    );
    assert!(Trials { attempts: 0, moves: 1234567, swaps: 0 }.lines(0)[1].ends_with(", moves 1234567 since last reset."));
}

#[test]
fn turning_says_what_it_did() {
    let mut s = two_cells();
    let f = match finish(&s.land, &mut s.live, false) {
        Some(f) => f,
        None => panic!("too many cells"),
    };
    assert_eq!(f.lengths.0, 310);
    assert_eq!(
        f.turn_lines(),
        vec![
            "[INFO DPL-0380] Cell flipping.".to_string(),
            format!("[INFO DPL-0382] Changed {} cell orientations for row compatibility.", f.turns.1),
            format!("[INFO DPL-0383] Performed {} cell flips.", f.turns.2),
        ]
    );
    let mut d = design(vec![cell("a", 0, 0, false), cell("b", 100, 0, false)]);
    d.wiring = build_pins(&Vec::new(), &d.nodes);
    let mut bare = match setup(d) {
        Ok(s) => s,
        Err(e) => panic!("{e:?}"),
    };
    let f = match finish(&bare.land, &mut bare.live, false) {
        Some(f) => f,
        None => panic!("too many cells"),
    };
    assert_eq!(f.turn_lines(), vec!["[INFO DPL-0380] Cell flipping."], "nets without length turn nothing");
}

#[test]
fn cells_that_lie_apart_are_not_shifted() {
    let mut s = two_cells();
    assert!(s.live.in_reach(&s.land));
    assert_eq!(s.live.shift(&s.land, &vec![0, 1]), Some(false));
    assert_eq!((s.live.nodes[0].left, s.live.nodes[1].left), (0, 100));
    // A cell further out than the limit of coordinates is out of reach of the stages.
    s.live.nodes[0].left = 7 * 0x0800_0000;
    assert!(!s.live.in_reach(&s.land));
}

#[test]
fn a_state_is_shown_line_by_line() {
    let s = two_cells();
    assert_eq!(
        s.dump(),
        vec![
            "VYGI|arch|0|200|0|40",
            "VYGI|row|0|0|200|0|20|10|R0",
            "VYGI|row|1|0|200|20|20|10|R0",
            "VYGI|node|0|C|a|0|0|20|20|0|-1",
            "VYGI|node|1|C|b|100|0|20|20|0|-1",
            "VYGI|node|2|T|right|190|0|0|0|1|-1",
            "VYGI|node|3|T|left|0|0|0|0|1|-1",
            "VYGI|seg|0|0|-1|0|200|0,1",
            "VYGI|seg|1|1|-1|0|200|",
        ]
    );
}

#[test]
fn a_stage_line_reads_back() {
    let s = two_cells();
    let line = stage_line(&s.live.nodes, &s.rng, "mis", "begin");
    assert_eq!(line, "VYGS|stage|mis|begin|rng=1791095845|0:0:0:R0;1:100:0:R0;");
    let puts = read_cells(&line).unwrap();
    assert_eq!(
        puts,
        vec![Put { node: 0, x: 0, y: 0, orient: Orient::R0 }, Put { node: 1, x: 100, y: 0, orient: Orient::R0 }]
    );
}

#[test]
fn a_line_that_cannot_be_read_says_why() {
    assert_eq!(read_cells("VYGS|stage|mis"), Err(ReadError::Record));
    assert_eq!(read_cells("a|b|c|d|e|1:2:3"), Err(ReadError::Cell("1:2:3".chars().collect())));
    assert_eq!(read_cells("a|b|c|d|e|x:2:3:R0"), Err(ReadError::BadId));
    assert_eq!(read_cells("a|b|c|d|e|1:2147483648:3:R0"), Err(ReadError::BadX));
    assert_eq!(read_cells("a|b|c|d|e|1:-2:3.5:R0"), Err(ReadError::BadY));
    assert_eq!(read_cells("a|b|c|d|e|1:2:3:R45"), Err(ReadError::BadOrient));
    assert_eq!(read_cells("a|b|c|d|e|;1:-2147483648:+3:MX;"), Ok(vec![Put { node: 1, x: -2147483648, y: 3, orient: Orient::MX }]));
}

#[test]
fn cells_are_put_where_a_line_says() {
    let mut s = two_cells();
    let puts = vec![Put { node: 0, x: 60, y: 20, orient: Orient::MY }];
    s.live.inject_cells(&s.land, &puts);
    let n: &Node = &s.live.nodes[0];
    assert_eq!((n.left, n.bottom, n.orient), (60, 20, Orient::MY));
    assert_eq!(s.live.cells_in_seg, vec![vec![1], vec![0]]);
    assert_eq!(s.live.squares[1][6].cell, Some(0));
    assert_eq!(s.live.squares[0][0].cell, None, "its old squares are free");
}

#[test]
fn a_rejected_move_leaves_everything_as_it_was() {
    let mut s = two_cells();
    assert!(s.live.try_move(&s.land, 0, 0, 50, 1));
    assert_eq!((s.live.nodes[0].left, s.live.nodes[0].bottom), (50, 20));
    s.live.reject_move(&s.land);
    assert_eq!((s.live.nodes[0].left, s.live.nodes[0].bottom), (0, 0));
    assert_eq!(s.live.cells_in_seg, vec![vec![0, 1], vec![]]);
    assert!(s.live.journal.is_empty());
}

#[test]
fn a_copied_generator_draws_the_same_numbers() {
    let mut a = Mt19937::new(5);
    a.next_u32();
    let mut b = a.copied();
    assert_eq!(a.next_u32(), b.next_u32());
}

#[test]
fn a_run_of_one_cell_goes_where_it_is_wanted() {
    let mut s = two_cells();
    s.live.nodes[0].width = 10;
    assert_eq!(s.live.shift_dp(&s.land, &vec![0], &vec![50], 0, 100, 0), Some(vec![50]));
    assert_eq!(s.live.shift_dp(&s.land, &vec![0], &vec![500], 0, 100, 0), Some(vec![90]), "as near as the ends let it");
    assert_eq!(s.live.shift_dp(&s.land, &vec![0], &vec![-50], 0, 100, 0), Some(vec![0]));
}

#[test]
fn a_turn_and_the_turn_back_change_nothing() {
    let mut s = two_cells();
    let (width, pins) = (s.live.nodes[0].width, s.live.pins.clone());
    for to in [Orient::R90, Orient::R180, Orient::MX, Orient::MY, Orient::MYR90, Orient::MXR90, Orient::R270] {
        s.live.nodes[0].height = 30;
        adjust_curr_orient(&mut s.live.nodes[0], &mut s.live.pins, &s.land.node_pins[0], to);
        if to == Orient::R90 {
            assert_eq!((s.live.nodes[0].width, s.live.nodes[0].height), (30, 20));
        }
        adjust_curr_orient(&mut s.live.nodes[0], &mut s.live.pins, &s.land.node_pins[0], Orient::R0);
        assert_eq!(s.live.pins, pins, "{to:?}");
        assert_eq!((s.live.nodes[0].width, s.live.nodes[0].orient), (width, Orient::R0), "{to:?}");
    }
    // An offset at the end of the range turns too.
    let mut far = vec![Pin { node: 0, edge: 0, ox: i32::MAX, oy: -i32::MAX }];
    adjust_curr_orient(&mut s.live.nodes[0], &mut far, &vec![0], Orient::R180);
    assert_eq!((far[0].ox, far[0].oy), (-i32::MAX, i32::MAX));
}

#[test]
fn cells_whose_edges_come_too_close_break_a_rule() {
    let fault = |dx: i64| EdgeFault { node: 0, orient: Orient::R0, other: 1, other_orient: Orient::R0, dx, dy: 0 };
    for (dx, bad) in [(100, true), (90, false)] {
        let mut d = design(vec![cell("a", 0, 0, false), cell("b", 100, 0, false)]);
        d.edge_faults = vec![fault(dx)];
        let s = match setup(d) {
            Ok(s) => s,
            Err(e) => panic!("{e:?}"),
        };
        assert_eq!(s.live.has_placement_violation(&s.land, 0), bad, "{dx}");
        assert!(!s.live.has_placement_violation(&s.land, 1), "the fault is the first cell's");
        assert_eq!(s.checks.edge_spacing, usize::from(bad), "{dx}");
    }
}
