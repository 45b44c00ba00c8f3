use vyges_dpl::neg_grid::HIST_INCREMENT;
use vyges_dpl::negotiate::{
    build_search_window, cell_width_in_sites, consts, effective_row_cap, effective_site_window, enters_model, enumerate_candidates,
    footprint_is_legal, horizontal_window_bounds, init_position, is_cell_legal, is_valid_row, negotiation_cost, negotiation_iter,
    run_negotiation, sort_by_negotiation_order, sync_all_cells_to_grid, target_cost, target_cost_from_disp, update_history_costs,
    vertical_window_rows, Candidate, FixedPaint, Legality, NegGrid, NegPixel, Negotiation, Outcome, Replay, Rules, ScanRank, SortKey, SweepCell,
    SweepCtx, SweepRules, COST_UNIT, INF_COST,
};

/// A cost counted in parts of a unit, in units.
fn whole(parts: i128) -> f64 {
    parts as f64 / COST_UNIT as f64
}

fn parts(cost: f64) -> i64 {
    (cost * COST_UNIT as f64) as i64
}

fn k(overuse: i128, height: i32, width: i32, idx: usize) -> SortKey {
    SortKey { overuse, height, width, idx }
}

#[test]
fn a_fixed_site_is_used_but_not_overused() {
    assert_eq!(NegPixel { usage: 0, ..px(0) }.overuse(), 0);
    assert_eq!(NegPixel { usage: 1, ..px(0) }.overuse(), 0);
    assert_eq!(NegPixel { usage: 2, ..px(0) }.overuse(), 1);
    assert_eq!(NegPixel { usage: 5, ..px(0) }.overuse(), 4);
}

#[test]
fn the_most_overused_cell_is_negotiated_first() {
    let mut v = [k(0, 1, 1, 0), k(7, 1, 1, 1), k(3, 1, 1, 2)];
    sort_by_negotiation_order(&mut v);
    assert_eq!(v.iter().map(|s| s.idx).collect::<Vec<_>>(), [1, 2, 0]);
}

#[test]
fn equal_overuse_breaks_on_height_then_width_smallest_first() {
    let mut v = [k(2, 1, 9, 0), k(2, 3, 1, 1), k(2, 1, 2, 2)];
    sort_by_negotiation_order(&mut v);
    // Shortest first; among the two height-1 keys, the narrower one.
    assert_eq!(v.iter().map(|s| s.idx).collect::<Vec<_>>(), [2, 0, 1]);
}

#[test]
fn overuse_still_outranks_a_smaller_cell() {
    let mut v = [k(0, 1, 1, 0), k(5, 9, 9, 1)];
    sort_by_negotiation_order(&mut v);
    assert_eq!(v.iter().map(|s| s.idx).collect::<Vec<_>>(), [1, 0]);
}

#[test]
fn the_index_is_the_determinism_tie_break() {
    let mut v = [k(1, 1, 1, 9), k(1, 1, 1, 2), k(1, 1, 1, 5)];
    sort_by_negotiation_order(&mut v);
    assert_eq!(v.iter().map(|s| s.idx).collect::<Vec<_>>(), [2, 5, 9]);
}

#[test]
fn the_order_does_not_depend_on_the_input_order() {
    let mk = || vec![k(0, 2, 2, 3), k(4, 1, 1, 1), k(4, 2, 1, 7), k(0, 2, 2, 0)];
    let (mut a, mut b) = (mk(), mk());
    b.reverse();
    sort_by_negotiation_order(&mut a);
    sort_by_negotiation_order(&mut b);
    assert_eq!(a, b, "the sweep order must not depend on how the active set was built");
}

#[test]
fn displacement_cost_is_monotone_and_steepens_past_the_threshold() {
    let c = |d: i64| whole(target_cost_from_disp(d, parts(2.0), 10));
    let vals: Vec<f64> = (0..20).map(c).collect();
    assert!(vals.windows(2).all(|w| w[0] <= w[1]), "not monotone: {vals:?}");
    assert_eq!(c(10), 10.0, "at the threshold it is still purely linear");
    assert_eq!(c(11), 11.0 + 2.0, "past it, the multiplier applies to the excess only");
}

#[test]
fn displacement_is_measured_from_the_init_position() {
    assert_eq!(whole(target_cost(5, 0, 5, 0, parts(1.0), 100)), 0.0, "at its init position, no cost");
    assert_eq!(whole(target_cost(7, 0, 5, 0, parts(1.0), 100)), 2.0);
    assert_eq!(whole(target_cost(3, 0, 5, 0, parts(1.0), 100)), 2.0, "symmetric");
}

#[test]
fn an_occupied_square_costs_more_than_an_empty_one() {
    let empty = whole(negotiation_cost(&[Some((0, 1, 1))], 0, INF_COST));
    let taken = whole(negotiation_cost(&[Some((1, 1, 1))], 0, INF_COST));
    assert!(taken > empty, "empty={empty} taken={taken}");
    assert_eq!(empty, 1.0);
    assert_eq!(taken, 2.0);
}

#[test]
fn history_makes_a_contested_square_expensive() {
    let fresh = negotiation_cost(&[Some((1, 1, 1))], 0, INF_COST);
    let fought = negotiation_cost(&[Some((1, 1, 8))], 0, INF_COST);
    assert!(fought > fresh, "history must raise the price of a contested site");
}

#[test]
fn a_blockage_or_an_off_grid_square_is_unusable() {
    assert!(negotiation_cost(&[Some((0, 0, 1))], 0, INF_COST) >= INF_COST);
    assert!(negotiation_cost(&[None], 0, INF_COST) >= INF_COST);
}

#[test]
fn the_abort_bound_stops_the_scan_early() {
    // Two squares, but the bound is passed on the first: the second is never added.
    let c = whole(negotiation_cost(&[Some((9, 1, 1)), Some((9, 1, 1))], 0, parts(5.0).into()));
    assert_eq!(c, 10.0, "returned as soon as it passed the bound, not 20");
}

#[test]
fn a_multi_row_cell_may_not_straddle_a_row_without_sites() {
    let has = |r: i32| r != 3;
    let offers = |_: i32| true;
    assert_eq!(is_valid_row(2, 1, 10, &has, &offers), Legality::Legal);
    assert_eq!(is_valid_row(2, 2, 10, &has, &offers), Legality::RowHasNoSites, "a 2-row cell starting at 2 covers the gap at 3");
}

#[test]
fn a_row_span_running_past_the_grid_is_off_die() {
    let (has, offers) = (|_: i32| true, |_: i32| true);
    assert_eq!(is_valid_row(9, 2, 10, &has, &offers), Legality::OffDie);
    assert_eq!(is_valid_row(-1, 1, 10, &has, &offers), Legality::OffDie);
}

#[test]
fn a_row_that_does_not_offer_the_site_rejects_the_cell() {
    let (has, offers) = (|_: i32| true, |r: i32| r == 4);
    assert_eq!(is_valid_row(4, 1, 10, &has, &offers), Legality::Legal);
    assert_eq!(is_valid_row(5, 1, 10, &has, &offers), Legality::RowRejectsSite);
}

#[test]
fn an_overused_or_blocked_square_makes_a_cell_illegal() {
    let ok = |v: Vec<(i32, i32)>| is_cell_legal(true, Legality::Legal, Some(true), &v);
    assert_eq!(ok(vec![(1, 1), (1, 1)]), Legality::Legal, "one cell per square is legal");
    assert_eq!(ok(vec![(1, 1), (2, 1)]), Legality::Overused);
    assert_eq!(ok(vec![(1, 0)]), Legality::Blockage);
}

#[test]
fn a_missing_drc_checker_fails_the_cell_rather_than_passing_it() {
    assert_eq!(is_cell_legal(true, Legality::Legal, None, &[]), Legality::DrcUnavailable);
    assert_eq!(is_cell_legal(true, Legality::Legal, Some(false), &[]), Legality::DrcViolation);
    assert_eq!(is_cell_legal(true, Legality::Legal, Some(true), &[]), Legality::Legal);
}

#[test]
fn drc_is_consulted_before_the_footprint_scan() {
    assert_eq!(is_cell_legal(true, Legality::Legal, Some(false), &[(9, 1)]), Legality::DrcViolation, "not Overused");
}

#[test]
fn the_row_verdict_is_reported_rather_than_collapsed_to_a_bool() {
    assert_eq!(is_cell_legal(false, Legality::Legal, Some(true), &[]), Legality::OffDie);
    assert_eq!(is_cell_legal(true, Legality::RowRejectsSite, Some(true), &[]), Legality::RowRejectsSite);
}

#[test]
fn a_fixed_cell_is_a_blockage_not_an_overlap() {
    let mut g = NegGrid::build(4, 2, &|_: usize, _: usize| true);
    g.blockade(1, 0, 2, 1);
    assert_eq!(g.at(1, 0).capacity, 0, "a fixed footprint has NO capacity");
    assert_eq!(g.at(1, 0).usage, 1);
    assert_eq!(g.at(0, 0).capacity, 1, "its neighbour is untouched");
    let c = negotiation_cost(&[Some((g.at(1, 0).usage, g.at(1, 0).capacity, 1))], 0, INF_COST);
    assert!(c >= INF_COST, "a blockade must be unusable, not merely expensive");
}

#[test]
fn history_starts_at_one_so_the_congestion_term_is_live_immediately() {
    let g = NegGrid::build(2, 1, &|_: usize, _: usize| true);
    assert_eq!(g.at(0, 0).hist_cost, 1);
    assert_eq!(whole(negotiation_cost(&[Some((0, 1, g.at(0, 0).hist_cost))], 0, INF_COST)), 1.0);
}

#[test]
fn a_row_with_no_usable_square_has_no_sites() {
    let g = NegGrid::build(3, 2, &|_: usize, y: usize| y == 0);
    assert!(g.row_has_sites(0));
    assert!(!g.row_has_sites(1));
    assert!(!g.row_has_sites(-1), "off the grid is not a row with sites");
}

#[test]
fn blockading_a_whole_row_removes_it() {
    let mut g = NegGrid::build(2, 1, &|_: usize, _: usize| true);
    assert!(g.row_has_sites(0));
    g.blockade(0, 0, 2, 1);
    assert!(!g.row_has_sites(0), "every square blocked means the row is gone");
}

#[test]
fn usage_tracks_rip_up_and_place() {
    let mut g = NegGrid::build(4, 1, &|_: usize, _: usize| true);
    g.add_usage(0, 0, 2, 1, 1);
    assert_eq!(g.total_overuse(), 0, "one cell over two squares is not overuse");
    g.add_usage(1, 0, 2, 1, 1);
    assert_eq!(g.total_overuse(), 1, "the shared square is overused by one");
    g.add_usage(1, 0, 2, 1, -1);
    assert_eq!(g.total_overuse(), 0);
}

#[test]
fn a_later_painter_overwrites_the_occupancy_slot() {
    let mut g = NegGrid::build(4, 1, &|_: usize, _: usize| true);
    g.paint_cell(0, 1, 0, 2, 1);
    assert_eq!(g.occupant(1, 0), Some(0));
    g.paint_cell(1, 1, 0, 2, 1);
    assert_eq!(g.occupant(1, 0), Some(1), "the second painter wins the slot");
}

#[test]
fn a_cell_erases_only_its_own_stamp() {
    let mut g = NegGrid::build(4, 1, &|_: usize, _: usize| true);
    g.paint_cell(0, 1, 0, 1, 1);
    g.paint_cell(1, 1, 0, 1, 1);
    g.erase_cell(0, 1, 0, 1, 1);
    assert_eq!(g.occupant(1, 0), Some(1), "cell 0 does not own the slot, so it clears nothing");
    g.erase_cell(1, 1, 0, 1, 1);
    assert_eq!(g.occupant(1, 0), None, "and the owner's erase blanks a square cell 0 claims");
}

#[test]
fn occupancy_and_usage_answer_different_questions() {
    let mut g = NegGrid::build(4, 1, &|_: usize, _: usize| true);
    for idx in [0, 1] {
        g.add_usage(1, 0, 1, 1, 1);
        g.paint_cell(idx, 1, 0, 1, 1);
    }
    g.add_usage(1, 0, 1, 1, -1);
    g.erase_cell(1, 1, 0, 1, 1);
    assert_eq!(g.at(1, 0).usage, 1, "cell 0 still claims the square");
    assert_eq!(g.occupant(1, 0), None, "but the occupancy slot reads empty");
}

fn sweep_cell(name: &str, x: i32, w: i32) -> SweepCell {
    SweepCell { name: name.into(), x, y: 0, init_x: x, init_y: 0, width: w, height: 1, fixed: false }
}

#[test]
fn the_re_sync_repairs_the_holes_and_repaints_fixed_last() {
    let mut g = NegGrid::build(4, 1, &|_: usize, _: usize| true);
    let cells = vec![sweep_cell("a", 1, 1), sweep_cell("b", 1, 1)];
    let fixed: Vec<FixedPaint> = vec![(9, 1, 0, 1, 1)];
    g.paint_cell(0, 1, 0, 1, 1);
    g.erase_cell(0, 1, 0, 1, 1);
    assert_eq!(g.occupant(1, 0), None);
    sync_all_cells_to_grid(&cells, &fixed, &mut g);
    assert_eq!(g.occupant(1, 0), Some(9), "the fixed cell is repainted last and wins");
}

fn window<F: Fn(i32) -> bool>(seed: i32, quota: i32, scan: i32, grid_h: i32, usable: &F) -> Vec<i32> {
    vertical_window_rows(seed, 1, grid_h, quota, scan, 2 * scan, true, &|r: i32| r >= 0 && r < grid_h && usable(r), usable)
}

#[test]
fn the_window_returns_the_seed_first_then_below_then_above() {
    let rows = window(5, 2, 5, 20, &|_: i32| true);
    assert_eq!(rows, vec![5, 6, 7, 4, 3]);
}

#[test]
fn each_side_stops_at_its_own_quota() {
    let rows = window(10, 1, 9, 40, &|_: i32| true);
    assert_eq!(rows, vec![10, 11, 9], "one row per side");
}

#[test]
fn a_walled_side_donates_its_quota_to_the_other() {
    let rows = window(1, 3, 20, 30, &|_: i32| true);
    assert_eq!(rows[0], 1);
    assert!(rows.contains(&0), "the one row above is taken");
    let below: Vec<i32> = rows.iter().copied().filter(|r| *r > 1).collect();
    assert!(below.len() > 3, "the walled side's unfilled quota was spent below: {rows:?}");
}

#[test]
fn extension_can_be_disabled() {
    let plain = vertical_window_rows(1, 1, 30, 3, 20, 40, false, &|r: i32| (0..30).contains(&r), &|r: i32| (0..30).contains(&r));
    let below: Vec<i32> = plain.iter().copied().filter(|r| *r > 1).collect();
    assert_eq!(below.len(), 3, "without extension each side keeps its own quota: {plain:?}");
}

#[test]
fn a_row_band_with_no_sites_is_a_hard_wall() {
    // Rows 8..12 have no sites: the walk below stops there rather than jumping the gap.
    let usable = |r: i32| !(8..=12).contains(&r);
    let rows = vertical_window_rows(6, 1, 40, 5, 20, 40, false, &usable, &usable);
    assert!(rows.iter().all(|r| *r < 8 || *r > 12), "must not cross the gap: {rows:?}");
    assert!(rows.contains(&7), "it may reach the row just before the wall");
}

#[test]
fn an_unusable_row_costs_a_step_but_not_quota() {
    let has = |_: i32| true;
    let usable = |r: i32| r % 2 == 0;
    let rows = vertical_window_rows(4, 1, 40, 2, 10, 20, false, &has, &usable);
    assert!(rows.iter().all(|r| r % 2 == 0), "only usable rows are returned: {rows:?}");
    assert!(rows.len() >= 3, "quota was spent on usable rows, not on the skipped ones");
}

#[test]
fn without_extension_the_window_is_just_the_base() {
    let (lo, hi) = horizontal_window_bounds(50, 4, 500, false, &|_: i32| false, &|_: i32| true);
    assert_eq!((lo, hi), (-4, 4));
}

#[test]
fn the_extended_window_never_shrinks_below_the_base() {
    let (lo, hi) = horizontal_window_bounds(50, 3, 500, true, &|_: i32| false, &|_: i32| false);
    assert_eq!((lo, hi), (-3, 3));
}

#[test]
fn an_open_side_can_spend_the_shared_budget_before_a_blocked_side_uses_any() {
    let open = |x: i32| !(51..=56).contains(&x);
    let (lo, hi) = horizontal_window_bounds(50, 3, 500, true, &|_: i32| false, &open);
    assert_eq!(lo, -6, "the open side extended to its shared-budget reach");
    assert_eq!(hi, 3, "the blocked side never spent budget, so its base window stands");
}

#[test]
fn a_blocked_stretch_is_stepped_over_when_the_other_side_cannot_compete() {
    let open = |x: i32| !(51..=56).contains(&x);
    let (_, hi) = horizontal_window_bounds(50, 3, 500, true, &|x: i32| x < 50, &open);
    assert!(hi >= 7, "with the budget to itself the right passes the macro: hi={hi}");
}

#[test]
fn the_step_cap_bounds_how_far_a_free_walk_can_go() {
    let open = |x: i32| !(51..=70).contains(&x);
    let (_, hi) = horizontal_window_bounds(50, 2, 500, true, &|_: i32| false, &open);
    assert_eq!(hi, 2, "cap 8 cannot cross a 20-wide macro, so the base window stands");
}

#[test]
fn the_reach_is_the_furthest_open_position_not_the_furthest_step() {
    let open = |x: i32| x <= 51;
    let (_, hi) = horizontal_window_bounds(50, 1, 500, true, &|_: i32| false, &open);
    assert_eq!(hi, 1, "must not drag the window over sites it can never use");
}

#[test]
fn a_side_at_the_die_edge_leaves_its_budget_to_the_other() {
    let off = |x: i32| x < 0;
    let (lo, hi) = horizontal_window_bounds(1, 4, 500, true, &off, &|_: i32| true);
    assert!(lo >= -4, "the left is walled at the die edge: lo={lo}");
    assert!(hi > 4, "the right spent the shared budget: hi={hi}");
}

#[test]
fn the_hard_cap_always_wins() {
    let (lo, hi) = horizontal_window_bounds(500, 50, 6, true, &|_: i32| false, &|_: i32| true);
    assert_eq!((lo, hi), (-6, 6), "max_displacement_x caps everything");
}

#[test]
fn a_wide_cell_gets_at_least_its_own_width_of_search() {
    assert_eq!(effective_site_window(4, 30, 500, true), 30);
    assert_eq!(effective_site_window(40, 30, 500, true), 40, "the base wins when it is wider");
    assert_eq!(effective_site_window(4, 30, 10, true), 10, "the hard cap still wins");
    assert_eq!(effective_site_window(4, 30, 500, false), 4, "no extension: the plain base");
}

#[test]
fn a_tall_cell_searches_proportionally_further_vertically() {
    assert_eq!(effective_row_cap(3, 4, 500, true), 12);
    assert_eq!(effective_row_cap(3, 1, 500, true), 3);
    assert_eq!(effective_row_cap(3, 4, 5, true), 5, "capped by max displacement");
    assert_eq!(effective_row_cap(3, 4, 500, false), 3, "no extension: the plain base");
}

#[test]
fn the_window_probes_rows_only_within_its_horizontal_span() {
    let hostable = |_r: i32, x_lo: i32, x_hi: i32| x_lo <= 52 && x_hi >= 48;
    let w = build_search_window(50, 5, 2, 2, 4, 500, 500, false, &|_: i32| false, &|_: i32| true, 1, 20, &|_: i32| true, &hostable);
    assert_eq!((w.dx_lo, w.dx_hi), (-2, 2));
    assert!(!w.rows.is_empty(), "rows inside the span are found");

    let away = build_search_window(200, 5, 2, 2, 4, 500, 500, false, &|_: i32| false, &|_: i32| true, 1, 20, &|_: i32| true, &hostable);
    assert!(away.rows.is_empty(), "no column in the span can host, so no row qualifies");
}

fn px(usage: i32) -> NegPixel {
    NegPixel { usage, hist_cost: 1, capacity: 1, cell: None }
}

#[test]
fn history_rises_only_on_contested_squares() {
    let mut p = vec![px(1), px(3), px(0)];
    update_history_costs(&mut p, &[vec![0, 1, 2]]);
    assert_eq!(p[0].hist_cost, 1, "usage 1 is not overuse");
    assert_eq!(p[1].hist_cost, 3, "overuse 2 adds 2.0");
    assert_eq!(p[2].hist_cost, 1);
}

#[test]
fn a_shared_square_is_bumped_once_per_iteration() {
    let mut p = vec![px(2)];
    update_history_costs(&mut p, &[vec![0], vec![0]]);
    assert_eq!(p[0].hist_cost, 2, "one bump of +1, not two");
}

#[test]
fn history_accumulates_across_iterations() {
    let mut p = vec![px(2)];
    for _ in 0..4 {
        update_history_costs(&mut p, &[vec![0]]);
    }
    assert_eq!(p[0].hist_cost, 5);
}

#[test]
fn the_constants_are_the_papers_defaults() {
    assert_eq!(consts::SITE_SEARCH_WINDOW, 20);
    assert_eq!(consts::ROW_SEARCH_WINDOW, 5);
    assert_eq!(consts::MAX_ITER_NEG, 400);
    assert_eq!(consts::MAX_ITER_NEG2, 1000);
    assert_eq!(consts::ISOLATION_PT, 1);
    assert_eq!(whole(consts::MAX_DISP_MULTIPLIER.into()), 1.5);
    assert_eq!(consts::MAX_DISP_THRESHOLD, 30);
    assert_eq!(HIST_INCREMENT as f64, 1.0);
    assert_eq!(whole(consts::DRC_PENALTY.into()), 5.0);
    // INT_MAX/2, not an arbitrary large number: costs are compared against it.
    assert_eq!(whole(consts::INF_COST), 1_073_741_823.0);
}

#[test]
fn unplaced_and_non_core_instances_stay_out_of_the_model() {
    assert!(enters_model("PLACED", true));
    assert!(enters_model("FIRM", true));
    assert!(!enters_model("NONE", true), "never placed: nothing to negotiate from");
    assert!(!enters_model("PLACED", false), "a pad or block is painted, not negotiated");
}

#[test]
fn cell_width_rounds_rather_than_ceils() {
    assert_eq!(cell_width_in_sites(140, 100), 1, "1.4 sites rounds DOWN to 1");
    assert_eq!(cell_width_in_sites(160, 100), 2, "1.6 rounds up");
    assert_eq!(cell_width_in_sites(200, 100), 2, "exactly 2");
    assert_eq!(cell_width_in_sites(10, 100), 1, "never below one site");
}

#[test]
fn the_start_position_floors_x_and_rounds_y() {
    let rows = [0, 10, 20, 30];
    let (gx, gy) = init_position(255, 17, 0, 0, 100, &rows, 1, 1, 100, 4);
    assert_eq!(gx, 2, "x floors: 2.55 sites -> 2");
    assert_eq!(gy, 2, "y takes the NEAREST row, not the one below");
}

#[test]
fn the_clamp_keeps_the_whole_footprint_on_the_grid() {
    let rows = [0, 10];
    let (gx, _) = init_position(10_000, 0, 0, 0, 100, &rows, 3, 1, 10, 2);
    assert_eq!(gx, 7, "10 - 3, so the footprint ends exactly at the edge");
}

#[test]
fn the_clamp_is_in_grid_units_not_dbu() {
    let row_y = [0, 2800, 5600, 8400, 11200];
    let grid_units = init_position(8360, 5600, 3800, 2800, 380, &row_y, 4, 1, 32, 4);
    assert_eq!(grid_units, (12, 1), "site 12 of row 1, which is where the DEF puts it");

    let dbu = init_position(8360, 5600, 3800, 2800, 380, &row_y, 1520, 2800, 32, 4);
    assert_eq!(dbu, (0, 0), "DBU collapses both clamps: this is what the bug looked like");
}

#[test]
fn converging_in_phase_one_stops_immediately() {
    let mut run = Replay::new(vec![5, 4, 3, 0]);
    let out = run_negotiation(400, 1000, &mut run);
    assert_eq!(out, Outcome::Converged { phase: 1, iter: 3 });
    assert_eq!(run.sweeps, vec![0, 1, 2, 3], "no iteration past convergence");
    assert!(run.recoveries.is_empty(), "recovery must not run on a converging design");
}

#[test]
fn three_identical_counts_are_a_stall_and_call_recovery() {
    let mut run = Replay::new(vec![7]);
    let out = run_negotiation(400, 1000, &mut run);
    // A count that never moves stalls twice: once in each phase.
    assert_eq!(out, Outcome::StalledIntoRecovery { phase: 2, iter: 3, violations: 7 });
    assert_eq!(run.recoveries.len(), 2, "recovery ran in both phases, not once");
}

#[test]
fn a_phase_one_stall_falls_through_into_phase_two() {
    // Constant through the first stall, then a sequence that never repeats.
    let mut run = Replay::new(vec![7, 7, 7, 7, 95, 94, 93, 92, 91]);
    let out = run_negotiation(400, 5, &mut run);
    assert_eq!(&run.sweeps[..4], &[0, 1, 2, 3], "phase 1 stalled at its 4th iteration");
    assert_eq!(&run.sweeps[4..], &[400, 401, 402, 403, 404], "phase 2 ran all 5 of its iterations, counter continuing from 400");
    assert_eq!(
        out,
        Outcome::StalledIntoRecovery { phase: 1, iter: 3, violations: 7 },
        "the phase-1 stall is still reported: it is why phase 2 had work left"
    );
}

#[test]
fn a_changed_count_resets_the_stall() {
    let mut run = Replay::new(vec![4, 4, 5, 5, 5, 5]);
    let out = run_negotiation(400, 1000, &mut run);
    // 4,4 -> stall 1; 5 resets; 5,5 -> stall 2; 5 -> stall 3 at index 5. Phase 1 then gives way to
    // phase 2, where the count is still a constant 5 and it stalls again.
    assert_eq!(out, Outcome::StalledIntoRecovery { phase: 2, iter: 3, violations: 5 });
}

#[test]
fn phase_two_continues_the_iteration_counter() {
    let mut run = Replay::new(vec![2, 1, 2, 1, 2]);
    run_negotiation(3, 2, &mut run);
    assert_eq!(&run.sweeps[..3], &[0, 1, 2], "phase 1");
    assert_eq!(&run.sweeps[3..], &[3, 4], "phase 2 continues from 3, it does not restart at 0");
}

#[test]
fn exhausting_both_phases_is_not_an_error_here() {
    let mut run = Replay::new(vec![1, 2, 3, 4]);
    let out = run_negotiation(2, 2, &mut run);
    assert!(matches!(out, Outcome::Exhausted { .. }));
    assert_eq!(run.sweeps.len(), 4, "both phases ran to their limits");
}

fn enumerate(init_rows: &[i32], lo: i32, hi: i32) -> Vec<Candidate> {
    let mut v = Vec::new();
    enumerate_candidates(10, 5, 10, 5, init_rows, lo, hi, &[], 0, 0, &|_: i64| false, &mut v);
    v
}

#[test]
fn the_centre_is_offered_once_not_twice() {
    let v = enumerate(&[5], -2, 2);
    let centre = v.iter().filter(|c| (c.x, c.y) == (10, 5)).count();
    assert_eq!(centre, 1, "got {centre} copies of the centre");
}

#[test]
fn candidates_arrive_in_wavefronts_of_increasing_displacement() {
    let v = enumerate(&[5], -3, 3);
    let disp: Vec<i32> = v.iter().map(|c| (c.x - 10).abs() + (c.y - 5).abs()).collect();
    assert!(disp.windows(2).all(|w| w[0] <= w[1]), "not monotone: {disp:?}");
    assert_eq!(disp[0], 0, "the cell's own position comes first");
}

#[test]
fn the_prune_breaks_the_search_rather_than_skipping_a_wavefront() {
    // A prune that rejects only d == 2: the search stops there and never offers d >= 3.
    let mut v = Vec::new();
    enumerate_candidates(10, 5, 10, 5, &[5], -5, 5, &[], 0, 0, &|d: i64| d == 2, &mut v);
    let reach = v.iter().map(|c| (c.x - 10).abs()).max().unwrap_or(0);
    assert_eq!(reach, 1, "must BREAK at d == 2, so d >= 3 is never offered; got reach {reach}");
    assert!(!v.is_empty(), "wavefronts 0 and 1 were still offered");
}

#[test]
fn the_second_window_runs_only_when_the_cell_is_displaced() {
    let mut same = Vec::new();
    enumerate_candidates(10, 5, 10, 5, &[5], 0, 0, &[9], -1, 1, &|_: i64| false, &mut same);
    assert!(same.iter().all(|c| c.rank.window == 0), "undisplaced: no second window");

    let mut moved = Vec::new();
    enumerate_candidates(10, 5, 30, 9, &[5], 0, 0, &[9], -1, 1, &|_: i64| false, &mut moved);
    assert!(moved.iter().any(|c| c.rank.window == 1), "displaced: the second window runs");
}

#[test]
fn the_init_window_outranks_the_current_window_on_a_tie() {
    let a = ScanRank { window: 0, row_pos: 99, dx: 99 };
    let b = ScanRank { window: 1, row_pos: 0, dx: 0 };
    assert!(a < b, "an init-window candidate wins however deep in its own scan it was");
}

fn sweep<R: SweepRules>(cells: &mut [SweepCell], active: &mut Vec<usize>, iter: i32, rules: &R, grid: &mut NegGrid) -> i128 {
    let ctx = SweepCtx {
        rules,
        fixed_paint: &[],
        max_disp_multiplier: consts::MAX_DISP_MULTIPLIER,
        max_disp_threshold: consts::MAX_DISP_THRESHOLD,
        drc_penalty: consts::DRC_PENALTY,
    };
    negotiation_iter(cells, active, iter, &ctx, grid)
}

/// A sweep over a one-row grid of eight sites, all valid.
fn sweep_eight(cells: &mut [SweepCell], active: &mut Vec<usize>, iter: i32, grid: &mut NegGrid) -> i128 {
    let rules = Rules { window: |_: &SweepCell, _: i32, y: i32| (-4, 4, vec![y]), placeable: |c: &SweepCell, x: i32, _: i32| x >= 0 && x + c.width <= 8, drc: |_: &SweepCell, _: i32, _: i32| 0 };
    sweep(cells, active, iter, &rules, grid)
}

#[test]
fn a_drc_violation_alone_still_counts_as_a_violation() {
    let mut grid = NegGrid::build(6, 1, &|_: usize, _: usize| true);
    let mut cells = vec![sweep_cell("a", 0, 1)];
    grid.add_usage(0, 0, 1, 1, 1);
    // Pinned in place, and always dirty, wherever it sits.
    let rules = Rules { window: |_: &SweepCell, x: i32, y: i32| (-x, 0, vec![y]), placeable: |_: &SweepCell, x: i32, _: i32| (0..6).contains(&x), drc: |_: &SweepCell, _: i32, _: i32| 1 };
    let v = sweep(&mut cells, &mut vec![0], 0, &rules, &mut grid);
    assert_eq!(grid.total_overuse(), 0, "no square is overused");
    assert!(v > 0, "and yet the iteration must report a violation, not converge");
}

#[test]
fn a_bystander_made_illegal_is_pulled_into_the_active_set() {
    let mut grid = NegGrid::build(6, 1, &|_: usize, _: usize| true);
    let mut cells = vec![sweep_cell("mover", 0, 1), sweep_cell("bystander", 4, 1)];
    for c in &cells {
        grid.add_usage(c.x, c.y, c.width, c.height, 1);
    }
    // Only the bystander is dirty: the active cell is fine.
    let rules = Rules {
        window: |_: &SweepCell, x: i32, y: i32| (-x, 0, vec![y]),
        placeable: |_: &SweepCell, x: i32, _: i32| (0..6).contains(&x),
        drc: |c: &SweepCell, _: i32, _: i32| i32::from(c.name == "bystander"),
    };
    let mut active = vec![0];
    let v = sweep(&mut cells, &mut active, 0, &rules, &mut grid);
    assert_eq!(active, vec![0, 1], "the bystander joined the active set");
    assert!(v > 0, "and was counted");
}

#[test]
fn history_is_not_bumped_on_a_clean_iteration() {
    let mut grid = NegGrid::build(4, 1, &|_: usize, _: usize| true);
    let mut cells = vec![sweep_cell("a", 1, 1)];
    grid.add_usage(1, 0, 1, 1, 1);
    let before = grid.at(1, 0).hist_cost;
    let rules = Rules { window: |_: &SweepCell, x: i32, y: i32| (-x, 3 - x, vec![y]), placeable: |_: &SweepCell, x: i32, _: i32| (0..4).contains(&x), drc: |_: &SweepCell, _: i32, _: i32| 0 };
    let v = sweep(&mut cells, &mut vec![0], 0, &rules, &mut grid);
    assert_eq!(v, 0, "nothing is wrong");
    assert_eq!(grid.at(1, 0).hist_cost, before, "so history did not move");
}

#[test]
fn a_cell_on_a_zero_capacity_square_is_illegal() {
    let mut grid = NegGrid::build(4, 1, &|x: usize, _: usize| x >= 2); // sites 0 and 1 are blocked
    let mut cells = vec![sweep_cell("a", 0, 1)];
    grid.add_usage(0, 0, 1, 1, 1);
    assert!(!footprint_is_legal(&grid, cells[0].width, cells[0].height, 0, 0), "site 0 has capacity 0");
    assert!(footprint_is_legal(&grid, cells[0].width, cells[0].height, 2, 0), "site 2 does not");

    let rules = Rules {
        window: |_: &SweepCell, x: i32, y: i32| (-x, 3 - x, vec![y]),
        placeable: |c: &SweepCell, x: i32, _: i32| x >= 0 && x + c.width <= 4,
        drc: |_: &SweepCell, _: i32, _: i32| 0,
    };
    sweep(&mut cells, &mut vec![0], 0, &rules, &mut grid);
    assert!(cells[0].x >= 2, "moved off the blockage, to {}", cells[0].x);
}

#[test]
fn a_sweep_separates_two_overlapping_cells() {
    let mut grid = NegGrid::build(8, 1, &|_: usize, _: usize| true);
    let mut cells = vec![sweep_cell("a", 2, 2), sweep_cell("b", 2, 2)];
    for c in &cells {
        grid.add_usage(c.x, c.y, c.width, c.height, 1);
    }
    assert!(grid.total_overuse() > 0, "the fixture must start overlapping");

    let overuse = sweep_eight(&mut cells, &mut vec![0, 1], 0, &mut grid);
    assert_eq!(overuse, 0, "one sweep resolved it: {:?}", cells.iter().map(|c| (c.name.clone(), c.x)).collect::<Vec<_>>());
    assert_ne!(cells[0].x, cells[1].x, "the two cells no longer share a site");
}

#[test]
fn a_cell_can_stay_where_it_is() {
    let mut grid = NegGrid::build(8, 1, &|_: usize, _: usize| true);
    let mut cells = vec![sweep_cell("solo", 3, 2)];
    grid.add_usage(3, 0, 2, 1, 1);
    sweep_eight(&mut cells, &mut vec![0], 0, &mut grid);
    assert_eq!(cells[0].x, 3, "an uncontested cell stays at its init position");
    assert_eq!(grid.total_overuse(), 0);
}

#[test]
fn a_fixed_cell_is_never_moved() {
    let mut grid = NegGrid::build(8, 1, &|_: usize, _: usize| true);
    let mut cells = vec![SweepCell { fixed: true, ..sweep_cell("fix", 2, 2) }];
    grid.blockade(2, 0, 2, 1);
    sweep_eight(&mut cells, &mut vec![0], 0, &mut grid);
    assert_eq!(cells[0].x, 2);
}

#[test]
fn from_the_isolation_point_a_legal_cell_is_left_alone() {
    let mut grid = NegGrid::build(8, 1, &|_: usize, _: usize| true);
    let mut cells = vec![sweep_cell("a", 3, 2)];
    grid.add_usage(3, 0, 2, 1, 1);
    sweep_eight(&mut cells, &mut vec![0], consts::ISOLATION_PT, &mut grid);
    assert_eq!(cells[0].x, 3, "untouched, and its usage was never ripped up");
    assert_eq!(grid.at(3, 0).usage, 1, "usage is intact: the skip happened before rip-up");
}

#[test]
fn a_replay_repeats_its_last_count_and_notes_what_it_is_asked() {
    let mut run = Replay::new(vec![3, 2]);
    assert_eq!((run.iterate(0), run.iterate(1), run.iterate(2)), (3, 2, 2));
    run.recover();
    assert_eq!(run.iterate(3), 2);
    assert_eq!(run.sweeps, vec![0, 1, 2, 3]);
    assert_eq!(run.recoveries, vec![3]);
}

#[test]
fn costs_past_the_range_of_an_integer_do_not_overflow() {
    // A price no run reaches, on a square claimed as often as can be counted.
    let c = negotiation_cost(&[Some((i32::MAX, 1, i64::MAX))], 0, INF_COST);
    assert_eq!(c, COST_UNIT * i128::from(i64::MAX) * (i128::from(i32::MAX) + 1));
    assert_eq!(whole(target_cost_from_disp(40, parts(1.5), 30)), 55.0);
}
