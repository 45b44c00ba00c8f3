use vyges_dpl::drc::{check_blocked_layers, check_one_site_gap, check_padding, classify, has_padding_conflict, pair_rule, Class, PairRule};

#[test]
fn the_matrix_matches_the_table_in_the_source() {
    //     CR WT BL SP
    // CR   P  P  P  O
    assert_eq!(pair_rule(Class::Cr, Class::Cr), PairRule::NoPaddedOverlap);
    assert_eq!(pair_rule(Class::Cr, Class::Wt), PairRule::NoPaddedOverlap);
    assert_eq!(pair_rule(Class::Cr, Class::Bl), PairRule::NoPaddedOverlap);
    assert_eq!(pair_rule(Class::Cr, Class::Sp), PairRule::NoOverlap);
    // WT   P  O  P  O: a well tap against a well tap is the exception
    assert_eq!(pair_rule(Class::Wt, Class::Cr), PairRule::NoPaddedOverlap);
    assert_eq!(pair_rule(Class::Wt, Class::Wt), PairRule::NoOverlap);
    assert_eq!(pair_rule(Class::Wt, Class::Bl), PairRule::NoPaddedOverlap);
    assert_eq!(pair_rule(Class::Wt, Class::Sp), PairRule::NoOverlap);
    // BL   P  P  -  O
    assert_eq!(pair_rule(Class::Bl, Class::Cr), PairRule::NoPaddedOverlap);
    assert_eq!(pair_rule(Class::Bl, Class::Wt), PairRule::NoPaddedOverlap);
    assert_eq!(pair_rule(Class::Bl, Class::Bl), PairRule::OverlapAllowed);
    assert_eq!(pair_rule(Class::Bl, Class::Sp), PairRule::NoOverlap);
    // SP   O  O  O  O
    for other in [Class::Cr, Class::Wt, Class::Bl, Class::Sp] {
        assert_eq!(pair_rule(Class::Sp, other), PairRule::NoOverlap, "spacers ignore padding against {other:?}");
    }
}

#[test]
fn classification_follows_the_master_type() {
    assert_eq!(classify("CORE"), Class::Cr);
    assert_eq!(classify("CORE_TIEHIGH"), Class::Cr);
    assert_eq!(classify("CORE_WELLTAP"), Class::Wt, "a well tap is NOT plain core");
    assert_eq!(classify("BLOCK_SOFT"), Class::Bl);
    assert_eq!(classify("CORE_SPACER"), Class::Sp);
    assert_eq!(classify("ENDCAP_LEF58_RIGHTEDGE"), Class::Sp, "every ENDCAP variant");
    assert_eq!(classify("PAD_INPUT"), Class::Ignored);
    assert_eq!(classify("SOMETHING_NEW"), Class::Ignored, "unknown falls through as ignored");
}

#[test]
fn a_cell_never_conflicts_with_itself() {
    assert!(!has_padding_conflict(Class::Cr, Class::Cr, true));
    assert!(has_padding_conflict(Class::Cr, Class::Cr, false));
}

#[test]
fn padding_widens_the_scan_in_x_only() {
    let left_neighbour = |gx: i32, gy: i32| Some(if (gx, gy) == (-1, 0) { (Some((Class::Cr, false)), None) } else { (None, None) });
    assert!(check_padding(0, 2, 0, 1, 0, 0, Class::Cr, &left_neighbour), "no padding: clear");
    assert!(!check_padding(0, 2, 0, 1, 1, 0, Class::Cr, &left_neighbour), "left_pad sees it");

    let below = |gx: i32, gy: i32| Some(if (gx, gy) == (0, -1) { (Some((Class::Cr, false)), None) } else { (None, None) });
    assert!(check_padding(0, 2, 0, 1, 5, 5, Class::Cr, &below), "padding never widens Y, so the row below is out of scope");
}

#[test]
fn a_reserved_square_conflicts_even_with_no_occupant() {
    let reserved = |_: i32, _: i32| Some((None, Some((Class::Cr, false))));
    assert!(!check_padding(0, 1, 0, 1, 0, 0, Class::Cr, &reserved));
}

#[test]
fn off_grid_squares_are_skipped_not_failed() {
    let off = |_: i32, _: i32| None;
    assert!(check_padding(0, 4, 0, 2, 3, 3, Class::Cr, &off));
}

#[test]
fn spacers_and_blocks_behave_as_the_table_says() {
    // A spacer beside a core cell is fine even with padding demanded.
    let spacer = |_: i32, _: i32| Some((Some((Class::Sp, false)), None));
    assert!(check_padding(0, 1, 0, 1, 2, 2, Class::Cr, &spacer));
    // Two blocks may overlap outright.
    let block = |_: i32, _: i32| Some((Some((Class::Bl, false)), None));
    assert!(check_padding(0, 1, 0, 1, 0, 0, Class::Bl, &block));
    // But a block against a core cell may not.
    assert!(!check_padding(0, 1, 0, 1, 0, 0, Class::Cr, &block));
}

#[test]
fn a_gap_of_one_site_matters_only_where_it_is_disallowed() {
    // The cell spans 4..6; the square at 7 is occupied, that at 6 is not.
    let at = |x: i32, y: i32| if y == 0 && (0..10).contains(&x) { Some(x == 7 || x == 4 || x == 5) } else { None };
    assert!(check_one_site_gap(false, 4, 6, 0, 1, &at));
    assert!(!check_one_site_gap(true, 4, 6, 0, 1, &at));
}

#[test]
fn a_used_level_may_not_be_blocked() {
    let blocked = |x: i32, _: i32| if x == 3 { Some(0b100u32) } else { Some(0) };
    assert!(check_blocked_layers(0, 3, 0, 1, 0b100, &blocked), "the blocked square is outside");
    assert!(!check_blocked_layers(0, 4, 0, 1, 0b100, &blocked));
    assert!(check_blocked_layers(0, 4, 0, 1, 0b010, &blocked), "another level");
}
