use vyges_dpl::fillers::{gap_fillers, tcl_string_match, FillerMaster, UniqueNames};

fn m(name: &str, sites: i32, height: i32) -> FillerMaster {
    FillerMaster { name: name.into(), width: sites * 10, height, implant: None }
}

#[test]
fn a_gap_is_filled_widest_first() {
    let g = [m("X8", 8, 100), m("X4", 4, 100), m("X2", 2, 100), m("X1", 1, 100)];
    let names = |v: Vec<usize>| v.into_iter().map(|i| g[i].name.clone()).collect::<Vec<_>>();
    assert_eq!(names(gap_fillers(&g, 15, 100, 10)), ["X8", "X4", "X2", "X1"]);
    assert_eq!(names(gap_fillers(&g, 16, 100, 10)), ["X8", "X8"]);
    // Only masters of the row's height count.
    assert!(gap_fillers(&g, 3, 200, 10).is_empty());
}

#[test]
fn without_a_one_site_filler_a_gap_is_never_left_one_short() {
    // Without a one-site filler a step that would leave exactly one site is refused: gap 5 from
    // {X4, X2} is not X4 (one short), and not fillable at all, since X2 X2 leaves one too.
    let g = [m("X4", 4, 100), m("X2", 2, 100)];
    assert!(gap_fillers(&g, 5, 100, 10).is_empty());
    assert_eq!(gap_fillers(&g, 6, 100, 10), vec![0, 1]);
    // With one, the same gap fills.
    let g1 = [m("X4", 4, 100), m("X2", 2, 100), m("X1", 1, 100)];
    assert_eq!(gap_fillers(&g1, 5, 100, 10), vec![0, 2]);
}

#[test]
fn masters_match_as_tcl_string_match() {
    assert!(tcl_string_match("FILL*", "FILLCELL_X1"));
    assert!(!tcl_string_match("FILL*", "fillcell"), "case-sensitive");
    assert!(tcl_string_match("FILLCELL_X?", "FILLCELL_X8"));
    assert!(!tcl_string_match("FILLCELL_X?", "FILLCELL_X16"));
    assert!(tcl_string_match("X[12]", "X2") && !tcl_string_match("X[12]", "X3"));
    assert!(tcl_string_match("X[1-3]", "X3"));
    assert!(tcl_string_match("A\\*", "A*") && !tcl_string_match("A\\*", "AB"));
}

#[test]
fn a_taken_name_gets_the_next_numbered_one() {
    let mut n = UniqueNames::new(&vec!["FILLER_0_0".to_string()]);
    assert_eq!(n.make("FILLER_0_4"), "FILLER_0_4");
    assert_eq!(n.make("FILLER_0_0"), "FILLER_0_0_1");
    assert_eq!(n.make("FILLER_0_0"), "FILLER_0_0_2");
}

#[test]
fn names_made_one_after_the_other_never_collide() {
    let held = vec!["F".to_string(), "F_2".to_string(), "F_1_1".to_string()];
    let mut n = UniqueNames::new(&held);
    let made: Vec<String> = ["F", "F_1", "F", "F_2", "G", "G"].iter().map(|w| n.make(w)).collect();
    for (k, m) in made.iter().enumerate() {
        assert!(!held.contains(m), "{made:?}");
        assert!(!made[..k].contains(m), "{made:?}");
    }
    assert_eq!(made[4], "G", "a free name is taken as it is");
}

#[test]
fn a_star_matches_everything_and_a_plain_pattern_itself() {
    assert!(tcl_string_match("*", ""));
    assert!(tcl_string_match("*", "anything at all"));
    assert!(tcl_string_match("BUF_X1", "BUF_X1"));
    assert!(!tcl_string_match("BUF_X1", "BUF_X12"));
}
