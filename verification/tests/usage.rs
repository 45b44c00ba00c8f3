use vyges_dpl::usage::USAGE;

#[test]
fn every_command_the_help_advertises_is_dispatched() {
    for cmd in ["check-placement", "detailed-placement", "--describe", "--help", "--version"] {
        assert!(USAGE.contains(cmd), "`{cmd}` is dispatched but not in --help");
    }
}

#[test]
fn every_option_the_parser_accepts_is_documented() {
    for flag in [
        "--out-odb", "--dry-run", "--use-diamond-legalizer", "--max-displacement", "--site-search-window", "--row-search-window",
        "--drc-penalty", "--disable-window-extension", "-o", "--json",
    ] {
        assert!(USAGE.contains(flag), "`{flag}` is accepted but not in --help");
    }
    assert!(USAGE.contains("disallow_one_site_gaps") && USAGE.contains("incremental"), "an option refused on purpose must be documented as refused");
}
