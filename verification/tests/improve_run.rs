use vyges_dpl::lines::{running_line, Trials};
use vyges_dpl::driver::{finish, plan, Finish, Options, Stage};
use vyges_dpl::drc::Class;
use vyges_dpl::grid::{Grid, Pixel};
use vyges_dpl::improve::{setup, Setup, SetupInput};
use vyges_dpl::improver::{gained_little, Mesh, Tried, RANDOM_PASSES, TRIES_PER_CANDIDATE};
use vyges_dpl::matching::{mis_place, Bins, MIS_MAX_PROBLEM};
use vyges_dpl::netlist::{build_pins, create_network, CellInput, InstPin, NetInput, TermInput, TermPin};
use vyges_dpl::objective::Hpwl;
use vyges_dpl::orient::Orient;
use vyges_dpl::records::stage_line;
use vyges_dpl::rows::{create_architecture, ArchRow};
use vyges_dpl::setup::movers;
use vyges_dpl::swap_passes::{changes_little, global_swap, vertical_swap, PASSES};

fn cell(name: &str, x: i32, y: i32, fixed: bool) -> CellInput {
    CellInput { name: name.into(), master: "BUF".into(), x, y, width: 20, height: 20, fixed, block: false, placed: true }
}

fn term(name: &str, x: i32, y: i32) -> TermInput {
    TermInput { name: name.into(), has_net: true, supply: false, placed: true, x_min: x, y_min: y, x_max: x }
}

fn net(inst: &str, term: &str) -> NetInput {
    NetInput {
        supply: false,
        insts: vec![InstPin { inst: inst.into(), auto_placeable: true, x_min: 0, y_min: 0, x_max: 20, y_max: 20, width: 20, height: 20 }],
        terms: vec![TermPin { term: term.into(), placed: true }],
    }
}

fn arch_row(y: i32) -> ArchRow {
    ArchRow {
        site_class: "CORE".into(),
        direction: "HORIZONTAL".into(),
        x: 0,
        y,
        spacing: 10,
        site_count: 20,
        site_width: 10,
        site_height: 20,
        sym_y: true,
        orient: Orient::R0,
    }
}

fn grid() -> Grid {
    let mut pixels = Vec::new();
    for _ in 0..2 {
        let mut row = Vec::new();
        for _ in 0..20 {
            row.push(Pixel { is_valid: true, ..Default::default() });
        }
        pixels.push(row);
    }
    Grid {
        core: (0, 0, 200, 40),
        site_width: 10,
        row_count: 2,
        row_site_count: 20,
        pixels,
        row_sites: vec![vec![(0, 20, "S".to_string())]; 2],
        row_y: vec![0, 20, 40],
        row_orient: vec!["R0".to_string(); 2],
        blocked_layers_populated: false,
    }
}

/// Two rows of twenty sites, with these cells and a net from each of the first two to a terminal.
fn design(cells: Vec<CellInput>) -> SetupInput {
    let terms = vec![term("right", 190, 0), term("left", 0, 0)];
    let nets = vec![net("a", "right"), net("b", "left")];
    let mut nodes = create_network(&cells, &terms, 0, 0);
    let wiring = build_pins(&nets, &nodes);
    let arch = create_architecture(&vec![arch_row(0), arch_row(20)], 0, 0, &mut nodes);
    let n = nodes.len();
    SetupInput {
        arch,
        grid: grid(),
        wiring,
        sites: vec!["S".to_string(); n],
        sym: vec![(true, true, false); n],
        used_layers: vec![0; n],
        classes: vec![Class::Cr; n],
        rails: vec![vec![(true, false); 2]; n],
        master_rails: vec![(0, 0); n],
        pad_sites: vec![(0, 0); n],
        turns: vec![Orient::R0; n],
        boxes: Vec::new(),
        groups: Vec::new(),
        disallow_gaps: false,
        edge_faults: Vec::new(),
        nodes,
    }
}

const LIMIT: i32 = 0x0800_0000;

const OUT_OF_RANGE: &str = "the design's coordinates are out of range";

/// What improving did.
#[derive(Debug, Default)]
struct Report {
    hpwl_before: u64,
    hpwl_after: u64,
    stage_lines: Vec<String>,
    not_done: Vec<String>,
    finish: Option<Finish>,
}

/// The stages in order, then the finish.
fn improve(s: &mut Setup, opts: &Options) -> Result<Report, String> {
    if !s.live.in_reach(&s.land) {
        return Err(OUT_OF_RANGE.to_string());
    }
    let mut rep = Report { hpwl_before: s.live.total_hpwl(&s.land), ..Default::default() };
    let plan = plan(opts, s.land.disallow_gaps);
    for st in &plan.skipped {
        rep.not_done.push(format!("{} (skipped)", st.name()));
    }
    if opts.start_stage.is_some() && !plan.run.is_empty() {
        for _ in 0..opts.rng_skip.unwrap_or(0) {
            s.rng.next_u32();
        }
    }
    let show = |s: &Setup, rep: &mut Report, name: &str, when: &str| {
        if opts.trace_stages {
            rep.stage_lines.push(stage_line(&s.live.nodes, &s.rng, name, when));
        }
    };
    for st in &plan.run {
        s.log.extend(st.opening_lines());
        show(s, &mut rep, st.name(), "begin");
        match st {
            Stage::Matching => matching(s)?,
            Stage::GlobalSwap => {
                let lengths = global_swap(&s.land, &mut s.live, &mut s.rng, &s.single);
                pass_lines(&mut s.log, &lengths, ("DPL-0306", "DPL-0307"), "global swaps", "hpwl");
            }
            Stage::VerticalSwap => {
                let lengths = vertical_swap(&s.land, &mut s.live, &mut s.rng, &s.single);
                pass_lines(&mut s.log, &lengths, ("DPL-0308", "DPL-0309"), "vertical swaps", "hpwl");
            }
            Stage::Reorder => {
                let lengths = s.live.reorder(&s.land);
                pass_lines(&mut s.log, &lengths, ("DPL-0304", "DPL-0305"), "reordering", "objective");
            }
            Stage::Random => random_improver(s)?,
        }
        show(s, &mut rep, st.name(), "end");
    }
    if !plan.finish {
        rep.hpwl_after = s.live.total_hpwl(&s.land);
        return Ok(rep);
    }
    if plan.show_gap_rule {
        s.log.push(running_line("disallow_one_site_gaps"));
        show(s, &mut rep, "disallow_one_site_gaps", "begin");
    }
    show(s, &mut rep, "orient", "begin");
    let f = finish(&s.land, &mut s.live, opts.report_gaps).ok_or("too many cells in segments")?;
    s.log.extend(f.turn_lines());
    if f.lengths.0 != 0 {
        s.log.push(end_line("DPL-0384", "flipping", f.lengths));
    }
    s.log.extend(f.checks.lines());
    show(s, &mut rep, "orient", "end");
    if opts.report_gaps {
        rep.stage_lines.extend(f.gaps.iter().map(|(seg, id)| format!("VYGG|{seg}|{id}")));
        rep.stage_lines.push("VYGG|done".to_string());
    }
    if f.gaps_left > 0 {
        rep.not_done.push(format!("one-site-gap repair (fixOneSiteGapViolations): {} violation(s) left unrepaired", f.gaps_left));
    }
    rep.hpwl_after = f.hpwl;
    rep.finish = Some(f);
    Ok(rep)
}

/// A number as `1.493588e+07`.
fn sci(v: f64) -> String {
    let t = format!("{v:.6e}");
    let (m, e) = t.split_once('e').expect("an exponent");
    let e: i32 = e.parse().expect("a number");
    format!("{m}e{}{:02}", if e < 0 { '-' } else { '+' }, e.abs())
}

/// What the end of a stage says of the lengths before and after it.
fn end_line(id: &str, what: &str, lengths: (u64, u64)) -> String {
    let (init, curr) = (lengths.0 as f64, lengths.1 as f64);
    let gain = (init - curr) / init * 100.0;
    format!("[INFO {id}] End of {what}; objective is {}, improvement is {gain:.2} percent.", sci(curr))
}

/// What passes say, from the lengths before and after each. Nothing where the nets have no length.
fn pass_lines(log: &mut Vec<String>, lengths: &[u64], ids: (&str, &str), what: &str, measure: &str) {
    for (p, &v) in lengths.iter().enumerate().skip(1) {
        log.push(format!("[INFO {}] Pass {p:3} of {what}; {measure} is {}.", ids.0, sci(v as f64)));
    }
    if lengths[0] != 0 {
        log.push(end_line(ids.1, what, (lengths[0], lengths[lengths.len() - 1])));
    }
}

/// Passes of matching. The bins have sides of five average cells, which is floating point.
fn matching(s: &mut Setup) -> Result<(), String> {
    s.live.resort_segments(&s.land);
    let mut curr = s.live.total_hpwl_xy(&s.land);
    let init = curr;
    if init == 0 {
        return Ok(());
    }
    let mut cands = movers(&s.single, &s.multi);
    if cands.is_empty() {
        s.log.extend(Stage::Matching.idle_line());
        return Ok(());
    }
    let colors = s.live.mis_color(&s.land, &cands);
    let count = cands.len() as f64;
    let avg = |f: &dyn Fn(usize) -> i32| cands.iter().map(|&c| f64::from(f(c))).sum::<f64>() / count;
    let root = (MIS_MAX_PROBLEM as f64).sqrt();
    let step = (avg(&|c| s.live.nodes[c].width) * root, avg(&|c| s.live.nodes[c].height) * root);
    let a = &s.land.arch;
    let (xmin, ymin) = (f64::from(a.min_x), f64::from(a.min_y));
    let cols = ((f64::from(a.max_x) - xmin) / step.0).ceil() as usize;
    let rows = ((f64::from(a.max_y) - ymin) / step.1).ceil() as usize;
    let sides = 1..=i32::MAX as usize;
    if !sides.contains(&cols) || !sides.contains(&rows) || cols.checked_mul(rows).is_none() {
        return Err("the rows cannot be divided into bins".to_string());
    }
    for p in 1..=PASSES {
        s.log.push(format!("[INFO DPL-0301] Pass {p:3} of matching; objective is {}.", sci(curr as f64)));
        let mut at = vec![0; s.live.nodes.len()];
        for &c in &cands {
            let n = &s.live.nodes[c];
            let x = f64::from(n.left) + 0.5 * f64::from(n.width);
            let y = f64::from(n.bottom) + 0.5 * f64::from(n.height);
            let j = (((y - ymin) / step.1) as i32).min(rows as i32 - 1).max(0) as usize;
            let i = (((x - xmin) / step.0) as i32).min(cols as i32 - 1).max(0) as usize;
            at[c] = i * rows + j;
        }
        mis_place(&s.land, &mut s.live, &mut s.rng, &mut cands, &colors, &Bins { cols, rows, at });
        let last = curr;
        curr = s.live.total_hpwl_xy(&s.land);
        if changes_little(last, curr) {
            break;
        }
    }
    s.live.resort_segments(&s.land);
    s.log.push(end_line("DPL-0302", "matching", (init, curr)));
    Ok(())
}

/// Passes of random moves. The mesh over the rows is floating point.
fn random_improver(s: &mut Setup) -> Result<(), String> {
    let mut kept = Hpwl::new(&s.land);
    let first = kept.curr(&s.land, &s.live) as f64;
    let a = &s.land.arch;
    let ydim = a.rows.len();
    let width = f64::from(a.max_x - a.min_x);
    let xdim = ((width / f64::from(a.rows[0].site_spacing)) as i32).max(0) as usize;
    let xwid = width / xdim as f64;
    let ywid = f64::from(a.max_y - a.min_y) / ydim as f64;
    let (min_x, min_y, srh) = (f64::from(a.min_x), f64::from(a.min_y), f64::from(a.rows[0].height));
    let places = if xdim == 0 {
        // No place at all: nothing is ever found there.
        vec![(i32::MIN, i32::MAX, i32::MIN)]
    } else {
        (0..xdim)
            .map(|i| {
                let x = min_x + i as f64 * xwid;
                (x.floor() as i32, x.ceil() as i32, x.round() as i32)
            })
            .collect()
    };
    let rows = (0..ydim)
        .map(|j| {
            let y = min_y + j as f64 * ywid;
            (((y - min_y) / srh) as i32).max(0).min(ydim as i32 - 1) as usize
        })
        .collect();
    let mesh = Mesh { places, rows };
    if mesh.places.len() > LIMIT as usize {
        return Err(OUT_OF_RANGE.to_string());
    }
    let mut trials = Trials::default();
    for p in 1..=RANDOM_PASSES {
        s.live.resort_segments(&s.land);
        let mut cands = movers(&s.single, &s.multi);
        let gain_line = |gain: f64| format!("[INFO DPL-0327] Pass {p:3} of random improver; improvement in cost is {:.2} percent.", gain * 100.0);
        if cands.is_empty() {
            s.log.extend(Stage::Random.idle_line());
            s.log.push(gain_line(0.0));
            break;
        }
        let tries = TRIES_PER_CANDIDATE * cands.len();
        s.rng.shuffle(&mut cands);
        let init = kept.curr(&s.land, &s.live);
        let mut curr = init;
        for _ in 0..tries {
            s.rng.get_random(1);
            trials.attempts += 1;
            let Some(nd) = s.live.pick(&s.land, &mut s.rng, &cands) else { continue };
            let n = &s.live.nodes[nd];
            let x = f64::from(n.left) + 0.5 * f64::from(n.width);
            let y = f64::from(n.bottom) + 0.5 * f64::from(n.height);
            let gx = (((x - min_x) / xwid) as i32).max(0).min(mesh.places.len() as i32 - 1) as usize;
            let gy = (((y - min_y) / ywid) as i32).max(0).min(ydim as i32 - 1) as usize;
            assert!(!s.live.cell_segs[nd].is_empty(), "a candidate is in a segment");
            match s.live.generate(&s.land, &mut s.rng, nd, &mesh, gx, gy) {
                Tried::Failed => continue,
                Tried::Moved => trials.moves += 1,
                Tried::Swapped => trials.swaps += 1,
            }
            curr -= kept.decide(&s.land, &mut s.live);
        }
        s.log.extend(trials.lines(tries as u64));
        let scratch = kept.curr(&s.land, &s.live);
        s.log.push(format!(
            "[INFO DPL-0333] End of pass, Objective hpwl, Initial cost {}, Scratch cost {}, Incremental cost {}, Mismatch? {}",
            sci(init as f64),
            sci(scratch as f64),
            sci(curr as f64),
            if scratch == curr { 'N' } else { 'Y' }
        ));
        s.log.push(format!("[INFO DPL-0338] End of pass, Total cost is {}.", sci(scratch as f64)));
        s.log.push(gain_line((init - curr) as f64 / init as f64));
        if gained_little(init, curr) {
            break;
        }
    }
    s.live.resort_segments(&s.land);
    let last = kept.curr(&s.land, &s.live) as f64;
    s.log.push(format!("[INFO DPL-0328] End of random improver; improvement is {:.6} percent.", (first - last) / first * 100.0));
    Ok(())
}


#[test]
fn all_stages_together_shorten_the_nets_and_keep_the_placement_legal() {
    let cells = vec![cell("a", 0, 0, false), cell("b", 100, 0, false), cell("c", 120, 20, false), cell("d", 40, 20, false)];
    let mut s = match setup(design(cells)) {
        Ok(s) => s,
        Err(e) => panic!("{e:?}"),
    };
    let o = Options { rng_skip: None, trace_stages: true, inject_file: None, start_stage: None, stop_stage: None, report_gaps: true };
    let r = match improve(&mut s, &o) {
        Ok(r) => r,
        Err(e) => panic!("{e}"),
    };
    assert_eq!(r.hpwl_before, 190 + 120);
    assert!(r.hpwl_after < r.hpwl_before, "{} < {}", r.hpwl_after, r.hpwl_before);
    assert_eq!(r.stage_lines.len(), 2 * 5 + 2 + 1, "{:?}", r.stage_lines);
    assert!(r.stage_lines[0].starts_with("VYGS|stage|mis|begin|rng=1791095845|0:0:0:R0;"));
    assert!(r.not_done.is_empty());
    let c = &r.finish.unwrap().checks;
    assert_eq!((c.wrong_region, c.row_alignment, c.site_alignment, c.overlaps, c.edge_spacing, c.padding), (0, 0, 0, 0, 0, 0));
    let ids: Vec<&str> = s.log.iter().map(|l| &l[l.len().min(6)..l.len().min(14)]).collect();
    assert_eq!(ids[11..15], ["DPL-0312", "DPL-0303", "DPL-0300", "DPL-0301"], "{:?}", s.log);
    assert_eq!(ids[ids.len() - 9..], ["DPL-0380", "DPL-0382", "DPL-0383", "DPL-0384", "DPL-0313", "DPL-0315", "DPL-0314", "DPL-0311", "DPL-0312"]);
    for id in ["DPL-0302", "DPL-0304", "DPL-0305", "DPL-0306", "DPL-0307", "DPL-0308", "DPL-0309", "DPL-0327", "DPL-0328", "DPL-0333", "DPL-0335"] {
        assert!(ids.contains(&id), "{id}: {:?}", s.log);
    }
    // The nets end where no place in the rows is nearer.
    assert_eq!(r.hpwl_after, 10 + 20);
}
