//! What the command line says of itself.

use vstd::prelude::*;

verus! {

/// The help text.
pub const USAGE: &'static str = "\
vyges physical dpl: detailed placement, legality checking and legalization over the design database

USAGE:
  vyges physical dpl check-placement    <design.odb> [--json] [-o FILE] [--padding-* ...]
  vyges physical dpl detailed-placement <design.odb> [--out-odb FILE] [--dry-run] [OPTIONS]
  vyges physical dpl filler-placement   <design.odb> PATTERN... [--prefix P] [--out-odb FILE]
  vyges physical dpl --describe | --help | --version

OPTIONS:
  --out-odb FILE            write the legalized database here (default: nothing is written)
  --dry-run                 legalize and report, write no database
  --use-diamond-legalizer   use the diamond search instead of negotiation
  --max-displacement N[,M]  cap the move at N sites and M rows (default: 500,100)
  --site-search-window N    base search width along the row, in sites (default: 20)
  --row-search-window N     base search height, in rows (default: 5)
  --drc-penalty F           cost added per DRC violation at a candidate site (default: 5)
  --disable-window-extension  do not widen the search window past a macro or a wall
  -o FILE                   write the report to FILE instead of stdout
  --json                    emit JSON (the default)
  --describe                print a machine-readable JSON description of the command

EXIT STATUS:
  0  legalized   every cell was seated; the database was written unless --dry-run
  0  clean       check-placement found no violation
  0  vacuous     the run placed nothing, which is not a completed legalization; read the count
  1  failed      a cell could not be seated, or a check family found violations
  2  error       usage error, an unreadable database, or a failed write

SCOPE: legalization runs the negotiation legalizer; --use-diamond-legalizer selects the diamond
   one. Whichever runs, what it does not do is named in `not_done` on every run, and every
   instance the model filter left out is counted in `filtered_out`.

   There are nine check families. A family that cannot run on a design, or whose data is not given,
   is reported in `not_checked`, and one that ran under a restriction says so in `limitations`.

   There is no flag for `disallow_one_site_gaps` on purpose: the setting follows from whether a
   master is one site wide, so a flag could not change the result. `incremental` runs are not
   supported and are named in `not_done`.
";

} // verus!
