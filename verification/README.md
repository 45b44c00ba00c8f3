# vyges-dpl

Detailed placement over a design database: checking that a placement is legal, making it legal,
filling its gaps, and improving it.

`src/` is the library. All of it is executable Rust whose behaviour is stated in contracts and proved
by Verus. It works on plain values read out of a design. `app/` is the program around it: the command
line, the database, and what is measured in floating point.

## Layout of the library

- **The grid.** `grid`, `drc` (rules between cells), `regions` (placement groups and fences),
  `network` (which instances are cells).
- **Checking.** `check`, `padding` (sites a cell keeps free).
- **Legalizing by negotiation.** `negotiate` (costs and keys), `search` (windows and candidates),
  `neg_grid`, `sweep` (one sweep), `run` (phases and stalls), `neg_rules` and `neg_legalize` (a design).
- **Legalizing by diamond search.** `diamond` (points by distance), `place` (a design), `place_laws`. Both legalizers
  count what they leave out with `tally`.
- **Filling.** `globs` (patterns and names), `fillers`.
- **Improving.** `orient`, `rows`, `segments`, `netlist`, `land` and `moves` (the state and its journal),
  `legal`, `clumps`, `shift` (into segments, without overlaps), `setup`, then the stages: `matching`
  with `matching_laws`, `lemon`, `net`, `simplex` and `simplex_laws`, `swap_passes` with `swaps`, `tries` and `shift_dp`, `reorder` with
  `permute`, `improver`; `flips`, `gaps`, `checks` and `driver` come after them. `objective` measures
  nets, `random` draws numbers, `lines` says what is done, `records` and `inject` write and read states (`inject_laws`).
- **Mirroring.** `mirror`.

Public proof functions whose names begin with `law_` state what holds across functions: that a
converged run leaves every cell legal, that matching finds every cell one spot and is cheapest, that
undoing a move restores the places, and so on.

Costs of the negotiation are counted in millionths. Coordinates are database units relative to the core
unless a comment says otherwise.
