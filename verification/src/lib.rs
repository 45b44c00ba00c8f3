//! Detailed placement over a design database: legality checking, legalization by negotiated
//! congestion or diamond search, filler insertion, and placement improvement.
//!
//! Everything here works on plain values read out of a design. Coordinates are database units
//! (DBU) relative to the core area unless a doc comment says otherwise.

pub mod arith;
pub mod check;
pub mod check_laws;
pub mod checks;
pub mod checks_laws;
pub mod clumps;
pub mod consts;
pub mod diamond;
pub mod drc;
pub mod driver;
pub mod fill_laws;
pub mod fillers;
pub mod flips;
pub mod gaps;
pub mod globs;
pub mod grid;
pub mod grid_laws;
pub mod improve;
pub mod improver;
pub mod inject;
pub mod inject_laws;
pub mod land;
pub mod legal;
pub mod length_laws;
pub mod lines;
pub mod lemon;
pub mod master_laws;
pub mod matching;
pub mod matching_laws;
pub mod mirror;
pub mod mirror_laws;
pub mod moves;
pub mod neg_grid;
pub mod neg_laws;
pub mod neg_legalize;
pub mod neg_rules;
pub mod negotiate;
pub mod net;
pub mod netlist;
pub mod network;
pub mod objective;
pub mod orient;
pub mod padding;
pub mod pass_laws;
pub mod permute;
pub mod place;
pub mod place_laws;
pub mod random;
pub mod records;
pub mod region_laws;
pub mod regions;
pub mod reorder;
pub mod rows;
pub mod rule_laws;
pub mod run;
pub mod search;
pub mod search_laws;
pub mod segment_laws;
pub mod segments;
pub mod setup;
pub mod setup_laws;
pub mod shift;
pub mod shift_dp;
pub mod simplex;
pub mod simplex_laws;
pub mod sort;
pub mod swap_passes;
pub mod swaps;
pub mod start_laws;
pub mod sweep;
pub mod tally;
pub mod text;
pub mod tries;
pub mod usage;
