//! The negotiation's constants. Costs are counted in millionths, so that decimal settings are whole numbers.

use vstd::prelude::*;

verus! {

/// How many parts one unit of cost is counted in.
pub const COST_UNIT: i128 = 1000000;

/// An unusable location: half of the largest `i32`, in millionths.
pub const INF_COST: i128 = 1073741823000000;

/// Base search width along the row, in sites.
pub const SITE_SEARCH_WINDOW: i32 = 20;

/// Base search width across rows.
pub const ROW_SEARCH_WINDOW: i32 = 5;

/// Base penalty of a rule violation, in millionths, scaled by `1 + iter`.
pub const DRC_PENALTY: i64 = 5000000;

/// Iteration limit of the first phase.
pub const MAX_ITER_NEG: i32 = 400;

/// Iteration limit of the second phase.
pub const MAX_ITER_NEG2: i32 = 1000;

/// From this iteration on, a cell that is already legal is skipped.
pub const ISOLATION_PT: i32 = 1;

/// The displacement penalty past the threshold, in millionths.
pub const MAX_DISP_MULTIPLIER: i64 = 1500000;

/// The displacement past which it costs more, in sites.
pub const MAX_DISP_THRESHOLD: i64 = 30;

/// How far a cell may move, in sites.
pub const MAX_DISPLACEMENT_X: i32 = 500;

/// How far a cell may move, in rows.
pub const MAX_DISPLACEMENT_Y: i32 = 100;

} // verus!
