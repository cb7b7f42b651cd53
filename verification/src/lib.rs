//! An exact-cover solver in the style of Knuth's Algorithm X, with optional
//! conditions and preselected items. A problem maps items (rows) to the
//! conditions (columns) they satisfy; the solver enumerates every selection of
//! items that covers each required condition exactly once and each optional
//! condition at most once.
use vstd::prelude::*;

pub mod model;

pub mod problem;

pub mod solver;

verus! {

pub use problem::{Problem, set_condition, ItemType, ConditionType};

pub use solver::{run, solve, RunError, Solution};

} // verus!
