//! Exact 0/1 knapsack by branch and bound.
//!
//! Items are ordered by worth per unit of weight, a depth-first search walks
//! the take/leave decisions in that order, and a relaxation bound cuts every
//! branch that cannot beat the best selection found so far.  Every function
//! is verified: [`solve`] is proved to return a selection that fits the
//! capacity and that no other fitting selection outvalues.

pub mod bound;
pub mod input;
pub mod item;
pub mod ranking;
pub mod rearrange;
pub mod relaxation;
pub mod search;
pub mod selection;
pub mod solver;
pub mod sorter;

pub use crate::bound::{bound, UpperBound};
pub use crate::input::{parse_input, twin_items, InputError};
pub use crate::item::{Item, Value, Weight};
pub use crate::search::{crawl, Node};
pub use crate::solver::{solve, values_fit};
pub use crate::sorter::{goes_first, sort};
