//! Exact 0/1 knapsack solver: a density ordering of the items followed by a
//! branch-and-bound search over include/exclude decisions.
use vstd::prelude::*;

pub mod density;
pub mod item;
pub mod search;

pub use density::{confirm_blocking, sort_by_density};
pub use item::{make_items, select_items, suffix_value, sum_values, sum_weights, Item, SearchResult};
pub use search::rods_technique;

verus! {

} // verus!
