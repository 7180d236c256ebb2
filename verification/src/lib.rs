//! An ordered map kept as one sorted vector of key-value pairs.
//!
//! Lookups halve the vector; insertions and removals shift what lies behind
//! the slot. The map suits key sets that are built once and read often.

pub mod flat_map;
pub mod laws;
pub mod lexical;
pub mod model;
pub mod order;
pub mod search;

pub use crate::flat_map::Entry::{Occupied, Vacant};
pub use crate::flat_map::FlatMap;
