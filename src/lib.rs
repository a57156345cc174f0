//! Weighted finite-state transducers over semirings, with verified contracts.
use vstd::prelude::*;

pub mod arcsort;
pub mod cache_state;
pub mod connect;
pub mod const_fst;
pub mod error;
pub mod fst;
pub mod reverse;
pub mod rm_final_epsilon;
pub mod semirings;
pub mod shortest_distance;
pub mod symbol_table;
pub mod tr;
pub mod vector_fst;
pub mod weight_pushing;

verus! {

/// A transition label. Only equality with `EPS_LABEL` is significant to algorithms.
pub type Label = usize;

/// A state identifier: states of an FST are numbered `0..num_states`.
pub type StateId = usize;

/// The reserved epsilon label.
pub const EPS_LABEL: usize = 0;

/// The symbol of the epsilon label in symbol tables.
pub const EPS_SYMBOL: &'static str = "<eps>";

} // verus!
