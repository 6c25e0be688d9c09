//! Preference regions of paths in multi-criteria road networks: the
//! combinatorial core (graph layout, hull ring, solver protocol, bit sets)
//! with machine-checked contracts.

pub mod geom;
pub mod graph;
pub mod lp;
pub mod preference;
pub mod region;
pub mod utils;
