//! sylva_core: the device-neutral, integer core of a counter-based random
//! forest trainer, with its contracts proved by Verus.
use vstd::prelude::*;

pub mod backend;
pub mod bootstrap;
pub mod choice;
pub mod config;
pub mod error;
pub mod fit;
pub mod float;
pub mod float64;
pub mod forest;
pub mod ir;
pub mod labels;
pub mod launch;
pub mod parity;
pub mod partition;
pub mod tree;
pub mod rng;
pub mod settings;
pub mod split;

verus! {

} // verus!
