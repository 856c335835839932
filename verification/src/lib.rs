//! Verified core of an evolutionary predator-prey simulation.
//!
//! The library holds the integer and structural logic of the simulation:
//! the growing neural-network topology with its cycle checks, the toroidal
//! spatial-hash grid, population and reproduction rules, recorded frames,
//! and the small command-line helpers of the tools around it.
//! Weights and other real numbers are carried as IEEE-754 `binary32` bit
//! patterns (`u32`); the arithmetic on them happens outside the library.
use vstd::prelude::*;

pub mod seq_facts;
pub mod brain;
pub mod cycles;
pub mod peeling;
pub mod rng;
pub mod mutation;
pub mod spatial_hash;
pub mod settings;
pub mod population;
pub mod data;
pub mod cli;
pub mod layered;
pub mod acyclic;
pub mod workload;

verus! {

} // verus!
