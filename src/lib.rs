//! A continuous-state cellular automaton of the Lenia family on a toroidal grid.
//!
//! Cell values, potentials and rates are fixed-point numbers: the integer
//! `ONE` stands for 1.0, so a cell value lies in `0..=ONE`.
use vstd::prelude::*;

pub mod arith;
pub mod engine;
pub mod growth;
pub mod kernel;
pub mod potential;
pub mod render;
pub mod seed;

verus! {

/// The fixed-point value of 1.0.
pub const ONE: u32 = 1_000_000;

} // verus!
