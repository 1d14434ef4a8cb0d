//! Maximally-delayed flows on open graphs of measurement-based quantum
//! computation: causal flow (`flow`), generalized flow (`gflow`) and Pauli
//! flow (`pflow`).
//!
//! The Pauli search builds, for each uncorrected vertex, up to three linear
//! systems over GF(2) (`work`) and solves them by in-place elimination on rows
//! of bits (`gf2_linalg`, over `bitrow`). Each accepted correction set is proved
//! to meet the definition of a Pauli flow (`plane`); a search that gives up
//! leaves a certificate that no remaining vertex can be corrected.
use vstd::prelude::*;

pub mod bitrow;
pub mod common;
pub mod flow;
pub mod gf2_linalg;
pub mod gflow;
pub mod parity;
pub mod pflow;
pub mod plane;
pub mod posmap;
pub mod work;

verus! {

} // verus!
