//! The identifiers of the operations that a simulator understands.

use vstd::prelude::*;

verus! {

/// Puts every qubit back to zero.
pub const INIT: u16 = 1;

/// Measures a qubit into a result slot.
pub const MEAS: u16 = 2;

pub const X: u16 = 3;

pub const Y: u16 = 4;

pub const Z: u16 = 5;

pub const H: u16 = 6;

pub const S: u16 = 7;

/// The inverse of `S`.
pub const SDG: u16 = 8;

pub const CX: u16 = 11;

} // verus!
