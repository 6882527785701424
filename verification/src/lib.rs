//! A stabilizer-formalism simulator for Clifford circuits.
//!
//! The state of `n` qubits is kept as a tableau of `n` Pauli generators,
//! each a pair of packed bit rows with a sign bit. Clifford gates rewrite the
//! tableau in place; a measurement in the computational basis either reads a
//! forced outcome off the tableau or collapses it with one random bit.
//!
//! The executable part is in [`bitarray`], [`fakerng`], [`rng`],
//! [`simulator`] and [`text`]. Its contracts are stated over the models in
//! [`tableau`], [`measurement`] and [`operation`]. What holds of those models
//! is proved in [`laws`], [`basis`], [`stabilizer`], [`elimination`],
//! [`preserved`] and [`group`].

pub mod basis;
pub mod bitarray;
pub mod elimination;
pub mod fakerng;
pub mod group;
pub mod laws;
pub mod measurement;
pub mod operation;
pub mod opid;
pub mod parity;
pub mod preserved;
pub mod rng;
pub mod simulator;
pub mod stabilizer;
pub mod tableau;
pub mod text;

pub use bitarray::BitArray;
pub use bitarray::TIndices;
pub use fakerng::RepeatSeqFakeRng;
pub use operation::Operation;
pub use rng::DefaultRng;
pub use rng::RandomSource;
pub use simulator::GottesmanKnillSimulator;
