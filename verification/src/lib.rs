//! A linear-cryptanalysis workbench for substitution-permutation-network
//! block ciphers, instantiated for the PRESENT cipher.
//!
//! The crate models an SPN cipher through a substitution box, a bit
//! permutation and a key schedule, computes the linear approximation table
//! of the sbox by a fast Walsh-Hadamard transform, propagates one-bit
//! linear trails across rounds with a transfer matrix raised to the round
//! count, and validates predicted biases empirically.

pub mod analysis;
pub mod bits;
pub mod experiment;
pub mod keys;
pub mod matrix;
pub mod present;
pub mod sbox;
pub mod state;
pub mod sums;
pub mod walsh;
