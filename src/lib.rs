//! Wire codec and job preparation for a batch prover of board-game rounds.
pub mod abi;
pub mod decimal;
pub mod error;
pub mod job;
pub mod proofs;
pub mod publics;
pub mod symbol;
pub mod transcript;
pub mod word;
