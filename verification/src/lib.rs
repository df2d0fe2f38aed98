//! Fraud-proof machinery over a RISC-V execution trace.
//!
//! A prover runs a deterministic RISC-V program and emits a 32-byte state
//! commitment after every retired instruction.  Memory is held in a sparse
//! Merkle tree so that the commitment covers every byte of memory, and a
//! tracer records the pre-state of every tree key touched while one
//! instruction executes.  From that trace a step proof is assembled, from
//! which a stateless verifier rebuilds the machine, replays the single
//! instruction, and recomputes the commitment.  A dissection game narrows a
//! disagreement over a whole trace to one such step.

pub mod bytes32;
pub mod codec;
pub mod dissection;
pub mod error;
pub mod hash;
pub mod kvlist;
pub mod lock;
pub mod machine;
pub mod memory;
pub mod smt;
