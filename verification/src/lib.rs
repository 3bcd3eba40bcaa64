//! Core of a STARK prover over the 64-bit "Goldilocks" prime field: field and
//! polynomial arithmetic, constraint accumulation, the stack constraints of a
//! CPU table in numeric and circuit form, and the staging of a proving run.

pub mod field;
pub mod constraint_consumer;
pub mod columns;
pub mod stack;
pub mod circuit;
pub mod stack_circuit;
pub mod polynomial;
pub mod extension;
pub mod stark;
pub mod quotient;
pub mod opening;
pub mod prover;
pub mod domain;
