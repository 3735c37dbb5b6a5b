//! An interpreter for a tiny eight-instruction language on a circular byte tape.
//!
//! Program text is first compiled by [`parse_instructions`] into a flat instruction
//! sequence whose loop brackets already know each other's positions; a [`Machine`]
//! then runs that sequence under an iteration budget.
pub mod machine;
pub mod program;

pub use machine::{Event, ExecutionTerminationCondition, Machine, MEMORY_SIZE};
pub use program::{parse_instructions, Error, Instruction};
