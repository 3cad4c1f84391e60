//! A small fixed-instruction-set virtual machine (35 opcodes, 16 eight-bit
//! registers, 4096 bytes of memory, a 64x32 monochrome display, a 16-key
//! keypad and a countdown timer), together with a static control-flow
//! analyzer for raw instruction streams.
//!
//! The crate has three parts:
//! - [`instruction`]: the instruction type and the decoder/encoder pair,
//!   proved to round-trip;
//! - [`cpu`]: the machine state and the execution engine, whose `step`
//!   is proved against a full transition relation;
//! - [`analyze`]: the control-flow analyzer, which builds a graph of basic
//!   blocks, coalesces straight-line runs, and marks reachable blocks, with
//!   the structural invariants proved.

pub mod analyze;
pub mod cpu;
pub mod instruction;
