//! A small interpreter for the eight-instruction tape language: a compiler that
//! folds runs of identical operators and pairs the brackets, and a machine that
//! runs the resulting program one instruction at a time.
//!
//! - `op`: the instructions.
//! - `compile`: source bytes to a program, with the bracket pairing proved.
//! - `machine`: the tape machine, one step at a time, input and output left to
//!   the caller.
//! - `run`: a bounded run against input held in memory.
//! - `cli`: the decisions around a run from the command line.
pub mod op;
pub mod compile;
pub mod machine;
pub mod run;
pub mod cli;
