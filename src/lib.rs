//! A compiler for tape machines: it resolves per-state transition conditions
//! into a total dispatch table over `(state, symbol)` pairs, and lowers that
//! table into the control-flow graph of a read-execute loop.

pub mod compile;
pub mod emit;
pub mod index;
pub mod lower;
pub mod machine;
pub mod resolve;
pub mod run;
