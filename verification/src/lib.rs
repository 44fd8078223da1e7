//! Halyard: a deterministic, gas-metered, capability-gated register machine
//! for running untrusted automation steps, with its assembler.

pub mod assembler;
pub mod host;
pub mod image;
pub mod instr;
pub mod laws;
pub mod le;
pub mod lex;
pub mod op;
pub mod program;
pub mod reassembly;
pub mod run;
pub mod semantics;
pub mod sys;
pub mod text;
pub mod trap;
pub mod vm;

pub use crate::instr::Instr;
pub use crate::op::Op;
pub use crate::program::Program;
pub use crate::vm::{Cap, Config, Status, Vm};
