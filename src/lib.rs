//! An interpreter for a small stack-and-tape language: a tokenizer, a
//! peephole optimizer and a virtual machine, with the framing used by the
//! instruction-level debugger.
//!
//! The machine does no input or output itself: `VirtualMachine::run_cycle`
//! returns what has to be printed or read, and the caller does it.
pub mod debugger;
pub mod instruction;
pub mod lexer;
pub mod machine;
pub mod opcode;
pub mod optimizer;
pub mod text;

pub use debugger::DebugInformation;
pub use instruction::Instruction;
pub use lexer::Lexer;
pub use machine::{Effect, PrintMode, VirtualMachine, VmError};
pub use opcode::Opcode;
pub use optimizer::{Optimizer, OptimizerPass};
