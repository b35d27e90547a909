//! A Brainfuck interpreter in two stages: a linker that turns source bytes
//! into an opcode sequence with resolved jump targets, and a machine that
//! executes such a sequence on a fixed tape of byte cells.
//!
//! The machine does no I/O of its own. [`Machine::step`] takes the byte that
//! an `Input` opcode reads and hands back the byte that an `Output` opcode
//! writes, so a driver can connect it to any stream; [`interpret`] runs a
//! whole program against a buffer of input bytes under a step limit.

pub mod brackets;
pub mod interpreter;
pub mod machine;
pub mod opcode;
pub mod parser;

pub use crate::interpreter::{interpret, Execution, Status};
pub use crate::machine::{Effect, Fault, Machine, TAPE_LEN};
pub use crate::opcode::{is_well_formed, Opcode};
pub use crate::parser::{parse, ParseError};
