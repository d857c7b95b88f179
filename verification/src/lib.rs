pub mod assembler;
pub mod text;
pub mod types;
pub mod vm;

pub use assembler::{assemble, decode, encode, DecodeError};
pub use types::{AsmError, Op, Program, VmError};
pub use vm::{run_collect, Vm};
