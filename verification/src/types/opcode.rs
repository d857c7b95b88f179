//! Opcode bytes, shared by the binary encoder and decoder.
use vstd::prelude::*;

verus! {

pub const PUSH: u8 = 0;
pub const POP: u8 = 1;
pub const DUP: u8 = 2;
pub const ADD: u8 = 3;
pub const SUB: u8 = 4;
pub const MUL: u8 = 5;
pub const DIV: u8 = 6;
pub const MOD: u8 = 7;
pub const NEG: u8 = 8;
pub const EQ: u8 = 9;
pub const LT: u8 = 10;
pub const GT: u8 = 11;
pub const LOAD: u8 = 12;
pub const STORE: u8 = 13;
pub const JMP: u8 = 14;
pub const JZ: u8 = 15;
pub const JNZ: u8 = 16;
pub const CALL: u8 = 17;
pub const RET: u8 = 18;
pub const PRINT: u8 = 19;
pub const HALT: u8 = 20;

} // verus!
