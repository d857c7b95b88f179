//! The instruction set, programs, and the two error types of the assembler
//! and the executor.
pub mod opcode;

use crate::text::{decimal_int, hex_byte, push_decimal_i64, push_decimal_u64, push_hex_byte};
use vstd::prelude::*;

verus! {

/// A single decoded instruction. Labels are resolved to instruction
/// indices by the assembler before this type is ever constructed.
#[derive(Debug, Clone, Copy, PartialEq, Eq, Structural)]
pub enum Op {
    Push(i64),
    Pop,
    Dup,
    Add,
    Sub,
    Mul,
    Div,
    Mod,
    Neg,
    Eq,
    Lt,
    Gt,
    Load(i64),
    Store(i64),
    Jmp(i64),
    Jz(i64),
    Jnz(i64),
    Call(i64),
    Ret,
    Print,
    Halt,
}

/// The opcode byte of an instruction.
pub open spec fn op_code(op: Op) -> u8 {
    match op {
        Op::Push(_) => opcode::PUSH,
        Op::Pop => opcode::POP,
        Op::Dup => opcode::DUP,
        Op::Add => opcode::ADD,
        Op::Sub => opcode::SUB,
        Op::Mul => opcode::MUL,
        Op::Div => opcode::DIV,
        Op::Mod => opcode::MOD,
        Op::Neg => opcode::NEG,
        Op::Eq => opcode::EQ,
        Op::Lt => opcode::LT,
        Op::Gt => opcode::GT,
        Op::Load(_) => opcode::LOAD,
        Op::Store(_) => opcode::STORE,
        Op::Jmp(_) => opcode::JMP,
        Op::Jz(_) => opcode::JZ,
        Op::Jnz(_) => opcode::JNZ,
        Op::Call(_) => opcode::CALL,
        Op::Ret => opcode::RET,
        Op::Print => opcode::PRINT,
        Op::Halt => opcode::HALT,
    }
}

/// The operand an instruction carries, if its kind takes one.
pub open spec fn op_operand(op: Op) -> Option<i64> {
    match op {
        Op::Push(n) => Some(n),
        Op::Load(n) => Some(n),
        Op::Store(n) => Some(n),
        Op::Jmp(n) => Some(n),
        Op::Jz(n) => Some(n),
        Op::Jnz(n) => Some(n),
        Op::Call(n) => Some(n),
        _ => None,
    }
}

/// The instruction with opcode byte `code` and operand `operand`; the operand
/// is ignored by the kinds that take none. `None` for a byte that is no opcode.
pub open spec fn op_from_code(code: u8, operand: i64) -> Option<Op> {
    if code == opcode::PUSH {
        Some(Op::Push(operand))
    } else if code == opcode::POP {
        Some(Op::Pop)
    } else if code == opcode::DUP {
        Some(Op::Dup)
    } else if code == opcode::ADD {
        Some(Op::Add)
    } else if code == opcode::SUB {
        Some(Op::Sub)
    } else if code == opcode::MUL {
        Some(Op::Mul)
    } else if code == opcode::DIV {
        Some(Op::Div)
    } else if code == opcode::MOD {
        Some(Op::Mod)
    } else if code == opcode::NEG {
        Some(Op::Neg)
    } else if code == opcode::EQ {
        Some(Op::Eq)
    } else if code == opcode::LT {
        Some(Op::Lt)
    } else if code == opcode::GT {
        Some(Op::Gt)
    } else if code == opcode::LOAD {
        Some(Op::Load(operand))
    } else if code == opcode::STORE {
        Some(Op::Store(operand))
    } else if code == opcode::JMP {
        Some(Op::Jmp(operand))
    } else if code == opcode::JZ {
        Some(Op::Jz(operand))
    } else if code == opcode::JNZ {
        Some(Op::Jnz(operand))
    } else if code == opcode::CALL {
        Some(Op::Call(operand))
    } else if code == opcode::RET {
        Some(Op::Ret)
    } else if code == opcode::PRINT {
        Some(Op::Print)
    } else if code == opcode::HALT {
        Some(Op::Halt)
    } else {
        None
    }
}

/// The upper-case mnemonic of the instruction kind with opcode byte `code`.
pub open spec fn mnemonic_of(code: u8) -> Seq<char> {
    if code == opcode::PUSH {
        seq!['P', 'U', 'S', 'H']
    } else if code == opcode::POP {
        seq!['P', 'O', 'P']
    } else if code == opcode::DUP {
        seq!['D', 'U', 'P']
    } else if code == opcode::ADD {
        seq!['A', 'D', 'D']
    } else if code == opcode::SUB {
        seq!['S', 'U', 'B']
    } else if code == opcode::MUL {
        seq!['M', 'U', 'L']
    } else if code == opcode::DIV {
        seq!['D', 'I', 'V']
    } else if code == opcode::MOD {
        seq!['M', 'O', 'D']
    } else if code == opcode::NEG {
        seq!['N', 'E', 'G']
    } else if code == opcode::EQ {
        seq!['E', 'Q']
    } else if code == opcode::LT {
        seq!['L', 'T']
    } else if code == opcode::GT {
        seq!['G', 'T']
    } else if code == opcode::LOAD {
        seq!['L', 'O', 'A', 'D']
    } else if code == opcode::STORE {
        seq!['S', 'T', 'O', 'R', 'E']
    } else if code == opcode::JMP {
        seq!['J', 'M', 'P']
    } else if code == opcode::JZ {
        seq!['J', 'Z']
    } else if code == opcode::JNZ {
        seq!['J', 'N', 'Z']
    } else if code == opcode::CALL {
        seq!['C', 'A', 'L', 'L']
    } else if code == opcode::RET {
        seq!['R', 'E', 'T']
    } else if code == opcode::PRINT {
        seq!['P', 'R', 'I', 'N', 'T']
    } else {
        seq!['H', 'A', 'L', 'T']
    }
}

impl Op {
    /// The instruction with opcode byte `code` and the given operand (ignored
    /// by the kinds that take none); `None` when `code` is no opcode.
    pub(crate) fn from_code(code: u8, operand: i64) -> (r: Option<Op>)
        ensures
            r == op_from_code(code, operand),
    {
        match code {
            opcode::PUSH => Some(Op::Push(operand)),
            opcode::POP => Some(Op::Pop),
            opcode::DUP => Some(Op::Dup),
            opcode::ADD => Some(Op::Add),
            opcode::SUB => Some(Op::Sub),
            opcode::MUL => Some(Op::Mul),
            opcode::DIV => Some(Op::Div),
            opcode::MOD => Some(Op::Mod),
            opcode::NEG => Some(Op::Neg),
            opcode::EQ => Some(Op::Eq),
            opcode::LT => Some(Op::Lt),
            opcode::GT => Some(Op::Gt),
            opcode::LOAD => Some(Op::Load(operand)),
            opcode::STORE => Some(Op::Store(operand)),
            opcode::JMP => Some(Op::Jmp(operand)),
            opcode::JZ => Some(Op::Jz(operand)),
            opcode::JNZ => Some(Op::Jnz(operand)),
            opcode::CALL => Some(Op::Call(operand)),
            opcode::RET => Some(Op::Ret),
            opcode::PRINT => Some(Op::Print),
            opcode::HALT => Some(Op::Halt),
            _ => None,
        }
    }

    pub fn code(&self) -> (c: u8)
        ensures
            c == op_code(*self),
    {
        match self {
            Op::Push(_) => opcode::PUSH,
            Op::Pop => opcode::POP,
            Op::Dup => opcode::DUP,
            Op::Add => opcode::ADD,
            Op::Sub => opcode::SUB,
            Op::Mul => opcode::MUL,
            Op::Div => opcode::DIV,
            Op::Mod => opcode::MOD,
            Op::Neg => opcode::NEG,
            Op::Eq => opcode::EQ,
            Op::Lt => opcode::LT,
            Op::Gt => opcode::GT,
            Op::Load(_) => opcode::LOAD,
            Op::Store(_) => opcode::STORE,
            Op::Jmp(_) => opcode::JMP,
            Op::Jz(_) => opcode::JZ,
            Op::Jnz(_) => opcode::JNZ,
            Op::Call(_) => opcode::CALL,
            Op::Ret => opcode::RET,
            Op::Print => opcode::PRINT,
            Op::Halt => opcode::HALT,
        }
    }

    pub fn operand(&self) -> (r: Option<i64>)
        ensures
            r == op_operand(*self),
    {
        match self {
            Op::Push(n) | Op::Load(n) | Op::Store(n) | Op::Jmp(n) | Op::Jz(n) | Op::Jnz(n)
            | Op::Call(n) => Some(*n),
            _ => None,
        }
    }

    pub fn mnemonic(&self) -> (m: &'static str)
        ensures
            m@ == mnemonic_of(op_code(*self)),
    {
        match self {
            Op::Push(_) => {
                proof { reveal_strlit("PUSH"); }
                "PUSH"
            },
            Op::Pop => {
                proof { reveal_strlit("POP"); }
                "POP"
            },
            Op::Dup => {
                proof { reveal_strlit("DUP"); }
                "DUP"
            },
            Op::Add => {
                proof { reveal_strlit("ADD"); }
                "ADD"
            },
            Op::Sub => {
                proof { reveal_strlit("SUB"); }
                "SUB"
            },
            Op::Mul => {
                proof { reveal_strlit("MUL"); }
                "MUL"
            },
            Op::Div => {
                proof { reveal_strlit("DIV"); }
                "DIV"
            },
            Op::Mod => {
                proof { reveal_strlit("MOD"); }
                "MOD"
            },
            Op::Neg => {
                proof { reveal_strlit("NEG"); }
                "NEG"
            },
            Op::Eq => {
                proof { reveal_strlit("EQ"); }
                "EQ"
            },
            Op::Lt => {
                proof { reveal_strlit("LT"); }
                "LT"
            },
            Op::Gt => {
                proof { reveal_strlit("GT"); }
                "GT"
            },
            Op::Load(_) => {
                proof { reveal_strlit("LOAD"); }
                "LOAD"
            },
            Op::Store(_) => {
                proof { reveal_strlit("STORE"); }
                "STORE"
            },
            Op::Jmp(_) => {
                proof { reveal_strlit("JMP"); }
                "JMP"
            },
            Op::Jz(_) => {
                proof { reveal_strlit("JZ"); }
                "JZ"
            },
            Op::Jnz(_) => {
                proof { reveal_strlit("JNZ"); }
                "JNZ"
            },
            Op::Call(_) => {
                proof { reveal_strlit("CALL"); }
                "CALL"
            },
            Op::Ret => {
                proof { reveal_strlit("RET"); }
                "RET"
            },
            Op::Print => {
                proof { reveal_strlit("PRINT"); }
                "PRINT"
            },
            Op::Halt => {
                proof { reveal_strlit("HALT"); }
                "HALT"
            },
        }
    }
}

/// How an instruction is written: its mnemonic, then its operand in decimal.
pub open spec fn op_text(op: Op) -> Seq<char> {
    match op_operand(op) {
        Some(n) => mnemonic_of(op_code(op)) + " "@ + decimal_int(n as int),
        None => mnemonic_of(op_code(op)),
    }
}

/// The instruction set, kind by kind: the opcode byte of each instruction,
/// the instruction that byte decodes to (with the operand it carries, if
/// any), its mnemonic, and its operand. Bytes above 20 are no opcode.
pub proof fn lemma_instruction_table(n: i64, b: u8)
    ensures
        op_code(Op::Push(n)) == 0u8,
        op_from_code(0u8, n) == Some(Op::Push(n)),
        mnemonic_of(0u8) == seq!['P', 'U', 'S', 'H'],
        op_operand(Op::Push(n)) == Some(n),
        op_code(Op::Pop) == 1u8,
        op_from_code(1u8, n) == Some(Op::Pop),
        mnemonic_of(1u8) == seq!['P', 'O', 'P'],
        op_operand(Op::Pop) == None::<i64>,
        op_code(Op::Dup) == 2u8,
        op_from_code(2u8, n) == Some(Op::Dup),
        mnemonic_of(2u8) == seq!['D', 'U', 'P'],
        op_operand(Op::Dup) == None::<i64>,
        op_code(Op::Add) == 3u8,
        op_from_code(3u8, n) == Some(Op::Add),
        mnemonic_of(3u8) == seq!['A', 'D', 'D'],
        op_operand(Op::Add) == None::<i64>,
        op_code(Op::Sub) == 4u8,
        op_from_code(4u8, n) == Some(Op::Sub),
        mnemonic_of(4u8) == seq!['S', 'U', 'B'],
        op_operand(Op::Sub) == None::<i64>,
        op_code(Op::Mul) == 5u8,
        op_from_code(5u8, n) == Some(Op::Mul),
        mnemonic_of(5u8) == seq!['M', 'U', 'L'],
        op_operand(Op::Mul) == None::<i64>,
        op_code(Op::Div) == 6u8,
        op_from_code(6u8, n) == Some(Op::Div),
        mnemonic_of(6u8) == seq!['D', 'I', 'V'],
        op_operand(Op::Div) == None::<i64>,
        op_code(Op::Mod) == 7u8,
        op_from_code(7u8, n) == Some(Op::Mod),
        mnemonic_of(7u8) == seq!['M', 'O', 'D'],
        op_operand(Op::Mod) == None::<i64>,
        op_code(Op::Neg) == 8u8,
        op_from_code(8u8, n) == Some(Op::Neg),
        mnemonic_of(8u8) == seq!['N', 'E', 'G'],
        op_operand(Op::Neg) == None::<i64>,
        op_code(Op::Eq) == 9u8,
        op_from_code(9u8, n) == Some(Op::Eq),
        mnemonic_of(9u8) == seq!['E', 'Q'],
        op_operand(Op::Eq) == None::<i64>,
        op_code(Op::Lt) == 10u8,
        op_from_code(10u8, n) == Some(Op::Lt),
        mnemonic_of(10u8) == seq!['L', 'T'],
        op_operand(Op::Lt) == None::<i64>,
        op_code(Op::Gt) == 11u8,
        op_from_code(11u8, n) == Some(Op::Gt),
        mnemonic_of(11u8) == seq!['G', 'T'],
        op_operand(Op::Gt) == None::<i64>,
        op_code(Op::Load(n)) == 12u8,
        op_from_code(12u8, n) == Some(Op::Load(n)),
        mnemonic_of(12u8) == seq!['L', 'O', 'A', 'D'],
        op_operand(Op::Load(n)) == Some(n),
        op_code(Op::Store(n)) == 13u8,
        op_from_code(13u8, n) == Some(Op::Store(n)),
        mnemonic_of(13u8) == seq!['S', 'T', 'O', 'R', 'E'],
        op_operand(Op::Store(n)) == Some(n),
        op_code(Op::Jmp(n)) == 14u8,
        op_from_code(14u8, n) == Some(Op::Jmp(n)),
        mnemonic_of(14u8) == seq!['J', 'M', 'P'],
        op_operand(Op::Jmp(n)) == Some(n),
        op_code(Op::Jz(n)) == 15u8,
        op_from_code(15u8, n) == Some(Op::Jz(n)),
        mnemonic_of(15u8) == seq!['J', 'Z'],
        op_operand(Op::Jz(n)) == Some(n),
        op_code(Op::Jnz(n)) == 16u8,
        op_from_code(16u8, n) == Some(Op::Jnz(n)),
        mnemonic_of(16u8) == seq!['J', 'N', 'Z'],
        op_operand(Op::Jnz(n)) == Some(n),
        op_code(Op::Call(n)) == 17u8,
        op_from_code(17u8, n) == Some(Op::Call(n)),
        mnemonic_of(17u8) == seq!['C', 'A', 'L', 'L'],
        op_operand(Op::Call(n)) == Some(n),
        op_code(Op::Ret) == 18u8,
        op_from_code(18u8, n) == Some(Op::Ret),
        mnemonic_of(18u8) == seq!['R', 'E', 'T'],
        op_operand(Op::Ret) == None::<i64>,
        op_code(Op::Print) == 19u8,
        op_from_code(19u8, n) == Some(Op::Print),
        mnemonic_of(19u8) == seq!['P', 'R', 'I', 'N', 'T'],
        op_operand(Op::Print) == None::<i64>,
        op_code(Op::Halt) == 20u8,
        op_from_code(20u8, n) == Some(Op::Halt),
        mnemonic_of(20u8) == seq!['H', 'A', 'L', 'T'],
        op_operand(Op::Halt) == None::<i64>,
        b > 20 ==> op_from_code(b, n) is None,
{
}

/// How each instruction is written: its mnemonic, and for the kinds that
/// carry an operand a space and the operand in decimal.
pub proof fn lemma_instruction_text(n: i64)
    ensures
        op_text(Op::Push(n)) == seq!['P', 'U', 'S', 'H', ' '] + decimal_int(n as int),
        op_text(Op::Pop) == seq!['P', 'O', 'P'],
        op_text(Op::Dup) == seq!['D', 'U', 'P'],
        op_text(Op::Add) == seq!['A', 'D', 'D'],
        op_text(Op::Sub) == seq!['S', 'U', 'B'],
        op_text(Op::Mul) == seq!['M', 'U', 'L'],
        op_text(Op::Div) == seq!['D', 'I', 'V'],
        op_text(Op::Mod) == seq!['M', 'O', 'D'],
        op_text(Op::Neg) == seq!['N', 'E', 'G'],
        op_text(Op::Eq) == seq!['E', 'Q'],
        op_text(Op::Lt) == seq!['L', 'T'],
        op_text(Op::Gt) == seq!['G', 'T'],
        op_text(Op::Load(n)) == seq!['L', 'O', 'A', 'D', ' '] + decimal_int(n as int),
        op_text(Op::Store(n)) == seq!['S', 'T', 'O', 'R', 'E', ' '] + decimal_int(n as int),
        op_text(Op::Jmp(n)) == seq!['J', 'M', 'P', ' '] + decimal_int(n as int),
        op_text(Op::Jz(n)) == seq!['J', 'Z', ' '] + decimal_int(n as int),
        op_text(Op::Jnz(n)) == seq!['J', 'N', 'Z', ' '] + decimal_int(n as int),
        op_text(Op::Call(n)) == seq!['C', 'A', 'L', 'L', ' '] + decimal_int(n as int),
        op_text(Op::Ret) == seq!['R', 'E', 'T'],
        op_text(Op::Print) == seq!['P', 'R', 'I', 'N', 'T'],
        op_text(Op::Halt) == seq!['H', 'A', 'L', 'T'],
{
    reveal_strlit(" ");
    assert(op_text(Op::Push(n)) =~= seq!['P', 'U', 'S', 'H', ' '] + decimal_int(n as int));
    assert(op_text(Op::Load(n)) =~= seq!['L', 'O', 'A', 'D', ' '] + decimal_int(n as int));
    assert(op_text(Op::Store(n)) =~= seq!['S', 'T', 'O', 'R', 'E', ' '] + decimal_int(n as int));
    assert(op_text(Op::Jmp(n)) =~= seq!['J', 'M', 'P', ' '] + decimal_int(n as int));
    assert(op_text(Op::Jz(n)) =~= seq!['J', 'Z', ' '] + decimal_int(n as int));
    assert(op_text(Op::Jnz(n)) =~= seq!['J', 'N', 'Z', ' '] + decimal_int(n as int));
    assert(op_text(Op::Call(n)) =~= seq!['C', 'A', 'L', 'L', ' '] + decimal_int(n as int));
}

impl Op {
    /// The instruction as disassembly prints it, e.g. `PUSH 5` or `ADD`.
    pub fn to_string(&self) -> (s: String)
        ensures
            s@ == op_text(*self),
    {
        let mut s = String::new();
        s.append(self.mnemonic());
        match self.operand() {
            Some(n) => {
                s.append(" ");
                push_decimal_i64(&mut s, n);
            },
            None => {},
        }
        s
    }
}

/// A fully assembled program: the instruction sequence.
#[derive(Debug, Clone, Default)]
pub struct Program {
    pub ops: Vec<Op>,
}

impl View for Program {
    type V = Seq<Op>;

    open spec fn view(&self) -> Seq<Op> {
        self.ops@
    }
}

/// Errors the assembler reports, with the 1-based source line where one applies.
#[derive(Debug, Clone, PartialEq, Eq)]
pub enum AsmError {
    UnknownInstruction { line: usize, text: String },
    BadOperand { line: usize, text: String },
    MissingOperand { line: usize, text: String },
    DuplicateLabel { line: usize, label: String },
    UndefinedLabel { label: String },
}

/// An `AsmError` with its strings seen as character sequences.
pub enum AsmErrorView {
    UnknownInstruction { line: int, text: Seq<char> },
    BadOperand { line: int, text: Seq<char> },
    MissingOperand { line: int, text: Seq<char> },
    DuplicateLabel { line: int, label: Seq<char> },
    UndefinedLabel { label: Seq<char> },
}

impl View for AsmError {
    type V = AsmErrorView;

    open spec fn view(&self) -> AsmErrorView {
        match self {
            AsmError::UnknownInstruction { line, text } => AsmErrorView::UnknownInstruction {
                line: *line as int,
                text: text@,
            },
            AsmError::BadOperand { line, text } => AsmErrorView::BadOperand {
                line: *line as int,
                text: text@,
            },
            AsmError::MissingOperand { line, text } => AsmErrorView::MissingOperand {
                line: *line as int,
                text: text@,
            },
            AsmError::DuplicateLabel { line, label } => AsmErrorView::DuplicateLabel {
                line: *line as int,
                label: label@,
            },
            AsmError::UndefinedLabel { label } => AsmErrorView::UndefinedLabel { label: label@ },
        }
    }
}

/// The message of an assembler error.
pub open spec fn asm_error_message(e: AsmErrorView) -> Seq<char> {
    match e {
        AsmErrorView::UnknownInstruction { line, text } => "line "@ + decimal_int(line)
            + ": unknown instruction '"@ + text + "'"@,
        AsmErrorView::BadOperand { line, text } => "line "@ + decimal_int(line) + ": bad operand in '"@
            + text + "'"@,
        AsmErrorView::MissingOperand { line, text } => "line "@ + decimal_int(line)
            + ": missing operand in '"@ + text + "'"@,
        AsmErrorView::DuplicateLabel { line, label } => "line "@ + decimal_int(line)
            + ": duplicate label '"@ + label + "'"@,
        AsmErrorView::UndefinedLabel { label } => "undefined label '"@ + label + "'"@,
    }
}

impl AsmError {
    /// The error's message, e.g. `line 3: unknown instruction 'FOO'`.
    pub fn to_string(&self) -> (s: String)
        ensures
            s@ == asm_error_message(self@),
    {
        let mut s = String::new();
        match self {
            AsmError::UnknownInstruction { line, text } => {
                s.append("line ");
                push_decimal_u64(&mut s, *line as u64);
                s.append(": unknown instruction '");
                s.append(text.as_str());
                s.append("'");
            },
            AsmError::BadOperand { line, text } => {
                s.append("line ");
                push_decimal_u64(&mut s, *line as u64);
                s.append(": bad operand in '");
                s.append(text.as_str());
                s.append("'");
            },
            AsmError::MissingOperand { line, text } => {
                s.append("line ");
                push_decimal_u64(&mut s, *line as u64);
                s.append(": missing operand in '");
                s.append(text.as_str());
                s.append("'");
            },
            AsmError::DuplicateLabel { line, label } => {
                s.append("line ");
                push_decimal_u64(&mut s, *line as u64);
                s.append(": duplicate label '");
                s.append(label.as_str());
                s.append("'");
            },
            AsmError::UndefinedLabel { label } => {
                s.append("undefined label '");
                s.append(label.as_str());
                s.append("'");
            },
        }
        s
    }
}

/// Errors the executor reports; a failed run never panics.
#[derive(Debug, Clone, Copy, PartialEq, Eq, Structural)]
pub enum VmError {
    StackUnderflow,
    CallStackUnderflow,
    DivisionByZero,
    UnknownOpcode(u8),
    JumpOutOfBounds(i64),
    LocalOutOfBounds(i64),
    UnexpectedEnd,
}

/// The message of an executor error.
pub open spec fn vm_error_message(e: VmError) -> Seq<char> {
    match e {
        VmError::StackUnderflow => "stack underflow"@,
        VmError::CallStackUnderflow => "call stack underflow (RET with no CALL)"@,
        VmError::DivisionByZero => "division by zero"@,
        VmError::UnknownOpcode(b) => "unknown opcode 0x"@ + hex_byte(b),
        VmError::JumpOutOfBounds(a) => "jump target out of bounds: "@ + decimal_int(a as int),
        VmError::LocalOutOfBounds(i) => "local index out of bounds: "@ + decimal_int(i as int),
        VmError::UnexpectedEnd => "program ended without HALT"@,
    }
}

impl VmError {
    /// The error's message, e.g. `division by zero`.
    pub fn to_string(&self) -> (s: String)
        ensures
            s@ == vm_error_message(*self),
    {
        let mut s = String::new();
        match self {
            VmError::StackUnderflow => s.append("stack underflow"),
            VmError::CallStackUnderflow => s.append("call stack underflow (RET with no CALL)"),
            VmError::DivisionByZero => s.append("division by zero"),
            VmError::UnknownOpcode(b) => {
                s.append("unknown opcode 0x");
                push_hex_byte(&mut s, *b);
            },
            VmError::JumpOutOfBounds(a) => {
                s.append("jump target out of bounds: ");
                push_decimal_i64(&mut s, *a);
            },
            VmError::LocalOutOfBounds(i) => {
                s.append("local index out of bounds: ");
                push_decimal_i64(&mut s, *i);
            },
            VmError::UnexpectedEnd => s.append("program ended without HALT"),
        }
        s
    }
}

} // verus!
