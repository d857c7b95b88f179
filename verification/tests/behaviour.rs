use mirage::assembler::DecodeError;
use mirage::vm::Step;
use mirage::{assemble, decode, encode, run_collect, AsmError, Op, Program, Vm, VmError};

fn run_src(src: &str) -> Result<String, VmError> {
    let prog = assemble(src).expect("assembles");
    run_collect(&prog)
}

#[test]
fn call_returns_after_the_call() {
    let out = run_src("CALL f\nPUSH 7\nPRINT\nHALT\nf:\nRET\n").unwrap();
    assert_eq!(out, "7\n");
}

#[test]
fn ret_without_call_underflows() {
    assert_eq!(run_src("RET\n").unwrap_err(), VmError::CallStackUnderflow);
}

#[test]
fn print_does_not_pop() {
    let out = run_src("PUSH 3\nPRINT\nPRINT\nPOP\nHALT\n").unwrap();
    assert_eq!(out, "3\n3\n");
}

#[test]
fn running_off_the_end_is_unexpected_end() {
    assert_eq!(run_src("PUSH 1\n").unwrap_err(), VmError::UnexpectedEnd);
}

#[test]
fn jump_outside_the_program_is_an_error() {
    let prog = Program { ops: vec![Op::Jmp(5)] };
    assert_eq!(run_collect(&prog).unwrap_err(), VmError::JumpOutOfBounds(5));
    let prog = Program { ops: vec![Op::Jmp(-1)] };
    assert_eq!(run_collect(&prog).unwrap_err(), VmError::JumpOutOfBounds(-1));
}

#[test]
fn jump_to_the_end_then_runs_off() {
    let prog = Program { ops: vec![Op::Jmp(1)] };
    assert_eq!(run_collect(&prog).unwrap_err(), VmError::UnexpectedEnd);
}

#[test]
fn load_out_of_bounds() {
    assert_eq!(run_src("LOAD 256\nHALT\n").unwrap_err(), VmError::LocalOutOfBounds(256));
    assert_eq!(run_src("LOAD -1\nHALT\n").unwrap_err(), VmError::LocalOutOfBounds(-1));
}

#[test]
fn locals_start_at_zero() {
    assert_eq!(run_src("LOAD 255\nPRINT\nHALT\n").unwrap(), "0\n");
}

#[test]
fn comparisons_push_one_or_zero() {
    let out = run_src(
        "PUSH 2\nPUSH 3\nLT\nPRINT\nPUSH 2\nPUSH 3\nGT\nPRINT\nPUSH 4\nPUSH 4\nEQ\nPRINT\nHALT\n",
    )
    .unwrap();
    assert_eq!(out, "1\n0\n1\n");
}

#[test]
fn division_truncates_towards_zero() {
    let out = run_src(
        "PUSH -7\nPUSH 2\nDIV\nPRINT\nPUSH -7\nPUSH 2\nMOD\nPRINT\nPUSH 7\nPUSH -2\nMOD\nPRINT\nHALT\n",
    )
    .unwrap();
    assert_eq!(out, "-3\n-1\n1\n");
}

#[test]
fn arithmetic_wraps_instead_of_crashing() {
    let out = run_src(
        "PUSH 9223372036854775807\nPUSH 1\nADD\nPRINT\nNEG\nPRINT\nPUSH -1\nDIV\nPRINT\nPUSH -1\nMOD\nPRINT\nHALT\n",
    )
    .unwrap();
    assert_eq!(
        out,
        "-9223372036854775808\n-9223372036854775808\n-9223372036854775808\n0\n"
    );
}

#[test]
fn sub_mul_neg_dup() {
    let out = run_src("PUSH 10\nPUSH 4\nSUB\nDUP\nMUL\nPRINT\nNEG\nPRINT\nHALT\n").unwrap();
    assert_eq!(out, "36\n-36\n");
}

#[test]
fn conditional_jumps() {
    let out = run_src(
        "PUSH 0\nJZ a\nPUSH 1\nPRINT\na:\nPUSH 5\nJNZ b\nPUSH 2\nPRINT\nb:\nPUSH 0\nJNZ c\nPUSH 3\nPRINT\nc:\nHALT\n",
    )
    .unwrap();
    assert_eq!(out, "3\n");
}

#[test]
fn failing_binary_keeps_what_it_popped_off() {
    let prog = assemble("PUSH 1\nADD\n").unwrap();
    let mut vm = Vm::new();
    let mut out = String::new();
    assert_eq!(vm.run(&prog, &mut out), Err(VmError::StackUnderflow));
    // the one value was popped: a second run from the failed ADD underflows at once
    assert_eq!(vm.run(&prog, &mut out), Err(VmError::StackUnderflow));
    assert_eq!(out, "");
}

#[test]
fn step_reports_prints_and_halt() {
    let prog = assemble("PUSH 4\nPRINT\nHALT\n").unwrap();
    let mut vm = Vm::new();
    assert_eq!(vm.step(&prog), Ok(Step::Continue));
    assert_eq!(vm.step(&prog), Ok(Step::Print(4)));
    assert_eq!(vm.step(&prog), Ok(Step::Halt));
    // the counter stays at HALT
    assert_eq!(vm.step(&prog), Ok(Step::Halt));
}

#[test]
fn run_appends_to_its_output() {
    let prog = assemble("PUSH -12\nPRINT\nHALT\n").unwrap();
    let mut vm = Vm::default();
    let mut out = String::from("> ");
    assert_eq!(vm.run(&prog, &mut out), Ok(()));
    assert_eq!(out, "> -12\n");
}

#[test]
fn mnemonics_ignore_case_and_extra_tokens() {
    let prog = assemble("push 1 2\nPrInT\nhalt extra\n").unwrap();
    assert_eq!(prog.ops, vec![Op::Push(1), Op::Print, Op::Halt]);
}

#[test]
fn unicode_whitespace_separates_tokens() {
    let prog = assemble("\u{3000}PUSH\u{a0}+7\u{2003}\r\nHALT\r\n").unwrap();
    assert_eq!(prog.ops, vec![Op::Push(7), Op::Halt]);
}

#[test]
fn integer_operands() {
    let prog = assemble("PUSH -9223372036854775808\nPUSH +0042\nLOAD 3\nSTORE -4\n").unwrap();
    assert_eq!(
        prog.ops,
        vec![Op::Push(i64::MIN), Op::Push(42), Op::Load(3), Op::Store(-4)]
    );
}

#[test]
fn bad_operands() {
    for (src, text) in [
        ("PUSH 9223372036854775808", "PUSH 9223372036854775808"),
        ("PUSH 1x", "PUSH 1x"),
        ("PUSH -", "PUSH -"),
        ("  LOAD +-1  ; c", "LOAD +-1"),
    ] {
        assert_eq!(
            assemble(src).unwrap_err(),
            AsmError::BadOperand {
                line: 1,
                text: text.to_string()
            }
        );
    }
}

#[test]
fn missing_operand() {
    assert_eq!(
        assemble("\nJMP   ; where\n").unwrap_err(),
        AsmError::MissingOperand {
            line: 2,
            text: "JMP".to_string()
        }
    );
}

#[test]
fn unknown_instruction() {
    assert_eq!(
        assemble("PUSH 1\n  FOO 3 \n").unwrap_err(),
        AsmError::UnknownInstruction {
            line: 2,
            text: "FOO 3".to_string()
        }
    );
}

#[test]
fn duplicate_label_reports_line_and_name() {
    assert_eq!(
        assemble("a:\nPUSH 1\n  a :\nHALT\n").unwrap_err(),
        AsmError::DuplicateLabel {
            line: 3,
            label: "a".to_string()
        }
    );
}

#[test]
fn duplicate_label_wins_over_earlier_bad_instruction() {
    assert_eq!(
        assemble("FOO\nx:\nx:\n").unwrap_err(),
        AsmError::DuplicateLabel {
            line: 3,
            label: "x".to_string()
        }
    );
}

#[test]
fn first_bad_instruction_is_reported() {
    assert_eq!(
        assemble("JMP nowhere\nFOO\n").unwrap_err(),
        AsmError::UndefinedLabel {
            label: "nowhere".to_string()
        }
    );
}

#[test]
fn labels_name_the_next_instruction() {
    let prog = assemble("start:\nend:\nJMP end\nCALL start\nlast:\nJZ last\n").unwrap();
    assert_eq!(prog.ops, vec![Op::Jmp(0), Op::Call(0), Op::Jz(2)]);
}

#[test]
fn error_messages() {
    let e = AsmError::UnknownInstruction { line: 3, text: "FOO".to_string() };
    assert_eq!(e.to_string(), "line 3: unknown instruction 'FOO'");
    let e = AsmError::BadOperand { line: 1, text: "PUSH x".to_string() };
    assert_eq!(e.to_string(), "line 1: bad operand in 'PUSH x'");
    let e = AsmError::MissingOperand { line: 12, text: "JMP".to_string() };
    assert_eq!(e.to_string(), "line 12: missing operand in 'JMP'");
    let e = AsmError::DuplicateLabel { line: 4, label: "a".to_string() };
    assert_eq!(e.to_string(), "line 4: duplicate label 'a'");
    let e = AsmError::UndefinedLabel { label: "b".to_string() };
    assert_eq!(e.to_string(), "undefined label 'b'");
    assert_eq!(VmError::StackUnderflow.to_string(), "stack underflow");
    assert_eq!(
        VmError::CallStackUnderflow.to_string(),
        "call stack underflow (RET with no CALL)"
    );
    assert_eq!(VmError::DivisionByZero.to_string(), "division by zero");
    assert_eq!(VmError::UnknownOpcode(0x0f).to_string(), "unknown opcode 0x0f");
    assert_eq!(VmError::UnknownOpcode(200).to_string(), "unknown opcode 0xc8");
    assert_eq!(
        VmError::JumpOutOfBounds(-3).to_string(),
        "jump target out of bounds: -3"
    );
    assert_eq!(
        VmError::LocalOutOfBounds(9999).to_string(),
        "local index out of bounds: 9999"
    );
    assert_eq!(VmError::UnexpectedEnd.to_string(), "program ended without HALT");
    assert_eq!(DecodeError::TooShort.to_string(), "file too short to be mirage bytecode");
    assert_eq!(
        DecodeError::BadMagic.to_string(),
        "bad magic header, not a mirage .mbc file"
    );
    assert_eq!(DecodeError::Truncated.to_string(), "truncated instruction stream");
    assert_eq!(DecodeError::UnknownOpcode(0x15).to_string(), "unknown opcode 0x15");
}

#[test]
fn op_text() {
    assert_eq!(Op::Push(-5).to_string(), "PUSH -5");
    assert_eq!(Op::Jmp(0).to_string(), "JMP 0");
    assert_eq!(Op::Add.to_string(), "ADD");
    assert_eq!(Op::Store(255).mnemonic(), "STORE");
    assert_eq!(Op::Halt.code(), 20);
    assert_eq!(Op::Call(3).operand(), Some(3));
    assert_eq!(Op::Ret.operand(), None);
}

#[test]
fn encode_layout() {
    let prog = Program { ops: vec![Op::Push(1), Op::Halt] };
    let bytes = encode(&prog);
    let mut want = b"MRG1".to_vec();
    want.extend_from_slice(&[2, 0, 0, 0]);
    want.extend_from_slice(&[0, 1, 0, 0, 0, 0, 0, 0, 0]);
    want.extend_from_slice(&[20, 0, 0, 0, 0, 0, 0, 0, 0]);
    assert_eq!(bytes, want);
    let neg = encode(&Program { ops: vec![Op::Load(-2)] });
    assert_eq!(&neg[8..], &[12, 0xfe, 0xff, 0xff, 0xff, 0xff, 0xff, 0xff, 0xff]);
}

#[test]
fn every_instruction_round_trips() {
    let ops = vec![
        Op::Push(i64::MIN), Op::Pop, Op::Dup, Op::Add, Op::Sub, Op::Mul, Op::Div, Op::Mod,
        Op::Neg, Op::Eq, Op::Lt, Op::Gt, Op::Load(7), Op::Store(-1), Op::Jmp(3), Op::Jz(4),
        Op::Jnz(5), Op::Call(i64::MAX), Op::Ret, Op::Print, Op::Halt,
    ];
    let prog = Program { ops: ops.clone() };
    let bytes = encode(&prog);
    assert_eq!(bytes.len(), 8 + 9 * ops.len());
    assert_eq!(decode(&bytes).unwrap().ops, ops);
}

#[test]
fn decode_errors() {
    assert_eq!(decode(b"MRG1\0\0\0").unwrap_err(), DecodeError::TooShort);
    assert_eq!(decode(b"MRG2\0\0\0\0").unwrap_err(), DecodeError::BadMagic);
    assert_eq!(decode(b"MRG1\x01\0\0\0\x01\0\0").unwrap_err(), DecodeError::Truncated);
    assert_eq!(
        decode(b"MRG1\x01\0\0\0\x15\0\0\0\0\0\0\0\0").unwrap_err(),
        DecodeError::UnknownOpcode(0x15)
    );
    // a huge count with no instructions behind it is just truncated
    assert_eq!(decode(b"MRG1\xff\xff\xff\xff").unwrap_err(), DecodeError::Truncated);
}

#[test]
fn decode_ignores_trailing_bytes_and_unused_operands() {
    let p = decode(b"MRG1\x01\0\0\0\x01\x09\0\0\0\0\0\0\0junk").unwrap();
    assert_eq!(p.ops, vec![Op::Pop]);
}

#[test]
fn label_at_the_end_names_the_end() {
    let prog = assemble("PUSH 1\nJNZ end\nHALT\nend:\n").unwrap();
    assert_eq!(prog.ops, vec![Op::Push(1), Op::Jnz(3), Op::Halt]);
    assert_eq!(run_collect(&prog).unwrap_err(), VmError::UnexpectedEnd);
}

#[test]
fn division_by_zero_consumes_both_operands() {
    let prog = assemble("PUSH 1\nPUSH 0\nDIV\nHALT\n").unwrap();
    let mut vm = Vm::new();
    let mut out = String::new();
    assert_eq!(vm.run(&prog, &mut out), Err(VmError::DivisionByZero));
    assert_eq!(vm.run(&prog, &mut out), Err(VmError::StackUnderflow));
}
