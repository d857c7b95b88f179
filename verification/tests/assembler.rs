use mirage::{assemble, decode, encode, AsmError, Op};

#[test]
fn strips_comments_and_blank_lines() {
    let src = "; a comment\nPUSH 1 ; push one\n\nHALT\n";
    let prog = assemble(src).unwrap();
    assert_eq!(prog.ops, vec![Op::Push(1), Op::Halt]);
}

#[test]
fn resolves_forward_and_backward_labels() {
    let src = "JMP skip\nPUSH 99\nskip:\nPUSH 1\nloop:\nJMP loop\n";
    let prog = assemble(src).unwrap();
    assert_eq!(
        prog.ops,
        vec![Op::Jmp(2), Op::Push(99), Op::Push(1), Op::Jmp(3)]
    );
}

#[test]
fn undefined_label_is_an_error() {
    let err = assemble("JMP nowhere\n").unwrap_err();
    assert_eq!(
        err,
        AsmError::UndefinedLabel {
            label: "nowhere".to_string()
        }
    );
}

#[test]
fn duplicate_label_is_an_error() {
    let err = assemble("a:\nPUSH 1\na:\nHALT\n").unwrap_err();
    assert!(matches!(err, AsmError::DuplicateLabel { .. }));
}

#[test]
fn round_trips_through_bytecode() {
    let prog = assemble("PUSH 5\nPUSH 3\nADD\nPRINT\nHALT\n").unwrap();
    let bytes = encode(&prog);
    let back = decode(&bytes).unwrap();
    assert_eq!(prog.ops, back.ops);
}
