use mirage::{assemble, run_collect, VmError};

fn run_src(src: &str) -> Result<String, VmError> {
    let prog = assemble(src).expect("assembles");
    run_collect(&prog)
}

#[test]
fn arithmetic_and_print() {
    let out = run_src("PUSH 2\nPUSH 3\nADD\nPRINT\nHALT\n").unwrap();
    assert_eq!(out, "5\n");
}

#[test]
fn stack_underflow_on_pop() {
    let err = run_src("POP\nHALT\n").unwrap_err();
    assert_eq!(err, VmError::StackUnderflow);
}

#[test]
fn division_by_zero_is_an_error() {
    let err = run_src("PUSH 1\nPUSH 0\nDIV\nHALT\n").unwrap_err();
    assert_eq!(err, VmError::DivisionByZero);
}

#[test]
fn locals_round_trip() {
    let out = run_src("PUSH 42\nSTORE 0\nLOAD 0\nPRINT\nHALT\n").unwrap();
    assert_eq!(out, "42\n");
}

#[test]
fn undefined_local_out_of_bounds() {
    let err = run_src("PUSH 1\nSTORE 9999\nHALT\n").unwrap_err();
    assert_eq!(err, VmError::LocalOutOfBounds(9999));
}
