use mirage::{assemble, run_collect, VmError};

/// The sample program of the README: sums 1..=10.
const SUM_LOOP: &str = "; sum 1..=10, prints 55
    PUSH 0
    STORE 0
    PUSH 1
    STORE 1
loop:
    LOAD 1
    PUSH 10
    GT
    JNZ done
    LOAD 0
    LOAD 1
    ADD
    STORE 0
    LOAD 1
    PUSH 1
    ADD
    STORE 1
    JMP loop
done:
    LOAD 0
    PRINT
    HALT
";

/// Factorial by recursion: arguments and results travel on the value
/// stack, since the locals are shared by every call.
const FACTORIAL: &str = "; prints 5! = 120
    PUSH 5
    CALL fact
    PRINT
    HALT
fact:           ; n -> n!
    DUP
    PUSH 1
    GT
    JZ base     ; n <= 1
    DUP
    PUSH 1
    SUB
    CALL fact   ; n, (n-1)!
    MUL
    RET
base:
    POP
    PUSH 1
    RET
";

/// The 12th Fibonacci number, iterating with three locals.
const FIBONACCI: &str = "; prints fib(12) = 144
    PUSH 0
    STORE 0     ; a
    PUSH 1
    STORE 1     ; b
    PUSH 12
    STORE 2     ; n
loop:
    LOAD 2
    JZ done
    LOAD 0
    LOAD 1
    ADD
    LOAD 1
    STORE 0     ; a = b
    STORE 1     ; b = a + b
    LOAD 2
    PUSH 1
    SUB
    STORE 2
    JMP loop
done:
    LOAD 0
    PRINT
    HALT
";

#[test]
fn factorial_of_five_is_120() {
    let program = assemble(FACTORIAL).expect("assembles");
    let out = run_collect(&program).expect("runs");
    assert_eq!(out, "120\n");
}

#[test]
fn fibonacci_twelve_is_144() {
    let program = assemble(FIBONACCI).expect("assembles");
    let out = run_collect(&program).expect("runs");
    assert_eq!(out, "144\n");
}

#[test]
fn sum_one_to_ten_is_55() {
    let program = assemble(SUM_LOOP).expect("assembles");
    let out = run_collect(&program).expect("runs");
    assert_eq!(out, "55\n");
}

#[test]
fn stack_underflow_never_panics() {
    let program = assemble("ADD\nHALT\n").expect("assembles");
    let err = run_collect(&program).unwrap_err();
    assert_eq!(err, VmError::StackUnderflow);
}

#[test]
fn division_by_zero_never_panics() {
    let program = assemble("PUSH 10\nPUSH 0\nDIV\nHALT\n").expect("assembles");
    let err = run_collect(&program).unwrap_err();
    assert_eq!(err, VmError::DivisionByZero);
}

#[test]
fn jump_to_undefined_label_is_an_error_not_a_panic() {
    let err = assemble("JMP nowhere\nHALT\n").unwrap_err();
    assert!(err.to_string().contains("undefined label"));
}
