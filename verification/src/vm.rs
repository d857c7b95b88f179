//! The executor: a value stack, a call stack of return addresses, one flat
//! array of local slots shared by the whole run, and a program counter.
use crate::text::{decimal_int, push_decimal_i64};
use crate::types::{Op, Program, VmError};
use vstd::prelude::*;

verus! {

/// Number of local slots addressable by `LOAD` and `STORE`.
pub const LOCALS_SIZE: usize = 256;

/// The machine state as the contracts see it.
pub struct VmView {
    pub stack: Seq<i64>,
    pub call_stack: Seq<i64>,
    pub locals: Seq<i64>,
    pub pc: i64,
}

/// What one executed instruction asks of the caller.
#[derive(Debug, Clone, Copy, PartialEq, Eq, Structural)]
pub enum Step {
    /// Go on with the next instruction.
    Continue,
    /// `PRINT` read this value; the caller writes it as a line.
    Print(i64),
    /// `HALT` was reached; the program counter still points at it.
    Halt,
}

/// Where control goes after an instruction has changed the state.
pub enum Effect {
    Goto(i64),
    Output(i64),
    Stop,
    Fail(VmError),
}

/// Truncating division of integers (rounds towards zero), as `/` on `i64`.
pub open spec fn div_trunc(a: int, b: int) -> int {
    let q = abs(a) / abs(b);
    if (a < 0) != (b < 0) {
        -q
    } else {
        q
    }
}

/// Remainder of truncating division: takes the sign of the dividend, as `%` on `i64`.
pub open spec fn rem_trunc(a: int, b: int) -> int {
    let r = abs(a) % abs(b);
    if a < 0 {
        -r
    } else {
        r
    }
}

pub open spec fn abs(a: int) -> int {
    if a < 0 {
        -a
    } else {
        a
    }
}

/// `DIV`: the quotient, except that `i64::MIN / -1` wraps to `i64::MIN`.
pub open spec fn div_i64(a: i64, b: i64) -> i64 {
    if a == i64::MIN && b == -1 {
        i64::MIN
    } else {
        div_trunc(a as int, b as int) as i64
    }
}

/// `MOD`: the remainder (`i64::MIN % -1` is 0).
pub open spec fn rem_i64(a: i64, b: i64) -> i64 {
    rem_trunc(a as int, b as int) as i64
}

/// `NEG`: the negation, except that `-i64::MIN` wraps to `i64::MIN`.
pub open spec fn neg_i64(a: i64) -> i64 {
    if a == i64::MIN {
        i64::MIN
    } else {
        (-a) as i64
    }
}

pub open spec fn flag(b: bool) -> i64 {
    if b {
        1
    } else {
        0
    }
}

/// The instructions that pop two values and push one.
pub open spec fn is_binary(op: Op) -> bool {
    match op {
        Op::Add | Op::Sub | Op::Mul | Op::Div | Op::Mod | Op::Eq | Op::Lt | Op::Gt => true,
        _ => false,
    }
}

/// The value a binary instruction computes from `a` (pushed first) and `b`
/// (the top): arithmetic wraps around in two's complement, `DIV` and `MOD`
/// by zero fail, comparisons give 1 or 0.
pub open spec fn binary_result(op: Op, a: i64, b: i64) -> Result<i64, VmError> {
    match op {
        Op::Add => Ok(vstd::wrapping::i64_specs::wrapping_add(a, b)),
        Op::Sub => Ok(vstd::wrapping::i64_specs::wrapping_sub(a, b)),
        Op::Mul => Ok(vstd::wrapping::i64_specs::wrapping_mul(a, b)),
        Op::Div => if b == 0 {
            Err(VmError::DivisionByZero)
        } else {
            Ok(div_i64(a, b))
        },
        Op::Mod => if b == 0 {
            Err(VmError::DivisionByZero)
        } else {
            Ok(rem_i64(a, b))
        },
        Op::Eq => Ok(flag(a == b)),
        Op::Lt => Ok(flag(a < b)),
        Op::Gt => Ok(flag(a > b)),
        _ => Ok(0),
    }
}

impl VmView {
    pub open spec fn with_stack(self, stack: Seq<i64>) -> VmView {
        VmView { stack, ..self }
    }

    pub open spec fn with_pc(self, pc: i64) -> VmView {
        VmView { pc, ..self }
    }

    pub open spec fn top(self) -> i64 {
        self.stack.last()
    }

    pub open spec fn popped(self) -> VmView {
        self.with_stack(self.stack.drop_last())
    }

    pub open spec fn pushed(self, v: i64) -> VmView {
        self.with_stack(self.stack.push(v))
    }

    /// A fresh machine: empty stacks, every local 0, counter at 0.
    pub open spec fn initial() -> VmView {
        VmView {
            stack: Seq::empty(),
            call_stack: Seq::empty(),
            locals: Seq::new(LOCALS_SIZE as nat, |i: int| 0i64),
            pc: 0,
        }
    }
}

/// The effect of `op` on `s`, where `next` is the address after it. A
/// failing instruction keeps what it had already popped off.
pub open spec fn apply_op(s: VmView, op: Op, next: i64) -> (VmView, Effect) {
    let n = s.stack.len();
    match op {
        Op::Push(v) => (s.pushed(v), Effect::Goto(next)),
        Op::Pop => if n == 0 {
            (s, Effect::Fail(VmError::StackUnderflow))
        } else {
            (s.popped(), Effect::Goto(next))
        },
        Op::Dup => if n == 0 {
            (s, Effect::Fail(VmError::StackUnderflow))
        } else {
            (s.pushed(s.top()), Effect::Goto(next))
        },
        Op::Neg => if n == 0 {
            (s, Effect::Fail(VmError::StackUnderflow))
        } else {
            (s.popped().pushed(neg_i64(s.top())), Effect::Goto(next))
        },
        Op::Load(idx) => if idx < 0 || idx >= LOCALS_SIZE {
            (s, Effect::Fail(VmError::LocalOutOfBounds(idx)))
        } else {
            (s.pushed(s.locals[idx as int]), Effect::Goto(next))
        },
        Op::Store(idx) => if idx < 0 || idx >= LOCALS_SIZE {
            (s, Effect::Fail(VmError::LocalOutOfBounds(idx)))
        } else if n == 0 {
            (s, Effect::Fail(VmError::StackUnderflow))
        } else {
            (
                VmView { locals: s.locals.update(idx as int, s.top()), ..s.popped() },
                Effect::Goto(next),
            )
        },
        Op::Jmp(t) => (s, Effect::Goto(t)),
        Op::Jz(t) => if n == 0 {
            (s, Effect::Fail(VmError::StackUnderflow))
        } else {
            (s.popped(), Effect::Goto(if s.top() == 0 { t } else { next }))
        },
        Op::Jnz(t) => if n == 0 {
            (s, Effect::Fail(VmError::StackUnderflow))
        } else {
            (s.popped(), Effect::Goto(if s.top() != 0 { t } else { next }))
        },
        Op::Call(t) => (VmView { call_stack: s.call_stack.push(next), ..s }, Effect::Goto(t)),
        Op::Ret => if s.call_stack.len() == 0 {
            (s, Effect::Fail(VmError::CallStackUnderflow))
        } else {
            (
                VmView { call_stack: s.call_stack.drop_last(), ..s },
                Effect::Goto(s.call_stack.last()),
            )
        },
        Op::Print => if n == 0 {
            (s, Effect::Fail(VmError::StackUnderflow))
        } else {
            (s, Effect::Output(s.top()))
        },
        Op::Halt => (s, Effect::Stop),
        _ => {
            // the binary instructions
            if n == 0 {
                (s, Effect::Fail(VmError::StackUnderflow))
            } else if n == 1 {
                (s.popped(), Effect::Fail(VmError::StackUnderflow))
            } else {
                let b = s.stack[n - 1];
                let a = s.stack[n - 2];
                let rest = s.with_stack(s.stack.take(n - 2));
                match binary_result(op, a, b) {
                    Ok(r) => (rest.pushed(r), Effect::Goto(next)),
                    Err(e) => (rest, Effect::Fail(e)),
                }
            }
        },
    }
}

/// One fetch-decode-execute step of `ops` from state `s`: the new state and
/// what the step asks of the caller. Running off the end of the program is
/// `UnexpectedEnd`; a jump target outside `0..=ops.len()` is `JumpOutOfBounds`.
pub open spec fn step_spec(s: VmView, ops: Seq<Op>) -> (VmView, Result<Step, VmError>) {
    if s.pc < 0 || s.pc >= ops.len() {
        (s, Err(VmError::UnexpectedEnd))
    } else {
        let next = (s.pc + 1) as i64;
        let (t, eff) = apply_op(s, ops[s.pc as int], next);
        match eff {
            Effect::Fail(e) => (t, Err(e)),
            Effect::Stop => (t, Ok(Step::Halt)),
            Effect::Output(v) => (t.with_pc(next), Ok(Step::Print(v))),
            Effect::Goto(target) => if target < 0 || target > ops.len() {
                (t, Err(VmError::JumpOutOfBounds(target)))
            } else {
                (t.with_pc(target), Ok(Step::Continue))
            },
        }
    }
}

/// Running `ops` from `s` for at most `fuel` steps: the final state, the
/// values printed in order, and how the run ended (`None` when the fuel ran
/// out first).
pub open spec fn run_spec(s: VmView, ops: Seq<Op>, fuel: nat) -> (
    VmView,
    Seq<i64>,
    Option<Result<(), VmError>>,
)
    decreases fuel,
{
    if fuel == 0 {
        (s, Seq::empty(), None)
    } else {
        let (t, r) = step_spec(s, ops);
        match r {
            Err(e) => (t, Seq::empty(), Some(Err(e))),
            Ok(Step::Halt) => (t, Seq::empty(), Some(Ok(()))),
            Ok(Step::Continue) => run_spec(t, ops, (fuel - 1) as nat),
            Ok(Step::Print(v)) => {
                let (u, out, end) = run_spec(t, ops, (fuel - 1) as nat);
                (u, seq![v] + out, end)
            },
        }
    }
}

/// The run stops (halts or fails) within `fuel` steps.
pub open spec fn stops_within(s: VmView, ops: Seq<Op>, fuel: nat) -> bool {
    run_spec(s, ops, fuel).2 is Some
}

/// Once a run has stopped within some fuel, more fuel changes nothing: the
/// final state, the output and the outcome of a run are determined by the
/// program and the starting state alone.
pub proof fn lemma_run_fuel(s: VmView, ops: Seq<Op>, f1: nat, f2: nat)
    requires
        f1 <= f2,
        stops_within(s, ops, f1),
    ensures
        run_spec(s, ops, f2) == run_spec(s, ops, f1),
    decreases f1,
{
    if f1 > 0 {
        let (t, r) = step_spec(s, ops);
        match r {
            Ok(Step::Continue) => lemma_run_fuel(t, ops, (f1 - 1) as nat, (f2 - 1) as nat),
            Ok(Step::Print(_)) => lemma_run_fuel(t, ops, (f1 - 1) as nat, (f2 - 1) as nat),
            _ => {},
        }
    }
}

/// `STORE i` followed by `LOAD i` leaves the value stack as it was and the
/// stored value in slot `i`: a load gives back what the store wrote.
pub proof fn lemma_store_then_load(s: VmView, ops: Seq<Op>, idx: i64)
    requires
        ops.len() <= i64::MAX,
        s.locals.len() == LOCALS_SIZE,
        0 <= idx < LOCALS_SIZE,
        s.stack.len() > 0,
        0 <= s.pc,
        s.pc + 2 <= ops.len(),
        ops[s.pc as int] == Op::Store(idx),
        ops[s.pc + 1] == Op::Load(idx),
    ensures
        ({
            let (s1, r1) = step_spec(s, ops);
            let (s2, r2) = step_spec(s1, ops);
            &&& r1 == Ok::<Step, VmError>(Step::Continue)
            &&& r2 == Ok::<Step, VmError>(Step::Continue)
            &&& s2.stack == s.stack
            &&& s2.locals[idx as int] == s.stack.last()
            &&& forall|j: int| 0 <= j < LOCALS_SIZE && j != idx ==> #[trigger] s2.locals[j] == s.locals[j]
            &&& s2.call_stack == s.call_stack
            &&& s2.pc == s.pc + 2
        }),
{
    let (s1, r1) = step_spec(s, ops);
    assert(s1.stack.push(s.stack.last()) =~= s.stack);
}

/// `CALL t` where the instruction at `t` is `RET` comes back to the
/// instruction after the `CALL`, with both stacks as they were.
pub proof fn lemma_call_then_ret(s: VmView, ops: Seq<Op>, target: i64)
    requires
        ops.len() <= i64::MAX,
        0 <= s.pc < ops.len(),
        0 <= target < ops.len(),
        ops[s.pc as int] == Op::Call(target),
        ops[target as int] == Op::Ret,
    ensures
        ({
            let (s1, r1) = step_spec(s, ops);
            let (s2, r2) = step_spec(s1, ops);
            &&& r1 == Ok::<Step, VmError>(Step::Continue)
            &&& r2 == Ok::<Step, VmError>(Step::Continue)
            &&& s2 == s.with_pc((s.pc + 1) as i64)
        }),
{
    let (s1, r1) = step_spec(s, ops);
    assert(s1.call_stack.drop_last() =~= s.call_stack);
}

/// `PRINT` reports the top of the stack and leaves the stack as it was.
pub proof fn lemma_print_keeps_stack(s: VmView, ops: Seq<Op>)
    requires
        ops.len() <= i64::MAX,
        0 <= s.pc < ops.len(),
        ops[s.pc as int] == Op::Print,
        s.stack.len() > 0,
    ensures
        step_spec(s, ops) == (s.with_pc((s.pc + 1) as i64), Ok::<Step, VmError>(
            Step::Print(s.stack.last()),
        )),
{
}

/// The comparisons are a strict order: for any two values exactly one of
/// `LT`, `EQ`, `GT` gives 1 and the others 0; `LT` on `a, b` is `GT` on
/// `b, a`; `LT` is 1 exactly when `a < b`, so equal values give 0.
pub proof fn lemma_comparisons(a: i64, b: i64)
    ensures
        binary_result(Op::Lt, a, b) == Ok::<i64, VmError>(if a < b { 1 } else { 0 }),
        binary_result(Op::Gt, a, b) == Ok::<i64, VmError>(if a > b { 1 } else { 0 }),
        binary_result(Op::Eq, a, b) == Ok::<i64, VmError>(if a == b { 1 } else { 0 }),
        binary_result(Op::Lt, a, b) == binary_result(Op::Gt, b, a),
        binary_result(Op::Lt, a, a) == Ok::<i64, VmError>(0),
        binary_result(Op::Gt, a, a) == Ok::<i64, VmError>(0),
        binary_result(Op::Eq, a, a) == Ok::<i64, VmError>(1),
        binary_result(Op::Lt, a, b)->Ok_0 + binary_result(Op::Eq, a, b)->Ok_0 + binary_result(
            Op::Gt,
            a,
            b,
        )->Ok_0 == 1,
{
}

/// A comparison instruction on a stack ending in `a, b` replaces those two
/// values by 1 when the relation holds of `a` and `b`, by 0 otherwise, and
/// goes on with the next instruction.
pub proof fn lemma_compare_step(s: VmView, ops: Seq<Op>)
    requires
        ops.len() <= i64::MAX,
        0 <= s.pc < ops.len(),
        ops[s.pc as int] == Op::Lt || ops[s.pc as int] == Op::Gt || ops[s.pc as int] == Op::Eq,
        s.stack.len() >= 2,
    ensures
        ({
            let op = ops[s.pc as int];
            let n = s.stack.len();
            let a = s.stack[n - 2];
            let b = s.stack[n - 1];
            let holds = if op == Op::Lt {
                a < b
            } else if op == Op::Gt {
                a > b
            } else {
                a == b
            };
            let (s1, r) = step_spec(s, ops);
            &&& r == Ok::<Step, VmError>(Step::Continue)
            &&& s1.stack == s.stack.take(n - 2).push(if holds { 1i64 } else { 0i64 })
            &&& s1.pc == s.pc + 1
            &&& s1.locals == s.locals
            &&& s1.call_stack == s.call_stack
        }),
{
}

/// Arithmetic agrees with the integers whenever the true result fits in an
/// `i64`, and otherwise differs from it by a multiple of 2^64. `DIV` and
/// `MOD` by a nonzero `b` split `a` as `q * b + r` with `|r| < |b|` and `r`
/// zero or of the sign of `a` (truncating division); by zero they fail.
pub proof fn lemma_arithmetic(a: i64, b: i64)
    ensures
        i64::MIN <= a + b <= i64::MAX ==> binary_result(Op::Add, a, b) == Ok::<i64, VmError>(
            (a + b) as i64,
        ),
        i64::MIN <= a - b <= i64::MAX ==> binary_result(Op::Sub, a, b) == Ok::<i64, VmError>(
            (a - b) as i64,
        ),
        i64::MIN <= a * b <= i64::MAX ==> binary_result(Op::Mul, a, b) == Ok::<i64, VmError>(
            (a * b) as i64,
        ),
        binary_result(Op::Add, a, b) is Ok && (binary_result(Op::Add, a, b)->Ok_0 - (a + b))
            % 0x1_0000_0000_0000_0000 == 0,
        binary_result(Op::Sub, a, b) is Ok && (binary_result(Op::Sub, a, b)->Ok_0 - (a - b))
            % 0x1_0000_0000_0000_0000 == 0,
        b == 0 ==> binary_result(Op::Div, a, b) == Err::<i64, VmError>(VmError::DivisionByZero),
        b == 0 ==> binary_result(Op::Mod, a, b) == Err::<i64, VmError>(VmError::DivisionByZero),
        b != 0 ==> ({
            let q = binary_result(Op::Div, a, b)->Ok_0;
            let r = binary_result(Op::Mod, a, b)->Ok_0;
            &&& binary_result(Op::Div, a, b) is Ok
            &&& binary_result(Op::Mod, a, b) is Ok
            &&& !(a == i64::MIN && b == -1) ==> q * b + r == a
            &&& abs(r as int) < abs(b as int)
            &&& (r == 0 || (r < 0) == (a < 0))
        }),
{
    if b != 0 {
        let x = abs(a as int);
        let d = abs(b as int);
        let qq = x / d;
        let rr = x % d;
        assert(qq * d + rr == x && 0 <= rr < d) by (nonlinear_arith)
            requires
                x >= 0,
                d >= 1,
                qq == x / d,
                rr == x % d,
        ;
        if !(a == i64::MIN && b == -1) {
            lemma_checked_div(a, b);
            lemma_checked_rem(a, b);
            let q = div_trunc(a as int, b as int);
            let r = rem_trunc(a as int, b as int);
            assert(q * b + r == a) by (nonlinear_arith)
                requires
                    qq * d + rr == x,
                    x == abs(a as int),
                    d == abs(b as int),
                    q == (if (a < 0) != (b < 0) { -qq } else { qq }),
                    r == (if a < 0 { -rr } else { rr }),
            ;
        } else {
            assert(rem_i64(a, b) == 0) by (nonlinear_arith)
                requires
                    a == i64::MIN && b == -1,
            ;
        }
        lemma_checked_rem_range(a, b);
    }
}

proof fn lemma_checked_rem_range(a: i64, b: i64)
    requires
        b != 0,
    ensures
        abs(rem_i64(a, b) as int) < abs(b as int),
        rem_i64(a, b) == 0 || (rem_i64(a, b) < 0) == (a < 0),
{
    let x = abs(a as int);
    let d = abs(b as int);
    assert(0 <= x % d < d) by (nonlinear_arith)
        requires
            x >= 0,
            d >= 1,
    ;
}

/// The stack instructions: `PUSH n` pushes `n`; `POP` removes the top; `DUP`
/// pushes a copy of the top; `NEG` replaces the top `v` by `-v` (`i64::MIN`
/// stays itself); each goes on with the next instruction and leaves the
/// locals and the call stack alone. On an empty stack the last three fail
/// with `StackUnderflow` and change nothing.
pub proof fn lemma_stack_instructions(s: VmView, ops: Seq<Op>, n: i64)
    requires
        ops.len() <= i64::MAX,
        0 <= s.pc < ops.len(),
    ensures
        ({
            let (s1, r) = step_spec(s, ops);
            let k = s.stack.len();
            let rest = s1.locals == s.locals && s1.call_stack == s.call_stack && s1.pc == s.pc + 1
                && r == Ok::<Step, VmError>(Step::Continue);
            &&& ops[s.pc as int] == Op::Push(n) ==> rest && s1.stack == s.stack.push(n)
            &&& (ops[s.pc as int] == Op::Pop && k > 0) ==> rest && s1.stack == s.stack.take(k - 1)
            &&& (ops[s.pc as int] == Op::Dup && k > 0) ==> rest && s1.stack == s.stack.push(
                s.stack[k - 1],
            )
            &&& (ops[s.pc as int] == Op::Neg && k > 0) ==> rest && s1.stack == s.stack.take(
                k - 1,
            ).push(if s.stack[k - 1] == i64::MIN { i64::MIN } else { (-s.stack[k - 1]) as i64 })
            &&& ((ops[s.pc as int] == Op::Pop || ops[s.pc as int] == Op::Dup || ops[s.pc as int]
                == Op::Neg) && k == 0) ==> s1 == s && r == Err::<Step, VmError>(
                VmError::StackUnderflow,
            )
        }),
{
    let k = s.stack.len();
    if k > 0 {
        assert(s.stack.drop_last() =~= s.stack.take(k - 1));
    }
}

/// Control flow: a counter outside the program is `UnexpectedEnd` with
/// nothing changed; `JMP t` goes to `t` when `0 <= t <= ops.len()` and is
/// `JumpOutOfBounds(t)` otherwise; `CALL t` pushes the address after it on
/// the call stack and goes to `t`; `RET` pops the last return address and
/// goes there, or is `CallStackUnderflow` when none is left; `HALT` changes
/// nothing and reports the halt.
pub proof fn lemma_control(s: VmView, ops: Seq<Op>, t: i64)
    requires
        ops.len() <= i64::MAX,
    ensures
        ({
            let (s1, r) = step_spec(s, ops);
            let op = ops[s.pc as int];
            let inside = 0 <= t <= ops.len();
            &&& (s.pc < 0 || s.pc >= ops.len()) ==> s1 == s && r == Err::<Step, VmError>(
                VmError::UnexpectedEnd,
            )
            &&& (0 <= s.pc < ops.len() && op == Op::Jmp(t)) ==> if inside {
                s1 == s.with_pc(t) && r == Ok::<Step, VmError>(Step::Continue)
            } else {
                s1 == s && r == Err::<Step, VmError>(VmError::JumpOutOfBounds(t))
            }
            &&& (0 <= s.pc < ops.len() && op == Op::Call(t)) ==> s1.call_stack
                == s.call_stack.push((s.pc + 1) as i64) && s1.stack == s.stack && s1.locals
                == s.locals && if inside {
                s1.pc == t && r == Ok::<Step, VmError>(Step::Continue)
            } else {
                s1.pc == s.pc && r == Err::<Step, VmError>(VmError::JumpOutOfBounds(t))
            }
            &&& (0 <= s.pc < ops.len() && op == Op::Ret && s.call_stack.len() == 0) ==> s1 == s
                && r == Err::<Step, VmError>(VmError::CallStackUnderflow)
            &&& (0 <= s.pc < ops.len() && op == Op::Ret && s.call_stack.len() > 0
                && 0 <= s.call_stack.last() <= ops.len()) ==> s1.pc == s.call_stack.last()
                && s1.call_stack == s.call_stack.take(s.call_stack.len() - 1) && s1.stack
                == s.stack && s1.locals == s.locals && r == Ok::<Step, VmError>(Step::Continue)
            &&& (0 <= s.pc < ops.len() && op == Op::Halt) ==> s1 == s && r == Ok::<Step, VmError>(
                Step::Halt,
            )
        }),
{
    if s.call_stack.len() > 0 {
        assert(s.call_stack.drop_last() =~= s.call_stack.take(s.call_stack.len() - 1));
    }
}

/// The locals: `LOAD i` pushes the value in slot `i`; `STORE i` pops the top
/// into slot `i` and leaves every other slot alone; a slot outside
/// `0..256` is `LocalOutOfBounds(i)` with nothing changed, checked before
/// the stack.
pub proof fn lemma_locals(s: VmView, ops: Seq<Op>, i: i64)
    requires
        ops.len() <= i64::MAX,
        0 <= s.pc < ops.len(),
        s.locals.len() == LOCALS_SIZE,
    ensures
        ({
            let (s1, r) = step_spec(s, ops);
            let op = ops[s.pc as int];
            let k = s.stack.len();
            &&& ((op == Op::Load(i) || op == Op::Store(i)) && !(0 <= i < 256)) ==> s1 == s && r
                == Err::<Step, VmError>(VmError::LocalOutOfBounds(i))
            &&& (op == Op::Load(i) && 0 <= i < 256) ==> s1.stack == s.stack.push(s.locals[i as int])
                && s1.locals == s.locals && s1.pc == s.pc + 1 && r == Ok::<Step, VmError>(
                Step::Continue,
            )
            &&& (op == Op::Store(i) && 0 <= i < 256 && k > 0) ==> s1.stack == s.stack.take(k - 1)
                && s1.locals.len() == LOCALS_SIZE && s1.locals[i as int] == s.stack[k - 1] && (
            forall|j: int| 0 <= j < LOCALS_SIZE && j != i ==> #[trigger] s1.locals[j]
                == s.locals[j]) && s1.pc == s.pc + 1 && r == Ok::<Step, VmError>(Step::Continue)
            &&& (op == Op::Store(i) && 0 <= i < 256 && k == 0) ==> s1 == s && r == Err::<
                Step,
                VmError,
            >(VmError::StackUnderflow)
        }),
{
    let k = s.stack.len();
    if k > 0 {
        assert(s.stack.drop_last() =~= s.stack.take(k - 1));
    }
}

/// `JZ t` pops the top value `v`; it goes to `t` when `v` is 0 and to the
/// next instruction for every other value, negative ones included. `JNZ t`
/// does the opposite.
pub proof fn lemma_conditional_jumps(s: VmView, ops: Seq<Op>, t: i64)
    requires
        ops.len() <= i64::MAX,
        0 <= s.pc < ops.len(),
        0 <= t <= ops.len(),
        ops[s.pc as int] == Op::Jz(t) || ops[s.pc as int] == Op::Jnz(t),
        s.stack.len() >= 1,
    ensures
        ({
            let v = s.stack.last();
            let (s1, r) = step_spec(s, ops);
            let jumps = if ops[s.pc as int] == Op::Jz(t) {
                v == 0
            } else {
                v != 0
            };
            &&& r == Ok::<Step, VmError>(Step::Continue)
            &&& s1.stack == s.stack.drop_last()
            &&& s1.pc == if jumps {
                t
            } else {
                (s.pc + 1) as i64
            }
            &&& s1.locals == s.locals
            &&& s1.call_stack == s.call_stack
        }),
{
}

/// The text `PRINT` writes for the values `vs`: each in decimal, one per line.
pub open spec fn render(vs: Seq<i64>) -> Seq<char>
    decreases vs.len(),
{
    if vs.len() == 0 {
        Seq::empty()
    } else {
        render(vs.drop_last()) + decimal_int(vs.last() as int) + seq!['\n']
    }
}

/// The only quotient of two `i64` values that does not fit is `i64::MIN / -1`.
proof fn lemma_div_trunc_overflow(a: i64, b: i64)
    requires
        b != 0,
        div_trunc(a as int, b as int) < i64::MIN || div_trunc(a as int, b as int) > i64::MAX,
    ensures
        a == i64::MIN && b == -1,
{
    let x = abs(a as int);
    let d = abs(b as int);
    assert(0 <= x <= 0x8000_0000_0000_0000);
    assert(d >= 1);
    assert(x / d <= x) by (nonlinear_arith)
        requires
            x >= 0,
            d >= 1,
    ;
    assert(x / d >= 0) by (nonlinear_arith)
        requires
            x >= 0,
            d >= 1,
    ;
    if d >= 2 {
        assert(x / d <= x / 2) by (nonlinear_arith)
            requires
                x >= 0,
                d >= 2,
        ;
    }
}

/// `checked_div` gives the truncating quotient whenever it is not `i64::MIN / -1`.
proof fn lemma_checked_div(a: i64, b: i64)
    requires
        b != 0,
        !(a == i64::MIN && b == -1),
    ensures
        a.checked_div(b) == Some(div_i64(a, b)),
{
    if div_trunc(a as int, b as int) < i64::MIN || div_trunc(a as int, b as int) > i64::MAX {
        lemma_div_trunc_overflow(a, b);
    }
}

/// `checked_rem` gives the truncating remainder whenever it is not `i64::MIN % -1`.
proof fn lemma_checked_rem(a: i64, b: i64)
    requires
        b != 0,
        !(a == i64::MIN && b == -1),
    ensures
        a.checked_rem(b) == Some(rem_i64(a, b)),
{
    let x = abs(a as int);
    let d = abs(b as int);
    assert(0 <= x % d < d) by (nonlinear_arith)
        requires
            x >= 0,
            d >= 1,
    ;
    if a == 0 {
        assert(x % d == 0) by (nonlinear_arith)
            requires
                x == 0,
                d >= 1,
        ;
    } else if a < 0 && b < 0 {
        assert((a as int * -1) % (b as int * -1) == x % d);
    } else if a < 0 {
        assert((a as int * -1) % (b as int) == x % d);
    } else if b < 0 {
        assert((a as int) % (b as int * -1) == x % d);
    } else {
        assert((a as int) % (b as int) == x % d);
    }
}

/// Computes a binary instruction's result (see `binary_result`).
fn binary_op(op: Op, a: i64, b: i64) -> (r: Result<i64, VmError>)
    requires
        is_binary(op),
    ensures
        r == binary_result(op, a, b),
{
    match op {
        Op::Add => {
            let r = a.wrapping_add(b);
            assert(r == vstd::wrapping::i64_specs::wrapping_add(a, b));
            Ok(r)
        },
        Op::Sub => Ok(a.wrapping_sub(b)),
        Op::Mul => Ok(a.wrapping_mul(b)),
        Op::Div => {
            if b == 0 {
                Err(VmError::DivisionByZero)
            } else if a == i64::MIN && b == -1 {
                Ok(i64::MIN)
            } else {
                proof {
                    lemma_checked_div(a, b);
                }
                match a.checked_div(b) {
                    Some(q) => Ok(q),
                    None => Ok(0),
                }
            }
        },
        Op::Mod => {
            if b == 0 {
                Err(VmError::DivisionByZero)
            } else if a == i64::MIN && b == -1 {
                proof {
                    assert(rem_i64(a, b) == 0) by (nonlinear_arith)
                        requires a == i64::MIN && b == -1;
                }
                Ok(0)
            } else {
                proof {
                    lemma_checked_rem(a, b);
                }
                match a.checked_rem(b) {
                    Some(q) => Ok(q),
                    None => Ok(0),
                }
            }
        },
        Op::Eq => Ok(if a == b { 1 } else { 0 }),
        Op::Lt => Ok(if a < b { 1 } else { 0 }),
        _ => Ok(if a > b { 1 } else { 0 }),
    }
}

/// The printed text is one line per value, in order: the text of two runs
/// of output back to back is the text of the first then that of the second,
/// and a single value is its decimal digits and a newline.
pub proof fn lemma_render(a: Seq<i64>, b: Seq<i64>, v: i64)
    ensures
        render(a + b) == render(a) + render(b),
        render(seq![v]) == decimal_int(v as int) + seq!['\n'],
    decreases b.len(),
{
    assert(seq![v].drop_last() =~= Seq::<i64>::empty());
    assert(render(Seq::<i64>::empty()) + decimal_int(v as int) + seq!['\n'] =~= decimal_int(
        v as int,
    ) + seq!['\n']);
    if b.len() == 0 {
        assert(a + b =~= a);
        assert(render(a) + render(b) =~= render(a));
    } else {
        lemma_render(a, b.drop_last(), v);
        assert((a + b).drop_last() =~= a + b.drop_last());
        assert((a + b).last() == b.last());
        assert(render(a + b) =~= render(a) + render(b));
    }
}

/// Executes a `Program`. Locals are a single flat slot array shared across
/// calls, so recursive routines must pass data on the value stack rather
/// than through LOAD/STORE.
pub struct Vm {
    stack: Vec<i64>,
    call_stack: Vec<i64>,
    locals: Vec<i64>,
    pc: i64,
}

impl View for Vm {
    type V = VmView;

    closed spec fn view(&self) -> VmView {
        VmView {
            stack: self.stack@,
            call_stack: self.call_stack@,
            locals: self.locals@,
            pc: self.pc,
        }
    }
}

impl Vm {
    /// The local slot array has its fixed size.
    pub closed spec fn wf(&self) -> bool {
        self.locals@.len() == LOCALS_SIZE
    }

    pub fn new() -> (vm: Self)
        ensures
            vm.wf(),
            vm@ == VmView::initial(),
    {
        let locals: Vec<i64> = vec![0i64; LOCALS_SIZE];
        let vm = Vm { stack: Vec::new(), call_stack: Vec::new(), locals, pc: 0 };
        assert(vm@.locals =~= VmView::initial().locals);
        vm
    }

    fn pop(&mut self) -> (r: Result<i64, VmError>)
        ensures
            final(self).call_stack == old(self).call_stack,
            final(self).locals == old(self).locals,
            final(self).pc == old(self).pc,
            old(self).stack@.len() == 0 ==> r == Err::<i64, VmError>(VmError::StackUnderflow)
                && final(self).stack@ == old(self).stack@,
            old(self).stack@.len() > 0 ==> r == Ok::<i64, VmError>(old(self).stack@.last())
                && final(self).stack@ == old(self).stack@.drop_last(),
    {
        match self.stack.pop() {
            Some(v) => Ok(v),
            None => Err(VmError::StackUnderflow),
        }
    }

    /// Executes the instruction at the program counter: the state changes as
    /// `step_spec` says, also when the step fails.
    pub fn step(&mut self, program: &Program) -> (r: Result<Step, VmError>)
        requires
            old(self).wf(),
            program@.len() <= i64::MAX,
        ensures
            final(self).wf(),
            (final(self)@, r) == step_spec(old(self)@, program@),
    {
        let ops = &program.ops;
        if self.pc < 0 || self.pc as u64 >= ops.len() as u64 {
            return Err(VmError::UnexpectedEnd);
        }
        let op = ops[self.pc as usize];
        let mut next_pc = self.pc + 1;
        let mut printed: Option<i64> = None;
        match op {
            Op::Push(n) => self.stack.push(n),
            Op::Pop => {
                self.pop()?;
            },
            Op::Dup => {
                let v = self.top()?;
                self.stack.push(v);
            },
            Op::Add | Op::Sub | Op::Mul | Op::Div | Op::Mod | Op::Eq | Op::Lt | Op::Gt => {
                match self.binary(op) {
                    Ok(()) => {},
                    Err(e) => return Err(e),
                }
            },
            Op::Neg => {
                let a = self.pop()?;
                self.stack.push(if a == i64::MIN { i64::MIN } else { -a });
            },
            Op::Load(idx) => {
                let slot = self.local_index(idx)?;
                let v = self.locals[slot];
                self.stack.push(v);
            },
            Op::Store(idx) => {
                let slot = self.local_index(idx)?;
                let v = self.pop()?;
                self.locals.set(slot, v);
            },
            Op::Jmp(target) => next_pc = target,
            Op::Jz(target) => {
                let v = self.pop()?;
                if v == 0 {
                    next_pc = target;
                }
            },
            Op::Jnz(target) => {
                let v = self.pop()?;
                if v != 0 {
                    next_pc = target;
                }
            },
            Op::Call(target) => {
                self.call_stack.push(next_pc);
                next_pc = target;
            },
            Op::Ret => {
                next_pc =
                match self.call_stack.pop() {
                    Some(v) => v,
                    None => return Err(VmError::CallStackUnderflow),
                };
            },
            Op::Print => {
                let v = self.top()?;
                printed = Some(v);
            },
            Op::Halt => return Ok(Step::Halt),
        }
        if next_pc < 0 || next_pc as u64 > ops.len() as u64 {
            return Err(VmError::JumpOutOfBounds(next_pc));
        }
        self.pc = next_pc;
        match printed {
            Some(v) => Ok(Step::Print(v)),
            None => Ok(Step::Continue),
        }
    }

    /// Runs the program from the current state until `HALT` or an error,
    /// appending what `PRINT` writes (one decimal value per line) to `out`.
    /// The run must stop within `u64::MAX` steps.
    pub fn run(&mut self, program: &Program, out: &mut String) -> (r: Result<(), VmError>)
        requires
            old(self).wf(),
            program@.len() <= i64::MAX,
            stops_within(old(self)@, program@, u64::MAX as nat),
        ensures
            final(self).wf(),
            ({
                let (t, printed, end) = run_spec(old(self)@, program@, u64::MAX as nat);
                &&& final(self)@ == t
                &&& end == Some(r)
                &&& final(out)@ == old(out)@ + render(printed)
            }),
    {
        let ghost s0 = self@;
        let ghost out0 = out@;
        let ghost mut printed: Seq<i64> = Seq::empty();
        let mut fuel: u64 = u64::MAX;
        assert(out0 + render(printed) =~= out0);
        loop
            invariant
                s0 == old(self)@,
                out0 == old(out)@,
                self.wf(),
                program@.len() <= i64::MAX,
                stops_within(self@, program@, fuel as nat),
                ({
                    let (t, p, e) = run_spec(s0, program@, u64::MAX as nat);
                    let (t2, p2, e2) = run_spec(self@, program@, fuel as nat);
                    t == t2 && e == e2 && p == printed + p2
                }),
                out@ == out0 + render(printed),
            decreases fuel,
        {
            let st = self.step(program);
            proof {
                assert(fuel > 0);
            }
            match st {
                Err(e) => {
                    assert(printed + Seq::<i64>::empty() =~= printed);
                    return Err(e);
                },
                Ok(Step::Halt) => {
                    assert(printed + Seq::<i64>::empty() =~= printed);
                    return Ok(());
                },
                Ok(Step::Continue) => {},
                Ok(Step::Print(v)) => {
                    push_decimal_i64(out, v);
                    proof {
                        reveal_strlit("\n");
                    }
                    out.append("\n");
                    proof {
                        let old_printed = printed;
                        printed = printed.push(v);
                        assert(printed.drop_last() =~= old_printed);
                        assert(out@ =~= out0 + render(printed));
                        let p2 = run_spec(self@, program@, (fuel - 1) as nat).1;
                        assert(old_printed + (seq![v] + p2) =~= printed + p2);
                    }
                },
            }
            fuel = fuel - 1;
        }
    }

    fn top(&self) -> (r: Result<i64, VmError>)
        ensures
            self.stack@.len() == 0 ==> r == Err::<i64, VmError>(VmError::StackUnderflow),
            self.stack@.len() > 0 ==> r == Ok::<i64, VmError>(self.stack@.last()),
    {
        let n = self.stack.len();
        if n == 0 {
            Err(VmError::StackUnderflow)
        } else {
            Ok(self.stack[n - 1])
        }
    }

    /// Pops `b` then `a`, and pushes what `op` computes from them.
    fn binary(&mut self, op: Op) -> (r: Result<(), VmError>)
        requires
            is_binary(op),
        ensures
            ({
                let (t, eff) = apply_op(old(self)@, op, 0);
                &&& final(self)@ == t
                &&& r matches Err(e) ==> eff == Effect::Fail(e)
                &&& r is Ok ==> eff == Effect::Goto(0)
            }),
    {
        let ghost s = self@;
        let b = self.pop()?;
        let a = match self.pop() {
            Ok(a) => a,
            Err(e) => {
                assert(self@ == s.popped());
                return Err(e);
            },
        };
        assert(self@.stack =~= s.stack.take(s.stack.len() - 2));
        let v = binary_op(op, a, b)?;
        self.stack.push(v);
        Ok(())
    }

    fn local_index(&self, idx: i64) -> (r: Result<usize, VmError>)
        ensures
            (idx < 0 || idx >= LOCALS_SIZE) ==> r == Err::<usize, VmError>(
                VmError::LocalOutOfBounds(idx),
            ),
            (0 <= idx < LOCALS_SIZE) ==> r == Ok::<usize, VmError>(idx as usize),
    {
        if idx < 0 || idx >= LOCALS_SIZE as i64 {
            return Err(VmError::LocalOutOfBounds(idx));
        }
        Ok(idx as usize)
    }
}

impl Default for Vm {
    fn default() -> (vm: Self)
        ensures
            vm.wf(),
            vm@ == VmView::initial(),
    {
        Self::new()
    }
}

/// Runs a program on a fresh machine and returns everything written by
/// PRINT, one line per call. The run must stop within `u64::MAX` steps.
pub fn run_collect(program: &Program) -> (r: Result<String, VmError>)
    requires
        program@.len() <= i64::MAX,
        stops_within(VmView::initial(), program@, u64::MAX as nat),
    ensures
        ({
            let (_, printed, end) = run_spec(VmView::initial(), program@, u64::MAX as nat);
            match r {
                Ok(text) => end == Some(Ok::<(), VmError>(())) && text@ == render(printed),
                Err(e) => end == Some(Err::<(), VmError>(e)),
            }
        }),
{
    let mut out = String::new();
    let mut vm = Vm::new();
    vm.run(program, &mut out)?;
    assert(out@ =~= render(run_spec(VmView::initial(), program@, u64::MAX as nat).1));
    Ok(out)
}

} // verus!
