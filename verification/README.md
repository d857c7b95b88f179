# Mirage

A small stack-based bytecode virtual machine: an instruction set, a text
assembler, a compact `.mbc` bytecode format, and an executor. The library is
written in Verus and every function in `src/` is proved against its contract.

## Layout

- `src/types.rs`, `src/types/opcode.rs`: the instructions (`Op`), their
  opcode bytes and mnemonics, `Program`, and the error types.
- `src/text.rs`: Unicode whitespace, trimming, tokens, `i64` literals, and
  decimal/hexadecimal rendering, each with a spec function.
- `src/assembler.rs`: `assemble` (two passes: labels, then instructions),
  `encode` and `decode` for the `.mbc` format, and the round-trip theorem
  `lemma_decode_encode`.
- `src/vm.rs`: the executor. `step_spec` states what one instruction does,
  `run_spec` what a whole run does; `Vm::step`, `Vm::run` and `run_collect`
  are proved to follow them.
- `app/main.rs`: the `mirage` command line (`run`, `asm`, `disasm`).
- `tests/`: scenarios run against the compiled library.

## Semantics worth knowing

- `ADD`, `SUB`, `MUL` and `NEG` wrap around in two's complement;
  `i64::MIN / -1` is `i64::MIN` and `i64::MIN % -1` is `0`. Division and
  remainder truncate towards zero; by zero they fail with `DivisionByZero`.
- A failing instruction keeps what it had popped, and the program counter
  stays on it; `HALT` leaves the counter on the `HALT`.
- `Vm::run` and `run_collect` are for programs that stop within `u64::MAX`
  steps; `Vm::step` executes one instruction at a time with no such bound,
  and the command line drives it that way.
