//! The text assembler and the `.mbc` binary format.
use crate::text::{
    after_word, decimal_int, lemma_decimal_parses_back, lemma_scan_is, upper_code, hex_byte, push_hex_byte, parse_i64, parse_i64_spec, scan_range, strip_comment_spec, trim, trim_range,
    trim_start, upper_eq, upper_eq_range, word, Stop,
};
use crate::types::{
    mnemonic_of, op_code, op_from_code, op_operand, op_text, opcode, AsmError, AsmErrorView, Op, Program,
};
use vstd::bytes::{
    lemma_auto_spec_u32_to_from_le_bytes, lemma_auto_spec_u64_to_from_le_bytes, spec_u32_from_le_bytes,
    spec_u32_to_le_bytes, spec_u64_from_le_bytes, spec_u64_to_le_bytes, u32_from_le_bytes,
    u32_to_le_bytes, u64_from_le_bytes, u64_to_le_bytes,
};
use vstd::slice::slice_subrange;
use vstd::prelude::*;

verus! {

// ---------------------------------------------------------------------------
// What `assemble` computes
// ---------------------------------------------------------------------------

/// The source split at each `\n` (every piece, the last one too). A `\r`
/// before the `\n` is whitespace and disappears when the line is trimmed.
pub open spec fn split_lines(s: Seq<char>) -> Seq<Seq<char>>
    decreases s.len(),
{
    if s.len() == 0 {
        seq![Seq::empty()]
    } else {
        let ls = split_lines(s.drop_last());
        if s.last() == '\n' {
            ls.push(Seq::empty())
        } else {
            ls.update(ls.len() - 1, ls.last().push(s.last()))
        }
    }
}

/// The address a label table gives `name` (its first entry of that name).
pub open spec fn label_addr(labels: Seq<(Seq<char>, i64)>, name: Seq<char>) -> Option<i64>
    decreases labels.len(),
{
    if labels.len() == 0 {
        None
    } else {
        match label_addr(labels.drop_last(), name) {
            Some(a) => Some(a),
            None => if labels.last().0 == name {
                Some(labels.last().1)
            } else {
                None
            },
        }
    }
}

/// The label pass on one source line (1-based number `line`), given the
/// labels and the instruction lines collected so far. A line ending in `:`
/// defines a label at the address equal to the number of instructions seen
/// so far; any other non-blank line is queued as an instruction.
pub open spec fn line_step(
    labels: Seq<(Seq<char>, i64)>,
    instrs: Seq<(int, Seq<char>)>,
    line: int,
    raw: Seq<char>,
) -> Result<(Seq<(Seq<char>, i64)>, Seq<(int, Seq<char>)>), AsmErrorView> {
    let text = strip_comment_spec(raw);
    if text.len() == 0 {
        Ok((labels, instrs))
    } else if text.last() == ':' {
        let name = trim(text.drop_last());
        if label_addr(labels, name) is Some {
            Err(AsmErrorView::DuplicateLabel { line, label: name })
        } else {
            Ok((labels.push((name, instrs.len() as i64)), instrs))
        }
    } else {
        Ok((labels, instrs.push((line, text))))
    }
}

/// The label pass over all lines: the label table and the queued
/// instruction lines, or the first duplicate label.
pub open spec fn label_pass(lines: Seq<Seq<char>>) -> Result<
    (Seq<(Seq<char>, i64)>, Seq<(int, Seq<char>)>),
    AsmErrorView,
>
    decreases lines.len(),
{
    if lines.len() == 0 {
        Ok((Seq::empty(), Seq::empty()))
    } else {
        match label_pass(lines.drop_last()) {
            Err(e) => Err(e),
            Ok((labels, instrs)) => line_step(labels, instrs, lines.len() as int, lines.last()),
        }
    }
}

/// Every label the label pass records is found again under its own name,
/// with its own address: no name is defined twice.
pub proof fn lemma_labels_resolve(lines: Seq<Seq<char>>)
    ensures
        label_pass(lines) matches Ok((labels, instrs)) ==> forall|j: int|
            0 <= j < labels.len() ==> label_addr(labels, #[trigger] labels[j].0) == Some(
                labels[j].1,
            ),
    decreases lines.len(),
{
    if lines.len() > 0 {
        lemma_labels_resolve(lines.drop_last());
        if let Ok((labels, instrs)) = label_pass(lines.drop_last()) {
            let text = strip_comment_spec(lines.last());
            if text.len() > 0 && text.last() == ':' {
                let name = trim(text.drop_last());
                if label_addr(labels, name) is None {
                    let nl = labels.push((name, instrs.len() as i64));
                    assert forall|j: int| 0 <= j < nl.len() implies label_addr(
                        nl,
                        #[trigger] nl[j].0,
                    ) == Some(nl[j].1) by {
                        assert(nl.drop_last() =~= labels);
                        if j < labels.len() {
                            assert(nl[j] == labels[j]);
                        }
                    }
                }
            }
        }
    }
}

/// Labels are looked up by exact name: a table knows a name exactly when one
/// of its entries has that very name (not merely one that starts or ends the
/// same), and the address it gives is that of the first such entry.
pub proof fn lemma_label_addr_exact(labels: Seq<(Seq<char>, i64)>, name: Seq<char>)
    ensures
        (label_addr(labels, name) is Some) <==> (exists|j: int|
            0 <= j < labels.len() && #[trigger] labels[j].0 == name),
        label_addr(labels, name) matches Some(a) ==> exists|j: int|
            0 <= j < labels.len() && #[trigger] labels[j] == (name, a) && forall|i: int|
                0 <= i < j ==> labels[i].0 != name,
    decreases labels.len(),
{
    if labels.len() > 0 {
        let d = labels.drop_last();
        lemma_label_addr_exact(d, name);
        let last = labels.len() - 1;
        assert(labels.last() == labels[last]);
        if exists|j: int| 0 <= j < labels.len() && #[trigger] labels[j].0 == name {
            let j = choose|j: int| 0 <= j < labels.len() && #[trigger] labels[j].0 == name;
            if j < last {
                assert(d[j] == labels[j]);
            }
        }
        if label_addr(d, name) is Some {
            let a = label_addr(d, name)->Some_0;
            let j = choose|j: int|
                0 <= j < d.len() && #[trigger] d[j] == (name, a) && forall|i: int|
                    0 <= i < j ==> d[i].0 != name;
            assert(labels[j] == d[j]);
            assert forall|i: int| 0 <= i < j implies labels[i].0 != name by {
                assert(labels[i] == d[i]);
            }
        } else if labels.last().0 == name {
            assert forall|i: int| 0 <= i < last implies labels[i].0 != name by {
                assert(labels[i] == d[i]);
                if labels[i].0 == name {
                    assert(d[i].0 == name);
                }
            }
        }
    }
}

/// The label a source line defines, if it is a label line.
pub open spec fn defined_label(raw: Seq<char>) -> Option<Seq<char>> {
    let text = strip_comment_spec(raw);
    if text.len() > 0 && text.last() == ':' {
        Some(trim(text.drop_last()))
    } else {
        None
    }
}

proof fn lemma_table_names_defined(lines: Seq<Seq<char>>)
    ensures
        label_pass(lines) matches Ok((labels, instrs)) ==> forall|j: int|
            0 <= j < labels.len() ==> exists|i: int|
                0 <= i < lines.len() && defined_label(#[trigger] lines[i]) == Some(
                    #[trigger] labels[j].0,
                ),
    decreases lines.len(),
{
    if lines.len() > 0 {
        let d = lines.drop_last();
        lemma_table_names_defined(d);
        if let Ok((labels, instrs)) = label_pass(d) {
            if let Ok((nl, ni)) = label_pass(lines) {
                assert forall|j: int| 0 <= j < nl.len() implies exists|i: int|
                    0 <= i < lines.len() && defined_label(#[trigger] lines[i]) == Some(
                        #[trigger] nl[j].0,
                    ) by {
                    if j < labels.len() {
                        assert(nl[j] == labels[j]) by {
                            if nl.len() > labels.len() {
                                assert(nl == labels.push(nl.last()));
                            } else {
                                assert(nl == labels);
                            }
                        }
                        let i = choose|i: int|
                            0 <= i < d.len() && defined_label(#[trigger] d[i]) == Some(labels[j].0);
                        assert(lines[i] == d[i]);
                    } else {
                        assert(defined_label(lines[lines.len() - 1]) == Some(nl[j].0));
                    }
                }
            }
        }
    }
}

/// The label pass fails only on a label defined twice: the error names a
/// line that defines the label, and an earlier line defines the same name.
/// So a source whose label lines define pairwise distinct names never gets
/// `DuplicateLabel`.
pub proof fn lemma_duplicate_label_is_real(lines: Seq<Seq<char>>)
    ensures
        label_pass(lines) matches Err(e) ==> e matches AsmErrorView::DuplicateLabel {
            line,
            label,
        } && 1 <= line <= lines.len() && defined_label(lines[line - 1]) == Some(label) && exists|
            i: int,
        | 0 <= i < line - 1 && #[trigger] defined_label(lines[i]) == Some(label),
    decreases lines.len(),
{
    if lines.len() > 0 {
        let d = lines.drop_last();
        lemma_duplicate_label_is_real(d);
        match label_pass(d) {
            Err(e) => {
                if let AsmErrorView::DuplicateLabel { line, label } = e {
                    assert(lines[line - 1] == d[line - 1]);
                    let i = choose|i: int|
                        0 <= i < line - 1 && #[trigger] defined_label(d[i]) == Some(label);
                    assert(lines[i] == d[i]);
                }
            },
            Ok((labels, instrs)) => {
                if let Err(e) = label_pass(lines) {
                    let text = strip_comment_spec(lines.last());
                    let name = trim(text.drop_last());
                    assert(lines.last() == lines[lines.len() - 1]);
                    lemma_label_addr_exact(labels, name);
                    lemma_table_names_defined(d);
                    let j = choose|j: int| 0 <= j < labels.len() && #[trigger] labels[j].0 == name;
                    let i = choose|i: int|
                        0 <= i < d.len() && defined_label(#[trigger] d[i]) == Some(labels[j].0);
                    assert(lines[i] == d[i]);
                }
            },
        }
    }
}

/// Each mnemonic is made of upper-case ASCII letters.
proof fn lemma_mnemonic_upper(c: u8)
    ensures
        mnemonic_of(c).len() >= 2,
        forall|i: int| 0 <= i < mnemonic_of(c).len() ==> 'A' <= #[trigger] mnemonic_of(c)[i] <= 'Z',
{
}

/// Two different opcodes have mnemonics that differ in length, first or
/// last letter.
proof fn lemma_mnemonics_distinct(j: u8, c: u8)
    requires
        j <= 20,
        c <= 20,
        j != c,
    ensures
        ({
            let a = mnemonic_of(j);
            let b = mnemonic_of(c);
            a.len() != b.len() || a[0] != b[0] || a[a.len() - 1] != b[b.len() - 1]
        }),
{
}

proof fn lemma_code_from_finds(w: Seq<char>, c: u8, k: nat)
    requires
        k <= c <= 20,
        upper_eq(w, mnemonic_of(c)),
    ensures
        code_from(w, k) == Some(c),
    decreases c - k,
{
    if k < c {
        let m = mnemonic_of(c);
        let mk = mnemonic_of(k as u8);
        lemma_mnemonics_distinct(k as u8, c);
        if upper_eq(w, mk) {
            assert(upper_code(w[0]) == m[0] as u32);
            assert(upper_code(w[0]) == mk[0] as u32);
            assert(upper_code(w[w.len() - 1]) == m[m.len() - 1] as u32);
            assert(upper_code(w[w.len() - 1]) == mk[mk.len() - 1] as u32);
        }
        lemma_code_from_finds(w, c, k + 1);
    }
}

/// The assembler reads each opcode's own mnemonic as that opcode.
pub proof fn lemma_mnemonic_code(c: u8)
    requires
        c <= 20,
    ensures
        mnemonic_code(mnemonic_of(c)) == Some(c),
{
    lemma_mnemonic_upper(c);
    assert(upper_eq(mnemonic_of(c), mnemonic_of(c)));
    lemma_code_from_finds(mnemonic_of(c), c, 0);
}

/// Mnemonics are read without regard to ASCII case: a word that spells an
/// opcode's mnemonic with any of its letters in lower case names that
/// opcode, and a word names an opcode only when it spells its mnemonic so.
pub proof fn lemma_mnemonic_any_case(w: Seq<char>, c: u8)
    requires
        c <= 20,
    ensures
        ({
            let m = mnemonic_of(c);
            (w.len() == m.len() && forall|i: int|
                0 <= i < w.len() ==> #[trigger] w[i] as u32 == m[i] as u32 || w[i] as u32 == m[i] as u32 + 32)
                ==> mnemonic_code(w) == Some(c)
        }),
        mnemonic_code(w) == Some(c) ==> w.len() == mnemonic_of(c).len() && forall|i: int|
            0 <= i < w.len() ==> #[trigger] w[i] as u32 == mnemonic_of(c)[i] as u32 || w[i] as u32
                == mnemonic_of(c)[i] as u32 + 32,
{
    let m = mnemonic_of(c);
    lemma_mnemonic_upper(c);
    lemma_code_from_bound(w, 0);
    if w.len() == m.len() && forall|i: int|
        0 <= i < w.len() ==> #[trigger] w[i] as u32 == m[i] as u32 || w[i] as u32 == m[i] as u32 + 32 {
        assert forall|i: int| 0 <= i < w.len() implies upper_code(#[trigger] w[i]) == m[i] as u32 by {
            assert('A' <= m[i] <= 'Z');
            assert(65 <= m[i] as u32 <= 90);

        }
        lemma_code_from_finds(w, c, 0);
    }
    if mnemonic_code(w) == Some(c) {
        lemma_code_from_hit(w, 0);
        assert forall|i: int| 0 <= i < w.len() implies #[trigger] w[i] as u32 == m[i] as u32 || w[i] as u32
            == m[i] as u32 + 32 by {
            assert(upper_code(w[i]) == m[i] as u32);
            assert('A' <= m[i] <= 'Z');
            assert(65 <= m[i] as u32 <= 90);

        }
    }
}

proof fn lemma_code_from_hit(w: Seq<char>, k: nat)
    ensures
        code_from(w, k) matches Some(c) ==> upper_eq(w, mnemonic_of(c)),
    decreases 21 - k,
{
    if k <= 20 {
        lemma_code_from_hit(w, k + 1);
    }
}

/// Disassembly reassembles: the text of an instruction, as `Op::to_string`
/// writes it, parses back to the same instruction, given a label table in
/// which a jump's target, written in decimal, names that target.
pub proof fn lemma_text_reassembles(op: Op, line: int, labels: Seq<(Seq<char>, i64)>)
    requires
        jump_target(op) matches Some(t) ==> label_addr(labels, decimal_int(t as int)) == Some(t),
    ensures
        parse_line(line, op_text(op), labels) == Ok::<Op, AsmErrorView>(op),
{
    let c = op_code(op);
    let m = mnemonic_of(c);
    let text = op_text(op);
    lemma_mnemonic_upper(c);
    lemma_mnemonic_code(c);
    match op_operand(op) {
        None => {
            assert(text == m);
            assert forall|j: int| 0 <= j < m.len() implies !crate::text::stops_at(
                Stop::Space,
                #[trigger] text[j],
            ) by {}
            lemma_scan_is(text, Stop::Space, m.len() as int);
            assert(word(text) =~= m);
            assert(after_word(text) =~= Seq::<char>::empty());
            assert(trim_start(after_word(text)) =~= Seq::<char>::empty());
        },
        Some(n) => {
            let d = decimal_int(n as int);
            lemma_decimal_parses_back(n);
            assert(text =~= m + seq![' '] + d) by {
                reveal_strlit(" ");
            }
            assert forall|j: int| 0 <= j < m.len() implies !crate::text::stops_at(
                Stop::Space,
                #[trigger] text[j],
            ) by {
                assert(text[j] == m[j]);
            }
            assert(text[m.len() as int] == ' ');
            lemma_scan_is(text, Stop::Space, m.len() as int);
            assert(word(text) =~= m);
            let aw = after_word(text);
            assert(aw =~= seq![' '] + d);
            assert forall|j: int| 0 <= j < 1 implies !crate::text::stops_at(
                Stop::NonSpace,
                #[trigger] aw[j],
            ) by {}
            assert(aw[1] == d[0]);
            lemma_scan_is(aw, Stop::NonSpace, 1);
            assert(trim_start(aw) =~= d);
            assert forall|j: int| 0 <= j < d.len() implies !crate::text::stops_at(
                Stop::Space,
                #[trigger] d[j],
            ) by {}
            lemma_scan_is(d, Stop::Space, d.len() as int);
            assert(word(d) =~= d);
        },
    }
}

/// The target of a jump or call instruction.
pub open spec fn jump_target(op: Op) -> Option<i64> {
    match op {
        Op::Jmp(t) => Some(t),
        Op::Jz(t) => Some(t),
        Op::Jnz(t) => Some(t),
        Op::Call(t) => Some(t),
        _ => None,
    }
}

proof fn lemma_label_pass_bounds(lines: Seq<Seq<char>>)
    ensures
        label_pass(lines) matches Ok((labels, instrs)) ==> forall|j: int|
            0 <= j < labels.len() ==> (instrs.len() <= i64::MAX ==> 0 <= #[trigger] labels[j].1
                <= instrs.len()),
    decreases lines.len(),
{
    if lines.len() > 0 {
        lemma_label_pass_bounds(lines.drop_last());
        if let Ok((labels, instrs)) = label_pass(lines.drop_last()) {
            let text = strip_comment_spec(lines.last());
            if text.len() > 0 && text.last() == ':' {
                let name = trim(text.drop_last());
                if label_addr(labels, name) is None {
                    let nl = labels.push((name, instrs.len() as i64));
                    assert forall|j: int| 0 <= j < nl.len() implies (instrs.len() <= i64::MAX ==> 0
                        <= #[trigger] nl[j].1 <= instrs.len()) by {
                        if j < labels.len() {
                            assert(nl[j] == labels[j]);
                        }
                    }
                }
            }
        }
    }
}

proof fn lemma_label_addr_bound(labels: Seq<(Seq<char>, i64)>, name: Seq<char>, bound: int)
    requires
        forall|j: int| 0 <= j < labels.len() ==> 0 <= #[trigger] labels[j].1 <= bound,
    ensures
        label_addr(labels, name) matches Some(a) ==> 0 <= a <= bound,
    decreases labels.len(),
{
    if labels.len() > 0 {
        let d = labels.drop_last();
        assert forall|j: int| 0 <= j < d.len() implies 0 <= #[trigger] d[j].1 <= bound by {
            assert(d[j] == labels[j]);
        }
        lemma_label_addr_bound(d, name, bound);
        assert(labels.last() == labels[labels.len() - 1]);
    }
}

proof fn lemma_parse_pass_targets(
    instrs: Seq<(int, Seq<char>)>,
    labels: Seq<(Seq<char>, i64)>,
    bound: int,
)
    requires
        forall|j: int| 0 <= j < labels.len() ==> 0 <= #[trigger] labels[j].1 <= bound,
    ensures
        parse_pass(instrs, labels) matches Ok(ops) ==> {
            &&& ops.len() == instrs.len()
            &&& forall|i: int|
                0 <= i < ops.len() ==> (#[trigger] jump_target(ops[i]) matches Some(t) ==> 0 <= t
                    <= bound)
        },
    decreases instrs.len(),
{
    if instrs.len() > 0 {
        lemma_parse_pass_targets(instrs.drop_last(), labels, bound);
        if let Ok(ops) = parse_pass(instrs.drop_last(), labels) {
            let (line, text) = instrs.last();
            if let Ok(op) = parse_line(line, text, labels) {
                let rest = trim_start(after_word(text));
                lemma_label_addr_bound(labels, word(rest), bound);
                lemma_code_from_bound(word(text), 0);
                let nops = ops.push(op);
                assert forall|i: int| 0 <= i < nops.len() implies (#[trigger] jump_target(
                    nops[i],
                ) matches Some(t) ==> 0 <= t <= bound) by {
                    if i < ops.len() {
                        assert(nops[i] == ops[i]);
                    }
                }
            }
        }
    }
}

/// Every jump or call target in an assembled program lies in
/// `0..=ops.len()`: label operands always name an instruction of the
/// program or its end, so they never cause `JumpOutOfBounds`.
pub proof fn lemma_jump_targets_in_program(source: Seq<char>)
    ensures
        assemble_spec(source) matches Ok(ops) ==> (ops.len() <= i64::MAX ==> forall|i: int|
            0 <= i < ops.len() ==> (#[trigger] jump_target(ops[i]) matches Some(t) ==> 0 <= t
                <= ops.len())),
{
    lemma_label_pass_bounds(split_lines(source));
    if let Ok((labels, instrs)) = label_pass(split_lines(source)) {
        if instrs.len() <= i64::MAX {
            lemma_parse_pass_targets(instrs, labels, instrs.len() as int);
        } else {
            lemma_parse_pass_length(instrs, labels);
        }
    }
}

proof fn lemma_parse_pass_length(instrs: Seq<(int, Seq<char>)>, labels: Seq<(Seq<char>, i64)>)
    ensures
        parse_pass(instrs, labels) matches Ok(ops) ==> ops.len() == instrs.len(),
    decreases instrs.len(),
{
    if instrs.len() > 0 {
        lemma_parse_pass_length(instrs.drop_last(), labels);
    }
}

/// What operand an instruction kind takes.
pub enum OperandKind {
    NoOperand,
    Integer,
    Label,
}

pub open spec fn operand_kind(code: u8) -> OperandKind {
    if code == opcode::PUSH || code == opcode::LOAD || code == opcode::STORE {
        OperandKind::Integer
    } else if code == opcode::JMP || code == opcode::JZ || code == opcode::JNZ || code
        == opcode::CALL {
        OperandKind::Label
    } else {
        OperandKind::NoOperand
    }
}

/// The first opcode, counting from `c`, whose mnemonic is `w` upper-cased.
pub open spec fn code_from(w: Seq<char>, c: nat) -> Option<u8>
    decreases 21 - c,
{
    if c > 20 {
        None
    } else if upper_eq(w, mnemonic_of(c as u8)) {
        Some(c as u8)
    } else {
        code_from(w, c + 1)
    }
}

/// The opcode whose mnemonic is `w`, compared case-insensitively.
pub open spec fn mnemonic_code(w: Seq<char>) -> Option<u8> {
    code_from(w, 0)
}

/// Parses one instruction line (trimmed, not blank, no comment): the
/// mnemonic is its first whitespace-separated token, the operand the second;
/// further tokens are ignored.
pub open spec fn parse_line(line: int, text: Seq<char>, labels: Seq<(Seq<char>, i64)>) -> Result<
    Op,
    AsmErrorView,
> {
    let rest = trim_start(after_word(text));
    let tok = word(rest);
    match mnemonic_code(word(text)) {
        None => Err(AsmErrorView::UnknownInstruction { line, text }),
        Some(c) => match operand_kind(c) {
            OperandKind::NoOperand => Ok(op_from_code(c, 0).unwrap()),
            OperandKind::Integer => if rest.len() == 0 {
                Err(AsmErrorView::MissingOperand { line, text })
            } else {
                match parse_i64_spec(tok) {
                    None => Err(AsmErrorView::BadOperand { line, text }),
                    Some(v) => Ok(op_from_code(c, v).unwrap()),
                }
            },
            OperandKind::Label => if rest.len() == 0 {
                Err(AsmErrorView::MissingOperand { line, text })
            } else {
                match label_addr(labels, tok) {
                    None => Err(AsmErrorView::UndefinedLabel { label: tok }),
                    Some(a) => Ok(op_from_code(c, a).unwrap()),
                }
            },
        },
    }
}

/// The instruction pass: every queued line parsed in order, or the first error.
pub open spec fn parse_pass(instrs: Seq<(int, Seq<char>)>, labels: Seq<(Seq<char>, i64)>) -> Result<
    Seq<Op>,
    AsmErrorView,
>
    decreases instrs.len(),
{
    if instrs.len() == 0 {
        Ok(Seq::empty())
    } else {
        match parse_pass(instrs.drop_last(), labels) {
            Err(e) => Err(e),
            Ok(ops) => match parse_line(instrs.last().0, instrs.last().1, labels) {
                Err(e) => Err(e),
                Ok(op) => Ok(ops.push(op)),
            },
        }
    }
}

/// The program that `source` assembles to: all labels are collected before
/// any instruction is parsed, so forward and backward references resolve.
pub open spec fn assemble_spec(source: Seq<char>) -> Result<Seq<Op>, AsmErrorView> {
    match label_pass(split_lines(source)) {
        Err(e) => Err(e),
        Ok((labels, instrs)) => parse_pass(instrs, labels),
    }
}

// ---------------------------------------------------------------------------
// Tables held as ranges of the source characters
// ---------------------------------------------------------------------------

pub open spec fn labels_view(t: Seq<char>, v: Seq<(usize, usize, i64)>) -> Seq<(Seq<char>, i64)> {
    Seq::new(v.len(), |j: int| (t.subrange(v[j].0 as int, v[j].1 as int), v[j].2))
}

pub open spec fn instrs_view(t: Seq<char>, v: Seq<(usize, usize, usize)>) -> Seq<(int, Seq<char>)> {
    Seq::new(v.len(), |j: int| (v[j].0 as int, t.subrange(v[j].1 as int, v[j].2 as int)))
}

pub open spec fn labels_ok(n: nat, v: Seq<(usize, usize, i64)>) -> bool {
    forall|j: int| 0 <= j < v.len() ==> #[trigger] v[j].0 <= v[j].1 <= n
}

pub open spec fn instrs_ok(n: nat, v: Seq<(usize, usize, usize)>) -> bool {
    forall|j: int| 0 <= j < v.len() ==> #[trigger] v[j].1 <= v[j].2 <= n
}

/// The characters of `s`, in order.
fn chars_of(s: &str) -> (v: Vec<char>)
    ensures
        v@ == s@,
{
    broadcast use vstd::string::group_string_axioms;

    let mut v: Vec<char> = Vec::new();
    for c in it: s.chars()
        invariant
            v@ == it.seq().take(it.index()),
    {
        v.push(c);
    }
    v
}

/// A `String` holding `source[a..b]` (character positions).
fn string_of(source: &str, a: usize, b: usize) -> (r: String)
    requires
        a <= b <= source@.len(),
    ensures
        r@ == source@.subrange(a as int, b as int),
{
    String::from_str(source.substring_char(a, b))
}

/// Strips a `;` comment and surrounding whitespace from the line
/// `t[lo..hi]`, giving the bounds of what is left.
fn strip_comment(t: &Vec<char>, lo: usize, hi: usize) -> (r: (usize, usize))
    requires
        lo <= hi <= t@.len(),
    ensures
        lo <= r.0 <= r.1 <= hi,
        t@.subrange(r.0 as int, r.1 as int) == strip_comment_spec(t@.subrange(lo as int, hi as int)),
{
    let c = scan_range(t, lo, hi, Stop::Semicolon);
    let r = trim_range(t, lo, c);
    proof {
        let s = t@.subrange(lo as int, hi as int);
        assert(s.take(c - lo) =~= t@.subrange(lo as int, c as int));
    }
    r
}

/// Whether `t[a1..b1]` and `t[a2..b2]` hold the same characters.
fn same_chars(t: &Vec<char>, a1: usize, b1: usize, a2: usize, b2: usize) -> (r: bool)
    requires
        a1 <= b1 <= t@.len(),
        a2 <= b2 <= t@.len(),
    ensures
        r == (t@.subrange(a1 as int, b1 as int) == t@.subrange(a2 as int, b2 as int)),
{
    let ghost x = t@.subrange(a1 as int, b1 as int);
    let ghost y = t@.subrange(a2 as int, b2 as int);
    if b1 - a1 != b2 - a2 {
        assert(x.len() != y.len());
        return false;
    }
    let mut k: usize = 0;
    while k < b1 - a1
        invariant
            a1 <= b1 <= t@.len(),
            a2 <= b2 <= t@.len(),
            b1 - a1 == b2 - a2,
            x == t@.subrange(a1 as int, b1 as int),
            y == t@.subrange(a2 as int, b2 as int),
            forall|m: int| 0 <= m < k ==> x[m] == y[m],
        decreases b1 - a1 - k,
    {
        if t[a1 + k] != t[a2 + k] {
            assert(x[k as int] != y[k as int]);
            return false;
        }
        k += 1;
    }
    assert(x =~= y);
    true
}

/// Looks `t[a..b]` up in the label table.
fn find_label(t: &Vec<char>, labels: &Vec<(usize, usize, i64)>, a: usize, b: usize) -> (r: Option<
    i64,
>)
    requires
        a <= b <= t@.len(),
        labels_ok(t@.len(), labels@),
    ensures
        r == label_addr(labels_view(t@, labels@), t@.subrange(a as int, b as int)),
{
    let ghost name = t@.subrange(a as int, b as int);
    let ghost lv = labels_view(t@, labels@);
    let mut j: usize = 0;
    while j < labels.len()
        invariant
            a <= b <= t@.len(),
            labels_ok(t@.len(), labels@),
            lv == labels_view(t@, labels@),
            name == t@.subrange(a as int, b as int),
            j <= labels@.len(),
            label_addr(lv.take(j as int), name) is None,
        decreases labels.len() - j,
    {
        let (la, lb, addr) = labels[j];
        assert(labels@[j as int].0 <= labels@[j as int].1 <= t@.len());
        proof {
            assert(lv.take(j + 1).drop_last() =~= lv.take(j as int));
        }
        if same_chars(t, la, lb, a, b) {
            proof {
                assert(lv.take(j + 1).last() == lv[j as int]);
                assert(label_addr(lv.take(j + 1), name) == Some(addr));
                lemma_label_addr_prefix(lv, j + 1);
            }
            return Some(addr);
        }
        j += 1;
    }
    assert(lv.take(labels.len() as int) =~= lv);
    None
}

/// Once a prefix of the table knows a name, the whole table gives the same address.
proof fn lemma_label_addr_prefix(labels: Seq<(Seq<char>, i64)>, k: int)
    requires
        0 <= k <= labels.len(),
    ensures
        forall|name: Seq<char>| #[trigger]
            label_addr(labels.take(k), name) is Some ==> label_addr(labels, name)
                == label_addr(labels.take(k), name),
    decreases labels.len(),
{
    if k < labels.len() {
        let l = labels.drop_last();
        assert(l.take(k) =~= labels.take(k));
        lemma_label_addr_prefix(l, k);
    } else {
        assert(labels.take(k) =~= labels);
    }
}

/// The label pass on the line `t[start..end]`, whose 0-based number is
/// `line_idx`: records a label, queues an instruction line, or reports a
/// duplicate label.
fn process_line(
    t: &Vec<char>,
    source: &str,
    start: usize,
    end: usize,
    line_idx: usize,
    labels: &mut Vec<(usize, usize, i64)>,
    instrs: &mut Vec<(usize, usize, usize)>,
) -> (r: Result<(), AsmError>)
    requires
        t@ == source@,
        start <= end <= t@.len(),
        line_idx <= start,
        labels_ok(t@.len(), old(labels)@),
        instrs_ok(t@.len(), old(instrs)@),
    ensures
        labels_ok(t@.len(), final(labels)@),
        instrs_ok(t@.len(), final(instrs)@),
        ({
            let step = line_step(
                labels_view(t@, old(labels)@),
                instrs_view(t@, old(instrs)@),
                line_idx + 1,
                t@.subrange(start as int, end as int),
            );
            match r {
                Ok(()) => step == Ok::<_, AsmErrorView>(
                    (labels_view(t@, final(labels)@), instrs_view(t@, final(instrs)@)),
                ),
                Err(e) => step == Err::<(Seq<(Seq<char>, i64)>, Seq<(int, Seq<char>)>), _>(e@),
            }
        }),
{
    let (a, b) = strip_comment(t, start, end);
    if a == b {
        return Ok(());
    }
    let line = line_idx + 1;
    if t[b - 1] == ':' {
        let (na, nb) = trim_range(t, a, b - 1);
        proof {
            assert(t@.subrange(a as int, b as int).drop_last() =~= t@.subrange(
                a as int,
                b - 1,
            ));
        }
        if find_label(t, labels, na, nb).is_some() {
            return Err(AsmError::DuplicateLabel { line, label: string_of(source, na, nb) });
        }
        let ghost old_lv = labels_view(t@, labels@);
        let ghost old_labels = labels@;
        labels.push((na, nb, instrs.len() as i64));
        assert forall|j: int| 0 <= j < labels@.len() implies #[trigger] labels@[j].0 <= labels@[j].1
            <= t@.len() by {
            if j < old_labels.len() {
                assert(labels@[j] == old_labels[j]);
            }
        }
        assert(labels_view(t@, labels@) =~= old_lv.push(
            (t@.subrange(na as int, nb as int), instrs@.len() as i64),
        ));
    } else {
        let ghost old_iv = instrs_view(t@, instrs@);
        let ghost old_instrs = instrs@;
        instrs.push((line, a, b));
        assert forall|j: int| 0 <= j < instrs@.len() implies #[trigger] instrs@[j].1 <= instrs@[j].2
            <= t@.len() by {
            if j < old_instrs.len() {
                assert(instrs@[j] == old_instrs[j]);
            }
        }
        assert(instrs_view(t@, instrs@) =~= old_iv.push(
            (line as int, t@.subrange(a as int, b as int)),
        ));
    }
    Ok(())
}

/// The result of the label pass so far, as `label_pass` states it.
pub open spec fn pass_state(
    t: Seq<char>,
    failed: Option<AsmError>,
    labels: Seq<(usize, usize, i64)>,
    instrs: Seq<(usize, usize, usize)>,
) -> Result<(Seq<(Seq<char>, i64)>, Seq<(int, Seq<char>)>), AsmErrorView> {
    match failed {
        None => Ok((labels_view(t, labels), instrs_view(t, instrs))),
        Some(e) => Err(e@),
    }
}

proof fn lemma_code_from_bound(w: Seq<char>, c: nat)
    ensures
        code_from(w, c) matches Some(x) ==> x <= 20,
    decreases 21 - c,
{
    if c <= 20 {
        lemma_code_from_bound(w, c + 1);
    }
}

/// The opcode named by the mnemonic `t[a..b]`, matched case-insensitively.
fn lookup_mnemonic(t: &Vec<char>, a: usize, b: usize) -> (r: Option<u8>)
    requires
        a <= b <= t@.len(),
    ensures
        r == mnemonic_code(t@.subrange(a as int, b as int)),
{
    let ghost w = t@.subrange(a as int, b as int);
    let mut c: u8 = 0;
    while c <= 20
        invariant
            a <= b <= t@.len(),
            w == t@.subrange(a as int, b as int),
            c <= 21,
            mnemonic_code(w) == code_from(w, c as nat),
        decreases 21 - c,
    {
        let op = match Op::from_code(c, 0) {
            Some(op) => op,
            None => {
                assert(false);
                return None;
            },
        };
        assert(op_code(op) == c);
        if upper_eq_range(t, a, b, op.mnemonic()) {
            return Some(c);
        }
        c += 1;
    }
    None
}

/// Parses the instruction line `t[a..b]` (1-based line number `lineno`),
/// resolving label operands through the label table.
fn parse_instruction(
    lineno: usize,
    t: &Vec<char>,
    a: usize,
    b: usize,
    labels: &Vec<(usize, usize, i64)>,
    source: &str,
) -> (r: Result<Op, AsmError>)
    requires
        t@ == source@,
        a <= b <= t@.len(),
        labels_ok(t@.len(), labels@),
    ensures
        ({
            let p = parse_line(lineno as int, t@.subrange(a as int, b as int), labels_view(t@, labels@));
            match r {
                Ok(op) => p == Ok::<Op, AsmErrorView>(op),
                Err(e) => p == Err::<Op, AsmErrorView>(e@),
            }
        }),
{
    let ghost text = t@.subrange(a as int, b as int);
    let m_end = scan_range(t, a, b, Stop::Space);
    let r_start = scan_range(t, m_end, b, Stop::NonSpace);
    let tok_end = scan_range(t, r_start, b, Stop::Space);
    proof {
        assert(word(text) =~= t@.subrange(a as int, m_end as int));
        assert(after_word(text) =~= t@.subrange(m_end as int, b as int));
        assert(trim_start(after_word(text)) =~= t@.subrange(r_start as int, b as int));
        assert(word(trim_start(after_word(text))) =~= t@.subrange(r_start as int, tok_end as int));
    }
    proof {
        lemma_code_from_bound(word(text), 0);
    }
    let code = match lookup_mnemonic(t, a, m_end) {
        Some(c) => c,
        None => return Err(AsmError::UnknownInstruction { line: lineno, text: string_of(source, a, b) }),
    };
    if code == opcode::PUSH || code == opcode::LOAD || code == opcode::STORE {
        if r_start == b {
            return Err(AsmError::MissingOperand { line: lineno, text: string_of(source, a, b) });
        }
        match parse_i64(t, r_start, tok_end) {
            None => Err(AsmError::BadOperand { line: lineno, text: string_of(source, a, b) }),
            Some(v) => match Op::from_code(code, v) {
                Some(op) => Ok(op),
                None => {
                    assert(false);
                    Ok(Op::Halt)
                },
            },
        }
    } else if code == opcode::JMP || code == opcode::JZ || code == opcode::JNZ || code == opcode::CALL {
        if r_start == b {
            return Err(AsmError::MissingOperand { line: lineno, text: string_of(source, a, b) });
        }
        match find_label(t, labels, r_start, tok_end) {
            None => Err(AsmError::UndefinedLabel { label: string_of(source, r_start, tok_end) }),
            Some(addr) => match Op::from_code(code, addr) {
                Some(op) => Ok(op),
                None => {
                    assert(false);
                    Ok(Op::Halt)
                },
            },
        }
    } else {
        match Op::from_code(code, 0) {
            Some(op) => Ok(op),
            None => {
                assert(false);
                Ok(Op::Halt)
            },
        }
    }
}

/// An error in the instruction pass at some prefix is the error of the whole pass.
proof fn lemma_parse_pass_err(instrs: Seq<(int, Seq<char>)>, labels: Seq<(Seq<char>, i64)>, k: int)
    requires
        0 <= k <= instrs.len(),
        parse_pass(instrs.take(k), labels) is Err,
    ensures
        parse_pass(instrs, labels) == parse_pass(instrs.take(k), labels),
    decreases instrs.len(),
{
    if k < instrs.len() {
        let d = instrs.drop_last();
        assert(d.take(k) =~= instrs.take(k));
        lemma_parse_pass_err(d, labels, k);
    } else {
        assert(instrs.take(k) =~= instrs);
    }
}

/// Assembles source text into a `Program`. Two passes: the first walks
/// every non-blank line, records label addresses (a label does not
/// occupy a slot, it names the address of the next instruction), the
/// second parses each instruction and resolves label operands.
pub fn assemble(source: &str) -> (r: Result<Program, AsmError>)
    ensures
        match r {
            Ok(p) => assemble_spec(source@) == Ok::<Seq<Op>, AsmErrorView>(p@),
            Err(e) => assemble_spec(source@) == Err::<Seq<Op>, AsmErrorView>(e@),
        },
{
    let t = chars_of(source);
    let n = t.len();
    let mut labels: Vec<(usize, usize, i64)> = Vec::new();
    let mut instrs: Vec<(usize, usize, usize)> = Vec::new();
    let mut failed: Option<AsmError> = None;
    let mut start: usize = 0;
    let mut line_idx: usize = 0;
    let mut i: usize = 0;
    proof {
        assert(t@.take(0) =~= Seq::<char>::empty());
        assert(labels_view(t@, labels@) =~= Seq::<(Seq<char>, i64)>::empty());
        assert(instrs_view(t@, instrs@) =~= Seq::<(int, Seq<char>)>::empty());
        assert(split_lines(t@.take(0)).drop_last() =~= Seq::<Seq<char>>::empty());
        assert(t@.subrange(0, 0) =~= Seq::<char>::empty());
    }
    while i < n
        invariant
            t@ == source@,
            n == t@.len(),
            start <= i <= n,
            line_idx <= start,
            split_lines(t@.take(i as int)).len() == line_idx + 1,
            split_lines(t@.take(i as int)).last() == t@.subrange(start as int, i as int),
            labels_ok(t@.len(), labels@),
            instrs_ok(t@.len(), instrs@),
            pass_state(t@, failed, labels@, instrs@) == label_pass(
                split_lines(t@.take(i as int)).drop_last(),
            ),
        decreases n - i,
    {
        let ghost ls = split_lines(t@.take(i as int));
        proof {
            assert(t@.take(i + 1).drop_last() =~= t@.take(i as int));
            assert(t@.take(i + 1).last() == t@[i as int]);
        }
        if t[i] == '\n' {
            assert(split_lines(t@.take(i + 1)) == ls.push(Seq::empty()));
            assert(split_lines(t@.take(i + 1)).drop_last() =~= ls);
            assert(ls.drop_last().push(ls.last()) =~= ls);
            if failed.is_none() {
                match process_line(&t, source, start, i, line_idx, &mut labels, &mut instrs) {
                    Ok(()) => {},
                    Err(e) => {
                        failed = Some(e);
                    },
                }
            }
            start = i + 1;
            line_idx += 1;
            assert(t@.subrange(start as int, i + 1) =~= Seq::<char>::empty());
        } else {
            let ghost nl = ls.update(ls.len() - 1, ls.last().push(t@[i as int]));
            assert(split_lines(t@.take(i + 1)) == nl);
            assert(nl.drop_last() =~= ls.drop_last());
            assert(t@.subrange(start as int, i + 1) =~= t@.subrange(start as int, i as int).push(
                t@[i as int],
            ));
        }
        i += 1;
    }
    proof {
        assert(t@.take(n as int) =~= t@);
        let ls = split_lines(t@);
        assert(ls.drop_last().push(ls.last()) =~= ls);
    }
    if failed.is_none() {
        match process_line(&t, source, start, n, line_idx, &mut labels, &mut instrs) {
            Ok(()) => {},
            Err(e) => {
                failed = Some(e);
            },
        }
    }
    match failed {
        Some(e) => {
            return Err(e);
        },
        None => {},
    }
    let ghost lv = labels_view(t@, labels@);
    let ghost iv = instrs_view(t@, instrs@);
    let mut ops: Vec<Op> = Vec::new();
    let mut j: usize = 0;
    proof {
        assert(iv.take(0) =~= Seq::<(int, Seq<char>)>::empty());
    }
    while j < instrs.len()
        invariant
            t@ == source@,
            labels_ok(t@.len(), labels@),
            instrs_ok(t@.len(), instrs@),
            lv == labels_view(t@, labels@),
            iv == instrs_view(t@, instrs@),
            label_pass(split_lines(source@)) == Ok::<_, AsmErrorView>((lv, iv)),
            j <= instrs@.len(),
            parse_pass(iv.take(j as int), lv) == Ok::<Seq<Op>, AsmErrorView>(ops@),
        decreases instrs.len() - j,
    {
        let (lineno, a, b) = instrs[j];
        assert(instrs@[j as int].1 <= instrs@[j as int].2 <= t@.len());
        proof {
            assert(iv.take(j + 1).drop_last() =~= iv.take(j as int));
            assert(iv.take(j + 1).last() == iv[j as int]);
        }
        match parse_instruction(lineno, &t, a, b, &labels, source) {
            Ok(op) => {
                ops.push(op);
            },
            Err(e) => {
                proof {
                    lemma_parse_pass_err(iv, lv, j + 1);
                }
                return Err(e);
            },
        }
        j += 1;
    }
    assert(iv.take(instrs.len() as int) =~= iv);
    Ok(Program { ops })
}

// ---------------------------------------------------------------------------
// The `.mbc` bytecode format
// ---------------------------------------------------------------------------

/// The 4 magic bytes `MRG1` that open a bytecode file.
pub open spec fn magic() -> Seq<u8> {
    seq![0x4d, 0x52, 0x47, 0x31]
}

/// The operand an instruction is encoded with: its own, or 0 when it takes none.
pub open spec fn encoded_operand(op: Op) -> i64 {
    match op_operand(op) {
        Some(n) => n,
        None => 0,
    }
}

/// One instruction: its opcode byte, then its operand as 8 little-endian bytes.
pub open spec fn op_bytes(op: Op) -> Seq<u8> {
    seq![op_code(op)] + spec_u64_to_le_bytes(encoded_operand(op) as u64)
}

pub open spec fn ops_bytes(ops: Seq<Op>) -> Seq<u8>
    decreases ops.len(),
{
    if ops.len() == 0 {
        Seq::empty()
    } else {
        ops_bytes(ops.drop_last()) + op_bytes(ops.last())
    }
}

/// The `.mbc` encoding: magic, the instruction count as a little-endian
/// `u32` (the count is truncated to 32 bits), then each instruction in 9 bytes.
pub open spec fn encode_spec(ops: Seq<Op>) -> Seq<u8> {
    magic() + spec_u32_to_le_bytes(ops.len() as u32) + ops_bytes(ops)
}

/// Errors in reading a `.mbc` file.
#[derive(Debug, Clone, Copy, PartialEq, Eq, Structural)]
pub enum DecodeError {
    TooShort,
    BadMagic,
    Truncated,
    UnknownOpcode(u8),
}

/// The message of a decode error.
pub open spec fn decode_error_message(e: DecodeError) -> Seq<char> {
    match e {
        DecodeError::TooShort => "file too short to be mirage bytecode"@,
        DecodeError::BadMagic => "bad magic header, not a mirage .mbc file"@,
        DecodeError::Truncated => "truncated instruction stream"@,
        DecodeError::UnknownOpcode(b) => "unknown opcode 0x"@ + hex_byte(b),
    }
}

impl DecodeError {
    /// The error's message, e.g. `truncated instruction stream`.
    pub fn to_string(&self) -> (s: String)
        ensures
            s@ == decode_error_message(*self),
    {
        let mut s = String::new();
        match self {
            DecodeError::TooShort => s.append("file too short to be mirage bytecode"),
            DecodeError::BadMagic => s.append("bad magic header, not a mirage .mbc file"),
            DecodeError::Truncated => s.append("truncated instruction stream"),
            DecodeError::UnknownOpcode(b) => {
                s.append("unknown opcode 0x");
                push_hex_byte(&mut s, *b);
            },
        }
        s
    }
}

/// The first `k` instructions of the stream that starts at byte 8 of `b`.
pub open spec fn decode_ops(b: Seq<u8>, k: nat) -> Result<Seq<Op>, DecodeError>
    decreases k,
{
    if k == 0 {
        Ok(Seq::empty())
    } else {
        match decode_ops(b, (k - 1) as nat) {
            Err(e) => Err(e),
            Ok(ops) => {
                let pos = 8 + 9 * (k - 1);
                if pos + 9 > b.len() {
                    Err(DecodeError::Truncated)
                } else {
                    let operand = spec_u64_from_le_bytes(b.subrange(pos + 1, pos + 9)) as i64;
                    match op_from_code(b[pos], operand) {
                        None => Err(DecodeError::UnknownOpcode(b[pos])),
                        Some(op) => Ok(ops.push(op)),
                    }
                }
            },
        }
    }
}

/// What `decode` makes of the bytes `b`. Bytes after the last instruction
/// are ignored.
pub open spec fn decode_spec(b: Seq<u8>) -> Result<Seq<Op>, DecodeError> {
    if b.len() < 8 {
        Err(DecodeError::TooShort)
    } else if b.take(4) != magic() {
        Err(DecodeError::BadMagic)
    } else {
        decode_ops(b, spec_u32_from_le_bytes(b.subrange(4, 8)) as nat)
    }
}

/// Encodes a program to the `.mbc` binary format: a 4 byte magic
/// header, a 4 byte little-endian instruction count, then each
/// instruction as 1 opcode byte followed by 8 bytes of operand
/// (zero when the instruction takes none).
pub fn encode(program: &Program) -> (out: Vec<u8>)
    ensures
        out@ == encode_spec(program@),
        out@.len() == 8 + 9 * program@.len(),
{
    let mut out: Vec<u8> = Vec::new();
    out.push(0x4d);
    out.push(0x52);
    out.push(0x47);
    out.push(0x31);
    let mut count = u32_to_le_bytes(program.ops.len() as u32);
    out.append(&mut count);
    let ghost head = out@;
    assert(head =~= magic() + spec_u32_to_le_bytes(program@.len() as u32));
    let mut i: usize = 0;
    while i < program.ops.len()
        invariant
            i <= program@.len(),
            head.len() == 8,
            out@ == head + ops_bytes(program@.take(i as int)),
            ops_bytes(program@.take(i as int)).len() == 9 * i,
        decreases program.ops.len() - i,
    {
        let op = program.ops[i];
        out.push(op.code());
        let operand: i64 = match op.operand() {
            Some(n) => n,
            None => 0,
        };
        let mut le = u64_to_le_bytes(operand as u64);
        out.append(&mut le);
        proof {
            let p = program@.take(i + 1);
            assert(p.drop_last() =~= program@.take(i as int));
            assert(p.last() == op);
            assert(out@ =~= head + ops_bytes(p));
        }
        i += 1;
    }
    assert(program@.take(program@.len() as int) =~= program@);
    out
}

/// Once the stream fails at some instruction, the whole decode fails the same way.
proof fn lemma_decode_ops_err(b: Seq<u8>, k: nat, count: nat)
    requires
        k <= count,
        decode_ops(b, k) is Err,
    ensures
        decode_ops(b, count) == decode_ops(b, k),
    decreases count,
{
    if k < count {
        lemma_decode_ops_err(b, k, (count - 1) as nat);
    }
}

/// Decodes a `.mbc` byte stream: short input, a wrong magic, a stream that
/// ends inside an instruction, and an unknown opcode byte are typed errors.
pub fn decode(bytes: &[u8]) -> (r: Result<Program, DecodeError>)
    ensures
        match r {
            Ok(p) => decode_spec(bytes@) == Ok::<Seq<Op>, DecodeError>(p@),
            Err(e) => decode_spec(bytes@) == Err::<Seq<Op>, DecodeError>(e),
        },
{
    if bytes.len() < 8 {
        return Err(DecodeError::TooShort);
    }
    if bytes[0] != 0x4d || bytes[1] != 0x52 || bytes[2] != 0x47 || bytes[3] != 0x31 {
        assert(bytes@.take(4) != magic()) by {
            if bytes@.take(4) == magic() {
                assert(bytes@.take(4)[0] == bytes@[0]);
                assert(bytes@.take(4)[1] == bytes@[1]);
                assert(bytes@.take(4)[2] == bytes@[2]);
                assert(bytes@.take(4)[3] == bytes@[3]);
            }
        }
        return Err(DecodeError::BadMagic);
    }
    assert(bytes@.take(4) =~= magic());
    let count = u32_from_le_bytes(slice_subrange(bytes, 4, 8));
    let ghost total = count as nat;
    let mut ops: Vec<Op> = Vec::new();
    let mut pos: usize = 8;
    let mut k: u32 = 0;
    while k < count
        invariant
            bytes@.len() >= 8,
            bytes@.take(4) == magic(),
            total == spec_u32_from_le_bytes(bytes@.subrange(4, 8)),
            total == count,
            k <= count,
            pos == 8 + 9 * k,
            pos <= bytes@.len(),
            decode_ops(bytes@, k as nat) == Ok::<Seq<Op>, DecodeError>(ops@),
        decreases count - k,
    {
        if bytes.len() - pos < 9 {
            proof {
                lemma_decode_ops_err(bytes@, (k + 1) as nat, total);
            }
            return Err(DecodeError::Truncated);
        }
        let code = bytes[pos];
        let operand = u64_from_le_bytes(slice_subrange(bytes, pos + 1, pos + 9)) as i64;
        match Op::from_code(code, operand) {
            Some(op) => ops.push(op),
            None => {
                proof {
                    lemma_decode_ops_err(bytes@, (k + 1) as nat, total);
                }
                return Err(DecodeError::UnknownOpcode(code));
            },
        }
        pos = pos + 9;
        k = k + 1;
    }
    Ok(Program { ops })
}

proof fn lemma_ops_bytes(ops: Seq<Op>)
    ensures
        ops_bytes(ops).len() == 9 * ops.len(),
        forall|j: int|
            0 <= j < ops.len() ==> #[trigger] ops_bytes(ops).subrange(9 * j, 9 * j + 9) == op_bytes(
                ops[j],
            ),
    decreases ops.len(),
{
    lemma_auto_spec_u64_to_from_le_bytes();
    if ops.len() > 0 {
        let d = ops.drop_last();
        lemma_ops_bytes(d);
        let a = ops_bytes(d);
        let b = op_bytes(ops.last());
        assert forall|j: int| 0 <= j < ops.len() implies #[trigger] ops_bytes(ops).subrange(
            9 * j,
            9 * j + 9,
        ) == op_bytes(ops[j]) by {
            if j < d.len() {
                assert(ops_bytes(ops).subrange(9 * j, 9 * j + 9) =~= a.subrange(9 * j, 9 * j + 9));
                assert(ops[j] == d[j]);
            } else {
                assert(ops_bytes(ops).subrange(9 * j, 9 * j + 9) =~= b);
            }
        }
    }
}

proof fn lemma_op_bytes_decode(op: Op)
    ensures
        op_bytes(op).len() == 9,
        op_from_code(
            op_bytes(op)[0],
            spec_u64_from_le_bytes(op_bytes(op).subrange(1, 9)) as i64,
        ) == Some(op),
{
    lemma_auto_spec_u64_to_from_le_bytes();
    let x = encoded_operand(op);
    let le = spec_u64_to_le_bytes(x as u64);
    assert(op_bytes(op).subrange(1, 9) =~= le);
    assert((x as u64) as i64 == x) by (bit_vector);
}

/// Decoding what `encode` wrote gives the program back, for every program
/// whose instruction count fits the 32-bit count field.
pub proof fn lemma_decode_encode(ops: Seq<Op>)
    requires
        ops.len() <= u32::MAX,
    ensures
        decode_spec(encode_spec(ops)) == Ok::<Seq<Op>, DecodeError>(ops),
{
    lemma_auto_spec_u32_to_from_le_bytes();
    lemma_ops_bytes(ops);
    let b = encode_spec(ops);
    assert(b.take(4) =~= magic());
    assert(b.subrange(4, 8) =~= spec_u32_to_le_bytes(ops.len() as u32));
    lemma_decode_ops_prefix(ops, ops.len());
    assert(ops.take(ops.len() as int) =~= ops);
}

/// The byte layout of an encoding: `MRG1`, the instruction count as a
/// little-endian `u32`, then for instruction `j` at byte `8 + 9 * j` its
/// opcode byte followed by its operand (0 when it has none) as a
/// little-endian 64-bit word.
pub proof fn lemma_encode_layout(ops: Seq<Op>)
    ensures
        ({
            let b = encode_spec(ops);
            &&& b.len() == 8 + 9 * ops.len()
            &&& b[0] == 0x4d && b[1] == 0x52 && b[2] == 0x47 && b[3] == 0x31
            &&& spec_u32_from_le_bytes(b.subrange(4, 8)) == ops.len() as u32
            &&& forall|j: int|
                0 <= j < ops.len() ==> {
                    &&& b[8 + 9 * j] == op_code(#[trigger] ops[j])
                    &&& spec_u64_from_le_bytes(b.subrange(8 + 9 * j + 1, 8 + 9 * j + 9))
                        == (match op_operand(ops[j]) {
                        Some(n) => n,
                        None => 0i64,
                    }) as u64
                }
        }),
{
    lemma_auto_spec_u32_to_from_le_bytes();
    lemma_auto_spec_u64_to_from_le_bytes();
    lemma_ops_bytes(ops);
    let b = encode_spec(ops);
    assert(b.subrange(4, 8) =~= spec_u32_to_le_bytes(ops.len() as u32));
    assert forall|j: int| 0 <= j < ops.len() implies {
        &&& b[8 + 9 * j] == op_code(#[trigger] ops[j])
        &&& spec_u64_from_le_bytes(b.subrange(8 + 9 * j + 1, 8 + 9 * j + 9)) == (match op_operand(
            ops[j],
        ) {
            Some(n) => n,
            None => 0i64,
        }) as u64
    } by {
        let piece = ops_bytes(ops).subrange(9 * j, 9 * j + 9);
        assert(piece == op_bytes(ops[j]));
        assert(b[8 + 9 * j] == piece[0]);
        assert(b.subrange(8 + 9 * j + 1, 8 + 9 * j + 9) =~= piece.subrange(1, 9));
        assert(piece.subrange(1, 9) =~= spec_u64_to_le_bytes(encoded_operand(ops[j]) as u64));
    }
}

proof fn lemma_decode_ops_facts(b: Seq<u8>, k: nat)
    ensures
        decode_ops(b, k) matches Ok(ops) ==> ops.len() == k && 8 + 9 * k <= b.len() || k == 0,
        decode_ops(b, k) matches Ok(ops) ==> forall|j: int|
            0 <= j < ops.len() ==> op_code(#[trigger] ops[j]) == b[8 + 9 * j],
        decode_ops(b, k) matches Err(e) ==> match e {
            DecodeError::Truncated => 8 + 9 * k > b.len(),
            DecodeError::UnknownOpcode(x) => x > 20,
            _ => false,
        },
    decreases k,
{
    if k > 0 {
        lemma_decode_ops_facts(b, (k - 1) as nat);
        if let Ok(ops) = decode_ops(b, (k - 1) as nat) {
            let pos = 8 + 9 * (k - 1);
            if pos + 9 <= b.len() {
                let operand = spec_u64_from_le_bytes(b.subrange(pos + 1, pos + 9)) as i64;
                if let Some(op) = op_from_code(b[pos], operand) {
                    let nops = ops.push(op);
                    assert forall|j: int| 0 <= j < nops.len() implies op_code(#[trigger] nops[j])
                        == b[8 + 9 * j] by {
                        if j < ops.len() {
                            assert(nops[j] == ops[j]);
                        }
                    }
                }
            }
        }
    }
}

/// What `decode` accepts and rejects: under 8 bytes is `TooShort`; bytes
/// not starting with `MRG1` are `BadMagic`; a stream shorter than the count
/// announces is `Truncated`; `UnknownOpcode` names a byte above 20. A
/// decoded program has as many instructions as the count field says, all
/// inside the input, each with the opcode byte found at its position.
pub proof fn lemma_decode_contract(b: Seq<u8>)
    ensures
        b.len() < 8 <==> decode_spec(b) == Err::<Seq<Op>, DecodeError>(DecodeError::TooShort),
        b.len() >= 8 && !(b[0] == 0x4d && b[1] == 0x52 && b[2] == 0x47 && b[3] == 0x31)
            ==> decode_spec(b) == Err::<Seq<Op>, DecodeError>(DecodeError::BadMagic),
        decode_spec(b) == Err::<Seq<Op>, DecodeError>(DecodeError::BadMagic) ==> !(b[0] == 0x4d
            && b[1] == 0x52 && b[2] == 0x47 && b[3] == 0x31),
        decode_spec(b) == Err::<Seq<Op>, DecodeError>(DecodeError::Truncated) ==> 8 + 9
            * spec_u32_from_le_bytes(b.subrange(4, 8)) > b.len(),
        decode_spec(b) matches Err(DecodeError::UnknownOpcode(x)) ==> x > 20,
        decode_spec(b) matches Ok(ops) ==> {
            &&& ops.len() == spec_u32_from_le_bytes(b.subrange(4, 8))
            &&& 8 + 9 * ops.len() <= b.len()
            &&& forall|j: int| 0 <= j < ops.len() ==> op_code(#[trigger] ops[j]) == b[8 + 9 * j]
        },
{
    if b.len() >= 8 {
        let h = b.take(4);
        if b[0] == 0x4d && b[1] == 0x52 && b[2] == 0x47 && b[3] == 0x31 {
            assert(h =~= magic());
        } else {
            assert(h != magic()) by {
                if h == magic() {
                    assert(h[0] == b[0] && h[1] == b[1] && h[2] == b[2] && h[3] == b[3]);
                }
            }
        }
        lemma_decode_ops_facts(b, spec_u32_from_le_bytes(b.subrange(4, 8)) as nat);
    }
}

proof fn lemma_decode_ops_prefix(ops: Seq<Op>, k: nat)
    requires
        k <= ops.len(),
        ops_bytes(ops).len() == 9 * ops.len(),
        forall|j: int|
            0 <= j < ops.len() ==> #[trigger] ops_bytes(ops).subrange(9 * j, 9 * j + 9) == op_bytes(
                ops[j],
            ),
    ensures
        decode_ops(encode_spec(ops), k) == Ok::<Seq<Op>, DecodeError>(ops.take(k as int)),
    decreases k,
{
    lemma_auto_spec_u32_to_from_le_bytes();
    if k == 0 {
        assert(ops.take(0) =~= Seq::<Op>::empty());
    } else {
        lemma_decode_ops_prefix(ops, (k - 1) as nat);
        let b = encode_spec(ops);
        let j = k - 1;
        let pos = 8 + 9 * j;
        let head = magic() + spec_u32_to_le_bytes(ops.len() as u32);
        assert(head.len() == 8);
        let piece = ops_bytes(ops).subrange(9 * j, 9 * j + 9);
        assert(piece == op_bytes(ops[j as int]));
        lemma_op_bytes_decode(ops[j as int]);
        assert(b[pos] == piece[0]);
        assert(b.subrange(pos + 1, pos + 9) =~= piece.subrange(1, 9));
        assert(ops.take(k as int) =~= ops.take(j as int).push(ops[j as int]));
    }
}

} // verus!
