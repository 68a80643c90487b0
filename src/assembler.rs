//! The assembler: one instruction per line, a mnemonic optionally followed by
//! an unsigned decimal operand, translated all or nothing into bytecode.
use vstd::prelude::*;
use crate::isa::{chars_of, code_of, decode_at, lemma_round_trip, opcode_of, takes_operand, Instruction, OPCODE_COUNT, OP_PUSH};
use crate::vm::complete_from;

verus! {

#[derive(Debug, Clone, Copy, PartialEq, Eq, Structural)]
pub enum AsmErrorKind {
    /// The mnemonic is not in the opcode table.
    UnknownInstruction,
    /// The mnemonic needs an operand and none follows it.
    MissingOperand,
    /// The token in operand position is not a decimal number below 2^16, or
    /// stands where no operand is allowed.
    InvalidOperand,
}

/// An assembly error: its kind, the offending token, and where it starts
/// (line and column, both counted from one, the column in characters).
#[derive(Debug)]
pub struct AsmError {
    pub kind: AsmErrorKind,
    pub text: String,
    pub line: usize,
    pub column: usize,
}

/// An assembly error as a mathematical value: kind, token, line, column.
pub type Fault = (AsmErrorKind, Seq<char>, int, int);

impl AsmError {
    pub open spec fn fault(&self) -> Fault {
        (self.kind, self.text@, self.line as int, self.column as int)
    }
}

/// The characters that separate the tokens of a line.
pub open spec fn is_space(c: char) -> bool {
    c == ' ' || c == '\t' || c == '\r'
}

pub open spec fn is_digit(c: char) -> bool {
    '0' <= c && c <= '9'
}

/// The index of the first newline at or after `i`, or the length of the text.
pub open spec fn line_end(t: Seq<char>, i: int) -> int
    decreases (t.len() - i) as nat,
{
    if 0 <= i < t.len() && t[i] != '\n' {
        line_end(t, i + 1)
    } else {
        i
    }
}

/// The first index at or after `i`, and before `e`, that holds no space; or `e`.
pub open spec fn skip_space(t: Seq<char>, i: int, e: int) -> int
    decreases (e - i) as nat,
{
    if i < e && is_space(t[i]) {
        skip_space(t, i + 1, e)
    } else {
        i
    }
}

/// The end of the token that starts at `i`: the next space, or `e`.
pub open spec fn word_end(t: Seq<char>, i: int, e: int) -> int
    decreases (e - i) as nat,
{
    if i < e && !is_space(t[i]) {
        word_end(t, i + 1, e)
    } else {
        i
    }
}

/// The number written by a string of decimal digits.
pub open spec fn decimal(d: Seq<char>) -> nat
    decreases d.len(),
{
    if d.len() == 0 {
        0
    } else {
        decimal(d.drop_last()) * 10 + (d.last() as nat - '0' as nat) as nat
    }
}

/// The operand a token writes: one or more decimal digits, at most 65535.
pub open spec fn operand_of(d: Seq<char>) -> Option<u16> {
    if d.len() > 0 && (forall|k: int| 0 <= k < d.len() ==> is_digit(#[trigger] d[k])) && decimal(d)
        <= 65535 {
        Some(decimal(d) as u16)
    } else {
        None
    }
}

/// The fault of kind `kind` for the token `t[s..e]` of the line that starts at `ls`.
pub open spec fn fault_at(kind: AsmErrorKind, t: Seq<char>, s: int, e: int, ls: int, line: int) -> Fault {
    (kind, t.subrange(s, e), line, s - ls + 1)
}

/// The bytes of the line `t[ls..le]`, numbered `line`: nothing for a line of
/// spaces; else the first token is the mnemonic, an optional second one its
/// operand, and nothing may follow.
pub open spec fn assemble_line(t: Seq<char>, ls: int, le: int, line: int) -> Result<Seq<u8>, Fault> {
    let s1 = skip_space(t, ls, le);
    let e1 = word_end(t, s1, le);
    let s2 = skip_space(t, e1, le);
    let e2 = word_end(t, s2, le);
    let s3 = skip_space(t, e2, le);
    let e3 = word_end(t, s3, le);
    if s1 >= le {
        Ok(Seq::empty())
    } else {
        match opcode_of(t.subrange(s1, e1)) {
            None => Err(fault_at(AsmErrorKind::UnknownInstruction, t, s1, e1, ls, line)),
            Some(op) => if s2 >= le {
                if takes_operand(op) {
                    Err(fault_at(AsmErrorKind::MissingOperand, t, s1, e1, ls, line))
                } else {
                    Ok(seq![op])
                }
            } else if !takes_operand(op) {
                Err(fault_at(AsmErrorKind::InvalidOperand, t, s2, e2, ls, line))
            } else {
                match operand_of(t.subrange(s2, e2)) {
                    None => Err(fault_at(AsmErrorKind::InvalidOperand, t, s2, e2, ls, line)),
                    Some(v) => if s3 < le {
                        Err(fault_at(AsmErrorKind::InvalidOperand, t, s3, e3, ls, line))
                    } else {
                        Ok(Instruction::Push(v).spec_encode())
                    },
                }
            },
        }
    }
}

/// The bytes of the lines from index `i` on, the first of them numbered
/// `line`, or the fault of the first line that has one.
pub open spec fn assemble_from(t: Seq<char>, i: int, line: int) -> Result<Seq<u8>, Fault>
    decreases (t.len() - i) as nat,
    via assemble_from_decreases
{
    if i < 0 || i >= t.len() {
        Ok(Seq::empty())
    } else {
        let e = line_end(t, i);
        match assemble_line(t, i, e, line) {
            Err(f) => Err(f),
            Ok(b) => if e >= t.len() {
                Ok(b)
            } else {
                match assemble_from(t, e + 1, line + 1) {
                    Err(f) => Err(f),
                    Ok(rest) => Ok(b + rest),
                }
            },
        }
    }
}

#[via_fn]
proof fn assemble_from_decreases(t: Seq<char>, i: int, line: int) {
    if 0 <= i < t.len() {
        lemma_line_end(t, i);
    }
}

/// The bytecode of a whole program text, or the first fault in it.
pub open spec fn assembled(t: Seq<char>) -> Result<Seq<u8>, Fault> {
    assemble_from(t, 0, 1)
}

/// `r` with `p` put in front of its bytes.
pub open spec fn prepend(p: Seq<u8>, r: Result<Seq<u8>, Fault>) -> Result<Seq<u8>, Fault> {
    match r {
        Ok(b) => Ok(p + b),
        Err(f) => Err(f),
    }
}

pub open spec fn result_view(r: Result<Vec<u8>, AsmError>) -> Result<Seq<u8>, Fault> {
    match r {
        Ok(b) => Ok(b@),
        Err(e) => Err(e.fault()),
    }
}

proof fn lemma_line_end(t: Seq<char>, i: int)
    requires
        0 <= i <= t.len(),
    ensures
        i <= line_end(t, i) <= t.len(),
        line_end(t, i) < t.len() ==> t[line_end(t, i)] == '\n',
        forall|k: int| i <= k < line_end(t, i) ==> t[k] != '\n',
    decreases t.len() - i,
{
    if i < t.len() && t[i] != '\n' {
        lemma_line_end(t, i + 1);
    }
}

proof fn lemma_skip_space(t: Seq<char>, i: int, e: int)
    requires
        i <= e,
    ensures
        i <= skip_space(t, i, e) <= e,
    decreases e - i,
{
    if i < e && is_space(t[i]) {
        lemma_skip_space(t, i + 1, e);
    }
}

proof fn lemma_word_end(t: Seq<char>, i: int, e: int)
    requires
        i <= e,
    ensures
        i <= word_end(t, i, e) <= e,
    decreases e - i,
{
    if i < e && !is_space(t[i]) {
        lemma_word_end(t, i + 1, e);
    }
}

/// A string of digits writes at least the number that any prefix of it writes.
proof fn lemma_decimal_prefix(d: Seq<char>, k: int)
    requires
        0 <= k <= d.len(),
        forall|j: int| 0 <= j < d.len() ==> is_digit(#[trigger] d[j]),
    ensures
        decimal(d.subrange(0, k)) <= decimal(d),
    decreases d.len(),
{
    if k < d.len() {
        let p = d.drop_last();
        assert(p.subrange(0, k) =~= d.subrange(0, k));
        assert forall|j: int| 0 <= j < p.len() implies is_digit(#[trigger] p[j]) by {
            assert(p[j] == d[j]);
        }
        lemma_decimal_prefix(p, k);
    } else {
        assert(d.subrange(0, k) =~= d);
    }
}

/// Decoding from `p.len() + k` in `p + q` meets what decoding from `k` in `q` meets.
proof fn lemma_complete_shift(p: Seq<u8>, q: Seq<u8>, k: int)
    requires
        0 <= k,
    ensures
        complete_from(p + q, p.len() + k) == complete_from(q, k),
    decreases q.len() - k,
{
    let c = p + q;
    let j = p.len() + k;
    if k < q.len() {
        let (i, n) = decode_at(q, k);
        if k + n <= q.len() {
            assert(c[j] == q[k]);
            if q[k] == OP_PUSH {
                assert(c[j + 1] == q[k + 1]);
                assert(c[j + 2] == q[k + 2]);
            }
            assert(decode_at(c, j) == decode_at(q, k));
            lemma_complete_shift(p, q, k + n);
        } else {
            assert(c[j] == q[k]);
        }
    }
}

/// One instruction's bytes in front of a complete code keep it complete.
proof fn lemma_complete_prefix(b: Seq<u8>, q: Seq<u8>)
    requires
        b.len() > 0,
        decode_at(b, 0).1 == b.len(),
        complete_from(q, 0),
    ensures
        complete_from(b + q, 0),
{
    let c = b + q;
    assert(c[0] == b[0]);
    if b[0] == OP_PUSH {
        assert(c[1] == b[1] && c[2] == b[2]);
    }
    assert(decode_at(c, 0) == decode_at(b, 0));
    lemma_complete_shift(b, q, 0);
}

/// A line assembles to nothing or to the bytes of exactly one instruction.
proof fn lemma_line_is_one_instruction(t: Seq<char>, ls: int, le: int, line: int)
    requires
        assemble_line(t, ls, le, line) is Ok,
    ensures
        ({
            let b = assemble_line(t, ls, le, line)->Ok_0;
            b.len() == 0 || (b.len() > 0 && decode_at(b, 0).1 == b.len())
        }),
{
    let s1 = skip_space(t, ls, le);
    let e1 = word_end(t, s1, le);
    if s1 < le {
        let m = t.subrange(s1, e1);
        let op = opcode_of(m)->0;
        assert(op < OPCODE_COUNT);
        let e2 = word_end(t, skip_space(t, e1, le), le);
        let v = operand_of(t.subrange(skip_space(t, e1, le), e2));
        if v is Some && takes_operand(op) {
            lemma_round_trip(Instruction::Push(v->0));
        }
    }
}

/// Every program that the assembler accepts can be run: decoding its
/// bytecode from the start never reads past the end.
pub proof fn lemma_assembled_is_runnable(t: Seq<char>)
    requires
        assembled(t) is Ok,
    ensures
        complete_from(assembled(t)->Ok_0, 0),
{
    lemma_assembled_from_complete(t, 0, 1);
}

proof fn lemma_assembled_from_complete(t: Seq<char>, i: int, line: int)
    requires
        assemble_from(t, i, line) is Ok,
        0 <= i,
    ensures
        complete_from(assemble_from(t, i, line)->Ok_0, 0),
    decreases t.len() - i,
{
    if i < t.len() {
        let e = line_end(t, i);
        lemma_line_end(t, i);
        let b = assemble_line(t, i, e, line)->Ok_0;
        lemma_line_is_one_instruction(t, i, e, line);
        let rest = if e >= t.len() {
            Seq::<u8>::empty()
        } else {
            lemma_assembled_from_complete(t, e + 1, line + 1);
            assemble_from(t, e + 1, line + 1)->Ok_0
        };
        assert(complete_from(rest, 0));
        if b.len() == 0 {
            assert(b + rest =~= rest);
        } else {
            lemma_complete_prefix(b, rest);
        }
        assert(b + rest =~= assemble_from(t, i, line)->Ok_0) by {
            if e >= t.len() {
                assert(b + rest =~= b);
            }
        }
    }
}

/// The line-level grammar: lines, and the space-separated tokens of a line.
pub struct PearAsmParser;

impl PearAsmParser {
    /// The index of the first newline at or after `from`, or the length of `t`.
    pub fn line_end(t: &[char], from: usize) -> (r: usize)
        requires
            from <= t@.len(),
        ensures
            r == line_end(t@, from as int),
    {
        let mut i = from;
        while i < t.len() && t[i] != '\n'
            invariant
                from <= i <= t@.len(),
                line_end(t@, from as int) == line_end(t@, i as int),
            decreases t@.len() - i,
        {
            i = i + 1;
        }
        i
    }

    /// The next token of the line that ends at `end`, searched from `from`:
    /// its start and its end. The start is `end` where no token is left.
    pub fn next_word(t: &[char], from: usize, end: usize) -> (r: (usize, usize))
        requires
            from <= end <= t@.len(),
        ensures
            r.0 == skip_space(t@, from as int, end as int),
            r.1 == word_end(t@, r.0 as int, end as int),
            from <= r.0 <= r.1 <= end,
    {
        let mut s = from;
        while s < end && (t[s] == ' ' || t[s] == '\t' || t[s] == '\r')
            invariant
                from <= s <= end <= t@.len(),
                skip_space(t@, from as int, end as int) == skip_space(t@, s as int, end as int),
            decreases end - s,
        {
            s = s + 1;
        }
        let mut e = s;
        while e < end && !(t[e] == ' ' || t[e] == '\t' || t[e] == '\r')
            invariant
                s <= e <= end <= t@.len(),
                word_end(t@, s as int, end as int) == word_end(t@, e as int, end as int),
            decreases end - e,
        {
            e = e + 1;
        }
        (s, e)
    }
}

/// The operand that a token writes, or `None` where it is no decimal
/// number below 2^16.
pub fn generate_argument(token: &[char]) -> (r: Option<u16>)
    ensures
        r == operand_of(token@),
{
    let n = token.len();
    if n == 0 {
        return None;
    }
    let mut acc: u32 = 0;
    let mut i: usize = 0;
    while i < n
        invariant
            n == token@.len(),
            i <= n,
            forall|k: int| 0 <= k < i ==> is_digit(#[trigger] token@[k]),
            acc == decimal(token@.subrange(0, i as int)),
            acc <= 65535,
        decreases n - i,
    {
        let c = token[i];
        if !('0' <= c && c <= '9') {
            return None;
        }
        proof {
            assert(token@.subrange(0, i + 1).drop_last() =~= token@.subrange(0, i as int));
        }
        acc = acc * 10 + (c as u32 - '0' as u32);
        i = i + 1;
        if acc > 65535 {
            proof {
                if forall|k: int| 0 <= k < n ==> is_digit(#[trigger] token@[k]) {
                    lemma_decimal_prefix(token@, i as int);
                }
            }
            return None;
        }
    }
    proof {
        assert(token@.subrange(0, n as int) =~= token@);
    }
    Some(acc as u16)
}

/// The error of kind `kind` for the token `src[s..e]` of the line that starts at `ls`.
fn fault(kind: AsmErrorKind, src: &str, s: usize, e: usize, ls: usize, line: usize) -> (r: AsmError)
    requires
        ls <= s <= e <= src@.len(),
        s < src@.len() <= usize::MAX,
    ensures
        r.fault() == fault_at(kind, src@, s as int, e as int, ls as int, line as int),
{
    let text = src.substring_char(s, e).to_owned();
    AsmError { kind, text, line, column: s - ls + 1 }
}

/// Translates the line `t[ls..le]`, numbered `line`.
fn translate_line(src: &str, t: &[char], ls: usize, le: usize, line: usize) -> (r: Result<
    Vec<u8>,
    AsmError,
>)
    requires
        t@ == src@,
        ls <= le <= t@.len() <= usize::MAX,
    ensures
        result_view(r) == assemble_line(t@, ls as int, le as int, line as int),
{
    let (s1, e1) = PearAsmParser::next_word(t, ls, le);
    if s1 >= le {
        return Ok(Vec::new());
    }
    let (s2, e2) = PearAsmParser::next_word(t, e1, le);
    let (s3, e3) = PearAsmParser::next_word(t, e2, le);
    let op = match code_of(&t[s1..e1]) {
        None => {
            return Err(fault(AsmErrorKind::UnknownInstruction, src, s1, e1, ls, line));
        },
        Some(op) => op,
    };
    if s2 >= le {
        if op == OP_PUSH {
            return Err(fault(AsmErrorKind::MissingOperand, src, s1, e1, ls, line));
        }
        let mut bytes: Vec<u8> = Vec::new();
        bytes.push(op);
        proof {
            assert(bytes@ =~= seq![op]);
        }
        return Ok(bytes);
    }
    if op != OP_PUSH {
        return Err(fault(AsmErrorKind::InvalidOperand, src, s2, e2, ls, line));
    }
    match generate_argument(&t[s2..e2]) {
        None => Err(fault(AsmErrorKind::InvalidOperand, src, s2, e2, ls, line)),
        Some(v) => {
            if s3 < le {
                Err(fault(AsmErrorKind::InvalidOperand, src, s3, e3, ls, line))
            } else {
                Ok(Instruction::Push(v).encode())
            }
        },
    }
}

/// Translates a whole program text into bytecode, or reports the first line
/// that breaks the grammar or the opcode table. Nothing is emitted on an error.
pub fn translate_assembly(assembly: String) -> (r: Result<Vec<u8>, AsmError>)
    ensures
        result_view(r) == assembled(assembly@),
        r is Ok ==> complete_from(r->Ok_0@, 0),
{
    let src = assembly.as_str();
    let t = chars_of(src);
    let n = t.len();
    let mut bytecode: Vec<u8> = Vec::new();
    let mut i: usize = 0;
    let mut done: usize = 0;
    while i < n
        invariant
            n == t@.len(),
            t@ == src@,
            src@ == assembly@,
            i <= n,
            done <= i,
            assembled(t@) == prepend(bytecode@, assemble_from(t@, i as int, done + 1)),
        decreases n - i,
    {
        let e = PearAsmParser::line_end(t.as_slice(), i);
        proof {
            lemma_line_end(t@, i as int);
        }
        match translate_line(src, t.as_slice(), i, e, done + 1) {
            Err(err) => {
                return Err(err);
            },
            Ok(mut bytes) => {
                proof {
                    assert(bytecode@ + bytes@ + assemble_from(t@, e + 1, done + 2)->Ok_0 =~= bytecode@
                        + (bytes@ + assemble_from(t@, e + 1, done + 2)->Ok_0));
                }
                bytecode.append(&mut bytes);
            },
        }
        if e >= n {
            proof {
                assert(assembled(assembly@) == Ok::<Seq<u8>, Fault>(bytecode@));
                lemma_assembled_is_runnable(assembly@);
            }
            return Ok(bytecode);
        }
        i = e + 1;
        done = done + 1;
    }
    proof {
        assert(bytecode@ + Seq::<u8>::empty() =~= bytecode@);
        assert(assembled(assembly@) == Ok::<Seq<u8>, Fault>(bytecode@));
        lemma_assembled_is_runnable(assembly@);
    }
    Ok(bytecode)
}

} // verus!
