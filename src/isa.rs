//! The instruction set shared by the assembler and the virtual machine:
//! the opcode table, the binary encoding of each instruction, and its decoding.
use vstd::prelude::*;
use vstd::std_specs::iter::IteratorSpec;

verus! {

/// The one value type of the machine: an unsigned 16-bit integer.
pub type Value = u16;

/// Number of opcodes in the table; bytes at or above it are not opcodes.
pub const OPCODE_COUNT: u8 = 6;

pub const OP_NOP: u8 = 0;
pub const OP_PUSH: u8 = 1;
pub const OP_POP: u8 = 2;
pub const OP_ADD: u8 = 3;
pub const OP_PRINT: u8 = 4;
pub const OP_HALT: u8 = 5;

#[derive(Debug, Clone, Copy, PartialEq, Eq, Structural)]
pub enum Instruction {
    Nop(),
    Push(Value),
    Pop(),
    Add(),
    Print(),
    Halt(),
}

/// The mnemonic of each opcode of the table.
pub open spec fn mnemonic_of(op: u8) -> Seq<char> {
    if op == OP_NOP {
        seq!['n', 'o', 'p']
    } else if op == OP_PUSH {
        seq!['p', 'u', 's', 'h']
    } else if op == OP_POP {
        seq!['p', 'o', 'p']
    } else if op == OP_ADD {
        seq!['a', 'd', 'd']
    } else if op == OP_PRINT {
        seq!['p', 'r', 'i', 'n', 't']
    } else {
        seq!['h', 'a', 'l', 't']
    }
}

/// The opcode whose mnemonic is `m`, if any: the inverse of `mnemonic_of`.
pub open spec fn opcode_of(m: Seq<char>) -> Option<u8> {
    if exists|op: u8| op < OPCODE_COUNT && #[trigger] mnemonic_of(op) == m {
        Some(choose|op: u8| op < OPCODE_COUNT && #[trigger] mnemonic_of(op) == m)
    } else {
        None
    }
}

/// Only `push` takes an operand.
pub open spec fn takes_operand(op: u8) -> bool {
    op == OP_PUSH
}

pub open spec fn opcode(i: Instruction) -> u8 {
    match i {
        Instruction::Nop() => OP_NOP,
        Instruction::Push(_) => OP_PUSH,
        Instruction::Pop() => OP_POP,
        Instruction::Add() => OP_ADD,
        Instruction::Print() => OP_PRINT,
        Instruction::Halt() => OP_HALT,
    }
}

/// The two little-endian bytes of a value.
pub open spec fn le_bytes(v: u16) -> Seq<u8> {
    seq![(v % 256) as u8, (v / 256) as u8]
}

/// The value held by two little-endian bytes.
pub open spec fn le_value(lo: u8, hi: u8) -> u16 {
    (lo + 256 * hi) as u16
}

impl Instruction {
    /// Encoded size in bytes: the opcode byte and the operand bytes, if any.
    pub open spec fn spec_size(self) -> nat {
        match self {
            Instruction::Push(_) => 3,
            _ => 1,
        }
    }

    /// The bytes of the instruction: its opcode, then for `push` its operand, little-endian.
    pub open spec fn spec_encode(self) -> Seq<u8> {
        match self {
            Instruction::Push(v) => seq![OP_PUSH] + le_bytes(v),
            _ => seq![opcode(self)],
        }
    }

    pub fn size(&self) -> (r: usize)
        ensures
            r == self.spec_size(),
    {
        match self {
            Instruction::Push(_) => 3,
            _ => 1,
        }
    }

    pub fn encode(&self) -> (r: Vec<u8>)
        ensures
            r@ == self.spec_encode(),
    {
        let mut r: Vec<u8> = Vec::new();
        match self {
            Instruction::Nop() => r.push(OP_NOP),
            Instruction::Push(v) => {
                let (lo, hi) = split_le(*v);
                r.push(OP_PUSH);
                r.push(lo);
                r.push(hi);
            },
            Instruction::Pop() => r.push(OP_POP),
            Instruction::Add() => r.push(OP_ADD),
            Instruction::Print() => r.push(OP_PRINT),
            Instruction::Halt() => r.push(OP_HALT),
        }
        proof {
            assert(r@ =~= self.spec_encode());
        }
        r
    }
}

/// The instruction that starts at `ip`, and its size. A byte outside the
/// opcode table decodes as `nop` of size one.
pub open spec fn decode_at(code: Seq<u8>, ip: int) -> (Instruction, nat) {
    let op = code[ip];
    if op == OP_PUSH {
        (Instruction::Push(le_value(code[ip + 1], code[ip + 2])), 3)
    } else if op == OP_POP {
        (Instruction::Pop(), 1)
    } else if op == OP_ADD {
        (Instruction::Add(), 1)
    } else if op == OP_PRINT {
        (Instruction::Print(), 1)
    } else if op == OP_HALT {
        (Instruction::Halt(), 1)
    } else {
        (Instruction::Nop(), 1)
    }
}

/// The size that decoding reports is the size of the decoded instruction.
pub proof fn lemma_decoded_size(code: Seq<u8>, ip: int)
    ensures
        decode_at(code, ip).1 == decode_at(code, ip).0.spec_size(),
        decode_at(code, ip).1 >= 1,
{
}

/// Decodes the instruction that starts at `ip`: the instruction and its size.
pub fn decode(code: &[u8], ip: usize) -> (r: (Instruction, usize))
    requires
        ip < code@.len(),
        code@[ip as int] == OP_PUSH ==> ip + 3 <= code@.len(),
    ensures
        (r.0, r.1 as nat) == decode_at(code@, ip as int),
{
    let op = code[ip];
    if op == OP_PUSH {
        (Instruction::Push(join_le(code[ip + 1], code[ip + 2])), 3)
    } else if op == OP_POP {
        (Instruction::Pop(), 1)
    } else if op == OP_ADD {
        (Instruction::Add(), 1)
    } else if op == OP_PRINT {
        (Instruction::Print(), 1)
    } else if op == OP_HALT {
        (Instruction::Halt(), 1)
    } else {
        (Instruction::Nop(), 1)
    }
}

/// Splits a value into its low and high byte.
pub fn split_le(v: u16) -> (r: (u8, u8))
    ensures
        seq![r.0, r.1] == le_bytes(v),
{
    ((v % 256) as u8, (v / 256) as u8)
}

/// Joins a low and a high byte into a value.
pub fn join_le(lo: u8, hi: u8) -> (r: u16)
    ensures
        r == le_value(lo, hi),
        r as int == lo + 256 * hi,
{
    lo as u16 + (hi as u16) * 256
}

/// The mnemonic of an opcode of the table, as text.
pub fn mnemonic(op: u8) -> (r: &'static str)
    requires
        op < OPCODE_COUNT,
    ensures
        r@ == mnemonic_of(op),
{
    proof {
        reveal_strlit("nop");
        reveal_strlit("push");
        reveal_strlit("pop");
        reveal_strlit("add");
        reveal_strlit("print");
        reveal_strlit("halt");
    }
    if op == OP_NOP {
        "nop"
    } else if op == OP_PUSH {
        "push"
    } else if op == OP_POP {
        "pop"
    } else if op == OP_ADD {
        "add"
    } else if op == OP_PRINT {
        "print"
    } else {
        "halt"
    }
}

/// Whether the characters `a` spell the text `b`.
pub fn spells(a: &[char], b: &str) -> (r: bool)
    ensures
        r == (a@ == b@),
{
    let n = b.unicode_len();
    if a.len() != n {
        return false;
    }
    let mut i: usize = 0;
    while i < n
        invariant
            n == b@.len(),
            a@.len() == n,
            i <= n,
            forall|k: int| 0 <= k < i ==> a@[k] == b@[k],
        decreases n - i,
    {
        if a[i] != b.get_char(i) {
            return false;
        }
        i = i + 1;
    }
    proof {
        assert(a@ =~= b@);
    }
    true
}

/// Looks a mnemonic up in the opcode table.
pub fn code_of(name: &[char]) -> (r: Option<u8>)
    ensures
        r == opcode_of(name@),
{
    let mut op: u8 = 0;
    while op < OPCODE_COUNT
        invariant
            op <= OPCODE_COUNT,
            forall|o: u8| o < op ==> mnemonic_of(o) != name@,
        decreases OPCODE_COUNT - op,
    {
        if spells(name, mnemonic(op)) {
            proof {
                lemma_mnemonic_opcode(op);
            }
            return Some(op);
        }
        op = op + 1;
    }
    None
}

/// The characters of a text, in order.
pub fn chars_of(s: &str) -> (r: Vec<char>)
    ensures
        r@ == s@,
{
    broadcast use vstd::string::group_string_axioms;

    let mut it = s.chars();
    let mut r: Vec<char> = Vec::new();
    loop
        invariant
            r@ + it.remaining() == s@,
            it.decrease() is Some,
        decreases it.decrease()->0,
    {
        match it.next() {
            Some(c) => {
                proof {
                    assert(r@.push(c) + it.remaining() =~= s@);
                }
                r.push(c);
            },
            None => {
                proof {
                    assert(r@ =~= s@);
                }
                return r;
            },
        }
    }
}

/// The opcode of a mnemonic, or `None` for a word outside the table.
pub fn instruction_code(name: &str) -> (r: Option<u8>)
    ensures
        r == opcode_of(name@),
{
    let chars = chars_of(name);
    code_of(chars.as_slice())
}

/// Whether a mnemonic must be followed by an operand: true of `push` alone.
pub fn requires_argument(name: &str) -> (r: bool)
    ensures
        r == (name@ == mnemonic_of(OP_PUSH)),
{
    spells(chars_of(name).as_slice(), mnemonic(OP_PUSH))
}

/// Decoding the encoding of an instruction gives the instruction back, and
/// the encoding is as long as the instruction's size.
pub proof fn lemma_round_trip(i: Instruction)
    ensures
        i.spec_encode().len() == i.spec_size(),
        decode_at(i.spec_encode(), 0) == (i, i.spec_size()),
{
    if let Instruction::Push(v) = i {
        let b = i.spec_encode();
        assert(b[1] == (v % 256) as u8 && b[2] == (v / 256) as u8);
        assert(le_value(b[1], b[2]) == v);
    }
}

/// The mnemonics of the table are distinct, so each has exactly one opcode.
pub proof fn lemma_mnemonic_opcode(op: u8)
    requires
        op < OPCODE_COUNT,
    ensures
        opcode_of(mnemonic_of(op)) == Some(op),
{
    assert(mnemonic_of(op).len() >= 3);
    assert forall|o: u8| o < OPCODE_COUNT && #[trigger] mnemonic_of(o) == mnemonic_of(op) implies o
        == op by {
        if o != op {
            assert(mnemonic_of(o)[0] != mnemonic_of(op)[0] || mnemonic_of(o)[1] != mnemonic_of(
                op,
            )[1] || mnemonic_of(o).len() != mnemonic_of(op).len());
        }
    }
}

} // verus!
