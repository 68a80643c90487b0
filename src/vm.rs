//! The stack machine: decodes the bytecode left to right and executes each
//! instruction against an operand stack, until `halt`, the end of the code,
//! or a stack underflow.
use vstd::prelude::*;
use crate::isa::{decode, decode_at, lemma_decoded_size, Instruction, Value, OP_ADD, OP_HALT, OP_POP, OP_PRINT, OP_PUSH};

verus! {

/// What one `print` emits: the value it popped, or the marker of an empty stack.
#[derive(Debug, Clone, Copy, PartialEq, Eq, Structural)]
pub enum Printed {
    Value(Value),
    Empty,
}

#[derive(Debug, Clone, Copy, PartialEq, Eq, Structural)]
pub enum VmError {
    /// `instr` found too few values on the stack; `ip` is where it began.
    StackUnderflow { instr: Instruction, ip: usize },
}

pub struct VM {
    code: Vec<u8>,
    ip: usize,
    stack: Vec<Value>,
    halt: bool,
    output: Vec<Printed>,
}

/// The state of a machine, as a mathematical value.
pub struct VmState {
    pub code: Seq<u8>,
    pub ip: int,
    pub stack: Seq<Value>,
    pub halted: bool,
    pub output: Seq<Printed>,
}

impl View for VM {
    type V = VmState;

    closed spec fn view(&self) -> VmState {
        VmState {
            code: self.code@,
            ip: self.ip as int,
            stack: self.stack@,
            halted: self.halt,
            output: self.output@,
        }
    }
}

/// The sum of two values, wrapping at 2^16.
pub open spec fn wrapped_sum(a: Value, b: Value) -> Value {
    ((a + b) % 65536) as Value
}

/// Executes one decoded instruction that began at `at` on stack `s` and
/// output `o`: the new stack and output, and an error where the stack held
/// too few values. On an underflow the values that were popped stay popped.
pub open spec fn execute_on(instr: Instruction, at: int, s: Seq<Value>, o: Seq<Printed>) -> (
    Seq<Value>,
    Seq<Printed>,
    Result<(), VmError>,
) {
    match instr {
        Instruction::Push(v) => (s.push(v), o, Ok(())),
        Instruction::Pop() => if s.len() == 0 {
            (s, o, Err(VmError::StackUnderflow { instr, ip: at as usize }))
        } else {
            (s.drop_last(), o, Ok(()))
        },
        Instruction::Add() => if s.len() < 2 {
            (Seq::empty(), o, Err(VmError::StackUnderflow { instr, ip: at as usize }))
        } else {
            (
                s.subrange(0, s.len() - 2).push(wrapped_sum(s[s.len() - 1], s[s.len() - 2])),
                o,
                Ok(()),
            )
        },
        Instruction::Print() => if s.len() == 0 {
            (s, o.push(Printed::Empty), Ok(()))
        } else {
            (s.drop_last(), o.push(Printed::Value(s.last())), Ok(()))
        },
        _ => (s, o, Ok(())),
    }
}

/// One decode-then-execute step from a running state whose `ip` is inside the code.
pub open spec fn step(st: VmState) -> (VmState, Result<(), VmError>) {
    let (instr, n) = decode_at(st.code, st.ip);
    let (s, o, r) = execute_on(instr, st.ip, st.stack, st.output);
    (
        VmState {
            code: st.code,
            ip: st.ip + n,
            stack: s,
            halted: st.halted || instr == Instruction::Halt(),
            output: o,
        },
        r,
    )
}

/// Whether the machine stops before decoding: it has halted or reached the end.
pub open spec fn stopped(st: VmState) -> bool {
    st.halted || st.ip >= st.code.len()
}

/// How many bytes of code lie at or after `ip`.
pub open spec fn left_to_decode(st: VmState) -> nat {
    if 0 <= st.ip < st.code.len() {
        (st.code.len() - st.ip) as nat
    } else {
        0
    }
}

/// Runs from `st` until it stops or a step fails: the last state and the result.
pub open spec fn run_from(st: VmState) -> (VmState, Result<(), VmError>)
    decreases left_to_decode(st),
    via run_from_decreases
{
    if stopped(st) || st.ip < 0 {
        (st, Ok(()))
    } else {
        let (next, r) = step(st);
        if r is Err {
            (next, r)
        } else {
            run_from(next)
        }
    }
}

#[via_fn]
proof fn run_from_decreases(st: VmState) {
    lemma_decoded_size(st.code, st.ip);
    if !stopped(st) {
        let next = step(st).0;
        assert(next.ip == st.ip + decode_at(st.code, st.ip).1);
    }
}

/// Every instruction that decoding meets from `ip` on, up to the first `halt`,
/// lies wholly inside the code: no `push` lacks operand bytes.
pub open spec fn complete_from(code: Seq<u8>, ip: int) -> bool
    decreases (code.len() - ip) as nat,
{
    if ip < 0 {
        false
    } else if ip >= code.len() {
        true
    } else {
        let (instr, n) = decode_at(code, ip);
        ip + n <= code.len() && (instr == Instruction::Halt() || complete_from(code, ip + n))
    }
}

/// Whether the machine can run from `st` without reading past the code.
pub open spec fn runnable(st: VmState) -> bool {
    st.halted || complete_from(st.code, st.ip)
}

/// A `push` followed at once by a `pop` leaves the stack and the output as they were.
pub proof fn lemma_push_then_pop(st: VmState)
    requires
        0 <= st.ip,
        st.ip + 4 <= st.code.len(),
        st.code[st.ip] == OP_PUSH,
        st.code[st.ip + 3] == OP_POP,
    ensures
        ({
            let (mid, r1) = step(st);
            let (end, r2) = step(mid);
            &&& r1 is Ok
            &&& r2 is Ok
            &&& end.stack == st.stack
            &&& end.output == st.output
            &&& end.ip == st.ip + 4
        }),
{
    let (mid, r1) = step(st);
    assert(mid.ip == st.ip + 3);
    assert(mid.stack.drop_last() =~= st.stack);
}

/// `add` gives the same stack whichever of two values was pushed first: the
/// values below them, then their sum wrapped at 2^16.
pub proof fn lemma_add_commutes(s: Seq<Value>, o: Seq<Printed>, at: int, a: Value, b: Value)
    ensures
        execute_on(Instruction::Add(), at, s.push(a).push(b), o) == execute_on(
            Instruction::Add(),
            at,
            s.push(b).push(a),
            o,
        ),
        execute_on(Instruction::Add(), at, s.push(a).push(b), o) == (
            s.push(((a + b) % 65536) as Value),
            o,
            Ok::<(), VmError>(()),
        ),
{
    assert(s.push(a).push(b).subrange(0, s.len() as int) =~= s);
    assert(s.push(b).push(a).subrange(0, s.len() as int) =~= s);
}

/// `pop` on an empty stack, and `add` on a stack of fewer than two values,
/// end the run with a stack underflow that names the instruction and the
/// index where it began.
pub proof fn lemma_underflow(st: VmState)
    requires
        !stopped(st),
        0 <= st.ip,
        (st.code[st.ip] == OP_POP && st.stack.len() == 0) || (st.code[st.ip] == OP_ADD
            && st.stack.len() < 2),
    ensures
        run_from(st).1 == Err::<(), VmError>(
            VmError::StackUnderflow { instr: decode_at(st.code, st.ip).0, ip: st.ip as usize },
        ),
        st.code[st.ip] == OP_POP ==> decode_at(st.code, st.ip).0 == Instruction::Pop(),
        st.code[st.ip] == OP_ADD ==> decode_at(st.code, st.ip).0 == Instruction::Add(),
{
}

/// `print` on an empty stack emits the empty marker and does not fail.
pub proof fn lemma_print_empty(st: VmState)
    requires
        !stopped(st),
        0 <= st.ip,
        st.code[st.ip] == OP_PRINT,
        st.stack.len() == 0,
    ensures
        step(st) == (VmState { ip: st.ip + 1, output: st.output.push(Printed::Empty), ..st }, Ok::<
            (),
            VmError,
        >(())),
{
}

/// `halt` ends the run at once: no later instruction executes, whatever bytes follow.
pub proof fn lemma_halt_stops(st: VmState)
    requires
        !stopped(st),
        0 <= st.ip,
        st.code[st.ip] == OP_HALT,
    ensures
        run_from(st) == (VmState { ip: st.ip + 1, halted: true, ..st }, Ok::<(), VmError>(())),
{
    let next = step(st).0;
    assert(stopped(next));
    assert(run_from(next) == (next, Ok::<(), VmError>(())));
    assert(next == VmState { ip: st.ip + 1, halted: true, ..st });
}

impl VM {
    pub fn new(bytecode: Vec<u8>) -> (r: Self)
        ensures
            r@ == (VmState {
                code: bytecode@,
                ip: 0,
                stack: Seq::empty(),
                halted: false,
                output: Seq::empty(),
            }),
    {
        VM { code: bytecode, ip: 0, stack: Vec::new(), halt: false, output: Vec::new() }
    }

    /// Decodes the instruction at `ip` and moves `ip` past it.
    fn decode(&mut self) -> (r: Instruction)
        requires
            old(self).ip < old(self).code.len(),
            complete_from(old(self)@.code, old(self)@.ip),
        ensures
            r == decode_at(old(self)@.code, old(self)@.ip).0,
            final(self)@.ip == old(self)@.ip + decode_at(old(self)@.code, old(self)@.ip).1,
            final(self)@ == (VmState { ip: final(self)@.ip, ..old(self)@ }),
    {
        let (instruction, size) = decode(self.code.as_slice(), self.ip);
        self.ip = self.ip + size;
        instruction
    }

    /// Executes an instruction that was just decoded and ended at `ip`.
    fn execute(&mut self, instruction: Instruction) -> (r: Result<(), VmError>)
        requires
            old(self).ip >= instruction.spec_size(),
        ensures
            ({
                let at = old(self)@.ip - instruction.spec_size();
                let (s, o, res) = execute_on(instruction, at, old(self)@.stack, old(self)@.output);
                &&& r == res
                &&& final(self)@ == (VmState {
                    stack: s,
                    output: o,
                    halted: old(self)@.halted || instruction == Instruction::Halt(),
                    ..old(self)@
                })
            }),
    {
        let previous_ip = self.ip - instruction.size();
        match instruction {
            Instruction::Nop() => {},
            Instruction::Push(value) => self.stack.push(value),
            Instruction::Pop() => {
                if self.stack.pop().is_none() {
                    return Err(VmError::StackUnderflow { instr: instruction, ip: previous_ip });
                }
            },
            Instruction::Add() => {
                let left = match self.stack.pop() {
                    None => {
                        proof {
                            assert(self.stack@ =~= Seq::<Value>::empty());
                        }
                        return Err(VmError::StackUnderflow { instr: instruction, ip: previous_ip });
                    },
                    Some(v) => v,
                };
                let right = match self.stack.pop() {
                    None => {
                        proof {
                            assert(self.stack@ =~= Seq::<Value>::empty());
                        }
                        return Err(VmError::StackUnderflow { instr: instruction, ip: previous_ip });
                    },
                    Some(v) => v,
                };
                self.stack.push(left.wrapping_add(right));
                proof {
                    let s = old(self)@.stack;
                    assert(self.stack@ =~= s.subrange(0, s.len() - 2).push(wrapped_sum(left, right)));
                }
            },
            Instruction::Print() => match self.stack.pop() {
                Some(v) => self.output.push(Printed::Value(v)),
                None => self.output.push(Printed::Empty),
            },
            Instruction::Halt() => self.halt = true,
        }
        Ok(())
    }

    /// Whether `run` can be called: every instruction it could decode lies
    /// wholly inside the code.
    pub fn is_runnable(&self) -> (r: bool)
        ensures
            r == runnable(self@),
    {
        if self.halt {
            return true;
        }
        let n = self.code.len();
        let mut at: usize = self.ip;
        while at < n
            invariant
                n == self.code@.len(),
                !self.halt,
                complete_from(self.code@, self.ip as int) == complete_from(self.code@, at as int),
            decreases n - at,
        {
            let op = self.code[at];
            if op == OP_PUSH {
                if n - at < 3 {
                    return false;
                }
                at = at + 3;
            } else if op == OP_HALT {
                return true;
            } else {
                at = at + 1;
            }
        }
        true
    }

    /// Runs the machine until `halt`, the end of the code, or the first error.
    /// Values printed before an error stay in the output.
    pub fn run(&mut self) -> (r: Result<(), VmError>)
        requires
            runnable(old(self)@),
        ensures
            (final(self)@, r) == run_from(old(self)@),
    {
        while self.ip < self.code.len() && !self.halt
            invariant
                run_from(self@) == run_from(old(self)@),
                runnable(self@),
            decreases self.code.len() - self.ip,
        {
            let ghost before = self@;
            let instruction = self.decode();
            proof {
                lemma_decoded_size(before.code, before.ip);
            }
            let r = self.execute(instruction);
            proof {
                assert(step(before) == (self@, r));
            }
            if r.is_err() {
                return r;
            }
        }
        Ok(())
    }

    /// Everything that `print` has emitted so far, in order.
    pub fn output(&self) -> (r: &Vec<Printed>)
        ensures
            r@ == self@.output,
    {
        &self.output
    }

    /// The operand stack, bottom first.
    pub fn stack(&self) -> (r: &Vec<Value>)
        ensures
            r@ == self@.stack,
    {
        &self.stack
    }

    /// Index of the next instruction to decode.
    pub fn ip(&self) -> (r: usize)
        ensures
            r == self@.ip,
    {
        self.ip
    }

    /// Whether a `halt` has executed.
    pub fn halted(&self) -> (r: bool)
        ensures
            r == self@.halted,
    {
        self.halt
    }
}

} // verus!
