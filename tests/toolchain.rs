use pear::assembler::generate_argument;
use pear::{
    decode, instruction_code, requires_argument, translate_assembly, AsmErrorKind, Instruction,
    PearAsmParser, Printed, VmError, VM,
};

fn assemble(src: &str) -> Vec<u8> {
    translate_assembly(src.to_string()).unwrap()
}

fn run_bytes(code: Vec<u8>) -> (VM, Result<(), VmError>) {
    let mut vm = VM::new(code);
    assert!(vm.is_runnable());
    let r = vm.run();
    (vm, r)
}

fn chars(s: &str) -> Vec<char> {
    s.chars().collect()
}

#[test]
fn round_trip_every_instruction() {
    let all = [
        Instruction::Nop(),
        Instruction::Push(0),
        Instruction::Push(1),
        Instruction::Push(258),
        Instruction::Push(65535),
        Instruction::Pop(),
        Instruction::Add(),
        Instruction::Print(),
        Instruction::Halt(),
    ];
    for i in all {
        let bytes = i.encode();
        assert_eq!(bytes.len(), i.size());
        assert_eq!(decode(&bytes, 0), (i, i.size()));
    }
}

#[test]
fn encoding_bytes_and_sizes() {
    assert_eq!(Instruction::Push(0x1234).encode(), vec![1, 0x34, 0x12]);
    assert_eq!(Instruction::Nop().encode(), vec![0]);
    assert_eq!(Instruction::Pop().encode(), vec![2]);
    assert_eq!(Instruction::Add().encode(), vec![3]);
    assert_eq!(Instruction::Print().encode(), vec![4]);
    assert_eq!(Instruction::Halt().encode(), vec![5]);
    assert_eq!(Instruction::Push(7).size(), 3);
    assert_eq!(Instruction::Halt().size(), 1);
}

#[test]
fn unknown_opcode_decodes_as_nop() {
    assert_eq!(decode(&[9, 1], 0), (Instruction::Nop(), 1));
    let (vm, r) = run_bytes(vec![200, 1, 7, 0, 4]);
    assert_eq!(r, Ok(()));
    assert_eq!(vm.output(), &vec![Printed::Value(7)]);
}

#[test]
fn opcode_table() {
    assert_eq!(instruction_code("nop"), Some(0));
    assert_eq!(instruction_code("push"), Some(1));
    assert_eq!(instruction_code("pop"), Some(2));
    assert_eq!(instruction_code("add"), Some(3));
    assert_eq!(instruction_code("print"), Some(4));
    assert_eq!(instruction_code("halt"), Some(5));
    assert_eq!(instruction_code("foo"), None);
    assert_eq!(instruction_code("PUSH"), None);
    assert!(requires_argument("push"));
    assert!(!requires_argument("pop"));
    assert!(!requires_argument("pushx"));
}

#[test]
fn push_then_pop_restores_stack() {
    for v in [0u16, 1, 40000, 65535] {
        let mut code = vec![1, 9, 0];
        code.extend(Instruction::Push(v).encode());
        code.push(2);
        let (vm, r) = run_bytes(code);
        assert_eq!(r, Ok(()));
        assert_eq!(vm.stack(), &vec![9]);
    }
}

#[test]
fn add_commutes_and_wraps() {
    let ab = run_bytes(assemble("push 60000\npush 10000\nadd\nprint"));
    let ba = run_bytes(assemble("push 10000\npush 60000\nadd\nprint"));
    assert_eq!(ab.0.output(), &vec![Printed::Value(4464)]);
    assert_eq!(ba.0.output(), &vec![Printed::Value(4464)]);
    let (vm, r) = run_bytes(assemble("push 2\npush 3\nadd"));
    assert_eq!(r, Ok(()));
    assert_eq!(vm.stack(), &vec![5]);
}

#[test]
fn pop_on_empty_stack_underflows() {
    let (vm, r) = run_bytes(vec![0, 2, 4]);
    assert_eq!(r, Err(VmError::StackUnderflow { instr: Instruction::Pop(), ip: 1 }));
    assert!(vm.output().is_empty());
}

#[test]
fn add_on_short_stack_underflows() {
    let (_, r) = run_bytes(vec![3]);
    assert_eq!(r, Err(VmError::StackUnderflow { instr: Instruction::Add(), ip: 0 }));
    let (vm, r) = run_bytes(vec![1, 5, 0, 3]);
    assert_eq!(r, Err(VmError::StackUnderflow { instr: Instruction::Add(), ip: 3 }));
    assert!(vm.stack().is_empty());
}

#[test]
fn output_before_error_is_kept() {
    let (vm, r) = run_bytes(assemble("push 8\nprint\npop\nprint"));
    assert_eq!(r, Err(VmError::StackUnderflow { instr: Instruction::Pop(), ip: 4 }));
    assert_eq!(vm.output(), &vec![Printed::Value(8)]);
}

#[test]
fn print_on_empty_stack_emits_marker() {
    let (vm, r) = run_bytes(vec![4]);
    assert_eq!(r, Ok(()));
    assert_eq!(vm.output(), &vec![Printed::Empty]);
}

#[test]
fn halt_stops_before_following_bytes() {
    let (vm, r) = run_bytes(vec![1, 1, 0, 5, 2, 2, 4, 1]);
    assert_eq!(r, Ok(()));
    assert!(vm.halted());
    assert_eq!(vm.ip(), 4);
    assert_eq!(vm.stack(), &vec![1]);
    assert!(vm.output().is_empty());
}

#[test]
fn end_to_end_sum() {
    let code = assemble("push 2\npush 3\nadd\nprint\nhalt");
    assert_eq!(code, vec![0x01, 0x02, 0x00, 0x01, 0x03, 0x00, 0x03, 0x04, 0x05]);
    let (vm, r) = run_bytes(code);
    assert_eq!(r, Ok(()));
    assert_eq!(vm.output(), &vec![Printed::Value(5)]);
    assert!(vm.halted());
}

#[test]
fn end_to_end_underflow() {
    let code = assemble("pop");
    assert_eq!(code, vec![0x02]);
    let (_, r) = run_bytes(code);
    assert_eq!(r, Err(VmError::StackUnderflow { instr: Instruction::Pop(), ip: 0 }));
}

#[test]
fn missing_and_unknown() {
    let e = translate_assembly("push".to_string()).unwrap_err();
    assert_eq!(e.kind, AsmErrorKind::MissingOperand);
    assert_eq!(e.text, "push");
    assert_eq!((e.line, e.column), (1, 1));
    let e = translate_assembly("foo".to_string()).unwrap_err();
    assert_eq!(e.kind, AsmErrorKind::UnknownInstruction);
    assert_eq!(e.text, "foo");
}

#[test]
fn invalid_operands() {
    let e = translate_assembly("nop\n  push 65536".to_string()).unwrap_err();
    assert_eq!(e.kind, AsmErrorKind::InvalidOperand);
    assert_eq!(e.text, "65536");
    assert_eq!((e.line, e.column), (2, 8));
    let e = translate_assembly("push -1".to_string()).unwrap_err();
    assert_eq!(e.kind, AsmErrorKind::InvalidOperand);
    let e = translate_assembly("pop 3".to_string()).unwrap_err();
    assert_eq!(e.kind, AsmErrorKind::InvalidOperand);
    assert_eq!(e.text, "3");
    let e = translate_assembly("push 1 2".to_string()).unwrap_err();
    assert_eq!(e.kind, AsmErrorKind::InvalidOperand);
    assert_eq!((e.text.as_str(), e.column), ("2", 8));
}

#[test]
fn first_error_wins() {
    let e = translate_assembly("push 1\nbar\npush".to_string()).unwrap_err();
    assert_eq!(e.kind, AsmErrorKind::UnknownInstruction);
    assert_eq!(e.line, 2);
}

#[test]
fn blank_lines_and_spacing() {
    assert_eq!(assemble(""), Vec::<u8>::new());
    assert_eq!(assemble("\n  \t\r\n"), Vec::<u8>::new());
    assert_eq!(assemble("  push\t65535 \r\n\nnop\n"), vec![1, 0xff, 0xff, 0]);
}

#[test]
fn operand_parsing() {
    assert_eq!(generate_argument(&chars("0")), Some(0));
    assert_eq!(generate_argument(&chars("00042")), Some(42));
    assert_eq!(generate_argument(&chars("65535")), Some(65535));
    assert_eq!(generate_argument(&chars("65536")), None);
    assert_eq!(generate_argument(&chars("99999999999")), None);
    assert_eq!(generate_argument(&chars("")), None);
    assert_eq!(generate_argument(&chars("+1")), None);
    assert_eq!(generate_argument(&chars("1a")), None);
}

#[test]
fn tokenizer() {
    let t = chars("ab  cd\nx");
    assert_eq!(PearAsmParser::line_end(&t, 0), 6);
    assert_eq!(PearAsmParser::line_end(&t, 7), 8);
    assert_eq!(PearAsmParser::next_word(&t, 0, 6), (0, 2));
    assert_eq!(PearAsmParser::next_word(&t, 2, 6), (4, 6));
    assert_eq!(PearAsmParser::next_word(&t, 6, 6), (6, 6));
}

#[test]
fn truncated_operand_is_not_runnable() {
    assert!(!VM::new(vec![1, 2]).is_runnable());
    assert!(VM::new(vec![5, 1, 2]).is_runnable());
    assert!(VM::new(vec![]).is_runnable());
}

#[test]
fn run_after_halt_does_nothing() {
    let (mut vm, _) = run_bytes(vec![1, 3, 0, 5, 4]);
    assert_eq!(vm.run(), Ok(()));
    assert_eq!(vm.stack(), &vec![3]);
    assert!(vm.output().is_empty());
}
