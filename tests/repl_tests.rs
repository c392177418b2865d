use theta::assembler::BasicAssembler;
use theta::bitstream::{FunctionArg, ThetaFunction, TypeInformation};
use theta::chunk::Chunk;
use theta::opcode::OpCode;
use theta::repl::{LineItem, ReplSession, ReplStatus};
use theta::value::ThetaValue;

fn chunk_of(ops: &[OpCode], pool: &[ThetaValue]) -> Chunk {
    let mut c = Chunk::new();
    for op in ops {
        c.write_to_chunk(*op);
    }
    for v in pool {
        c.add_constant(*v);
    }
    c
}

fn first_line() -> Vec<LineItem> {
    vec![
        LineItem::Declaration(chunk_of(&[OpCode::Constant { index: 0 }], &[ThetaValue::Int(10)])),
        LineItem::Definition(ThetaFunction {
            name: b"twice".to_vec(),
            args: vec![FunctionArg { name: b"x".to_vec(), ty: TypeInformation::Int }],
            return_ty: TypeInformation::Int,
            chunk: chunk_of(&[OpCode::Constant { index: 0 }, OpCode::Return], &[ThetaValue::Int(2)]),
        }),
    ]
}

fn second_line() -> Vec<LineItem> {
    vec![LineItem::Declaration(chunk_of(
        &[OpCode::Constant { index: 1 }, OpCode::Constant { index: 0 }, OpCode::Add],
        &[ThetaValue::Int(3), ThetaValue::Int(4)],
    ))]
}

fn session_bytes() -> Vec<u8> {
    let mut s = ReplSession::new();
    s.link_line(first_line());
    s.link_line(second_line());
    let mut a = BasicAssembler::new();
    a.assemble_bitstream(&s.bitstream).expect("fits");
    a.into_bytes()
}

#[test]
fn linking_the_same_lines_gives_the_same_bytes() {
    assert_eq!(session_bytes(), session_bytes());
}

#[test]
fn linking_relocates_past_the_growing_pool() {
    let mut s = ReplSession::new();
    s.link_line(first_line());
    assert_eq!(s.chunk.instructions, vec![OpCode::Constant { index: 0 }, OpCode::ReturnVoid]);
    assert_eq!(s.bitstream.functions[0].chunk.instructions[0], OpCode::Constant { index: 1 });
    s.link_line(second_line());
    assert_eq!(
        s.bitstream.constants,
        vec![ThetaValue::Int(10), ThetaValue::Int(2), ThetaValue::Int(3), ThetaValue::Int(4)]
    );
    assert_eq!(
        s.chunk.instructions,
        vec![
            OpCode::Constant { index: 0 },
            OpCode::ReturnVoid,
            OpCode::Constant { index: 3 },
            OpCode::Constant { index: 2 },
            OpCode::Add,
            OpCode::ReturnVoid,
        ]
    );
}

#[test]
fn a_line_of_definitions_adds_no_return() {
    let mut s = ReplSession::new();
    s.link_line(vec![first_line().remove(1)]);
    assert!(s.chunk.instructions.is_empty());
    assert_eq!(s.bitstream.functions.len(), 1);
}

#[test]
fn bitstream_image_layout() {
    let mut s = ReplSession::new();
    s.link_line(vec![first_line().remove(1)]);
    let mut a = BasicAssembler::new();
    a.assemble_bitstream(&s.bitstream).expect("fits");
    let mut expected = b"THETACHK".to_vec();
    expected.extend_from_slice(b"CONSTPOL");
    expected.push(1);
    expected.extend_from_slice(b"IN");
    expected.extend_from_slice(&2i64.to_le_bytes());
    expected.push(1);
    expected.extend_from_slice(&[5, b't', b'w', b'i', b'c', b'e', 1, 1, b'x', 1, 1]);
    expected.extend_from_slice(b"CONSTPOL");
    expected.push(1);
    expected.extend_from_slice(b"IN");
    expected.extend_from_slice(&2i64.to_le_bytes());
    expected.extend_from_slice(&3u64.to_le_bytes());
    expected.extend_from_slice(&[0x01, 0x00, 0x00]);
    assert_eq!(a.into_bytes(), expected);
}

#[test]
fn status_values_differ() {
    assert_ne!(ReplStatus::ReplOk, ReplStatus::ReplTerminate);
}

struct NoFloats;

impl theta::vm::FloatUnit for NoFloats {
    fn binary(&self, _op: OpCode, left: u64, _right: u64) -> u64 {
        left
    }

    fn compare(&self, _op: OpCode, _left: u64, _right: u64) -> bool {
        false
    }

    fn negate(&self, x: u64) -> u64 {
        x
    }
}

#[test]
fn bitstream_image_decodes_and_interns_names() {
    let mut s = ReplSession::new();
    s.link_line(first_line());
    let mut a = BasicAssembler::new();
    a.assemble_bitstream(&s.bitstream).expect("fits");
    let bytes = a.into_bytes();
    let mut vm = theta::vm::VM::new();
    let bs = vm.load_bitstream_image(&bytes).expect("decodes");
    assert_eq!(bs.constants, s.bitstream.constants);
    assert_eq!(bs.functions.len(), 1);
    assert_eq!(bs.functions[0].name, b"twice".to_vec());
    assert_eq!(bs.functions[0].args[0].name, b"x".to_vec());
    assert_eq!(bs.functions[0].chunk.instructions, s.bitstream.functions[0].chunk.instructions);
    assert_eq!(vm.strings(), &vec![b"twice".to_vec(), b"x".to_vec()]);
    let mut trailing = bytes.clone();
    trailing.push(0);
    assert_eq!(
        vm.load_bitstream_image(&trailing).unwrap_err(),
        theta::value::DisassembleError::TrailingBytes
    );
}

#[test]
fn running_a_line_executes_its_top_level_code() {
    let mut vm = theta::vm::VM::new();
    let line = vec![LineItem::Declaration(chunk_of(
        &[OpCode::Constant { index: 0 }, OpCode::Constant { index: 1 }, OpCode::Mul],
        &[ThetaValue::Int(6), ThetaValue::Int(7)],
    ))];
    assert_eq!(theta::repl::run_line(&mut vm, line, &NoFloats), Ok(None));
    assert_eq!(vm.stack(), &vec![ThetaValue::Int(42)]);
    assert_eq!(vm.constants(), &vec![ThetaValue::Int(6), ThetaValue::Int(7)]);
}

#[test]
fn commands_are_told_from_code() {
    assert_eq!(theta::repl::line_status("--quit  \n"), Some(ReplStatus::ReplTerminate));
    assert_eq!(theta::repl::line_status("--exit"), Some(ReplStatus::ReplTerminate));
    assert_eq!(theta::repl::line_status("--stack"), Some(ReplStatus::ReplOk));
    assert_eq!(theta::repl::line_status("--quitting"), Some(ReplStatus::ReplOk));
    assert_eq!(theta::repl::line_status("let x = 1;"), None);
}

#[test]
fn function_pool_binary_and_text() {
    let f = ThetaFunction {
        name: b"id".to_vec(),
        args: vec![],
        return_ty: TypeInformation::Bool,
        chunk: chunk_of(&[OpCode::Constant { index: 0 }, OpCode::Return], &[ThetaValue::Bool(true)]),
    };
    let mut a = BasicAssembler::new();
    a.assemble_function_pool(&vec![f.clone()]).expect("fits");
    let mut expected = vec![1u8, 2, b'i', b'd', 0, 3];
    expected.extend_from_slice(b"CONSTPOL");
    expected.extend_from_slice(&[1, b'B', b'L', 1]);
    expected.extend_from_slice(&3u64.to_le_bytes());
    expected.extend_from_slice(&[0x01, 0x00, 0x00]);
    assert_eq!(a.into_bytes(), expected);

    let mut t = theta::plaintext::PlainTextAssembler::new();
    t.assemble_function_pool(&vec![f]);
    assert_eq!(
        String::from_utf8(t.into_bytes()).unwrap(),
        "-- FUNCTION id --\n-- CONSTANT POOL --\nConstant: Bool(true)\n=== CHUNK BEGIN ===\n-- INSTRUCTIONS --\n\
         0x0 | Op: Constant (0x1)\n0x2 | Op: Return (0x0)\n=== CHUNK END @ 0x3 ===\n"
    );
}

#[test]
fn overlong_names_are_refused() {
    let f = ThetaFunction {
        name: vec![b'a'; 256],
        args: vec![],
        return_ty: TypeInformation::Unit,
        chunk: Chunk::new(),
    };
    let mut a = BasicAssembler::new();
    assert_eq!(a.assemble_function_pool(&vec![f]), Err(theta::assembler::AssembleError::TooLong));
    assert!(a.bytes().is_empty());
}

#[test]
fn running_a_line_registers_its_functions() {
    let mut vm = theta::vm::VM::new();
    let r = theta::repl::run_line(&mut vm, first_line(), &NoFloats);
    assert_eq!(r, Ok(None));
    assert_eq!(vm.stack(), &vec![ThetaValue::Int(10)]);
    assert_eq!(vm.functions().len(), 1);
    assert_eq!(vm.functions()[0].name, b"twice".to_vec());
    assert_eq!(vm.functions()[0].chunk.instructions[0], OpCode::Constant { index: 1 });
    assert_eq!(vm.strings(), &vec![b"twice".to_vec(), b"x".to_vec()]);
}

#[test]
fn unicode_whitespace_is_trimmed_from_commands() {
    assert_eq!(theta::repl::line_status("--quit\u{c}"), Some(ReplStatus::ReplTerminate));
    assert_eq!(theta::repl::line_status("--exit\u{3000}\u{a0} \u{2009}"), Some(ReplStatus::ReplTerminate));
    assert_eq!(theta::repl::line_status("--quit\u{200b}"), Some(ReplStatus::ReplOk));
}

#[test]
fn a_line_whose_indices_overflow_is_refused() {
    let mut pool = Vec::new();
    for i in 0..200 {
        pool.push(ThetaValue::Int(i));
    }
    let line = vec![
        LineItem::Declaration(chunk_of(&[], &pool)),
        LineItem::Declaration(chunk_of(&[OpCode::Constant { index: 100 }], &[ThetaValue::Int(1)])),
    ];
    let mut vm = theta::vm::VM::new();
    assert_eq!(theta::repl::run_line(&mut vm, line, &NoFloats), Err(theta::repl::LineError::IndexOverflow));
    assert!(vm.constants().is_empty());
}
