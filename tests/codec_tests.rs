use theta::assembler::{AssembleError, BasicAssembler};
use theta::chunk::Chunk;
use theta::disassembler::disassemble_chunk;
use theta::opcode::OpCode;
use theta::plaintext::PlainTextAssembler;
use theta::value::{DisassembleError, ThetaValue};

fn chunk_of(ops: &[OpCode], pool: &[ThetaValue]) -> Chunk {
    let mut c = Chunk::new();
    for op in ops {
        c.write_to_chunk(*op);
    }
    for v in pool {
        c.add_constant(*v);
    }
    c
}

fn image(c: &Chunk) -> Vec<u8> {
    let mut a = BasicAssembler::new();
    a.assemble_chunk(c).expect("pool fits");
    a.into_bytes()
}

fn every_opcode() -> Vec<OpCode> {
    vec![
        OpCode::Return,
        OpCode::Constant { index: 200 },
        OpCode::Add,
        OpCode::Sub,
        OpCode::Mul,
        OpCode::Div,
        OpCode::Neg,
        OpCode::Equal,
        OpCode::GreaterThan,
        OpCode::LessThan,
        OpCode::ReturnVoid,
        OpCode::JumpFar { offset: -70000 },
        OpCode::JumpLocal { offset: -128 },
        OpCode::JumpFarIfFalse { offset: i64::MAX },
        OpCode::JumpLocalIfFalse { offset: 127 },
    ]
}

#[test]
fn chunk_image_round_trips() {
    let pool = [
        ThetaValue::Int(i64::MIN),
        ThetaValue::Double(2.75f64.to_bits()),
        ThetaValue::Bool(true),
        ThetaValue::Bool(false),
    ];
    let c = chunk_of(&every_opcode(), &pool);
    let back = disassemble_chunk(&image(&c)).expect("decodes");
    assert_eq!(back.instructions, c.instructions);
    assert_eq!(back.constants, c.constants);
}

#[test]
fn empty_chunk_round_trips() {
    let c = Chunk::new();
    let back = disassemble_chunk(&image(&c)).expect("decodes");
    assert!(back.instructions.is_empty());
    assert!(back.constants.is_empty());
}

#[test]
fn chunk_image_layout() {
    let c = chunk_of(&[OpCode::Constant { index: 0 }, OpCode::Return], &[ThetaValue::Int(1)]);
    let mut expected = b"THETACHK".to_vec();
    expected.extend_from_slice(b"CONSTPOL");
    expected.push(1);
    expected.extend_from_slice(b"IN");
    expected.extend_from_slice(&1i64.to_le_bytes());
    expected.extend_from_slice(&[0x01, 0x00, 0x00]);
    assert_eq!(image(&c), expected);
}

#[test]
fn sizes_and_tags() {
    let ops = every_opcode();
    let sizes: Vec<usize> = ops.iter().map(|o| o.size()).collect();
    assert_eq!(sizes, vec![1, 2, 1, 1, 1, 1, 1, 1, 1, 1, 1, 9, 2, 9, 2]);
    let tags: Vec<u8> = ops.iter().map(|o| o.as_hexcode()).collect();
    assert_eq!(tags, (0u8..15).collect::<Vec<u8>>());
    assert_eq!(OpCode::JumpLocalIfFalse { offset: 1 }.human_readable(), "JumpLocalIfFalse");
}

#[test]
fn too_many_constants_are_refused() {
    let pool: Vec<ThetaValue> = (0..256).map(ThetaValue::Int).collect();
    let c = chunk_of(&[], &pool);
    let mut a = BasicAssembler::new();
    assert_eq!(a.assemble_chunk(&c), Err(AssembleError::TooManyConstants));
    assert!(a.bytes().is_empty());
}

#[test]
fn wrong_markers_are_refused() {
    let good = image(&chunk_of(&[OpCode::Return], &[ThetaValue::Bool(true)]));
    let mut bad_header = good.clone();
    bad_header[0] = b'X';
    assert_eq!(disassemble_chunk(&bad_header).unwrap_err(), DisassembleError::BadChunkHeader);
    let mut bad_pool = good.clone();
    bad_pool[9] = b'X';
    assert_eq!(disassemble_chunk(&bad_pool).unwrap_err(), DisassembleError::BadConstantPoolHeader);
    let mut bad_kind = good.clone();
    bad_kind[17] = b'Z';
    assert_eq!(disassemble_chunk(&bad_kind).unwrap_err(), DisassembleError::UnknownConstantKind);
}

#[test]
fn unknown_opcode_and_truncation_are_refused() {
    let mut bytes = image(&chunk_of(&[OpCode::Return], &[]));
    bytes.push(0xff);
    assert_eq!(disassemble_chunk(&bytes).unwrap_err(), DisassembleError::UnknownOpcode);
    let mut cut = image(&chunk_of(&[OpCode::JumpFar { offset: 3 }], &[]));
    cut.pop();
    assert_eq!(disassemble_chunk(&cut).unwrap_err(), DisassembleError::Truncated);
    let short = image(&chunk_of(&[], &[ThetaValue::Int(5)]));
    assert_eq!(disassemble_chunk(&short[..20]).unwrap_err(), DisassembleError::Truncated);
}

#[test]
fn relocation_shifts_only_constant_indices() {
    let c = chunk_of(
        &[OpCode::Constant { index: 1 }, OpCode::JumpLocal { offset: -2 }, OpCode::Add],
        &[ThetaValue::Int(9)],
    );
    let r = c.relocate(5);
    assert_eq!(
        r.instructions,
        vec![OpCode::Constant { index: 6 }, OpCode::JumpLocal { offset: -2 }, OpCode::Add]
    );
    assert_eq!(r.constants, c.constants);
    let z = c.relocate(0);
    assert_eq!(z.instructions, c.instructions);
    assert_eq!(z.constants, c.constants);
}

#[test]
fn merge_concatenates_and_relocates() {
    let a = chunk_of(&[OpCode::Constant { index: 1 }], &[ThetaValue::Int(1), ThetaValue::Int(2)]);
    let b = chunk_of(&[OpCode::Constant { index: 0 }, OpCode::Neg], &[ThetaValue::Bool(false)]);
    let m = a.merge_chunk(b);
    assert_eq!(
        m.constants,
        vec![ThetaValue::Int(1), ThetaValue::Int(2), ThetaValue::Bool(false)]
    );
    assert_eq!(
        m.instructions,
        vec![OpCode::Constant { index: 1 }, OpCode::Constant { index: 2 }, OpCode::Neg]
    );
}

#[test]
fn add_constant_returns_its_index() {
    let mut c = Chunk::new();
    assert_eq!(c.add_constant(ThetaValue::Int(4)), 0);
    assert_eq!(c.add_constant(ThetaValue::Int(5)), 1);
    assert_eq!(c.constants(), &vec![ThetaValue::Int(4), ThetaValue::Int(5)]);
}

#[test]
fn text_listing_shows_offsets_tags_and_targets() {
    let c = chunk_of(
        &[OpCode::Constant { index: 0 }, OpCode::Add, OpCode::JumpLocal { offset: -3 }, OpCode::Return],
        &[],
    );
    let mut a = PlainTextAssembler::new();
    a.assemble_chunk(&c);
    let text = String::from_utf8(a.into_bytes()).unwrap();
    assert_eq!(
        text,
        "=== CHUNK BEGIN ===\n-- INSTRUCTIONS --\n0x0 | Op: Constant (0x1)\n0x2 | Op: Add (0x2)\n\
         0x3 | Op: JumpLocal (0xC) -> 0x0\n0x5 | Op: Return (0x0)\n=== CHUNK END @ 0x6 ===\n"
    );
}

#[test]
fn text_listing_of_a_pool() {
    let mut a = PlainTextAssembler::new();
    a.assemble_constant_pool(&vec![
        ThetaValue::Int(-12),
        ThetaValue::Bool(true),
        ThetaValue::Double(1.0f64.to_bits()),
    ]);
    let text = String::from_utf8(a.bytes().clone()).unwrap();
    assert_eq!(
        text,
        "-- CONSTANT POOL --\nConstant: Int(-12)\nConstant: Bool(true)\nConstant: Double(0x3FF0000000000000)\n"
    );
}

#[test]
fn backward_jump_target_shows_as_a_word() {
    let c = chunk_of(&[OpCode::JumpLocal { offset: -4 }], &[]);
    let mut a = PlainTextAssembler::new();
    a.assemble_chunk(&c);
    let text = String::from_utf8(a.into_bytes()).unwrap();
    assert!(text.contains("0x0 | Op: JumpLocal (0xC) -> 0xFFFFFFFFFFFFFFFC\n"));
    assert_eq!(format!("{:#X}", 0isize - 4), "0xFFFFFFFFFFFFFFFC");
}
