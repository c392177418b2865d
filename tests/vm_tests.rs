use theta::assembler::BasicAssembler;
use theta::chunk::Chunk;
use theta::opcode::OpCode;
use theta::value::ThetaValue;
use theta::vm::{ExecutionError, FloatUnit, ThetaCallFrame, VmError, VM};

struct HostFloats;

impl FloatUnit for HostFloats {
    fn binary(&self, op: OpCode, left: u64, right: u64) -> u64 {
        let (l, r) = (f64::from_bits(left), f64::from_bits(right));
        let v = match op {
            OpCode::Add => l + r,
            OpCode::Sub => l - r,
            OpCode::Mul => l * r,
            _ => l / r,
        };
        v.to_bits()
    }

    fn compare(&self, op: OpCode, left: u64, right: u64) -> bool {
        let (l, r) = (f64::from_bits(left), f64::from_bits(right));
        match op {
            OpCode::Equal => l == r,
            OpCode::GreaterThan => l > r,
            _ => l < r,
        }
    }

    fn negate(&self, x: u64) -> u64 {
        (-f64::from_bits(x)).to_bits()
    }
}

fn chunk_of(ops: &[OpCode], pool: &[ThetaValue]) -> Chunk {
    let mut c = Chunk::new();
    for op in ops {
        c.write_to_chunk(*op);
    }
    for v in pool {
        c.add_constant(*v);
    }
    c
}

fn image(c: &Chunk) -> Vec<u8> {
    let mut a = BasicAssembler::new();
    a.assemble_chunk(c).expect("pool fits");
    a.into_bytes()
}

fn run(ops: &[OpCode], pool: &[ThetaValue]) -> (VM, Result<Option<ThetaValue>, VmError>) {
    let mut vm = VM::new();
    let bytes = image(&chunk_of(ops, pool));
    let r = vm.disassemble_chunk(&bytes, &HostFloats);
    (vm, r)
}

const ADD_PROGRAM: [OpCode; 4] = [
    OpCode::Constant { index: 0 },
    OpCode::Constant { index: 1 },
    OpCode::Add,
    OpCode::Return,
];

#[test]
fn integer_addition_returns_three() {
    let (_, r) = run(&ADD_PROGRAM, &[ThetaValue::Int(1), ThetaValue::Int(2)]);
    assert_eq!(r, Ok(Some(ThetaValue::Int(3))));
}

#[test]
fn double_addition_returns_four() {
    let pool = [ThetaValue::Double(1.5f64.to_bits()), ThetaValue::Double(2.5f64.to_bits())];
    let (_, r) = run(&ADD_PROGRAM, &pool);
    assert_eq!(r, Ok(Some(ThetaValue::Double(4.0f64.to_bits()))));
}

#[test]
fn mixed_kinds_are_a_type_mismatch() {
    let (vm, r) = run(&ADD_PROGRAM, &[ThetaValue::Int(1), ThetaValue::Bool(true)]);
    assert_eq!(r, Err(VmError::Execution(ExecutionError::TypeMismatch)));
    assert!(vm.stack().is_empty());
    assert!(vm.frames().is_empty());
}

#[test]
fn greater_than_compares_left_to_right() {
    let ops = [
        OpCode::Constant { index: 0 },
        OpCode::Constant { index: 1 },
        OpCode::GreaterThan,
        OpCode::Return,
    ];
    let (_, r) = run(&ops, &[ThetaValue::Int(5), ThetaValue::Int(3)]);
    assert_eq!(r, Ok(Some(ThetaValue::Bool(true))));
}

#[test]
fn add_on_empty_stack_underflows() {
    let (_, r) = run(&[OpCode::Add, OpCode::Return], &[]);
    assert_eq!(r, Err(VmError::Execution(ExecutionError::StackUnderflow)));
}

#[test]
fn if_false_takes_the_else_branch() {
    // 0: Constant 0 (false)   2: JumpLocalIfFalse +6 -> 8
    // 4: Constant 1 (1)       6: JumpLocal +4 -> 10
    // 8: Constant 2 (2)      10: ReturnVoid
    let ops = [
        OpCode::Constant { index: 0 },
        OpCode::JumpLocalIfFalse { offset: 6 },
        OpCode::Constant { index: 1 },
        OpCode::JumpLocal { offset: 4 },
        OpCode::Constant { index: 2 },
        OpCode::ReturnVoid,
    ];
    let pool = [ThetaValue::Bool(false), ThetaValue::Int(1), ThetaValue::Int(2)];
    let (vm, r) = run(&ops, &pool);
    assert_eq!(r, Ok(None));
    assert_eq!(vm.stack(), &vec![ThetaValue::Int(2)]);
}

#[test]
fn subtraction_and_division_keep_operand_order() {
    let ops = [
        OpCode::Constant { index: 0 },
        OpCode::Constant { index: 1 },
        OpCode::Sub,
        OpCode::Constant { index: 2 },
        OpCode::Div,
        OpCode::Return,
    ];
    let pool = [ThetaValue::Int(10), ThetaValue::Int(17), ThetaValue::Int(2)];
    let (_, r) = run(&ops, &pool);
    assert_eq!(r, Ok(Some(ThetaValue::Int(-3))));
}

#[test]
fn integer_division_by_zero_is_an_error() {
    let ops = [
        OpCode::Constant { index: 0 },
        OpCode::Constant { index: 1 },
        OpCode::Div,
        OpCode::Return,
    ];
    let (_, r) = run(&ops, &[ThetaValue::Int(1), ThetaValue::Int(0)]);
    assert_eq!(r, Err(VmError::Execution(ExecutionError::DivisionByZero)));
}

#[test]
fn double_division_by_negative_zero_is_an_error() {
    let ops = [
        OpCode::Constant { index: 0 },
        OpCode::Constant { index: 1 },
        OpCode::Div,
        OpCode::Return,
    ];
    let pool = [ThetaValue::Double(1.0f64.to_bits()), ThetaValue::Double((-0.0f64).to_bits())];
    let (_, r) = run(&ops, &pool);
    assert_eq!(r, Err(VmError::Execution(ExecutionError::DivisionByZero)));
}

#[test]
fn integer_arithmetic_wraps_and_negates() {
    let ops = [
        OpCode::Constant { index: 0 },
        OpCode::Constant { index: 1 },
        OpCode::Mul,
        OpCode::Neg,
        OpCode::Return,
    ];
    let (_, r) = run(&ops, &[ThetaValue::Int(i64::MAX), ThetaValue::Int(2)]);
    assert_eq!(r, Ok(Some(ThetaValue::Int(2))));
}

#[test]
fn double_negation_and_equality() {
    let ops = [
        OpCode::Constant { index: 0 },
        OpCode::Neg,
        OpCode::Constant { index: 1 },
        OpCode::Equal,
        OpCode::Return,
    ];
    let pool = [ThetaValue::Double(2.5f64.to_bits()), ThetaValue::Double((-2.5f64).to_bits())];
    let (_, r) = run(&ops, &pool);
    assert_eq!(r, Ok(Some(ThetaValue::Bool(true))));
}

#[test]
fn boolean_ordering_is_a_type_mismatch() {
    let ops = [
        OpCode::Constant { index: 0 },
        OpCode::Constant { index: 0 },
        OpCode::LessThan,
        OpCode::Return,
    ];
    let (_, r) = run(&ops, &[ThetaValue::Bool(true)]);
    assert_eq!(r, Err(VmError::Execution(ExecutionError::TypeMismatch)));
}

#[test]
fn constant_index_past_pool_is_an_error() {
    let (_, r) = run(&[OpCode::Constant { index: 3 }, OpCode::Return], &[ThetaValue::Int(1)]);
    assert_eq!(r, Err(VmError::Execution(ExecutionError::ConstantOutOfRange)));
}

#[test]
fn jump_outside_code_is_an_error() {
    let (_, r) = run(&[OpCode::JumpFar { offset: -4 }], &[]);
    assert_eq!(r, Err(VmError::Execution(ExecutionError::InvalidJump)));
}

#[test]
fn running_off_the_end_returns_nothing() {
    let (vm, r) = run(&[OpCode::Constant { index: 0 }], &[ThetaValue::Int(7)]);
    assert_eq!(r, Ok(None));
    assert_eq!(vm.stack(), &vec![ThetaValue::Int(7)]);
}

#[test]
fn constants_accumulate_and_clear() {
    let (mut vm, _) = run(&ADD_PROGRAM, &[ThetaValue::Int(1), ThetaValue::Int(2)]);
    assert_eq!(vm.constants(), &vec![ThetaValue::Int(1), ThetaValue::Int(2)]);
    vm.clear_const_pool();
    assert!(vm.constants().is_empty());
}

#[test]
fn frames_share_a_loaded_chunk() {
    let mut vm = VM::new();
    let c = chunk_of(&[OpCode::Constant { index: 0 }, OpCode::Return], &[ThetaValue::Int(4)]);
    let mut bs = theta::bitstream::ThetaBitstream::new();
    bs.constants.push(ThetaValue::Int(4));
    let h = vm.load_bitstream(bs);
    let mut code = Vec::new();
    theta::opcode::encode_ops(&c.instructions, &mut code);
    let k = vm.load_code(code);
    vm.push_frame(ThetaCallFrame { rip: 0, locals: vec![], bitstream: h, chunk: k });
    vm.push_frame(ThetaCallFrame { rip: 0, locals: vec![], bitstream: h, chunk: k });
    // The inner frame's value goes to the stack; the outer frame returns its own.
    assert_eq!(vm.execute_code(&HostFloats), Ok(Some(ThetaValue::Int(4))));
    assert_eq!(vm.stack(), &vec![ThetaValue::Int(4)]);
}

#[test]
fn interning_deduplicates() {
    let mut vm = VM::new();
    let a = vm.intern_string(b"main".to_vec());
    let b = vm.intern_string(b"other".to_vec());
    let c = vm.intern_string(b"main".to_vec());
    assert_eq!(a, c);
    assert_ne!(a, b);
    assert_eq!(vm.strings().len(), 2);
}

#[test]
fn bad_header_is_rejected_before_running() {
    let mut vm = VM::new();
    let r = vm.disassemble(&[0u8; 20], &HostFloats);
    assert_eq!(r, Err(VmError::Disassemble(theta::value::DisassembleError::BadChunkHeader)));
}
