//! The stack machine: call frames over loaded code, and the execute loop.
use crate::bitstream::{ThetaBitstream, ThetaFunction};
use crate::chunk::Chunk;
use crate::disassembler::{disassemble_chunk, parse_chunk};
use crate::opcode::{encode_ops, lemma_parse_op_size, ops_bytes, parse_op, spec_size, OpCode};
use crate::value::{DisassembleError, ThetaValue};
use vstd::prelude::*;

verus! {

/// Floating-point arithmetic on IEEE-754 bit patterns, supplied by the host.
/// `op` is one of `Add`, `Sub`, `Mul`, `Div` for `binary`, and one of
/// `Equal`, `GreaterThan`, `LessThan` for `compare`.
pub trait FloatUnit {
    fn binary(&self, op: OpCode, left: u64, right: u64) -> u64;

    fn compare(&self, op: OpCode, left: u64, right: u64) -> bool;

    fn negate(&self, x: u64) -> u64;
}

/// Why execution stopped early.
#[derive(Clone, Copy, Debug, PartialEq, Eq, Structural)]
pub enum ExecutionError {
    /// An instruction needed more operands than the stack held.
    StackUnderflow,
    /// The operands are not of the kinds the instruction accepts.
    TypeMismatch,
    /// Division by an integer zero or a double of either sign of zero.
    DivisionByZero,
    /// A `Constant` instruction names an index past the end of its pool.
    ConstantOutOfRange,
    /// The bytes at the instruction pointer are no instruction.
    InvalidInstruction(DisassembleError),
    /// A jump lands before the start or past the end of its code.
    InvalidJump,
    /// The step budget of one run was used up.
    StepLimit,
}

/// Why loading and running a chunk image failed.
#[derive(Clone, Copy, Debug, PartialEq, Eq, Structural)]
pub enum VmError {
    Disassemble(DisassembleError),
    Execution(ExecutionError),
}

/// One activation: instruction pointer (a byte offset into its code), local
/// slots, and handles of its bitstream (whose pool it reads) and code.
#[derive(Clone, Debug)]
pub struct ThetaCallFrame {
    pub rip: usize,
    pub locals: Vec<ThetaValue>,
    pub bitstream: usize,
    pub chunk: usize,
}

/// What execution reads but never changes: the loaded code streams and the
/// constant pool of each loaded bitstream.
pub struct Env {
    pub code: Seq<Seq<u8>>,
    pub pools: Seq<Seq<ThetaValue>>,
}

/// What execution changes: the operand stack and the call frames.
pub struct Machine {
    pub stack: Seq<ThetaValue>,
    pub frames: Seq<ThetaCallFrame>,
}

/// Every frame names loaded code and a loaded bitstream.
pub open spec fn frames_valid(env: Env, frames: Seq<ThetaCallFrame>) -> bool {
    forall|i: int|
        0 <= i < frames.len() ==> (#[trigger] frames[i]).chunk < env.code.len() && frames[i].bitstream < env.pools.len()
}

/// Rust's truncating division on mathematical integers.
pub open spec fn trunc_div(l: int, r: int) -> int {
    let q = (if l < 0 { -l } else { l }) / (if r < 0 { -r } else { r });
    if (l < 0) != (r < 0) { -q } else { q }
}

/// Whether a double's bit pattern is positive or negative zero.
pub open spec fn is_zero_bits(b: u64) -> bool {
    b == 0 || b == 0x8000_0000_0000_0000
}

/// The value an arithmetic or comparison instruction pushes for operands
/// `l` (pushed first) and `r`. Integer arithmetic wraps on overflow. A
/// double result is `fb`, and a double comparison `ft`, as the float unit
/// computes them.
pub open spec fn binary_result(op: OpCode, l: ThetaValue, r: ThetaValue, fb: u64, ft: bool) -> Result<ThetaValue, ExecutionError> {
    match (l, r) {
        (ThetaValue::Int(a), ThetaValue::Int(b)) => match op {
            OpCode::Add => Ok(ThetaValue::Int((a + b) as i64)),
            OpCode::Sub => Ok(ThetaValue::Int((a - b) as i64)),
            OpCode::Mul => Ok(ThetaValue::Int((a * b) as i64)),
            OpCode::Div => if b == 0 {
                Err(ExecutionError::DivisionByZero)
            } else {
                Ok(ThetaValue::Int(trunc_div(a as int, b as int) as i64))
            },
            OpCode::Equal => Ok(ThetaValue::Bool(a == b)),
            OpCode::GreaterThan => Ok(ThetaValue::Bool(a > b)),
            _ => Ok(ThetaValue::Bool(a < b)),
        },
        (ThetaValue::Double(a), ThetaValue::Double(b)) => match op {
            OpCode::Equal | OpCode::GreaterThan | OpCode::LessThan => Ok(ThetaValue::Bool(ft)),
            OpCode::Div => if is_zero_bits(b) {
                Err(ExecutionError::DivisionByZero)
            } else {
                Ok(ThetaValue::Double(fb))
            },
            _ => Ok(ThetaValue::Double(fb)),
        },
        (ThetaValue::Bool(a), ThetaValue::Bool(b)) => match op {
            OpCode::Equal => Ok(ThetaValue::Bool(a == b)),
            _ => Err(ExecutionError::TypeMismatch),
        },
        _ => Err(ExecutionError::TypeMismatch),
    }
}

/// Whether `op` pops two operands and pushes one.
pub open spec fn is_binary(op: OpCode) -> bool {
    op is Add || op is Sub || op is Mul || op is Div || op is Equal || op is GreaterThan || op is LessThan
}

/// The frame moved to `rip`.
pub open spec fn at_rip(f: ThetaCallFrame, rip: int) -> ThetaCallFrame {
    ThetaCallFrame { rip: rip as usize, locals: f.locals, bitstream: f.bitstream, chunk: f.chunk }
}

/// The top frame moved to `rip`.
pub open spec fn jump_top(frames: Seq<ThetaCallFrame>, rip: int) -> Seq<ThetaCallFrame> {
    frames.update(frames.len() - 1, at_rip(frames.last(), rip))
}

/// A jump by `offset` from the instruction at `rip` in code of length `len`.
pub open spec fn jump(m: Machine, stack: Seq<ThetaValue>, rip: int, offset: int, len: int) -> Result<(Machine, Option<ThetaValue>), ExecutionError> {
    let target = rip + offset;
    if target < 0 || target > len {
        Err(ExecutionError::InvalidJump)
    } else {
        Ok((Machine { stack: stack, frames: jump_top(m.frames, target) }, None))
    }
}

/// The effect of instruction `op`, found at `rip` in the top frame's code.
pub open spec fn op_effect(env: Env, m: Machine, op: OpCode, rip: int, fb: u64, ft: bool) -> Result<(Machine, Option<ThetaValue>), ExecutionError> {
    let f = m.frames.last();
    let pool = env.pools[f.bitstream as int];
    let len = env.code[f.chunk as int].len() as int;
    let next = rip + spec_size(op);
    let s = m.stack;
    match op {
        OpCode::Constant { index } => if index >= pool.len() {
            Err(ExecutionError::ConstantOutOfRange)
        } else {
            Ok((Machine { stack: s.push(pool[index as int]), frames: jump_top(m.frames, next) }, None))
        },
        OpCode::Neg => if s.len() < 1 {
            Err(ExecutionError::StackUnderflow)
        } else {
            match s.last() {
                ThetaValue::Int(a) => Ok((Machine { stack: s.drop_last().push(ThetaValue::Int((-a) as i64)), frames: jump_top(m.frames, next) }, None)),
                ThetaValue::Double(_) => Ok((Machine { stack: s.drop_last().push(ThetaValue::Double(fb)), frames: jump_top(m.frames, next) }, None)),
                ThetaValue::Bool(_) => Err(ExecutionError::TypeMismatch),
            }
        },
        OpCode::Return => if s.len() < 1 {
            Err(ExecutionError::StackUnderflow)
        } else if m.frames.len() == 1 {
            Ok((Machine { stack: s.drop_last(), frames: m.frames.drop_last() }, Some(s.last())))
        } else {
            Ok((Machine { stack: s, frames: m.frames.drop_last() }, None))
        },
        OpCode::ReturnVoid => Ok((Machine { stack: s, frames: m.frames.drop_last() }, None)),
        OpCode::JumpFar { offset } => jump(m, s, rip, offset as int, len),
        OpCode::JumpLocal { offset } => jump(m, s, rip, offset as int, len),
        OpCode::JumpFarIfFalse { offset } => if s.len() < 1 {
            Err(ExecutionError::StackUnderflow)
        } else {
            match s.last() {
                ThetaValue::Bool(c) => if c {
                    Ok((Machine { stack: s.drop_last(), frames: jump_top(m.frames, next) }, None))
                } else {
                    jump(m, s.drop_last(), rip, offset as int, len)
                },
                _ => Err(ExecutionError::TypeMismatch),
            }
        },
        OpCode::JumpLocalIfFalse { offset } => if s.len() < 1 {
            Err(ExecutionError::StackUnderflow)
        } else {
            match s.last() {
                ThetaValue::Bool(c) => if c {
                    Ok((Machine { stack: s.drop_last(), frames: jump_top(m.frames, next) }, None))
                } else {
                    jump(m, s.drop_last(), rip, offset as int, len)
                },
                _ => Err(ExecutionError::TypeMismatch),
            }
        },
        _ => if s.len() < 2 {
            Err(ExecutionError::StackUnderflow)
        } else {
            match binary_result(op, s[s.len() - 2], s.last(), fb, ft) {
                Err(e) => Err(e),
                Ok(v) => Ok((Machine { stack: s.drop_last().drop_last().push(v), frames: jump_top(m.frames, next) }, None)),
            }
        },
    }
}

/// One step of the top frame: fetch at its instruction pointer, then
/// execute. Running off the end of the code returns from the frame with no
/// value. The second component is the value a `Return` yields when it
/// leaves no frame behind.
pub open spec fn step_spec(env: Env, m: Machine, fb: u64, ft: bool) -> Result<(Machine, Option<ThetaValue>), ExecutionError> {
    let f = m.frames.last();
    let code = env.code[f.chunk as int];
    if f.rip >= code.len() {
        Ok((Machine { stack: m.stack, frames: m.frames.drop_last() }, None))
    } else {
        match parse_op(code, f.rip as int) {
            Err(e) => Err(ExecutionError::InvalidInstruction(e)),
            Ok((op, _)) => op_effect(env, m, op, f.rip as int, fb, ft),
        }
    }
}

/// The machine after stepping from `m` once for each entry of `fl`, which
/// holds the float unit's answers (`fb`, `ft`) step by step. Stepping stops
/// when no frame is left or a step fails or yields a value.
pub open spec fn run_steps(env: Env, m: Machine, fl: Seq<(u64, bool)>) -> Result<(Machine, Option<ThetaValue>), ExecutionError>
    decreases fl.len(),
{
    if fl.len() == 0 {
        Ok((m, None))
    } else {
        match run_steps(env, m, fl.drop_last()) {
            Ok((mid, None)) => if mid.frames.len() > 0 {
                step_spec(env, mid, fl.last().0, fl.last().1)
            } else {
                Ok((mid, None))
            },
            other => other,
        }
    }
}

/// Whether `fl` holds `u64::MAX` float answers, and stepping by them from
/// `m` never stopped: a frame is still left.
pub open spec fn budget_spent(env: Env, m: Machine, fl: Seq<(u64, bool)>) -> bool {
    &&& fl.len() == u64::MAX
    &&& run_steps(env, m, fl) matches Ok((m2, None))
    &&& m2.frames.len() > 0
}

/// Once a run has stopped (no frame left, a value yielded, or an error),
/// further float answers change nothing: so a run that stops never uses up
/// the step budget.
pub proof fn lemma_stopped_run_stays(env: Env, m: Machine, fl: Seq<(u64, bool)>, more: Seq<(u64, bool)>)
    requires
        match run_steps(env, m, fl) {
            Ok((m2, None)) => m2.frames.len() == 0,
            _ => true,
        },
    ensures
        run_steps(env, m, fl + more) == run_steps(env, m, fl),
        !budget_spent(env, m, fl + more),
    decreases more.len(),
{
    if more.len() == 0 {
        assert(fl + more =~= fl);
    } else {
        let shorter = more.drop_last();
        lemma_stopped_run_stays(env, m, fl, shorter);
        assert((fl + more).drop_last() =~= fl + shorter);
    }
}

/// How a run from `m` may end with result `r` and machine `fin`: a value
/// or none, reached by stepping; an error a step raised, with the stack
/// discarded; or the step budget used up with a frame still left.
pub open spec fn run_outcome(env: Env, m: Machine, r: Result<Option<ThetaValue>, ExecutionError>, fin: Machine) -> bool {
    match r {
        Ok(y) => exists|fl: Seq<(u64, bool)>| #[trigger] run_steps(env, m, fl)
            == Ok::<(Machine, Option<ThetaValue>), ExecutionError>((fin, y)),
        Err(e) => fin.stack.len() == 0
            && (e == ExecutionError::StepLimit ==> exists|fl: Seq<(u64, bool)>| #[trigger] budget_spent(env, m, fl))
            && (e != ExecutionError::StepLimit ==> exists|fl: Seq<(u64, bool)>| #[trigger] run_steps(env, m, fl)
                == Err::<(Machine, Option<ThetaValue>), ExecutionError>(e)),
    }
}

/// `run_outcome` of a run that starts in a fresh entry frame for the code
/// loaded next into `before`, on top of `m`, in environment `env`.
pub open spec fn entry_outcome(env: Env, before: Env, m: Machine, r: Result<Option<ThetaValue>, ExecutionError>, fin: Machine) -> bool {
    exists|f: ThetaCallFrame| is_entry_frame(f, before) && #[trigger] run_outcome(env, with_frame(m, f), r, fin)
}

/// The result of a loading call seen as a run result; `None` when loading
/// failed before anything ran.
pub open spec fn execution_part(r: Result<Option<ThetaValue>, VmError>) -> Option<Result<Option<ThetaValue>, ExecutionError>> {
    match r {
        Ok(y) => Some(Ok(y)),
        Err(VmError::Execution(e)) => Some(Err(e)),
        Err(VmError::Disassemble(_)) => None,
    }
}

/// The virtual machine: operand stack, call frames, and the pools of loaded
/// code, bitstreams, functions and interned strings.
pub struct VM {
    stack: Vec<ThetaValue>,
    constants: Vec<ThetaValue>,
    frames: Vec<ThetaCallFrame>,
    code: Vec<Vec<u8>>,
    bitstreams: Vec<ThetaBitstream>,
    functions: Vec<ThetaFunction>,
    strings: Vec<Vec<u8>>,
}

impl VM {
    /// The read-only part of the machine.
    pub closed spec fn env(&self) -> Env {
        Env {
            code: self.code@.map_values(|c: Vec<u8>| c@),
            pools: self.bitstreams@.map_values(|b: ThetaBitstream| b.constants@),
        }
    }

    /// The part of the machine that execution changes.
    pub closed spec fn machine(&self) -> Machine {
        Machine { stack: self.stack@, frames: self.frames@ }
    }

    /// The global constant pool: the constants of every loaded bitstream, in
    /// load order.
    pub closed spec fn pool(&self) -> Seq<ThetaValue> {
        self.constants@
    }

    /// The functions of every loaded bitstream, in load order.
    pub closed spec fn function_pool(&self) -> Seq<ThetaFunction> {
        self.functions@
    }

    /// The interned strings, by handle.
    pub closed spec fn interned(&self) -> Seq<Seq<u8>> {
        self.strings@.map_values(|s: Vec<u8>| s@)
    }

    /// Every frame names loaded code and a loaded bitstream.
    pub closed spec fn wf(&self) -> bool {
        frames_valid(self.env(), self.frames@)
    }

    /// A machine with nothing loaded and nothing to run.
    pub fn new() -> (r: VM)
        ensures
            r.wf(),
            r.machine().stack == Seq::<ThetaValue>::empty(),
            r.machine().frames.len() == 0,
            r.pool() == Seq::<ThetaValue>::empty(),
            r.env().code.len() == 0,
            r.env().pools.len() == 0,
            r.interned().len() == 0,
    {
        VM {
            stack: Vec::new(),
            constants: Vec::new(),
            frames: Vec::new(),
            code: Vec::new(),
            bitstreams: Vec::new(),
            functions: Vec::new(),
            strings: Vec::new(),
        }
    }

    /// The operand stack.
    pub fn stack(&self) -> (r: &Vec<ThetaValue>)
        ensures
            r@ == self.machine().stack,
    {
        &self.stack
    }

    /// The global constant pool.
    pub fn constants(&self) -> (r: &Vec<ThetaValue>)
        ensures
            r@ == self.pool(),
    {
        &self.constants
    }

    /// Empties the global constant pool; nothing else changes.
    pub fn clear_const_pool(&mut self)
        ensures
            final(self).pool() == Seq::<ThetaValue>::empty(),
            final(self).machine() == old(self).machine(),
            final(self).env() == old(self).env(),
            final(self).interned() == old(self).interned(),
            final(self).function_pool() == old(self).function_pool(),
            final(self).wf() == old(self).wf(),
    {
        self.constants.clear();
    }
}


/// The result of a binary instruction on given operands, with the float
/// unit's answer where both are doubles.
fn binary_value<F: FloatUnit>(op: OpCode, l: ThetaValue, r: ThetaValue, fpu: &F) -> (res: Result<ThetaValue, ExecutionError>)
    requires
        is_binary(op),
    ensures
        exists|fb: u64, ft: bool| #[trigger] binary_result(op, l, r, fb, ft) == res,
{
    match (l, r) {
        (ThetaValue::Int(a), ThetaValue::Int(b)) => {
            let res = match op {
                OpCode::Add => Ok(ThetaValue::Int(((a as i128) + (b as i128)) as i64)),
                OpCode::Sub => Ok(ThetaValue::Int(((a as i128) - (b as i128)) as i64)),
                OpCode::Mul => {
                    assert(-0x8000_0000_0000_0000 * 0x8000_0000_0000_0000 <= (a as int) * (b as int) <= 0x8000_0000_0000_0000 * 0x8000_0000_0000_0000)
                        by (nonlinear_arith)
                        requires
                            -0x8000_0000_0000_0000 <= a <= 0x7fff_ffff_ffff_ffff,
                            -0x8000_0000_0000_0000 <= b <= 0x7fff_ffff_ffff_ffff,
                    ;
                    Ok(ThetaValue::Int(((a as i128) * (b as i128)) as i64))
                },
                OpCode::Div => {
                    if b == 0 {
                        Err(ExecutionError::DivisionByZero)
                    } else {
                        let la: u128 = if a < 0 { (-(a as i128)) as u128 } else { a as u128 };
                        let lb: u128 = if b < 0 { (-(b as i128)) as u128 } else { b as u128 };
                        let q: u128 = la / lb;
                        assert(q <= la) by (nonlinear_arith)
                            requires
                                q == la / lb,
                                lb >= 1,
                        ;
                        let v: i128 = if (a < 0) != (b < 0) { -(q as i128) } else { q as i128 };
                        Ok(ThetaValue::Int(v as i64))
                    }
                },
                OpCode::Equal => Ok(ThetaValue::Bool(a == b)),
                OpCode::GreaterThan => Ok(ThetaValue::Bool(a > b)),
                _ => Ok(ThetaValue::Bool(a < b)),
            };
            assert(binary_result(op, l, r, 0, false) == res);
            res
        },
        (ThetaValue::Double(a), ThetaValue::Double(b)) => {
            if matches!(op, OpCode::Equal | OpCode::GreaterThan | OpCode::LessThan) {
                let t = fpu.compare(op, a, b);
                assert(binary_result(op, l, r, 0, t) == Ok::<ThetaValue, ExecutionError>(ThetaValue::Bool(t)));
                Ok(ThetaValue::Bool(t))
            } else if matches!(op, OpCode::Div) && (b == 0 || b == 0x8000_0000_0000_0000) {
                assert(binary_result(op, l, r, 0, false) == Err::<ThetaValue, ExecutionError>(ExecutionError::DivisionByZero));
                Err(ExecutionError::DivisionByZero)
            } else {
                let x = fpu.binary(op, a, b);
                assert(binary_result(op, l, r, x, false) == Ok::<ThetaValue, ExecutionError>(ThetaValue::Double(x)));
                Ok(ThetaValue::Double(x))
            }
        },
        (ThetaValue::Bool(a), ThetaValue::Bool(b)) => {
            let res = if matches!(op, OpCode::Equal) {
                Ok(ThetaValue::Bool(a == b))
            } else {
                Err(ExecutionError::TypeMismatch)
            };
            assert(binary_result(op, l, r, 0, false) == res);
            res
        },
        _ => {
            assert(binary_result(op, l, r, 0, false) == Err::<ThetaValue, ExecutionError>(ExecutionError::TypeMismatch));
            Err(ExecutionError::TypeMismatch)
        },
    }
}

impl VM {
    /// Moves the top frame to `rip`.
    fn set_rip(&mut self, rip: usize)
        requires
            old(self).frames@.len() > 0,
        ensures
            final(self).frames@ == jump_top(old(self).frames@, rip as int),
            final(self).stack@ == old(self).stack@,
            final(self).code == old(self).code,
            final(self).bitstreams == old(self).bitstreams,
            final(self).constants == old(self).constants,
            final(self).functions == old(self).functions,
            final(self).strings == old(self).strings,
    {
        let mut f = self.frames.pop().unwrap();
        f.rip = rip;
        self.frames.push(f);
        assert(self.frames@ =~= jump_top(old(self).frames@, rip as int));
    }

    /// A jump by `offset` from `rip` within code of length `len`.
    fn jump_by(&mut self, rip: usize, offset: i64, len: usize) -> (r: Result<Option<ThetaValue>, ExecutionError>)
        requires
            old(self).frames@.len() > 0,
        ensures
            final(self).code == old(self).code,
            final(self).bitstreams == old(self).bitstreams,
            final(self).constants == old(self).constants,
            final(self).functions == old(self).functions,
            final(self).strings == old(self).strings,
            match jump(old(self).machine(), old(self).stack@, rip as int, offset as int, len as int) {
                Ok((m2, y)) => r == Ok::<Option<ThetaValue>, ExecutionError>(y) && final(self).machine() == m2,
                Err(e) => r == Err::<Option<ThetaValue>, ExecutionError>(e) && final(self).frames@ == old(self).frames@,
            },
    {
        let target: i128 = rip as i128 + offset as i128;
        if target < 0 || target > len as i128 {
            return Err(ExecutionError::InvalidJump);
        }
        self.set_rip(target as usize);
        Ok(None)
    }

    /// Executes `op`, decoded at `rip` in the top frame's code, which ends
    /// at `next`.
    #[verifier::rlimit(40)]
    fn apply<F: FloatUnit>(&mut self, op: OpCode, rip: usize, next: usize, fpu: &F) -> (r: Result<Option<ThetaValue>, ExecutionError>)
        requires
            old(self).wf(),
            old(self).frames@.len() > 0,
            next == rip + spec_size(op),
            next <= old(self).env().code[old(self).frames@.last().chunk as int].len(),
        ensures
            final(self).env() == old(self).env(),
            final(self).wf(),
            final(self).constants == old(self).constants,
            final(self).strings == old(self).strings,
            final(self).functions == old(self).functions,
            match r {
                Ok(y) => exists|fb: u64, ft: bool| #[trigger] op_effect(old(self).env(), old(self).machine(), op, rip as int, fb, ft)
                    == Ok::<(Machine, Option<ThetaValue>), ExecutionError>((final(self).machine(), y)),
                Err(e) => exists|fb: u64, ft: bool| #[trigger] op_effect(old(self).env(), old(self).machine(), op, rip as int, fb, ft)
                    == Err::<(Machine, Option<ThetaValue>), ExecutionError>(e),
            },
    {
        let ghost env = old(self).env();
        let ghost m = old(self).machine();
        let top = self.frames.len() - 1;
        let bs = self.frames[top].bitstream;
        let ch = self.frames[top].chunk;
        proof {
            assert(self.frames@[top as int] == self.frames@.last());
            assert(env.pools[bs as int] == self.bitstreams@[bs as int].constants@);
            assert(env.code[ch as int] == self.code@[ch as int]@);
        }
        let len = self.code[ch].len();
        let res: Result<Option<ThetaValue>, ExecutionError> = match op {
            OpCode::Constant { index } => {
                if index as usize >= self.bitstreams[bs].constants.len() {
                    Err(ExecutionError::ConstantOutOfRange)
                } else {
                    let v = self.bitstreams[bs].constants[index as usize];
                    self.stack.push(v);
                    self.set_rip(next);
                    Ok(None)
                }
            },
            OpCode::Neg => {
                if self.stack.len() < 1 {
                    Err(ExecutionError::StackUnderflow)
                } else {
                    let v = self.stack.pop().unwrap();
                    match v {
                        ThetaValue::Int(a) => {
                            self.stack.push(ThetaValue::Int((-(a as i128)) as i64));
                            self.set_rip(next);
                            Ok(None)
                        },
                        ThetaValue::Double(a) => {
                            let x = fpu.negate(a);
                            self.stack.push(ThetaValue::Double(x));
                            self.set_rip(next);
                            assert(op_effect(env, m, op, rip as int, x, false) == Ok::<(Machine, Option<ThetaValue>), ExecutionError>((self.machine(), None)));
                            Ok(None)
                        },
                        ThetaValue::Bool(_) => Err(ExecutionError::TypeMismatch),
                    }
                }
            },
            OpCode::Return => {
                if self.stack.len() < 1 {
                    Err(ExecutionError::StackUnderflow)
                } else {
                    self.frames.pop();
                    if self.frames.len() == 0 {
                        let v = self.stack.pop().unwrap();
                        Ok(Some(v))
                    } else {
                        Ok(None)
                    }
                }
            },
            OpCode::ReturnVoid => {
                self.frames.pop();
                Ok(None)
            },
            OpCode::JumpFar { offset } => self.jump_by(rip, offset, len),
            OpCode::JumpLocal { offset } => self.jump_by(rip, offset as i64, len),
            OpCode::JumpFarIfFalse { offset } => {
                if self.stack.len() < 1 {
                    Err(ExecutionError::StackUnderflow)
                } else {
                    match self.stack.pop().unwrap() {
                        ThetaValue::Bool(c) => if c {
                            self.set_rip(next);
                            Ok(None)
                        } else {
                            self.jump_by(rip, offset, len)
                        },
                        _ => Err(ExecutionError::TypeMismatch),
                    }
                }
            },
            OpCode::JumpLocalIfFalse { offset } => {
                if self.stack.len() < 1 {
                    Err(ExecutionError::StackUnderflow)
                } else {
                    match self.stack.pop().unwrap() {
                        ThetaValue::Bool(c) => if c {
                            self.set_rip(next);
                            Ok(None)
                        } else {
                            self.jump_by(rip, offset as i64, len)
                        },
                        _ => Err(ExecutionError::TypeMismatch),
                    }
                }
            },
            _ => {
                if self.stack.len() < 2 {
                    Err(ExecutionError::StackUnderflow)
                } else {
                    let r = self.stack.pop().unwrap();
                    let l = self.stack.pop().unwrap();
                    let out = binary_value(op, l, r, fpu);
                    match out {
                        Ok(v) => {
                            self.stack.push(v);
                            self.set_rip(next);
                            let ghost (fb, ft) = choose|fb: u64, ft: bool| #[trigger] binary_result(op, l, r, fb, ft) == out;
                            assert(m.stack.drop_last().drop_last().push(v) =~= self.stack@);
                            assert(op_effect(env, m, op, rip as int, fb, ft) == Ok::<(Machine, Option<ThetaValue>), ExecutionError>((self.machine(), None)));
                            Ok(None)
                        },
                        Err(e) => {
                            let ghost (fb, ft) = choose|fb: u64, ft: bool| #[trigger] binary_result(op, l, r, fb, ft) == out;
                            assert(op_effect(env, m, op, rip as int, fb, ft) == Err::<(Machine, Option<ThetaValue>), ExecutionError>(e));
                            Err(e)
                        },
                    }
                }
            },
        };
        proof {
            assert(self.env() =~= env);
            assert forall|i: int| 0 <= i < self.frames@.len() implies (#[trigger] self.frames@[i]).chunk < env.code.len()
                && self.frames@[i].bitstream < env.pools.len() by {
                assert(self.frames@[i].chunk == m.frames[i].chunk && self.frames@[i].bitstream == m.frames[i].bitstream);
            }
            match res {
                Ok(y) => {
                    if !(op is Neg && m.stack.last() is Double) && !(is_binary(op)) {
                        assert(op_effect(env, m, op, rip as int, 0, false) == Ok::<(Machine, Option<ThetaValue>), ExecutionError>((self.machine(), y)));
                    }
                },
                Err(e) => {
                    if !is_binary(op) {
                        assert(op_effect(env, m, op, rip as int, 0, false) == Err::<(Machine, Option<ThetaValue>), ExecutionError>(e));
                    }
                },
            }
        }
        res
    }
}

/// A step yields a value only when it leaves no frame behind.
pub proof fn lemma_yield_leaves_no_frame(env: Env, m: Machine, fb: u64, ft: bool)
    requires
        m.frames.len() > 0,
        step_spec(env, m, fb, ft) matches Ok((_, Some(_))),
    ensures
        step_spec(env, m, fb, ft) matches Ok((m2, _)) && m2.frames.len() == 0,
{
}

/// A run extends by one step of a machine that has a frame.
pub proof fn lemma_run_extend(env: Env, m: Machine, fl: Seq<(u64, bool)>, mid: Machine, fb: u64, ft: bool)
    requires
        run_steps(env, m, fl) == Ok::<(Machine, Option<ThetaValue>), ExecutionError>((mid, None)),
        mid.frames.len() > 0,
    ensures
        run_steps(env, m, fl.push((fb, ft))) == step_spec(env, mid, fb, ft),
{
    assert(fl.push((fb, ft)).drop_last() =~= fl);
}

/// Whether two byte strings are equal.
fn bytes_equal(a: &Vec<u8>, b: &Vec<u8>) -> (r: bool)
    ensures
        r == (a@ == b@),
{
    if a.len() != b.len() {
        return false;
    }
    let mut i: usize = 0;
    while i < a.len()
        invariant
            a@.len() == b@.len(),
            i <= a@.len(),
            forall|k: int| 0 <= k < i ==> a@[k] == b@[k],
        decreases a@.len() - i,
    {
        if a[i] != b[i] {
            return false;
        }
        i = i + 1;
    }
    assert(a@ =~= b@);
    true
}

impl VM {
    /// One step of the top frame.
    fn step<F: FloatUnit>(&mut self, fpu: &F) -> (r: Result<Option<ThetaValue>, ExecutionError>)
        requires
            old(self).wf(),
            old(self).frames@.len() > 0,
        ensures
            final(self).env() == old(self).env(),
            final(self).wf(),
            final(self).constants == old(self).constants,
            final(self).strings == old(self).strings,
            final(self).functions == old(self).functions,
            match r {
                Ok(y) => exists|fb: u64, ft: bool| #[trigger] step_spec(old(self).env(), old(self).machine(), fb, ft)
                    == Ok::<(Machine, Option<ThetaValue>), ExecutionError>((final(self).machine(), y)),
                Err(e) => exists|fb: u64, ft: bool| #[trigger] step_spec(old(self).env(), old(self).machine(), fb, ft)
                    == Err::<(Machine, Option<ThetaValue>), ExecutionError>(e),
            },
    {
        let ghost env = old(self).env();
        let ghost m = old(self).machine();
        let top = self.frames.len() - 1;
        let rip = self.frames[top].rip;
        let ch = self.frames[top].chunk;
        proof {
            assert(self.frames@[top as int] == self.frames@.last());
            assert(env.code[ch as int] == self.code@[ch as int]@);
        }
        if rip >= self.code[ch].len() {
            self.frames.pop();
            proof {
                assert(self.env() =~= env);
                assert forall|i: int| 0 <= i < self.frames@.len() implies (#[trigger] self.frames@[i]).chunk < env.code.len()
                    && self.frames@[i].bitstream < env.pools.len() by {
                    assert(self.frames@[i] == m.frames[i]);
                }
                assert(step_spec(env, m, 0, false) == Ok::<(Machine, Option<ThetaValue>), ExecutionError>((self.machine(), None)));
            }
            return Ok(None);
        }
        let decoded = OpCode::decode_at(self.code[ch].as_slice(), rip);
        match decoded {
            Err(e) => {
                assert(step_spec(env, m, 0, false) == Err::<(Machine, Option<ThetaValue>), ExecutionError>(ExecutionError::InvalidInstruction(e)));
                Err(ExecutionError::InvalidInstruction(e))
            },
            Ok((op, next)) => {
                proof {
                    lemma_parse_op_size(env.code[ch as int], rip as int);
                }
                let r = self.apply(op, rip, next, fpu);
                proof {
                    assert forall|fb: u64, ft: bool| #[trigger] step_spec(env, m, fb, ft) == op_effect(env, m, op, rip as int, fb, ft) by {}
                    match r {
                        Ok(y) => {
                            let (fb, ft) = choose|fb: u64, ft: bool| #[trigger] op_effect(env, m, op, rip as int, fb, ft)
                                == Ok::<(Machine, Option<ThetaValue>), ExecutionError>((self.machine(), y));
                            assert(step_spec(env, m, fb, ft) == op_effect(env, m, op, rip as int, fb, ft));
                        },
                        Err(e) => {
                            let (fb, ft) = choose|fb: u64, ft: bool| #[trigger] op_effect(env, m, op, rip as int, fb, ft)
                                == Err::<(Machine, Option<ThetaValue>), ExecutionError>(e);
                            assert(step_spec(env, m, fb, ft) == op_effect(env, m, op, rip as int, fb, ft));
                        },
                    }
                }
                r
            },
        }
    }

    /// Runs the top frame until no frame is left, an error occurs, or the
    /// step budget of `u64::MAX` steps is used up. The value is the one a
    /// final `Return` yields. On an error the frames and the operand stack
    /// are discarded; loaded code, bitstreams and strings stay.
    pub fn execute_code<F: FloatUnit>(&mut self, fpu: &F) -> (r: Result<Option<ThetaValue>, ExecutionError>)
        requires
            old(self).wf(),
        ensures
            final(self).wf(),
            final(self).env() == old(self).env(),
            final(self).pool() == old(self).pool(),
            final(self).function_pool() == old(self).function_pool(),
            final(self).interned() == old(self).interned(),
            final(self).machine().frames.len() == 0,
            run_outcome(old(self).env(), old(self).machine(), r, final(self).machine()),
    {
        let ghost env = old(self).env();
        let ghost start = old(self).machine();
        let ghost mut fl: Seq<(u64, bool)> = Seq::empty();
        let mut budget: u64 = u64::MAX;
        while self.frames.len() > 0
            invariant
                self.wf(),
                self.env() == env,
                self.pool() == old(self).pool(),
                self.function_pool() == old(self).function_pool(),
                self.interned() == old(self).interned(),
                env == old(self).env(),
                start == old(self).machine(),
                run_steps(env, start, fl) == Ok::<(Machine, Option<ThetaValue>), ExecutionError>((self.machine(), None)),
                fl.len() == u64::MAX - budget,
            decreases budget,
        {
            if budget == 0 {
                assert(budget_spent(env, start, fl));
                self.frames.clear();
                self.stack.clear();
                proof {
                    assert(self.env() =~= env);
                }
                return Err(ExecutionError::StepLimit);
            }
            budget = budget - 1;
            let ghost cur = self.machine();
            match self.step(fpu) {
                Ok(y) => {
                    let ghost (fb, ft) = choose|fb: u64, ft: bool| #[trigger] step_spec(env, cur, fb, ft)
                        == Ok::<(Machine, Option<ThetaValue>), ExecutionError>((self.machine(), y));
                    proof {
                        lemma_run_extend(env, start, fl, cur, fb, ft);
                        fl = fl.push((fb, ft));
                    }
                    if let Some(v) = y {
                        proof {
                            lemma_yield_leaves_no_frame(env, cur, fb, ft);
                        }
                        return Ok(Some(v));
                    }
                },
                Err(e) => {
                    let ghost (fb, ft) = choose|fb: u64, ft: bool| #[trigger] step_spec(env, cur, fb, ft)
                        == Err::<(Machine, Option<ThetaValue>), ExecutionError>(e);
                    proof {
                        lemma_run_extend(env, start, fl, cur, fb, ft);
                    }
                    self.frames.clear();
                    self.stack.clear();
                    proof {
                        assert(self.env() =~= env);
                    }
                    return Err(e);
                },
            }
        }
        Ok(None)
    }

    /// Registers a bitstream: its pool becomes the pool of frames that name
    /// the returned handle, its constants are appended to the global pool and
    /// its functions moved to the function pool.
    pub fn load_bitstream(&mut self, bs: ThetaBitstream) -> (h: usize)
        requires
            old(self).wf(),
        ensures
            final(self).wf(),
            final(self).function_pool() == old(self).function_pool() + bs.functions@,
            h == old(self).env().pools.len(),
            final(self).env().pools == old(self).env().pools.push(bs.constants@),
            final(self).env().code == old(self).env().code,
            final(self).pool() == old(self).pool() + bs.constants@,
            final(self).machine() == old(self).machine(),
            final(self).interned() == old(self).interned(),
    {
        let mut i: usize = 0;
        while i < bs.constants.len()
            invariant
                i <= bs.constants@.len(),
                self.constants@ == old(self).constants@ + bs.constants@.take(i as int),
                self.functions == old(self).functions,
                self.stack == old(self).stack,
                self.frames == old(self).frames,
                self.code == old(self).code,
                self.bitstreams == old(self).bitstreams,
                self.strings == old(self).strings,
            decreases bs.constants@.len() - i,
        {
            self.constants.push(bs.constants[i]);
            assert(bs.constants@.take(i + 1) =~= bs.constants@.take(i as int).push(bs.constants@[i as int]));
            i = i + 1;
        }
        assert(bs.constants@.take(i as int) =~= bs.constants@);
        let ThetaBitstream { constants, functions } = bs;
        let mut moved = functions;
        self.functions.append(&mut moved);
        let bs = ThetaBitstream { constants, functions: Vec::new() };
        let h = self.bitstreams.len();
        self.bitstreams.push(bs);
        proof {
            assert(self.env().pools =~= old(self).env().pools.push(bs.constants@));
            assert(self.env().code =~= old(self).env().code);
            assert forall|i: int| 0 <= i < self.frames@.len() implies (#[trigger] self.frames@[i]).chunk < self.env().code.len()
                && self.frames@[i].bitstream < self.env().pools.len() by {
                assert(frames_valid(old(self).env(), old(self).frames@));
                assert(old(self).frames@[i] == self.frames@[i]);
            }
        }
        h
    }

    /// Registers a code stream (instruction bytes) and returns its handle.
    pub fn load_code(&mut self, code: Vec<u8>) -> (h: usize)
        requires
            old(self).wf(),
        ensures
            final(self).wf(),
            h == old(self).env().code.len(),
            final(self).env().code == old(self).env().code.push(code@),
            final(self).env().pools == old(self).env().pools,
            final(self).pool() == old(self).pool(),
            final(self).function_pool() == old(self).function_pool(),
            final(self).machine() == old(self).machine(),
            final(self).interned() == old(self).interned(),
    {
        let h = self.code.len();
        let ghost c = code@;
        self.code.push(code);
        proof {
            assert(self.env().code =~= old(self).env().code.push(c));
            assert(self.env().pools =~= old(self).env().pools);
            assert forall|i: int| 0 <= i < self.frames@.len() implies (#[trigger] self.frames@[i]).chunk < self.env().code.len()
                && self.frames@[i].bitstream < self.env().pools.len() by {
                assert(frames_valid(old(self).env(), old(self).frames@));
                assert(old(self).frames@[i] == self.frames@[i]);
            }
        }
        h
    }

    /// Installs a call frame on top of the frame stack.
    pub fn push_frame(&mut self, frame: ThetaCallFrame)
        requires
            old(self).wf(),
            frame.chunk < old(self).env().code.len(),
            frame.bitstream < old(self).env().pools.len(),
        ensures
            final(self).wf(),
            final(self).machine().frames == old(self).machine().frames.push(frame),
            final(self).machine().stack == old(self).machine().stack,
            final(self).env() == old(self).env(),
            final(self).pool() == old(self).pool(),
            final(self).function_pool() == old(self).function_pool(),
            final(self).interned() == old(self).interned(),
    {
        self.frames.push(frame);
        proof {
            assert forall|i: int| 0 <= i < self.frames@.len() implies (#[trigger] self.frames@[i]).chunk < self.env().code.len()
                && self.frames@[i].bitstream < self.env().pools.len() by {
                assert(frames_valid(old(self).env(), old(self).frames@));
                if i < old(self).frames@.len() {
                    assert(old(self).frames@[i] == self.frames@[i]);
                }
            }
        }
    }

    /// The handle of `s` in the string table, adding it if it is not there
    /// yet: equal contents always get the same handle.
    pub fn intern_string(&mut self, s: Vec<u8>) -> (h: usize)
        requires
            old(self).wf(),
        ensures
            final(self).wf(),
            h < final(self).interned().len(),
            final(self).interned()[h as int] == s@,
            old(self).interned().contains(s@) ==> final(self).interned() == old(self).interned(),
            !old(self).interned().contains(s@) ==> final(self).interned() == old(self).interned().push(s@),
            final(self).machine() == old(self).machine(),
            final(self).env() == old(self).env(),
            final(self).pool() == old(self).pool(),
            final(self).function_pool() == old(self).function_pool(),
    {
        let mut i: usize = 0;
        while i < self.strings.len()
            invariant
                i <= self.strings@.len(),
                *self == *old(self),
                old(self).wf(),
                forall|k: int| 0 <= k < i ==> self.strings@[k]@ != s@,
            decreases self.strings@.len() - i,
        {
            if bytes_equal(&self.strings[i], &s) {
                assert(self.interned()[i as int] == s@);
                return i;
            }
            i = i + 1;
        }
        proof {
            assert forall|k: int| 0 <= k < self.interned().len() implies self.interned()[k] != s@ by {
                assert(self.interned()[k] == self.strings@[k]@);
            }
        }
        let h = self.strings.len();
        let ghost c = s@;
        self.strings.push(s);
        proof {
            assert(self.interned() =~= old(self).interned().push(c));
        }
        h
    }

    /// The interned strings, by handle.
    pub fn strings(&self) -> (r: &Vec<Vec<u8>>)
        ensures
            r@.map_values(|s: Vec<u8>| s@) == self.interned(),
    {
        &self.strings
    }

    /// The loaded bitstreams, by handle.
    pub fn bitstreams(&self) -> (r: &Vec<ThetaBitstream>)
        ensures
            r@.map_values(|b: ThetaBitstream| b.constants@) == self.env().pools,
    {
        &self.bitstreams
    }

    /// The functions of every loaded bitstream, in load order.
    pub fn functions(&self) -> (r: &Vec<ThetaFunction>)
        ensures
            r@ == self.function_pool(),
    {
        &self.functions
    }

    /// The call frames, innermost last.
    pub fn frames(&self) -> (r: &Vec<ThetaCallFrame>)
        ensures
            r@ == self.machine().frames,
    {
        &self.frames
    }
}

/// The environment after loading a chunk with constants `k` and
/// instructions `ops`.
pub open spec fn env_with_chunk(env: Env, ops: Seq<OpCode>, k: Seq<ThetaValue>) -> Env {
    Env { code: env.code.push(ops_bytes(ops)), pools: env.pools.push(k) }
}

/// Whether `f` starts, with no locals, the chunk that is loaded next into `env`.
pub open spec fn is_entry_frame(f: ThetaCallFrame, env: Env) -> bool {
    f.rip == 0 && f.locals@.len() == 0 && f.bitstream == env.pools.len() && f.chunk == env.code.len()
}

/// `m` with frame `f` pushed.
pub open spec fn with_frame(m: Machine, f: ThetaCallFrame) -> Machine {
    Machine { stack: m.stack, frames: m.frames.push(f) }
}

impl VM {
    /// Decodes a standalone chunk image, loads its constants as a bitstream of
    /// its own and its instructions as code, and runs it in a new frame above
    /// the current ones. An image that does not decode changes nothing.
    pub fn disassemble_chunk<F: FloatUnit>(&mut self, chunk: &[u8], fpu: &F) -> (r: Result<Option<ThetaValue>, VmError>)
        requires
            old(self).wf(),
        ensures
            final(self).wf(),
            match parse_chunk(chunk@) {
                Err(e) => r == Err::<Option<ThetaValue>, VmError>(VmError::Disassemble(e)) && *final(self) == *old(self),
                Ok((ops, k)) => {
                    let env = env_with_chunk(old(self).env(), ops, k);
                    let m = old(self).machine();
                    &&& final(self).env() == env
                    &&& final(self).pool() == old(self).pool() + k
                    &&& final(self).machine().frames.len() == 0
                    &&& match execution_part(r) {
                        Some(x) => entry_outcome(env, old(self).env(), m, x, final(self).machine()),
                        None => false,
                    }
                },
            },
    {
        let decoded: Chunk = match disassemble_chunk(chunk) {
            Ok(c) => c,
            Err(e) => return Err(VmError::Disassemble(e)),
        };
        let ghost env0 = self.env();
        let mut code: Vec<u8> = Vec::new();
        encode_ops(&decoded.instructions, &mut code);
        assert(code@ =~= ops_bytes(decoded.instructions@));
        let bs = ThetaBitstream { constants: decoded.constants, functions: Vec::new() };
        let h = self.load_bitstream(bs);
        let c = self.load_code(code);
        let ghost m0 = self.machine();
        let frame = ThetaCallFrame { rip: 0, locals: Vec::new(), bitstream: h, chunk: c };
        let ghost f = frame;
        self.push_frame(frame);
        proof {
            assert(self.env() == env_with_chunk(env0, decoded.instructions@, decoded.constants@));
            assert(self.machine() == with_frame(m0, f));
            assert(is_entry_frame(f, env0));
        }
        let ghost env1 = self.env();
        let ghost start = self.machine();
        let out = self.execute_code(fpu);
        proof {
            assert(self.pool() =~= old(self).pool() + decoded.constants@);
            assert(is_entry_frame(f, old(self).env()) && run_outcome(env1, with_frame(m0, f), out, self.machine()));
        }
        match out {
            Ok(y) => Ok(y),
            Err(e) => Err(VmError::Execution(e)),
        }
    }

    /// Loads and runs one standalone chunk image, as `disassemble_chunk` does.
    pub fn disassemble<F: FloatUnit>(&mut self, input: &[u8], fpu: &F) -> (r: Result<Option<ThetaValue>, VmError>)
        requires
            old(self).wf(),
        ensures
            final(self).wf(),
            match parse_chunk(input@) {
                Err(e) => r == Err::<Option<ThetaValue>, VmError>(VmError::Disassemble(e)) && *final(self) == *old(self),
                Ok((ops, k)) => {
                    let env = env_with_chunk(old(self).env(), ops, k);
                    &&& final(self).env() == env
                    &&& final(self).pool() == old(self).pool() + k
                    &&& final(self).machine().frames.len() == 0
                    &&& match execution_part(r) {
                        Some(x) => entry_outcome(env, old(self).env(), old(self).machine(), x, final(self).machine()),
                        None => false,
                    }
                },
            },
    {
        self.disassemble_chunk(input, fpu)
    }
}

} // verus!
