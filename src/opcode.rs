//! The instruction set: tags, sizes, names, and the encoding of one instruction.
use crate::value::{lemma_i64_u64_round_trip, push_u64, read_u64, DisassembleError};
use vstd::bytes::{spec_u64_from_le_bytes, spec_u64_to_le_bytes};
use vstd::prelude::*;

verus! {

/// One bytecode instruction. Jump offsets are measured in bytes from the
/// start of the jump instruction itself.
#[derive(Clone, Copy, Debug, PartialEq, Eq, Structural)]
#[allow(inconsistent_fields)]
pub enum OpCode {
    Return,
    Constant { index: u8 },
    Add,
    Sub,
    Mul,
    Div,
    Neg,
    Equal,
    GreaterThan,
    LessThan,
    ReturnVoid,
    JumpFar { offset: i64 },
    JumpLocal { offset: i8 },
    JumpFarIfFalse { offset: i64 },
    JumpLocalIfFalse { offset: i8 },
}

/// The one-byte tag of each instruction.
pub open spec fn spec_tag(op: OpCode) -> u8 {
    match op {
        OpCode::Return => 0x00,
        OpCode::Constant { .. } => 0x01,
        OpCode::Add => 0x02,
        OpCode::Sub => 0x03,
        OpCode::Mul => 0x04,
        OpCode::Div => 0x05,
        OpCode::Neg => 0x06,
        OpCode::Equal => 0x07,
        OpCode::GreaterThan => 0x08,
        OpCode::LessThan => 0x09,
        OpCode::ReturnVoid => 0x0a,
        OpCode::JumpFar { .. } => 0x0b,
        OpCode::JumpLocal { .. } => 0x0c,
        OpCode::JumpFarIfFalse { .. } => 0x0d,
        OpCode::JumpLocalIfFalse { .. } => 0x0e,
    }
}

/// The encoded size of each instruction, tag included.
pub open spec fn spec_size(op: OpCode) -> nat {
    match op {
        OpCode::Constant { .. } | OpCode::JumpLocal { .. } | OpCode::JumpLocalIfFalse { .. } => 2,
        OpCode::JumpFar { .. } | OpCode::JumpFarIfFalse { .. } => 9,
        _ => 1,
    }
}

/// The bytes of one instruction: its tag, then its operand, little-endian.
pub open spec fn op_bytes(op: OpCode) -> Seq<u8> {
    match op {
        OpCode::Constant { index } => seq![spec_tag(op), index],
        OpCode::JumpLocal { offset } => seq![spec_tag(op), offset as u8],
        OpCode::JumpLocalIfFalse { offset } => seq![spec_tag(op), offset as u8],
        OpCode::JumpFar { offset } => seq![spec_tag(op)] + spec_u64_to_le_bytes(offset as u64),
        OpCode::JumpFarIfFalse { offset } => seq![spec_tag(op)] + spec_u64_to_le_bytes(offset as u64),
        _ => seq![spec_tag(op)],
    }
}

/// The instruction with no operand whose tag is `t`.
pub open spec fn simple_op(t: u8) -> Option<OpCode> {
    if t == 0x00 {
        Some(OpCode::Return)
    } else if t == 0x02 {
        Some(OpCode::Add)
    } else if t == 0x03 {
        Some(OpCode::Sub)
    } else if t == 0x04 {
        Some(OpCode::Mul)
    } else if t == 0x05 {
        Some(OpCode::Div)
    } else if t == 0x06 {
        Some(OpCode::Neg)
    } else if t == 0x07 {
        Some(OpCode::Equal)
    } else if t == 0x08 {
        Some(OpCode::GreaterThan)
    } else if t == 0x09 {
        Some(OpCode::LessThan)
    } else if t == 0x0a {
        Some(OpCode::ReturnVoid)
    } else {
        None
    }
}

/// Decodes the instruction at `pos`: the instruction and the position after it.
pub open spec fn parse_op(b: Seq<u8>, pos: int) -> Result<(OpCode, int), DisassembleError> {
    if pos < 0 || pos >= b.len() {
        Err(DisassembleError::Truncated)
    } else {
        let t = b[pos];
        if t == 0x01 || t == 0x0c || t == 0x0e {
            if pos + 2 > b.len() {
                Err(DisassembleError::Truncated)
            } else if t == 0x01 {
                Ok((OpCode::Constant { index: b[pos + 1] }, pos + 2))
            } else if t == 0x0c {
                Ok((OpCode::JumpLocal { offset: b[pos + 1] as i8 }, pos + 2))
            } else {
                Ok((OpCode::JumpLocalIfFalse { offset: b[pos + 1] as i8 }, pos + 2))
            }
        } else if t == 0x0b || t == 0x0d {
            if pos + 9 > b.len() {
                Err(DisassembleError::Truncated)
            } else {
                let w = spec_u64_from_le_bytes(b.subrange(pos + 1, pos + 9)) as i64;
                if t == 0x0b {
                    Ok((OpCode::JumpFar { offset: w }, pos + 9))
                } else {
                    Ok((OpCode::JumpFarIfFalse { offset: w }, pos + 9))
                }
            }
        } else {
            match simple_op(t) {
                Some(op) => Ok((op, pos + 1)),
                None => Err(DisassembleError::UnknownOpcode),
            }
        }
    }
}

/// The bytes of an instruction stream, in order.
pub open spec fn ops_bytes(s: Seq<OpCode>) -> Seq<u8>
    decreases s.len(),
{
    if s.len() == 0 {
        Seq::empty()
    } else {
        op_bytes(s[0]) + ops_bytes(s.skip(1))
    }
}

/// Decodes instructions from `pos` to the end of the buffer.
pub open spec fn parse_ops(b: Seq<u8>, pos: int) -> Result<Seq<OpCode>, DisassembleError>
    decreases b.len() - pos,
{
    if pos < 0 || pos >= b.len() {
        Ok(Seq::empty())
    } else {
        match parse_op(b, pos) {
            Err(e) => Err(e),
            Ok((op, _)) => match parse_ops(b, pos + spec_size(op)) {
                Err(e) => Err(e),
                Ok(rest) => Ok(seq![op] + rest),
            },
        }
    }
}

/// `p` put in front of a decoded sequence; errors pass through.
pub open spec fn prepend_ops(p: Seq<OpCode>, r: Result<Seq<OpCode>, DisassembleError>) -> Result<Seq<OpCode>, DisassembleError> {
    match r {
        Ok(s) => Ok(p + s),
        Err(e) => Err(e),
    }
}

proof fn lemma_i8_round_trip(i: i8)
    ensures
        (i as u8) as i8 == i,
{
    assert((i as u8) as i8 == i) by (bit_vector);
}

/// A decoded instruction ends where its size says.
pub proof fn lemma_parse_op_size(b: Seq<u8>, pos: int)
    ensures
        parse_op(b, pos) matches Ok((op, next)) ==> next == pos + spec_size(op),
{
}

/// Decoding an encoded instruction gives it back, whatever follows it.
pub proof fn lemma_op_round_trip(op: OpCode, b: Seq<u8>, pos: int)
    requires
        0 <= pos,
        pos + op_bytes(op).len() <= b.len(),
        b.subrange(pos, pos + op_bytes(op).len()) == op_bytes(op),
    ensures
        op_bytes(op).len() == spec_size(op),
        parse_op(b, pos) == Ok::<(OpCode, int), DisassembleError>((op, pos + spec_size(op))),
{
    vstd::bytes::lemma_auto_spec_u64_to_from_le_bytes();
    let e = op_bytes(op);
    let w = b.subrange(pos, pos + e.len());
    assert(b[pos] == e[0]) by {
        assert(w[0] == e[0]);
    }
    match op {
        OpCode::Constant { index } => {
            assert(w[1] == e[1]);
        },
        OpCode::JumpLocal { offset } => {
            assert(w[1] == e[1]);
            lemma_i8_round_trip(offset);
        },
        OpCode::JumpLocalIfFalse { offset } => {
            assert(w[1] == e[1]);
            lemma_i8_round_trip(offset);
        },
        OpCode::JumpFar { offset } => {
            assert(b.subrange(pos + 1, pos + 9) =~= w.subrange(1, 9));
            assert(e.subrange(1, 9) =~= spec_u64_to_le_bytes(offset as u64));
            lemma_i64_u64_round_trip(offset);
        },
        OpCode::JumpFarIfFalse { offset } => {
            assert(b.subrange(pos + 1, pos + 9) =~= w.subrange(1, 9));
            assert(e.subrange(1, 9) =~= spec_u64_to_le_bytes(offset as u64));
            lemma_i64_u64_round_trip(offset);
        },
        _ => {},
    }
}

/// Decoding an encoded instruction stream that runs to the end of the buffer
/// gives it back.
pub proof fn lemma_ops_round_trip(s: Seq<OpCode>, b: Seq<u8>, pos: int)
    requires
        0 <= pos <= b.len(),
        b.subrange(pos, b.len() as int) == ops_bytes(s),
    ensures
        parse_ops(b, pos) == Ok::<Seq<OpCode>, DisassembleError>(s),
    decreases s.len(),
{
    if s.len() == 0 {
        assert(b.subrange(pos, b.len() as int).len() == 0);
        assert(s =~= Seq::<OpCode>::empty());
    } else {
        let op = s[0];
        let e = op_bytes(op);
        let tail = b.subrange(pos, b.len() as int);
        assert(tail == e + ops_bytes(s.skip(1)));
        assert(e.len() >= 1);
        assert(pos < b.len());
        assert(tail.subrange(0, e.len() as int) =~= e);
        assert(b.subrange(pos, pos + e.len()) =~= tail.subrange(0, e.len() as int));
        lemma_op_round_trip(op, b, pos);
        let next = pos + spec_size(op);
        assert(b.subrange(next, b.len() as int) =~= tail.subrange(e.len() as int, tail.len() as int));
        assert(tail.subrange(e.len() as int, tail.len() as int) =~= ops_bytes(s.skip(1)));
        lemma_ops_round_trip(s.skip(1), b, next);
        assert(parse_op(b, pos) == Ok::<(OpCode, int), DisassembleError>((op, next)));
        assert(seq![op] + s.skip(1) =~= s);
    }
}

impl OpCode {
    /// The instruction's one-byte tag.
    pub fn as_hexcode(&self) -> (r: u8)
        ensures
            r == spec_tag(*self),
    {
        match self {
            OpCode::Return => 0x00,
            OpCode::Constant { .. } => 0x01,
            OpCode::Add => 0x02,
            OpCode::Sub => 0x03,
            OpCode::Mul => 0x04,
            OpCode::Div => 0x05,
            OpCode::Neg => 0x06,
            OpCode::Equal => 0x07,
            OpCode::GreaterThan => 0x08,
            OpCode::LessThan => 0x09,
            OpCode::ReturnVoid => 0x0a,
            OpCode::JumpFar { .. } => 0x0b,
            OpCode::JumpLocal { .. } => 0x0c,
            OpCode::JumpFarIfFalse { .. } => 0x0d,
            OpCode::JumpLocalIfFalse { .. } => 0x0e,
        }
    }

    /// The instruction's encoded size in bytes, tag included.
    pub fn size(&self) -> (r: usize)
        ensures
            r == spec_size(*self),
            r == op_bytes(*self).len(),
    {
        proof {
            vstd::bytes::lemma_auto_spec_u64_to_from_le_bytes();
        }
        match self {
            OpCode::Constant { .. } | OpCode::JumpLocal { .. } | OpCode::JumpLocalIfFalse { .. } => 2,
            OpCode::JumpFar { .. } | OpCode::JumpFarIfFalse { .. } => 9,
            _ => 1,
        }
    }

    /// The instruction's name as shown in listings.
    pub fn human_readable(&self) -> (r: &'static str)
        ensures
            r@ == spec_name(*self)@,
    {
        match self {
            OpCode::Return => "Return",
            OpCode::Constant { .. } => "Constant",
            OpCode::Add => "Add",
            OpCode::Sub => "Sub",
            OpCode::Mul => "Mul",
            OpCode::Div => "Div",
            OpCode::Neg => "Neg",
            OpCode::Equal => "Equal",
            OpCode::GreaterThan => "GreaterThan",
            OpCode::LessThan => "LessThan",
            OpCode::ReturnVoid => "ReturnVoid",
            OpCode::JumpFar { .. } => "JumpFar",
            OpCode::JumpLocal { .. } => "JumpLocal",
            OpCode::JumpFarIfFalse { .. } => "JumpFarIfFalse",
            OpCode::JumpLocalIfFalse { .. } => "JumpLocalIfFalse",
        }
    }

    /// Appends this instruction's bytes.
    pub fn encode_into(&self, out: &mut Vec<u8>)
        ensures
            final(out)@ == old(out)@ + op_bytes(*self),
    {
        let t = self.as_hexcode();
        out.push(t);
        match self {
            OpCode::Constant { index } => out.push(*index),
            OpCode::JumpLocal { offset } => out.push(*offset as u8),
            OpCode::JumpLocalIfFalse { offset } => out.push(*offset as u8),
            OpCode::JumpFar { offset } => push_u64(out, *offset as u64),
            OpCode::JumpFarIfFalse { offset } => push_u64(out, *offset as u64),
            _ => {},
        }
        assert(final(out)@ =~= old(out)@ + op_bytes(*self));
    }

    /// Decodes the instruction at `pos`.
    pub fn decode_at(b: &[u8], pos: usize) -> (r: Result<(OpCode, usize), DisassembleError>)
        ensures
            match r {
                Ok((op, next)) => parse_op(b@, pos as int) == Ok::<(OpCode, int), DisassembleError>((op, next as int)),
                Err(e) => parse_op(b@, pos as int) == Err::<(OpCode, int), DisassembleError>(e),
            },
    {
        if pos >= b.len() {
            return Err(DisassembleError::Truncated);
        }
        let t = b[pos];
        if t == 0x01 || t == 0x0c || t == 0x0e {
            if b.len() - pos < 2 {
                Err(DisassembleError::Truncated)
            } else if t == 0x01 {
                Ok((OpCode::Constant { index: b[pos + 1] }, pos + 2))
            } else if t == 0x0c {
                Ok((OpCode::JumpLocal { offset: b[pos + 1] as i8 }, pos + 2))
            } else {
                Ok((OpCode::JumpLocalIfFalse { offset: b[pos + 1] as i8 }, pos + 2))
            }
        } else if t == 0x0b || t == 0x0d {
            if b.len() - pos < 9 {
                Err(DisassembleError::Truncated)
            } else {
                let w = read_u64(b, pos + 1) as i64;
                if t == 0x0b {
                    Ok((OpCode::JumpFar { offset: w }, pos + 9))
                } else {
                    Ok((OpCode::JumpFarIfFalse { offset: w }, pos + 9))
                }
            }
        } else {
            let op = if t == 0x00 {
                OpCode::Return
            } else if t == 0x02 {
                OpCode::Add
            } else if t == 0x03 {
                OpCode::Sub
            } else if t == 0x04 {
                OpCode::Mul
            } else if t == 0x05 {
                OpCode::Div
            } else if t == 0x06 {
                OpCode::Neg
            } else if t == 0x07 {
                OpCode::Equal
            } else if t == 0x08 {
                OpCode::GreaterThan
            } else if t == 0x09 {
                OpCode::LessThan
            } else if t == 0x0a {
                OpCode::ReturnVoid
            } else {
                return Err(DisassembleError::UnknownOpcode);
            };
            Ok((op, pos + 1))
        }
    }
}

/// The name of each instruction.
pub open spec fn spec_name(op: OpCode) -> &'static str {
    match op {
        OpCode::Return => "Return",
        OpCode::Constant { .. } => "Constant",
        OpCode::Add => "Add",
        OpCode::Sub => "Sub",
        OpCode::Mul => "Mul",
        OpCode::Div => "Div",
        OpCode::Neg => "Neg",
        OpCode::Equal => "Equal",
        OpCode::GreaterThan => "GreaterThan",
        OpCode::LessThan => "LessThan",
        OpCode::ReturnVoid => "ReturnVoid",
        OpCode::JumpFar { .. } => "JumpFar",
        OpCode::JumpLocal { .. } => "JumpLocal",
        OpCode::JumpFarIfFalse { .. } => "JumpFarIfFalse",
        OpCode::JumpLocalIfFalse { .. } => "JumpLocalIfFalse",
    }
}

/// Appends the bytes of an instruction stream.
pub fn encode_ops(ops: &Vec<OpCode>, out: &mut Vec<u8>)
    ensures
        final(out)@ == old(out)@ + ops_bytes(ops@),
{
    let ghost start = out@;
    let mut k: usize = 0;
    assert(ops@.skip(0) =~= ops@);
    while k < ops.len()
        invariant
            k <= ops@.len(),
            out@ + ops_bytes(ops@.skip(k as int)) == start + ops_bytes(ops@),
        decreases ops@.len() - k,
    {
        let ghost prev = out@;
        let ghost rest = ops_bytes(ops@.skip(k + 1));
        proof {
            assert(ops@.skip(k as int).skip(1) =~= ops@.skip(k + 1));
            assert(ops@.skip(k as int)[0] == ops@[k as int]);
        }
        ops[k].encode_into(out);
        proof {
            assert((prev + op_bytes(ops@[k as int])) + rest =~= prev + (op_bytes(ops@[k as int]) + rest));
        }
        k = k + 1;
    }
    assert(ops@.skip(k as int) =~= Seq::<OpCode>::empty());
    assert(out@ + Seq::<u8>::empty() =~= out@);
}

/// Decodes instructions from `start` to the end of the buffer.
pub fn decode_ops(b: &[u8], start: usize) -> (r: Result<Vec<OpCode>, DisassembleError>)
    ensures
        match r {
            Ok(v) => parse_ops(b@, start as int) == Ok::<Seq<OpCode>, DisassembleError>(v@),
            Err(e) => parse_ops(b@, start as int) == Err::<Seq<OpCode>, DisassembleError>(e),
        },
{
    let mut ops: Vec<OpCode> = Vec::new();
    let mut pos: usize = start;
    while pos < b.len()
        invariant
            start <= pos,
            parse_ops(b@, start as int) == prepend_ops(ops@, parse_ops(b@, pos as int)),
        decreases b@.len() - pos,
    {
        let ghost before = ops@;
        match OpCode::decode_at(b, pos) {
            Err(e) => {
                assert(prepend_ops(before, parse_ops(b@, pos as int)) == Err::<Seq<OpCode>, DisassembleError>(e));
                return Err(e);
            },
            Ok((op, next)) => {
                proof {
                    lemma_parse_op_size(b@, pos as int);
                    assert(next as int == pos as int + spec_size(op));
                    match parse_ops(b@, next as int) {
                        Ok(rest) => {
                            assert(before + (seq![op] + rest) =~= before.push(op) + rest);
                        },
                        Err(_) => {},
                    }
                }
                ops.push(op);
                pos = next;
            },
        }
    }
    assert(ops@ + Seq::<OpCode>::empty() =~= ops@);
    Ok(ops)
}

} // verus!
