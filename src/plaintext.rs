//! A human-readable listing of chunks and constant pools, for diagnostics.
use crate::bitstream::{FunctionView, ThetaBitstream, ThetaFunction};
use crate::chunk::Chunk;
use crate::opcode::{ops_bytes, spec_name, spec_size, spec_tag, OpCode};
use crate::value::ThetaValue;
use vstd::prelude::*;
use vstd::string::StringSliceAdditionalSpecFns;

verus! {

/// The character of one hexadecimal digit (upper case).
pub open spec fn hex_digit(d: int) -> u8 {
    if d < 10 { (48 + d) as u8 } else { (55 + d) as u8 }
}

/// The hexadecimal digits of `n`, most significant first, without leading zeros.
pub open spec fn hex_digits(n: nat) -> Seq<u8>
    decreases n,
{
    if n < 16 {
        seq![hex_digit(n as int)]
    } else {
        hex_digits(n / 16).push(hex_digit((n % 16) as int))
    }
}

/// The decimal digits of `n`, most significant first, without leading zeros.
pub open spec fn dec_digits(n: nat) -> Seq<u8>
    decreases n,
{
    if n < 10 {
        seq![(48 + n) as u8]
    } else {
        dec_digits(n / 10).push((48 + n % 10) as u8)
    }
}

/// `n`, which is not negative, written as `0x` and upper-case hex digits.
pub open spec fn hex_text(n: int) -> Seq<u8> {
    seq![48u8, 120u8] + hex_digits(n as nat)
}

/// `n` in decimal, with a leading `-` when negative.
pub open spec fn dec_text(n: int) -> Seq<u8> {
    if n < 0 {
        seq![45u8] + dec_digits((-n) as nat)
    } else {
        dec_digits(n as nat)
    }
}

/// `n` as a 64-bit two's-complement word: what a signed machine word that
/// holds `n` shows in hex.
pub open spec fn word(n: int) -> int {
    n % 0x1_0000_0000_0000_0000
}

/// Where a jump at offset `at` lands, for jump instructions.
pub open spec fn jump_target(op: OpCode, at: int) -> Option<int> {
    match op {
        OpCode::JumpFar { offset } => Some(at + offset),
        OpCode::JumpFarIfFalse { offset } => Some(at + offset),
        OpCode::JumpLocal { offset } => Some(at + offset),
        OpCode::JumpLocalIfFalse { offset } => Some(at + offset),
        _ => None,
    }
}

/// The listing line of `op` at byte offset `at`: offset, name and tag, and
/// for a jump the offset it lands on, as a 64-bit two's-complement word (a
/// target before offset 0 shows as a large number).
pub open spec fn op_line(op: OpCode, at: int) -> Seq<u8> {
    hex_text(at) + " | Op: ".spec_bytes() + spec_name(op).spec_bytes() + " (".spec_bytes() + hex_text(spec_tag(op) as int)
        + ")".spec_bytes() + match jump_target(op, at) {
        Some(t) => " -> ".spec_bytes() + hex_text(word(t)),
        None => Seq::empty(),
    } + "\n".spec_bytes()
}

/// The listing lines of an instruction stream that starts at offset `at`.
pub open spec fn ops_lines(s: Seq<OpCode>, at: int) -> Seq<u8>
    decreases s.len(),
{
    if s.len() == 0 {
        Seq::empty()
    } else {
        op_line(s[0], at) + ops_lines(s.skip(1), at + spec_size(s[0]))
    }
}

/// The listing of an instruction stream.
pub open spec fn code_text(ops: Seq<OpCode>) -> Seq<u8> {
    "=== CHUNK BEGIN ===\n".spec_bytes() + "-- INSTRUCTIONS --\n".spec_bytes() + ops_lines(ops, 0)
        + "=== CHUNK END @ ".spec_bytes() + hex_text(ops_bytes(ops).len() as int) + " ===\n".spec_bytes()
}

/// The listing of a chunk's instructions.
pub open spec fn chunk_text(c: Chunk) -> Seq<u8> {
    code_text(c.instructions@)
}

/// How one constant is shown.
pub open spec fn value_text(v: ThetaValue) -> Seq<u8> {
    match v {
        ThetaValue::Int(i) => "Int(".spec_bytes() + dec_text(i as int) + ")".spec_bytes(),
        ThetaValue::Double(b) => "Double(".spec_bytes() + hex_text(b as int) + ")".spec_bytes(),
        ThetaValue::Bool(b) => if b { "Bool(true)".spec_bytes() } else { "Bool(false)".spec_bytes() },
    }
}

/// The lines of a constant pool's entries.
pub open spec fn pool_lines(s: Seq<ThetaValue>) -> Seq<u8>
    decreases s.len(),
{
    if s.len() == 0 {
        Seq::empty()
    } else {
        "Constant: ".spec_bytes() + value_text(s[0]) + "\n".spec_bytes() + pool_lines(s.skip(1))
    }
}

/// The listing of a constant pool.
pub open spec fn pool_text(s: Seq<ThetaValue>) -> Seq<u8> {
    "-- CONSTANT POOL --\n".spec_bytes() + pool_lines(s)
}

/// The listing of one function: a header with its name, its constant
/// pool, then its code.
pub open spec fn function_text(f: FunctionView) -> Seq<u8> {
    "-- FUNCTION ".spec_bytes() + f.name + " --\n".spec_bytes() + pool_text(f.constants) + code_text(f.instructions)
}

/// The listings of the functions of a pool, in order.
pub open spec fn functions_text(s: Seq<FunctionView>) -> Seq<u8>
    decreases s.len(),
{
    if s.len() == 0 {
        Seq::empty()
    } else {
        function_text(s[0]) + functions_text(s.skip(1))
    }
}

/// Whether each function's code is short enough to list.
pub open spec fn listable(s: Seq<FunctionView>) -> bool {
    forall|i: int| 0 <= i < s.len() ==> ops_bytes((#[trigger] s[i]).instructions).len() < 0x1_0000_0000_0000_0000
}

/// Appends the bytes of `s`.
pub(crate) fn push_str(out: &mut Vec<u8>, s: &str)
    ensures
        final(out)@ == old(out)@ + s.spec_bytes(),
{
    let b = s.as_bytes();
    let ghost start = out@;
    let mut i: usize = 0;
    while i < b.len()
        invariant
            i <= b@.len(),
            b@ == s.spec_bytes(),
            out@ == start + b@.subrange(0, i as int),
        decreases b@.len() - i,
    {
        out.push(b[i]);
        i = i + 1;
        assert(out@ =~= start + b@.subrange(0, i as int));
    }
    assert(b@.subrange(0, i as int) =~= b@);
}

fn push_hex_digits(out: &mut Vec<u8>, n: u128)
    ensures
        final(out)@ == old(out)@ + hex_digits(n as nat),
    decreases n,
{
    if n >= 16 {
        push_hex_digits(out, n / 16);
    }
    let d: u8 = (n % 16) as u8;
    out.push(if d < 10 { 48 + d } else { 55 + d });
    proof {
        if n < 16 {
            assert(final(out)@ =~= old(out)@ + hex_digits(n as nat));
        } else {
            assert(final(out)@ =~= old(out)@ + hex_digits(n as nat));
        }
    }
}

fn push_dec_digits(out: &mut Vec<u8>, n: u128)
    ensures
        final(out)@ == old(out)@ + dec_digits(n as nat),
    decreases n,
{
    if n >= 10 {
        push_dec_digits(out, n / 10);
    }
    let d: u8 = (n % 10) as u8;
    out.push(48 + d);
    proof {
        assert(final(out)@ =~= old(out)@ + dec_digits(n as nat));
    }
}

/// Appends `n` as `hex_text` shows it.
fn push_hex(out: &mut Vec<u8>, n: i128)
    requires
        n >= 0,
    ensures
        final(out)@ == old(out)@ + hex_text(n as int),
{
    out.push(48u8);
    out.push(120u8);
    push_hex_digits(out, n as u128);
    assert(final(out)@ =~= old(out)@ + hex_text(n as int));
}

/// Appends `n` as `dec_text` shows it.
pub(crate) fn push_dec(out: &mut Vec<u8>, n: i128)
    requires
        n > i128::MIN,
    ensures
        final(out)@ == old(out)@ + dec_text(n as int),
{
    if n < 0 {
        out.push(45u8);
    }
    let m: u128 = if n < 0 { (-n) as u128 } else { n as u128 };
    push_dec_digits(out, m);
    assert(final(out)@ =~= old(out)@ + dec_text(n as int));
}

/// `n` as `word` gives it.
fn wrap_word(n: i128) -> (r: i128)
    requires
        -0x8000_0000_0000_0000 <= n < 0x1_8000_0000_0000_0000,
    ensures
        r == word(n as int),
        r >= 0,
{
    if n < 0 {
        n + 0x1_0000_0000_0000_0000
    } else if n >= 0x1_0000_0000_0000_0000 {
        n - 0x1_0000_0000_0000_0000
    } else {
        n
    }
}

/// Appends the listing line of `op` at offset `at`.
#[verifier::rlimit(50)]
fn push_op_line(out: &mut Vec<u8>, op: OpCode, at: u64)
    ensures
        final(out)@ == old(out)@ + op_line(op, at as int),
{
    push_hex(out, at as i128);
    push_str(out, " | Op: ");
    push_str(out, op.human_readable());
    push_str(out, " (");
    push_hex(out, op.as_hexcode() as i128);
    push_str(out, ")");
    match op {
        OpCode::JumpFar { offset } | OpCode::JumpFarIfFalse { offset } => {
            push_str(out, " -> ");
            push_hex(out, wrap_word(at as i128 + offset as i128));
        },
        OpCode::JumpLocal { offset } | OpCode::JumpLocalIfFalse { offset } => {
            push_str(out, " -> ");
            push_hex(out, wrap_word(at as i128 + offset as i128));
        },
        _ => {},
    }
    push_str(out, "\n");
    assert(final(out)@ =~= old(out)@ + op_line(op, at as int));
}

/// The text assembler: it writes listings into an owned byte buffer.
pub struct PlainTextAssembler {
    output: Vec<u8>,
}

impl PlainTextAssembler {
    /// An assembler with an empty buffer.
    pub fn new() -> (r: PlainTextAssembler)
        ensures
            r.output() == Seq::<u8>::empty(),
    {
        PlainTextAssembler { output: Vec::new() }
    }

    /// The text written so far, as UTF-8 bytes.
    pub closed spec fn output(&self) -> Seq<u8> {
        self.output@
    }

    /// The text written so far, as UTF-8 bytes.
    pub fn bytes(&self) -> (r: &Vec<u8>)
        ensures
            r@ == self.output(),
    {
        &self.output
    }

    /// Hands back the buffer.
    pub fn into_bytes(self) -> (r: Vec<u8>)
        ensures
            r@ == self.output(),
    {
        self.output
    }

    /// Writes one line per instruction: its offset, name and tag, and for a
    /// jump the offset it lands on; then the offset where the chunk ends.
    pub fn assemble_chunk(&mut self, chunk: &Chunk)
        requires
            ops_bytes(chunk.instructions@).len() < 0x1_0000_0000_0000_0000,
        ensures
            final(self).output() == old(self).output() + chunk_text(*chunk),
    {
        let ghost start = self.output@;
        let ghost ops = chunk.instructions@;
        push_str(&mut self.output, "=== CHUNK BEGIN ===\n");
        push_str(&mut self.output, "-- INSTRUCTIONS --\n");
        let ghost head = self.output@;
        let mut code_offset: u64 = 0;
        let mut k: usize = 0;
        assert(ops.skip(0) =~= ops);
        while k < chunk.instructions.len()
            invariant
                k <= ops.len(),
                ops == chunk.instructions@,
                ops_bytes(ops).len() < 0x1_0000_0000_0000_0000,
                code_offset + ops_bytes(ops.skip(k as int)).len() == ops_bytes(ops).len(),
                self.output@ + ops_lines(ops.skip(k as int), code_offset as int) == head + ops_lines(ops, 0),
            decreases ops.len() - k,
        {
            let op = chunk.instructions[k];
            let ghost prev = self.output@;
            let ghost rest = ops_lines(ops.skip(k + 1), code_offset + spec_size(op));
            proof {
                assert(ops.skip(k as int).skip(1) =~= ops.skip(k + 1));
                assert(ops.skip(k as int)[0] == op);
                assert(ops_bytes(ops.skip(k as int)) == crate::opcode::op_bytes(op) + ops_bytes(ops.skip(k + 1)));
            }
            push_op_line(&mut self.output, op, code_offset);
            proof {
                assert((prev + op_line(op, code_offset as int)) + rest =~= prev + (op_line(op, code_offset as int) + rest));
            }
            code_offset = code_offset + op.size() as u64;
            k = k + 1;
        }
        assert(ops.skip(k as int) =~= Seq::<OpCode>::empty());
        assert(self.output@ + Seq::<u8>::empty() =~= self.output@);
        push_str(&mut self.output, "=== CHUNK END @ ");
        push_hex(&mut self.output, code_offset as i128);
        push_str(&mut self.output, " ===\n");
        assert(self.output@ =~= start + chunk_text(*chunk));
    }

    /// Writes the pool header line, then one line per constant.
    pub fn assemble_constant_pool(&mut self, constants: &Vec<ThetaValue>)
        ensures
            final(self).output() == old(self).output() + pool_text(constants@),
    {
        let ghost start = self.output@;
        push_str(&mut self.output, "-- CONSTANT POOL --\n");
        let ghost head = self.output@;
        let ghost s = constants@;
        let mut k: usize = 0;
        assert(s.skip(0) =~= s);
        while k < constants.len()
            invariant
                k <= s.len(),
                s == constants@,
                self.output@ + pool_lines(s.skip(k as int)) == head + pool_lines(s),
            decreases s.len() - k,
        {
            let v = constants[k];
            let ghost prev = self.output@;
            let ghost rest = pool_lines(s.skip(k + 1));
            proof {
                assert(s.skip(k as int).skip(1) =~= s.skip(k + 1));
                assert(s.skip(k as int)[0] == v);
            }
            push_str(&mut self.output, "Constant: ");
            match v {
                ThetaValue::Int(i) => {
                    push_str(&mut self.output, "Int(");
                    push_dec(&mut self.output, i as i128);
                    push_str(&mut self.output, ")");
                },
                ThetaValue::Double(b) => {
                    push_str(&mut self.output, "Double(");
                    push_hex(&mut self.output, b as i128);
                    push_str(&mut self.output, ")");
                },
                ThetaValue::Bool(b) => {
                    if b {
                        push_str(&mut self.output, "Bool(true)");
                    } else {
                        push_str(&mut self.output, "Bool(false)");
                    }
                },
            }
            push_str(&mut self.output, "\n");
            proof {
                let line = "Constant: ".spec_bytes() + value_text(v) + "\n".spec_bytes();
                assert(self.output@ =~= prev + line);
                assert((prev + line) + rest =~= prev + (line + rest));
            }
            k = k + 1;
        }
        assert(s.skip(k as int) =~= Seq::<ThetaValue>::empty());
        assert(self.output@ + Seq::<u8>::empty() =~= self.output@);
        assert(self.output@ =~= start + pool_text(constants@));
    }

    /// Writes the listing of each function in order.
    pub fn assemble_function_pool(&mut self, functions: &Vec<ThetaFunction>)
        requires
            listable(functions@.map_values(|f: ThetaFunction| f.view())),
        ensures
            final(self).output() == old(self).output() + functions_text(functions@.map_values(|f: ThetaFunction| f.view())),
    {
        let ghost v = functions@.map_values(|f: ThetaFunction| f.view());
        let ghost head = self.output@;
        let mut k: usize = 0;
        assert(v.skip(0) =~= v);
        while k < functions.len()
            invariant
                k <= functions@.len(),
                v == functions@.map_values(|f: ThetaFunction| f.view()),
                listable(v),
                self.output@ + functions_text(v.skip(k as int)) == head + functions_text(v),
            decreases functions@.len() - k,
        {
            let f = &functions[k];
            let ghost prev = self.output@;
            let ghost rest = functions_text(v.skip(k + 1));
            proof {
                assert(v.skip(k as int).skip(1) =~= v.skip(k + 1));
                assert(v.skip(k as int)[0] == v[k as int]);
                assert(v[k as int] == f.view());
            }
            push_str(&mut self.output, "-- FUNCTION ");
            let mut i: usize = 0;
            let ghost named = self.output@;
            while i < f.name.len()
                invariant
                    i <= f.name@.len(),
                    self.output@ == named + f.name@.subrange(0, i as int),
                decreases f.name@.len() - i,
            {
                self.output.push(f.name[i]);
                i = i + 1;
                assert(self.output@ =~= named + f.name@.subrange(0, i as int));
            }
            assert(f.name@.subrange(0, i as int) =~= f.name@);
            push_str(&mut self.output, " --\n");
            self.assemble_constant_pool(&f.chunk.constants);
            self.assemble_chunk(&f.chunk);
            proof {
                let item = function_text(v[k as int]);
                assert(self.output@ =~= prev + item);
                assert((prev + item) + rest =~= prev + (item + rest));
            }
            k = k + 1;
        }
        assert(v.skip(k as int) =~= Seq::<FunctionView>::empty());
        assert(self.output@ + Seq::<u8>::empty() =~= self.output@);
    }

    /// Writes the listing of a bitstream: its global pool, then its functions.
    pub fn assemble_bitstream(&mut self, bitstream: &ThetaBitstream)
        requires
            listable(bitstream.view().functions),
        ensures
            final(self).output() == old(self).output() + pool_text(bitstream.constants@)
                + functions_text(bitstream.view().functions),
    {
        self.assemble_constant_pool(&bitstream.constants);
        self.assemble_function_pool(&bitstream.functions);
        assert(self.output@ =~= old(self).output@ + pool_text(bitstream.constants@) + functions_text(bitstream.view().functions));
    }
}

} // verus!
