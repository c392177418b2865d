//! Encoding of chunks into the binary image format.
use crate::bitstream::{
    bitstream_bytes, bitstream_error, check_function_pool, encode_bitstream, encode_function_pool, function_pool_error,
    functions_bytes, ThetaBitstream, ThetaFunction,
};
use crate::chunk::Chunk;
use crate::opcode::{encode_ops, ops_bytes};
use crate::value::{push_u64, value_bytes, ThetaValue};
use vstd::bytes::spec_u64_to_le_bytes;
use vstd::prelude::*;

verus! {

/// Marker that opens a chunk or bitstream image ("THETACHK", little-endian).
pub const CHUNK_HEADER: u64 = 0x4b48434154454854;

/// Marker that opens a constant pool ("CONSTPOL", little-endian).
pub const CONSTANT_POOL_HEADER: u64 = 0x4c4f5054534e4f43;

/// The most constants one pool can hold: its count is a single byte.
pub const MAX_POOL_LEN: usize = 255;

/// Why a value could not be encoded.
#[derive(Clone, Copy, Debug, PartialEq, Eq, Structural)]
pub enum AssembleError {
    /// A constant pool holds more entries than its one-byte count can say.
    TooManyConstants,
    /// A list or name is longer than its one-byte length can say.
    TooLong,
}

/// The entries of a constant pool, in order.
pub open spec fn pool_entries_bytes(s: Seq<ThetaValue>) -> Seq<u8>
    decreases s.len(),
{
    if s.len() == 0 {
        Seq::empty()
    } else {
        value_bytes(s[0]) + pool_entries_bytes(s.skip(1))
    }
}

/// A constant pool: its header marker, a one-byte count, then the entries.
pub open spec fn pool_bytes(s: Seq<ThetaValue>) -> Seq<u8> {
    spec_u64_to_le_bytes(CONSTANT_POOL_HEADER) + seq![s.len() as u8] + pool_entries_bytes(s)
}

/// A standalone chunk image: the chunk header marker, the constant pool, then
/// the instruction stream up to the end of the buffer.
pub open spec fn chunk_bytes(c: Chunk) -> Seq<u8> {
    spec_u64_to_le_bytes(CHUNK_HEADER) + pool_bytes(c.constants@) + ops_bytes(c.instructions@)
}

/// Appends the entries of a constant pool.
fn encode_pool_entries(s: &Vec<ThetaValue>, out: &mut Vec<u8>)
    ensures
        final(out)@ == old(out)@ + pool_entries_bytes(s@),
{
    let ghost start = out@;
    let mut k: usize = 0;
    assert(s@.skip(0) =~= s@);
    while k < s.len()
        invariant
            k <= s@.len(),
            out@ + pool_entries_bytes(s@.skip(k as int)) == start + pool_entries_bytes(s@),
        decreases s@.len() - k,
    {
        let ghost prev = out@;
        let ghost rest = pool_entries_bytes(s@.skip(k + 1));
        proof {
            assert(s@.skip(k as int).skip(1) =~= s@.skip(k + 1));
            assert(s@.skip(k as int)[0] == s@[k as int]);
        }
        s[k].encode_into(out);
        proof {
            assert((prev + value_bytes(s@[k as int])) + rest =~= prev + (value_bytes(s@[k as int]) + rest));
        }
        k = k + 1;
    }
    assert(s@.skip(k as int) =~= Seq::<ThetaValue>::empty());
    assert(out@ + Seq::<u8>::empty() =~= out@);
}

/// Appends a constant pool, which must hold at most `MAX_POOL_LEN` entries.
pub fn encode_pool(s: &Vec<ThetaValue>, out: &mut Vec<u8>)
    requires
        s@.len() <= MAX_POOL_LEN,
    ensures
        final(out)@ == old(out)@ + pool_bytes(s@),
{
    push_u64(out, CONSTANT_POOL_HEADER);
    out.push(s.len() as u8);
    encode_pool_entries(s, out);
    assert(final(out)@ =~= old(out)@ + pool_bytes(s@));
}

/// Appends a standalone chunk image, which needs at most `MAX_POOL_LEN` constants.
pub fn encode_chunk(c: &Chunk, out: &mut Vec<u8>)
    requires
        c.constants@.len() <= MAX_POOL_LEN,
    ensures
        final(out)@ == old(out)@ + chunk_bytes(*c),
{
    push_u64(out, CHUNK_HEADER);
    encode_pool(&c.constants, out);
    encode_ops(&c.instructions, out);
    assert(final(out)@ =~= old(out)@ + chunk_bytes(*c));
}

/// The binary assembler: it writes images into an owned byte buffer.
pub struct BasicAssembler {
    output: Vec<u8>,
}

impl BasicAssembler {
    /// An assembler with an empty buffer.
    pub fn new() -> (r: BasicAssembler)
        ensures
            r.output() == Seq::<u8>::empty(),
    {
        BasicAssembler { output: Vec::new() }
    }

    /// The bytes written so far.
    pub closed spec fn output(&self) -> Seq<u8> {
        self.output@
    }

    /// The bytes written so far.
    pub fn bytes(&self) -> (r: &Vec<u8>)
        ensures
            r@ == self.output(),
    {
        &self.output
    }

    /// Hands back the buffer.
    pub fn into_bytes(self) -> (r: Vec<u8>)
        ensures
            r@ == self.output(),
    {
        self.output
    }

    /// Writes a constant pool. Fails, writing nothing, when it holds more
    /// than `MAX_POOL_LEN` entries.
    pub fn assemble_constant_pool(&mut self, constants: &Vec<ThetaValue>) -> (r: Result<(), AssembleError>)
        ensures
            r is Ok <==> constants@.len() <= MAX_POOL_LEN,
            r is Ok ==> final(self).output() == old(self).output() + pool_bytes(constants@),
            r is Err ==> r == Err::<(), AssembleError>(AssembleError::TooManyConstants)
                && final(self).output() == old(self).output(),
    {
        if constants.len() > MAX_POOL_LEN {
            return Err(AssembleError::TooManyConstants);
        }
        encode_pool(constants, &mut self.output);
        Ok(())
    }

    /// Writes a standalone chunk image. Fails, writing nothing, when the
    /// chunk holds more than `MAX_POOL_LEN` constants.
    pub fn assemble_chunk(&mut self, chunk: &Chunk) -> (r: Result<(), AssembleError>)
        ensures
            r is Ok <==> chunk.constants@.len() <= MAX_POOL_LEN,
            r is Ok ==> final(self).output() == old(self).output() + chunk_bytes(*chunk),
            r is Err ==> r == Err::<(), AssembleError>(AssembleError::TooManyConstants)
                && final(self).output() == old(self).output(),
    {
        if chunk.constants.len() > MAX_POOL_LEN {
            return Err(AssembleError::TooManyConstants);
        }
        encode_chunk(chunk, &mut self.output);
        Ok(())
    }

    /// Writes a bitstream image. Fails, writing nothing, with the error
    /// `bitstream_error` names.
    pub fn assemble_bitstream(&mut self, bitstream: &ThetaBitstream) -> (r: Result<(), AssembleError>)
        ensures
            match bitstream_error(bitstream.view()) {
                Some(e) => r == Err::<(), AssembleError>(e) && final(self).output() == old(self).output(),
                None => r is Ok && final(self).output() == old(self).output() + bitstream_bytes(bitstream.view()),
            },
    {
        encode_bitstream(bitstream, &mut self.output)
    }

    /// Writes a function pool: a one-byte count, then each function. Fails,
    /// writing nothing, with the error `function_pool_error` names.
    pub fn assemble_function_pool(&mut self, functions: &Vec<ThetaFunction>) -> (r: Result<(), AssembleError>)
        ensures
            match function_pool_error(functions@.map_values(|f: ThetaFunction| f.view())) {
                Some(e) => r == Err::<(), AssembleError>(e) && final(self).output() == old(self).output(),
                None => r is Ok && final(self).output() == old(self).output() + seq![functions@.len() as u8]
                    + functions_bytes(functions@.map_values(|f: ThetaFunction| f.view())),
            },
    {
        match check_function_pool(functions) {
            Err(e) => return Err(e),
            Ok(()) => {},
        }
        proof {
            let v = functions@.map_values(|f: ThetaFunction| f.view());
            assert forall|i: int| 0 <= i < functions@.len() implies crate::bitstream::function_fits((#[trigger] functions@[i]).view())
                && functions@[i].chunk.constants@.len() <= MAX_POOL_LEN by {
                assert(v[i] == functions@[i].view());
            }
        }
        encode_function_pool(functions, &mut self.output);
        Ok(())
    }
}

} // verus!
