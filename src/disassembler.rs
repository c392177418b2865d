//! Strict decoding of binary images back into chunks.
use crate::assembler::{chunk_bytes, pool_bytes, pool_entries_bytes, CHUNK_HEADER, CONSTANT_POOL_HEADER};
use crate::chunk::Chunk;
use crate::opcode::{decode_ops, lemma_ops_round_trip, ops_bytes, parse_ops, OpCode};
use crate::value::{lemma_value_round_trip, parse_value, read_u64, value_bytes, DisassembleError, ThetaValue};
use vstd::bytes::{spec_u64_from_le_bytes, spec_u64_to_le_bytes};
use vstd::prelude::*;

verus! {

/// Decodes `count` constant-pool entries from `pos`: the values and the
/// position after them.
pub open spec fn parse_entries(b: Seq<u8>, pos: int, count: nat) -> Result<(Seq<ThetaValue>, int), DisassembleError>
    decreases count,
{
    if count == 0 {
        Ok((Seq::empty(), pos))
    } else {
        match parse_value(b, pos) {
            Err(e) => Err(e),
            Ok((v, next)) => match parse_entries(b, next, (count - 1) as nat) {
                Err(e) => Err(e),
                Ok((rest, end)) => Ok((seq![v] + rest, end)),
            },
        }
    }
}

/// Whether the 64-bit word at `pos` exists and equals `marker`.
pub open spec fn has_marker(b: Seq<u8>, pos: int, marker: u64) -> bool {
    0 <= pos && pos + 8 <= b.len() && spec_u64_from_le_bytes(b.subrange(pos, pos + 8)) == marker
}

/// Decodes a constant pool at `pos`: header marker, count, entries.
pub open spec fn parse_pool(b: Seq<u8>, pos: int) -> Result<(Seq<ThetaValue>, int), DisassembleError> {
    if !has_marker(b, pos, CONSTANT_POOL_HEADER) {
        Err(DisassembleError::BadConstantPoolHeader)
    } else if pos + 9 > b.len() {
        Err(DisassembleError::Truncated)
    } else {
        parse_entries(b, pos + 9, b[pos + 8] as nat)
    }
}

/// Decodes a standalone chunk image: instructions and constants.
pub open spec fn parse_chunk(b: Seq<u8>) -> Result<(Seq<OpCode>, Seq<ThetaValue>), DisassembleError> {
    if !has_marker(b, 0, CHUNK_HEADER) {
        Err(DisassembleError::BadChunkHeader)
    } else {
        match parse_pool(b, 8) {
            Err(e) => Err(e),
            Ok((k, next)) => match parse_ops(b, next) {
                Err(e) => Err(e),
                Ok(c) => Ok((c, k)),
            },
        }
    }
}

/// `p` put in front of decoded entries; errors pass through.
pub open spec fn prepend_entries(p: Seq<ThetaValue>, r: Result<(Seq<ThetaValue>, int), DisassembleError>) -> Result<(Seq<ThetaValue>, int), DisassembleError> {
    match r {
        Ok((s, end)) => Ok((p + s, end)),
        Err(e) => Err(e),
    }
}

pub proof fn lemma_entries_round_trip(s: Seq<ThetaValue>, b: Seq<u8>, pos: int)
    requires
        0 <= pos,
        pos + pool_entries_bytes(s).len() <= b.len(),
        b.subrange(pos, pos + pool_entries_bytes(s).len()) == pool_entries_bytes(s),
    ensures
        parse_entries(b, pos, s.len()) == Ok::<(Seq<ThetaValue>, int), DisassembleError>((s, pos + pool_entries_bytes(s).len())),
    decreases s.len(),
{
    if s.len() == 0 {
        assert(s =~= Seq::<ThetaValue>::empty());
    } else {
        let v = s[0];
        let e = value_bytes(v);
        let all = pool_entries_bytes(s);
        let rest = pool_entries_bytes(s.skip(1));
        assert(all == e + rest);
        let w = b.subrange(pos, pos + all.len());
        assert(b.subrange(pos, pos + e.len()) =~= w.subrange(0, e.len() as int));
        assert(w.subrange(0, e.len() as int) =~= e);
        lemma_value_round_trip(v, b, pos);
        let next = pos + e.len();
        assert(b.subrange(next, next + rest.len()) =~= w.subrange(e.len() as int, all.len() as int));
        assert(w.subrange(e.len() as int, all.len() as int) =~= rest);
        lemma_entries_round_trip(s.skip(1), b, next);
        assert(seq![v] + s.skip(1) =~= s);
        assert((s.len() - 1) as nat == s.skip(1).len());
    }
}

/// Decoding the image of a chunk whose pool fits a one-byte count gives the
/// chunk back: the same instructions and constants, in order.
pub proof fn lemma_chunk_round_trip(c: Chunk)
    requires
        c.constants@.len() <= 255,
    ensures
        parse_chunk(chunk_bytes(c)) == Ok::<(Seq<OpCode>, Seq<ThetaValue>), DisassembleError>((c.instructions@, c.constants@)),
{
    vstd::bytes::lemma_auto_spec_u64_to_from_le_bytes();
    let b = chunk_bytes(c);
    let h = spec_u64_to_le_bytes(CHUNK_HEADER);
    let ph = spec_u64_to_le_bytes(CONSTANT_POOL_HEADER);
    let k = c.constants@;
    let entries = pool_entries_bytes(k);
    let ops = ops_bytes(c.instructions@);
    assert(b =~= h + (ph + seq![k.len() as u8] + entries) + ops);
    assert(b.subrange(0, 8) =~= h);
    assert(b.subrange(8, 16) =~= ph);
    assert(b[16] == k.len() as u8);
    let end: int = 17 + entries.len() as int;
    assert(b.subrange(17, end) =~= entries);
    lemma_entries_round_trip(k, b, 17);
    assert(b.subrange(end, b.len() as int) =~= ops);
    lemma_ops_round_trip(c.instructions@, b, end);
}

/// Decodes `count` constant-pool entries from `pos`.
pub(crate) fn decode_entries(b: &[u8], pos: usize, count: u8) -> (r: Result<(Vec<ThetaValue>, usize), DisassembleError>)
    ensures
        match r {
            Ok((v, end)) => parse_entries(b@, pos as int, count as nat) == Ok::<(Seq<ThetaValue>, int), DisassembleError>((v@, end as int)),
            Err(e) => parse_entries(b@, pos as int, count as nat) == Err::<(Seq<ThetaValue>, int), DisassembleError>(e),
        },
{
    let mut vals: Vec<ThetaValue> = Vec::new();
    let mut at: usize = pos;
    let mut i: u8 = 0;
    while i < count
        invariant
            i <= count,
            parse_entries(b@, pos as int, count as nat) == prepend_entries(vals@, parse_entries(b@, at as int, (count - i) as nat)),
        decreases count - i,
    {
        let ghost before = vals@;
        match ThetaValue::decode_at(b, at) {
            Err(e) => {
                return Err(e);
            },
            Ok((v, next)) => {
                proof {
                    match parse_entries(b@, next as int, (count - i - 1) as nat) {
                        Ok((rest, end)) => {
                            assert(before + (seq![v] + rest) =~= before.push(v) + rest);
                        },
                        Err(_) => {},
                    }
                }
                vals.push(v);
                at = next;
                i = i + 1;
            },
        }
    }
    assert(vals@ + Seq::<ThetaValue>::empty() =~= vals@);
    Ok((vals, at))
}

/// Decodes a standalone chunk image. Fails on a wrong header marker, an
/// unknown constant kind or opcode tag, or a buffer that ends inside a field.
pub fn disassemble_chunk(b: &[u8]) -> (r: Result<Chunk, DisassembleError>)
    ensures
        match r {
            Ok(c) => parse_chunk(b@) == Ok::<(Seq<OpCode>, Seq<ThetaValue>), DisassembleError>((c.instructions@, c.constants@)),
            Err(e) => parse_chunk(b@) == Err::<(Seq<OpCode>, Seq<ThetaValue>), DisassembleError>(e),
        },
{
    if b.len() < 8 || read_u64(b, 0) != CHUNK_HEADER {
        return Err(DisassembleError::BadChunkHeader);
    }
    if b.len() < 16 || read_u64(b, 8) != CONSTANT_POOL_HEADER {
        return Err(DisassembleError::BadConstantPoolHeader);
    }
    if b.len() < 17 {
        return Err(DisassembleError::Truncated);
    }
    let (constants, next) = match decode_entries(b, 17, b[16]) {
        Ok(x) => x,
        Err(e) => return Err(e),
    };
    let instructions = match decode_ops(b, next) {
        Ok(x) => x,
        Err(e) => return Err(e),
    };
    Ok(Chunk { instructions, constants })
}

} // verus!
