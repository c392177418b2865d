//! Runtime values and their fixed-width binary encoding.
use vstd::bytes::{spec_u64_from_le_bytes, spec_u64_to_le_bytes, u64_from_le_bytes, u64_to_le_bytes};
use vstd::prelude::*;

verus! {

/// Two-byte kind marker of an integer constant ("IN", little-endian).
pub const INT_MARKER: u16 = 0x4e49;

/// Two-byte kind marker of a double constant ("DB", little-endian).
pub const DOUBLE_MARKER: u16 = 0x4244;

/// Two-byte kind marker of a boolean constant ("BL", little-endian).
pub const BOOL_MARKER: u16 = 0x4c42;

/// A runtime value. A double is held as its IEEE-754 bit pattern, so that
/// values compare, copy and encode bit-exactly.
#[derive(Clone, Copy, Debug, PartialEq, Eq, Structural)]
pub enum ThetaValue {
    Int(i64),
    Double(u64),
    Bool(bool),
}

/// Why a byte image could not be decoded.
#[derive(Clone, Copy, Debug, PartialEq, Eq, Structural)]
pub enum DisassembleError {
    /// The image does not start with the chunk header marker.
    BadChunkHeader,
    /// The constant-pool header marker is missing or wrong.
    BadConstantPoolHeader,
    /// A constant carries a kind marker that is none of the known ones.
    UnknownConstantKind,
    /// An instruction tag that no opcode has.
    UnknownOpcode,
    /// The buffer ends inside a fixed-width field.
    Truncated,
    /// A declared-type tag that no type has.
    UnknownType,
    /// Bytes follow the last function of a bitstream image.
    TrailingBytes,
}

/// The two bytes of a kind marker, low byte first.
pub open spec fn marker_bytes(m: u16) -> Seq<u8> {
    seq![(m % 256) as u8, (m / 256) as u8]
}

/// The payload and marker of one constant-pool entry.
pub open spec fn value_bytes(v: ThetaValue) -> Seq<u8> {
    match v {
        ThetaValue::Int(i) => marker_bytes(INT_MARKER) + spec_u64_to_le_bytes(i as u64),
        ThetaValue::Double(b) => marker_bytes(DOUBLE_MARKER) + spec_u64_to_le_bytes(b),
        ThetaValue::Bool(b) => marker_bytes(BOOL_MARKER) + seq![if b { 1u8 } else { 0u8 }],
    }
}

/// The marker read at `pos`, as a number.
pub open spec fn marker_at(b: Seq<u8>, pos: int) -> int {
    b[pos] + 256 * b[pos + 1]
}

/// Decodes one constant-pool entry at `pos`: the value and the position after it.
pub open spec fn parse_value(b: Seq<u8>, pos: int) -> Result<(ThetaValue, int), DisassembleError> {
    if pos < 0 || pos + 2 > b.len() {
        Err(DisassembleError::Truncated)
    } else {
        let m = marker_at(b, pos);
        if m == INT_MARKER {
            if pos + 10 > b.len() {
                Err(DisassembleError::Truncated)
            } else {
                Ok((ThetaValue::Int(spec_u64_from_le_bytes(b.subrange(pos + 2, pos + 10)) as i64), pos + 10))
            }
        } else if m == DOUBLE_MARKER {
            if pos + 10 > b.len() {
                Err(DisassembleError::Truncated)
            } else {
                Ok((ThetaValue::Double(spec_u64_from_le_bytes(b.subrange(pos + 2, pos + 10))), pos + 10))
            }
        } else if m == BOOL_MARKER {
            if pos + 3 > b.len() {
                Err(DisassembleError::Truncated)
            } else {
                Ok((ThetaValue::Bool(b[pos + 2] == 1), pos + 3))
            }
        } else {
            Err(DisassembleError::UnknownConstantKind)
        }
    }
}

/// A 64-bit signed word survives a round trip through its unsigned bits.
pub proof fn lemma_i64_u64_round_trip(i: i64)
    ensures
        (i as u64) as i64 == i,
{
    assert((i as u64) as i64 == i) by (bit_vector);
}

/// Decoding an encoded value gives it back, whatever follows it.
pub proof fn lemma_value_round_trip(v: ThetaValue, b: Seq<u8>, pos: int)
    requires
        0 <= pos,
        pos + value_bytes(v).len() <= b.len(),
        b.subrange(pos, pos + value_bytes(v).len()) == value_bytes(v),
    ensures
        parse_value(b, pos) == Ok::<(ThetaValue, int), DisassembleError>((v, pos + value_bytes(v).len())),
{
    vstd::bytes::lemma_auto_spec_u64_to_from_le_bytes();
    let e = value_bytes(v);
    assert(b[pos] == e[0] && b[pos + 1] == e[1]) by {
        assert(b.subrange(pos, pos + e.len())[0] == e[0]);
        assert(b.subrange(pos, pos + e.len())[1] == e[1]);
    }
    match v {
        ThetaValue::Int(i) => {
            assert(b.subrange(pos + 2, pos + 10) =~= b.subrange(pos, pos + e.len()).subrange(2, 10));
            assert(e.subrange(2, 10) =~= spec_u64_to_le_bytes(i as u64));
            lemma_i64_u64_round_trip(i);
        },
        ThetaValue::Double(d) => {
            assert(b.subrange(pos + 2, pos + 10) =~= b.subrange(pos, pos + e.len()).subrange(2, 10));
            assert(e.subrange(2, 10) =~= spec_u64_to_le_bytes(d));
        },
        ThetaValue::Bool(x) => {
            assert(b[pos + 2] == e[2]) by {
                assert(b.subrange(pos, pos + e.len())[2] == e[2]);
            }
        },
    }
}

/// Appends the two bytes of a kind marker.
fn push_marker(out: &mut Vec<u8>, m: u16)
    ensures
        final(out)@ == old(out)@ + marker_bytes(m),
{
    out.push((m % 256) as u8);
    out.push((m / 256) as u8);
    assert(final(out)@ =~= old(out)@ + marker_bytes(m));
}

/// Appends the bytes of a 64-bit word, low byte first.
pub fn push_u64(out: &mut Vec<u8>, x: u64)
    ensures
        final(out)@ == old(out)@ + spec_u64_to_le_bytes(x),
{
    let bytes = u64_to_le_bytes(x);
    let mut i: usize = 0;
    let ghost start = out@;
    while i < bytes.len()
        invariant
            i <= bytes@.len(),
            bytes@ == spec_u64_to_le_bytes(x),
            out@ == start + bytes@.subrange(0, i as int),
        decreases bytes@.len() - i,
    {
        out.push(bytes[i]);
        i = i + 1;
        assert(out@ =~= start + bytes@.subrange(0, i as int));
    }
    assert(bytes@.subrange(0, i as int) =~= bytes@);
}

/// Reads a 64-bit little-endian word at `pos`.
pub fn read_u64(b: &[u8], pos: usize) -> (r: u64)
    requires
        pos + 8 <= b@.len(),
    ensures
        r == spec_u64_from_le_bytes(b@.subrange(pos as int, pos + 8)),
{
    let mut word: Vec<u8> = Vec::new();
    let n: usize = b.len();
    let end: usize = pos + 8;
    let mut i: usize = pos;
    while i < end
        invariant
            pos <= i <= end,
            end == pos + 8,
            end <= b@.len(),
            word@ == b@.subrange(pos as int, i as int),
        decreases end - i,
    {
        word.push(b[i]);
        i = i + 1;
        assert(word@ =~= b@.subrange(pos as int, i as int));
    }
    u64_from_le_bytes(word.as_slice())
}

impl ThetaValue {
    /// Appends this value's constant-pool entry.
    pub fn encode_into(&self, out: &mut Vec<u8>)
        ensures
            final(out)@ == old(out)@ + value_bytes(*self),
    {
        match self {
            ThetaValue::Int(i) => {
                push_marker(out, INT_MARKER);
                push_u64(out, *i as u64);
            },
            ThetaValue::Double(d) => {
                push_marker(out, DOUBLE_MARKER);
                push_u64(out, *d);
            },
            ThetaValue::Bool(x) => {
                push_marker(out, BOOL_MARKER);
                out.push(if *x { 1u8 } else { 0u8 });
            },
        }
        assert(final(out)@ =~= old(out)@ + value_bytes(*self));
    }

    /// Decodes one constant-pool entry at `pos`.
    pub fn decode_at(b: &[u8], pos: usize) -> (r: Result<(ThetaValue, usize), DisassembleError>)
        ensures
            match r {
                Ok((v, next)) => parse_value(b@, pos as int) == Ok::<(ThetaValue, int), DisassembleError>((v, next as int)),
                Err(e) => parse_value(b@, pos as int) == Err::<(ThetaValue, int), DisassembleError>(e),
            },
    {
        if pos >= b.len() || b.len() - pos < 2 {
            return Err(DisassembleError::Truncated);
        }
        let m: u64 = b[pos] as u64 + 256 * (b[pos + 1] as u64);
        if m == INT_MARKER as u64 {
            if b.len() - pos < 10 {
                return Err(DisassembleError::Truncated);
            }
            let w = read_u64(b, pos + 2);
            Ok((ThetaValue::Int(w as i64), pos + 10))
        } else if m == DOUBLE_MARKER as u64 {
            if b.len() - pos < 10 {
                return Err(DisassembleError::Truncated);
            }
            let w = read_u64(b, pos + 2);
            Ok((ThetaValue::Double(w), pos + 10))
        } else if m == BOOL_MARKER as u64 {
            if b.len() - pos < 3 {
                return Err(DisassembleError::Truncated);
            }
            Ok((ThetaValue::Bool(b[pos + 2] == 1), pos + 3))
        } else {
            Err(DisassembleError::UnknownConstantKind)
        }
    }
}

} // verus!
