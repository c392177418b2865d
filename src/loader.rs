//! Strict decoding of bitstream images, registering every name it meets
//! with the machine's string table as it goes.
use crate::bitstream::{BitstreamView, FunctionArg, FunctionView, ThetaBitstream, ThetaFunction, TypeInformation};
use crate::chunk::Chunk;
use crate::disassembler::{decode_entries, has_marker, lemma_entries_round_trip, parse_pool};
use crate::assembler::{pool_bytes, pool_entries_bytes};
use crate::bitstream::{args_bytes, bitstream_bytes, bitstream_error, function_bytes, function_fits, functions_bytes, name_bytes, type_tag};
use crate::opcode::{lemma_ops_round_trip, ops_bytes};
use vstd::bytes::spec_u64_to_le_bytes;
use crate::assembler::{CHUNK_HEADER, CONSTANT_POOL_HEADER};
use crate::opcode::{decode_ops, parse_ops, OpCode};
use crate::value::{read_u64, DisassembleError, ThetaValue};
use crate::vm::VM;
use vstd::bytes::spec_u64_from_le_bytes;
use vstd::prelude::*;

verus! {

/// Decodes a name at `pos`: a one-byte length, then its bytes.
pub open spec fn parse_name(b: Seq<u8>, pos: int) -> Result<(Seq<u8>, int), DisassembleError> {
    if pos < 0 || pos >= b.len() || pos + 1 + b[pos] > b.len() {
        Err(DisassembleError::Truncated)
    } else {
        Ok((b.subrange(pos + 1, pos + 1 + b[pos]), pos + 1 + b[pos]))
    }
}

/// The declared type with tag `t`.
pub open spec fn type_of_tag(t: u8) -> Option<TypeInformation> {
    if t == 0 {
        Some(TypeInformation::Unit)
    } else if t == 1 {
        Some(TypeInformation::Int)
    } else if t == 2 {
        Some(TypeInformation::Double)
    } else if t == 3 {
        Some(TypeInformation::Bool)
    } else if t == 4 {
        Some(TypeInformation::String)
    } else {
        None
    }
}

/// Decodes a type tag at `pos`.
pub open spec fn parse_type(b: Seq<u8>, pos: int) -> Result<(TypeInformation, int), DisassembleError> {
    if pos < 0 || pos >= b.len() {
        Err(DisassembleError::Truncated)
    } else {
        match type_of_tag(b[pos]) {
            Some(t) => Ok((t, pos + 1)),
            None => Err(DisassembleError::UnknownType),
        }
    }
}

/// Decodes `count` arguments at `pos`.
pub open spec fn parse_args(b: Seq<u8>, pos: int, count: nat) -> Result<(Seq<(Seq<u8>, TypeInformation)>, int), DisassembleError>
    decreases count,
{
    if count == 0 {
        Ok((Seq::empty(), pos))
    } else {
        match parse_name(b, pos) {
            Err(e) => Err(e),
            Ok((n, p1)) => match parse_type(b, p1) {
                Err(e) => Err(e),
                Ok((t, p2)) => match parse_args(b, p2, (count - 1) as nat) {
                    Err(e) => Err(e),
                    Ok((rest, end)) => Ok((seq![(n, t)] + rest, end)),
                },
            },
        }
    }
}

/// Decodes a function's code at `pos`: its length as a 64-bit word, then
/// that many bytes of instructions.
pub open spec fn parse_code(b: Seq<u8>, pos: int) -> Result<(Seq<OpCode>, int), DisassembleError> {
    if pos < 0 || pos + 8 > b.len() {
        Err(DisassembleError::Truncated)
    } else {
        let len = spec_u64_from_le_bytes(b.subrange(pos, pos + 8)) as int;
        if pos + 8 + len > b.len() {
            Err(DisassembleError::Truncated)
        } else {
            match parse_ops(b.subrange(pos + 8, pos + 8 + len), 0) {
                Err(e) => Err(e),
                Ok(ops) => Ok((ops, pos + 8 + len)),
            }
        }
    }
}

/// Decodes one function at `pos`.
pub open spec fn parse_function(b: Seq<u8>, pos: int) -> Result<(FunctionView, int), DisassembleError> {
    match parse_name(b, pos) {
        Err(e) => Err(e),
        Ok((name, p1)) => if p1 >= b.len() {
            Err(DisassembleError::Truncated)
        } else {
            match parse_args(b, p1 + 1, b[p1] as nat) {
                Err(e) => Err(e),
                Ok((args, p2)) => match parse_type(b, p2) {
                    Err(e) => Err(e),
                    Ok((ret, p3)) => match parse_pool(b, p3) {
                        Err(e) => Err(e),
                        Ok((k, p4)) => match parse_code(b, p4) {
                            Err(e) => Err(e),
                            Ok((ops, p5)) => {
                                let f = FunctionView { name, args, return_ty: ret, instructions: ops, constants: k };
                                Ok((f, p5))
                            },
                        },
                    },
                },
            }
        },
    }
}

/// Decodes `count` functions at `pos`.
pub open spec fn parse_functions(b: Seq<u8>, pos: int, count: nat) -> Result<(Seq<FunctionView>, int), DisassembleError>
    decreases count,
{
    if count == 0 {
        Ok((Seq::empty(), pos))
    } else {
        match parse_function(b, pos) {
            Err(e) => Err(e),
            Ok((f, next)) => match parse_functions(b, next, (count - 1) as nat) {
                Err(e) => Err(e),
                Ok((rest, end)) => Ok((seq![f] + rest, end)),
            },
        }
    }
}

/// Decodes a bitstream image: header, global pool, function count and
/// functions, which must end the buffer.
pub open spec fn parse_bitstream(b: Seq<u8>) -> Result<BitstreamView, DisassembleError> {
    if !has_marker(b, 0, CHUNK_HEADER) {
        Err(DisassembleError::BadChunkHeader)
    } else {
        match parse_pool(b, 8) {
            Err(e) => Err(e),
            Ok((k, p1)) => if p1 >= b.len() {
                Err(DisassembleError::Truncated)
            } else {
                match parse_functions(b, p1 + 1, b[p1] as nat) {
                    Err(e) => Err(e),
                    Ok((fs, end)) => {
                        if end == b.len() {
                            Ok(BitstreamView { constants: k, functions: fs })
                        } else {
                            Err(DisassembleError::TrailingBytes)
                        }
                    },
                }
            }
        }
    }
}

/// Splits a match of `x + y` at `pos` into a match of `x`, then of `y`.
proof fn lemma_split(b: Seq<u8>, pos: int, x: Seq<u8>, y: Seq<u8>)
    requires
        0 <= pos,
        pos + x.len() + y.len() <= b.len(),
        b.subrange(pos, pos + x.len() + y.len()) == x + y,
    ensures
        b.subrange(pos, pos + x.len()) == x,
        b.subrange(pos + x.len(), pos + x.len() + y.len()) == y,
{
    let w = b.subrange(pos, pos + x.len() + y.len());
    assert(b.subrange(pos, pos + x.len()) =~= w.subrange(0, x.len() as int));
    assert(w.subrange(0, x.len() as int) =~= x);
    assert(b.subrange(pos + x.len(), pos + x.len() + y.len()) =~= w.subrange(x.len() as int, w.len() as int));
    assert(w.subrange(x.len() as int, w.len() as int) =~= y);
}

proof fn lemma_name_round_trip(n: Seq<u8>, b: Seq<u8>, pos: int)
    requires
        n.len() <= 255,
        0 <= pos,
        pos + name_bytes(n).len() <= b.len(),
        b.subrange(pos, pos + name_bytes(n).len()) == name_bytes(n),
    ensures
        parse_name(b, pos) == Ok::<(Seq<u8>, int), DisassembleError>((n, pos + name_bytes(n).len())),
{
    lemma_split(b, pos, seq![n.len() as u8], n);
    assert(b.subrange(pos, pos + 1)[0] == b[pos]);
}

proof fn lemma_type_round_trip(t: TypeInformation, b: Seq<u8>, pos: int)
    requires
        0 <= pos < b.len(),
        b[pos] == type_tag(t),
    ensures
        parse_type(b, pos) == Ok::<(TypeInformation, int), DisassembleError>((t, pos + 1)),
{
}

proof fn lemma_args_round_trip(a: Seq<(Seq<u8>, TypeInformation)>, b: Seq<u8>, pos: int)
    requires
        forall|i: int| 0 <= i < a.len() ==> (#[trigger] a[i]).0.len() <= 255,
        0 <= pos,
        pos + args_bytes(a).len() <= b.len(),
        b.subrange(pos, pos + args_bytes(a).len()) == args_bytes(a),
    ensures
        parse_args(b, pos, a.len()) == Ok::<(Seq<(Seq<u8>, TypeInformation)>, int), DisassembleError>((a, pos + args_bytes(a).len())),
    decreases a.len(),
{
    if a.len() == 0 {
        assert(a =~= Seq::<(Seq<u8>, TypeInformation)>::empty());
    } else {
        let nb = name_bytes(a[0].0);
        let tb = seq![type_tag(a[0].1)];
        let rest = args_bytes(a.skip(1));
        assert(args_bytes(a) == nb + tb + rest);
        lemma_split(b, pos, nb + tb, rest);
        lemma_split(b, pos, nb, tb);
        lemma_name_round_trip(a[0].0, b, pos);
        assert(b.subrange(pos + nb.len(), pos + nb.len() + 1)[0] == b[pos + nb.len()]);
        lemma_type_round_trip(a[0].1, b, pos + nb.len());
        assert forall|i: int| 0 <= i < a.skip(1).len() implies (#[trigger] a.skip(1)[i]).0.len() <= 255 by {
            assert(a.skip(1)[i] == a[i + 1]);
        }
        lemma_args_round_trip(a.skip(1), b, pos + nb.len() + 1);
        assert(seq![a[0]] + a.skip(1) =~= a);
        assert((a.len() - 1) as nat == a.skip(1).len());
    }
}

proof fn lemma_pool_round_trip(k: Seq<ThetaValue>, b: Seq<u8>, pos: int)
    requires
        k.len() <= 255,
        0 <= pos,
        pos + pool_bytes(k).len() <= b.len(),
        b.subrange(pos, pos + pool_bytes(k).len()) == pool_bytes(k),
    ensures
        parse_pool(b, pos) == Ok::<(Seq<ThetaValue>, int), DisassembleError>((k, pos + pool_bytes(k).len())),
{
    vstd::bytes::lemma_auto_spec_u64_to_from_le_bytes();
    let h = spec_u64_to_le_bytes(CONSTANT_POOL_HEADER);
    let c = seq![k.len() as u8];
    let e = pool_entries_bytes(k);
    lemma_split(b, pos, h + c, e);
    lemma_split(b, pos, h, c);
    assert(b.subrange(pos + 8, pos + 9)[0] == b[pos + 8]);
    lemma_entries_round_trip(k, b, pos + 9);
}

proof fn lemma_code_round_trip(s: Seq<OpCode>, b: Seq<u8>, pos: int)
    requires
        ops_bytes(s).len() <= u64::MAX,
        0 <= pos,
        pos + 8 + ops_bytes(s).len() <= b.len(),
        b.subrange(pos, pos + 8 + ops_bytes(s).len()) == spec_u64_to_le_bytes(ops_bytes(s).len() as u64) + ops_bytes(s),
    ensures
        parse_code(b, pos) == Ok::<(Seq<OpCode>, int), DisassembleError>((s, pos + 8 + ops_bytes(s).len())),
{
    vstd::bytes::lemma_auto_spec_u64_to_from_le_bytes();
    let o = ops_bytes(s);
    lemma_split(b, pos, spec_u64_to_le_bytes(o.len() as u64), o);
    let sub = b.subrange(pos + 8, pos + 8 + o.len());
    assert(sub.subrange(0, sub.len() as int) =~= sub);
    lemma_ops_round_trip(s, sub, 0);
}

/// Whether every function's code length fits a 64-bit word.
pub open spec fn code_fits(fs: Seq<FunctionView>) -> bool {
    forall|i: int| 0 <= i < fs.len() ==> ops_bytes((#[trigger] fs[i]).instructions).len() <= u64::MAX
}

proof fn lemma_function_round_trip(f: FunctionView, b: Seq<u8>, pos: int)
    requires
        function_fits(f),
        f.constants.len() <= 255,
        ops_bytes(f.instructions).len() <= u64::MAX,
        0 <= pos,
        pos + function_bytes(f).len() <= b.len(),
        b.subrange(pos, pos + function_bytes(f).len()) == function_bytes(f),
    ensures
        parse_function(b, pos) == Ok::<(FunctionView, int), DisassembleError>((f, pos + function_bytes(f).len())),
{
    vstd::bytes::lemma_auto_spec_u64_to_from_le_bytes();
    let nb = name_bytes(f.name);
    let cb = seq![f.args.len() as u8];
    let ab = args_bytes(f.args);
    let rb = seq![type_tag(f.return_ty)];
    let pb = pool_bytes(f.constants);
    let code = spec_u64_to_le_bytes(ops_bytes(f.instructions).len() as u64) + ops_bytes(f.instructions);
    assert(function_bytes(f) =~= nb + cb + ab + rb + pb + code);
    lemma_split(b, pos, nb + cb + ab + rb + pb, code);
    lemma_split(b, pos, nb + cb + ab + rb, pb);
    lemma_split(b, pos, nb + cb + ab, rb);
    lemma_split(b, pos, nb + cb, ab);
    lemma_split(b, pos, nb, cb);
    lemma_name_round_trip(f.name, b, pos);
    let p1 = pos + nb.len();
    assert(b.subrange(p1, p1 + 1)[0] == b[p1]);
    lemma_args_round_trip(f.args, b, p1 + 1);
    let p2 = p1 + 1 + ab.len();
    assert(b.subrange(p2, p2 + 1)[0] == b[p2]);
    lemma_type_round_trip(f.return_ty, b, p2);
    lemma_pool_round_trip(f.constants, b, p2 + 1);
    let p4 = p2 + 1 + pb.len();
    assert(p4 == pos + (nb + cb + ab + rb + pb).len());
    assert(code.len() == 8 + ops_bytes(f.instructions).len());
    lemma_code_round_trip(f.instructions, b, p4);
    assert(p4 + 8 + ops_bytes(f.instructions).len() == pos + function_bytes(f).len());
}

proof fn lemma_functions_round_trip(fs: Seq<FunctionView>, b: Seq<u8>, pos: int)
    requires
        forall|i: int| 0 <= i < fs.len() ==> function_fits(#[trigger] fs[i]),
        forall|i: int| 0 <= i < fs.len() ==> (#[trigger] fs[i]).constants.len() <= 255,
        code_fits(fs),
        0 <= pos,
        pos + functions_bytes(fs).len() <= b.len(),
        b.subrange(pos, pos + functions_bytes(fs).len()) == functions_bytes(fs),
    ensures
        parse_functions(b, pos, fs.len()) == Ok::<(Seq<FunctionView>, int), DisassembleError>((fs, pos + functions_bytes(fs).len())),
    decreases fs.len(),
{
    if fs.len() == 0 {
        assert(fs =~= Seq::<FunctionView>::empty());
    } else {
        let fb = function_bytes(fs[0]);
        let rest = functions_bytes(fs.skip(1));
        lemma_split(b, pos, fb, rest);
        lemma_function_round_trip(fs[0], b, pos);
        let t = fs.skip(1);
        assert forall|i: int| 0 <= i < t.len() implies function_fits(#[trigger] t[i]) && t[i].constants.len() <= 255
            && ops_bytes(t[i].instructions).len() <= u64::MAX by {
            assert(t[i] == fs[i + 1]);
        }
        lemma_functions_round_trip(t, b, pos + fb.len());
        assert(seq![fs[0]] + t =~= fs);
        assert((fs.len() - 1) as nat == t.len());
    }
}

/// Decoding the image of an encodable bitstream, whose functions' code
/// lengths fit a 64-bit word, gives the same bitstream back.
pub proof fn lemma_bitstream_round_trip(v: BitstreamView)
    requires
        bitstream_error(v) is None,
        code_fits(v.functions),
    ensures
        parse_bitstream(bitstream_bytes(v)) == Ok::<BitstreamView, DisassembleError>(v),
{
    vstd::bytes::lemma_auto_spec_u64_to_from_le_bytes();
    let b = bitstream_bytes(v);
    let h = spec_u64_to_le_bytes(CHUNK_HEADER);
    let pb = pool_bytes(v.constants);
    let cb = seq![v.functions.len() as u8];
    let fb = functions_bytes(v.functions);
    assert(b =~= h + pb + cb + fb);
    assert(b.subrange(0, b.len() as int) =~= b);
    lemma_split(b, 0, h + pb + cb, fb);
    lemma_split(b, 0, h + pb, cb);
    lemma_split(b, 0, h, pb);
    lemma_pool_round_trip(v.constants, b, 8);
    let p1: int = 8 + pb.len() as int;
    assert(b.subrange(p1, p1 + 1)[0] == b[p1]);
    assert forall|i: int| 0 <= i < v.functions.len() implies function_fits(#[trigger] v.functions[i])
        && v.functions[i].constants.len() <= 255 by {}
    lemma_functions_round_trip(v.functions, b, p1 + 1);
}

/// Every name of `f`.
pub open spec fn names_of(f: FunctionView) -> Seq<Seq<u8>> {
    seq![f.name] + f.args.map_values(|a: (Seq<u8>, TypeInformation)| a.0)
}

/// Whether the string table `t` holds every name of every function of `fs`.
pub open spec fn holds_names(t: Seq<Seq<u8>>, fs: Seq<FunctionView>) -> bool {
    forall|i: int, j: int| 0 <= i < fs.len() && 0 <= j < names_of(fs[i]).len() ==> t.contains(#[trigger] names_of(fs[i])[j])
}

/// Copies `n` bytes from `pos`.
fn copy_bytes(b: &[u8], pos: usize, n: usize) -> (r: Vec<u8>)
    requires
        pos + n <= b@.len(),
    ensures
        r@ == b@.subrange(pos as int, pos + n),
{
    let total = b.len();
    let mut out: Vec<u8> = Vec::new();
    let mut i: usize = 0;
    while i < n
        invariant
            i <= n,
            total == b@.len(),
            pos + n <= b@.len(),
            out@ == b@.subrange(pos as int, pos + i),
        decreases n - i,
    {
        out.push(b[pos + i]);
        i = i + 1;
        assert(out@ =~= b@.subrange(pos as int, pos + i));
    }
    out
}

fn decode_name(b: &[u8], pos: usize) -> (r: Result<(Vec<u8>, usize), DisassembleError>)
    ensures
        match r {
            Ok((n, next)) => parse_name(b@, pos as int) == Ok::<(Seq<u8>, int), DisassembleError>((n@, next as int)),
            Err(e) => parse_name(b@, pos as int) == Err::<(Seq<u8>, int), DisassembleError>(e),
        },
{
    if pos >= b.len() || b.len() - pos - 1 < b[pos] as usize {
        return Err(DisassembleError::Truncated);
    }
    let n = b[pos] as usize;
    let v = copy_bytes(b, pos + 1, n);
    Ok((v, pos + 1 + n))
}

fn decode_type(b: &[u8], pos: usize) -> (r: Result<(TypeInformation, usize), DisassembleError>)
    ensures
        match r {
            Ok((t, next)) => parse_type(b@, pos as int) == Ok::<(TypeInformation, int), DisassembleError>((t, next as int)),
            Err(e) => parse_type(b@, pos as int) == Err::<(TypeInformation, int), DisassembleError>(e),
        },
{
    if pos >= b.len() {
        return Err(DisassembleError::Truncated);
    }
    let t = b[pos];
    let ty = if t == 0 {
        TypeInformation::Unit
    } else if t == 1 {
        TypeInformation::Int
    } else if t == 2 {
        TypeInformation::Double
    } else if t == 3 {
        TypeInformation::Bool
    } else if t == 4 {
        TypeInformation::String
    } else {
        return Err(DisassembleError::UnknownType);
    };
    Ok((ty, pos + 1))
}

fn decode_code(b: &[u8], pos: usize) -> (r: Result<(Vec<OpCode>, usize), DisassembleError>)
    ensures
        match r {
            Ok((ops, next)) => parse_code(b@, pos as int) == Ok::<(Seq<OpCode>, int), DisassembleError>((ops@, next as int)),
            Err(e) => parse_code(b@, pos as int) == Err::<(Seq<OpCode>, int), DisassembleError>(e),
        },
{
    if pos >= b.len() || b.len() - pos < 8 {
        return Err(DisassembleError::Truncated);
    }
    let len = read_u64(b, pos);
    if len > (b.len() - pos - 8) as u64 {
        return Err(DisassembleError::Truncated);
    }
    let code = copy_bytes(b, pos + 8, len as usize);
    match decode_ops(code.as_slice(), 0) {
        Err(e) => Err(e),
        Ok(ops) => Ok((ops, pos + 8 + len as usize)),
    }
}

impl VM {
    /// Decodes one function at `pos`, interning its name and argument names.
    fn load_function(&mut self, b: &[u8], pos: usize) -> (r: Result<(ThetaFunction, usize), DisassembleError>)
        requires
            old(self).wf(),
        ensures
            final(self).wf(),
            final(self).machine() == old(self).machine(),
            final(self).env() == old(self).env(),
            final(self).pool() == old(self).pool(),
            final(self).function_pool() == old(self).function_pool(),
            old(self).interned().len() <= final(self).interned().len(),
            final(self).interned().subrange(0, old(self).interned().len() as int) == old(self).interned(),
            match r {
                Ok((f, next)) => parse_function(b@, pos as int) == Ok::<(FunctionView, int), DisassembleError>((f.view(), next as int))
                    && forall|j: int| 0 <= j < names_of(f.view()).len() ==> final(self).interned().contains(#[trigger] names_of(f.view())[j]),
                Err(e) => parse_function(b@, pos as int) == Err::<(FunctionView, int), DisassembleError>(e),
            },
    {
        let (name, p1) = match decode_name(b, pos) {
            Ok(x) => x,
            Err(e) => return Err(e),
        };
        if p1 >= b.len() {
            return Err(DisassembleError::Truncated);
        }
        let count = b[p1];
        let ghost t0 = self.interned();
        let hn = self.intern_string(name.clone());
        let mut args: Vec<FunctionArg> = Vec::new();
        let mut at: usize = p1 + 1;
        let mut i: u8 = 0;
        while i < count
            invariant
                i <= count,
                parse_name(b@, pos as int) == Ok::<(Seq<u8>, int), DisassembleError>((name@, p1 as int)),
                p1 < b@.len(),
                count == b@[p1 as int],
                self.wf(),
                self.machine() == old(self).machine(),
                self.env() == old(self).env(),
                self.pool() == old(self).pool(),
                self.function_pool() == old(self).function_pool(),
                old(self).interned().len() <= self.interned().len(),
                self.interned().subrange(0, old(self).interned().len() as int) == old(self).interned(),
                self.interned().contains(name@),
                parse_args(b@, p1 + 1, count as nat) == match parse_args(b@, at as int, (count - i) as nat) {
                    Ok((rest, end)) => Ok((args@.map_values(|a: FunctionArg| (a.name@, a.ty)) + rest, end)),
                    Err(e) => Err::<(Seq<(Seq<u8>, TypeInformation)>, int), DisassembleError>(e),
                },
                forall|j: int| 0 <= j < args@.len() ==> self.interned().contains(#[trigger] args@[j].name@),
            decreases count - i,
        {
            let (n, q1) = match decode_name(b, at) {
                Ok(x) => x,
                Err(e) => return Err(e),
            };
            let (ty, q2) = match decode_type(b, q1) {
                Ok(x) => x,
                Err(e) => return Err(e),
            };
            let ghost before = args@;
            let ghost tb = self.interned();
            self.intern_string(n.clone());
            proof {
                assert(self.interned().subrange(0, tb.len() as int) == tb);
                assert forall|j: int| 0 <= j < before.len() implies self.interned().contains(#[trigger] before[j].name@) by {
                    let k = choose|k: int| 0 <= k < tb.len() && tb[k] == before[j].name@;
                    assert(self.interned()[k] == tb[k]);
                }
                let k = choose|k: int| 0 <= k < tb.len() && tb[k] == name@;
                assert(self.interned()[k] == tb[k]);
                assert(self.interned().subrange(0, old(self).interned().len() as int)
                    =~= self.interned().subrange(0, tb.len() as int).subrange(0, old(self).interned().len() as int));
            }
            let ghost nv = n@;
            args.push(FunctionArg { name: n, ty });
            proof {
                match parse_args(b@, q2 as int, (count - i - 1) as nat) {
                    Ok((rest, end)) => {
                        let m0 = before.map_values(|a: FunctionArg| (a.name@, a.ty));
                        let m1 = args@.map_values(|a: FunctionArg| (a.name@, a.ty));
                        assert(m1 =~= m0.push((nv, ty)));
                        assert(m0 + (seq![(nv, ty)] + rest) =~= m1 + rest);
                    },
                    Err(_) => {},
                }
            }
            at = q2;
            i = i + 1;
        }
        let ghost argv = args@.map_values(|a: FunctionArg| (a.name@, a.ty));
        assert(argv + Seq::<(Seq<u8>, TypeInformation)>::empty() =~= argv);
        let (ret, p3) = match decode_type(b, at) {
            Ok(x) => x,
            Err(e) => return Err(e),
        };
        if p3 >= b.len() || b.len() - p3 < 8 || read_u64(b, p3) != CONSTANT_POOL_HEADER || b.len() - p3 < 9 {
            proof {
                if !has_marker(b@, p3 as int, CONSTANT_POOL_HEADER) {
                } else {
                    assert(p3 + 9 > b@.len());
                }
            }
            if p3 < b.len() && b.len() - p3 >= 8 && read_u64(b, p3) == CONSTANT_POOL_HEADER {
                return Err(DisassembleError::Truncated);
            }
            return Err(DisassembleError::BadConstantPoolHeader);
        }
        let (constants, p4) = match decode_entries(b, p3 + 9, b[p3 + 8]) {
            Ok(x) => x,
            Err(e) => return Err(e),
        };
        let (instructions, p5) = match decode_code(b, p4) {
            Ok(x) => x,
            Err(e) => return Err(e),
        };
        let f = ThetaFunction { name, args, return_ty: ret, chunk: Chunk { instructions, constants } };
        proof {
            assert(f.view().args == argv);
            assert forall|j: int| 0 <= j < names_of(f.view()).len() implies self.interned().contains(#[trigger] names_of(f.view())[j]) by {
                if j > 0 {
                    assert(names_of(f.view())[j] == f.args@[j - 1].name@);
                }
            }
        }
        Ok((f, p5))
    }

    /// Decodes a bitstream image and registers every function name and
    /// argument name with the string table on the way. Nothing else of the
    /// machine changes; the table only grows.
    pub fn load_bitstream_image(&mut self, b: &[u8]) -> (r: Result<ThetaBitstream, DisassembleError>)
        requires
            old(self).wf(),
        ensures
            final(self).wf(),
            final(self).machine() == old(self).machine(),
            final(self).env() == old(self).env(),
            final(self).pool() == old(self).pool(),
            final(self).function_pool() == old(self).function_pool(),
            old(self).interned().len() <= final(self).interned().len(),
            final(self).interned().subrange(0, old(self).interned().len() as int) == old(self).interned(),
            match r {
                Ok(bs) => parse_bitstream(b@) == Ok::<BitstreamView, DisassembleError>(bs.view())
                    && holds_names(final(self).interned(), bs.view().functions),
                Err(e) => parse_bitstream(b@) == Err::<BitstreamView, DisassembleError>(e),
            },
    {
        if b.len() < 8 || read_u64(b, 0) != CHUNK_HEADER {
            return Err(DisassembleError::BadChunkHeader);
        }
        if b.len() < 16 || read_u64(b, 8) != CONSTANT_POOL_HEADER {
            return Err(DisassembleError::BadConstantPoolHeader);
        }
        if b.len() < 17 {
            return Err(DisassembleError::Truncated);
        }
        let (constants, p1) = match decode_entries(b, 17, b[16]) {
            Ok(x) => x,
            Err(e) => return Err(e),
        };
        if p1 >= b.len() {
            return Err(DisassembleError::Truncated);
        }
        let count = b[p1];
        let mut functions: Vec<ThetaFunction> = Vec::new();
        let mut at: usize = p1 + 1;
        let mut i: u8 = 0;
        while i < count
            invariant
                i <= count,
                has_marker(b@, 0, CHUNK_HEADER),
                parse_pool(b@, 8) == Ok::<(Seq<ThetaValue>, int), DisassembleError>((constants@, p1 as int)),
                p1 < b@.len(),
                count == b@[p1 as int],
                self.wf(),
                self.machine() == old(self).machine(),
                self.env() == old(self).env(),
                self.pool() == old(self).pool(),
                self.function_pool() == old(self).function_pool(),
                old(self).interned().len() <= self.interned().len(),
                self.interned().subrange(0, old(self).interned().len() as int) == old(self).interned(),
                parse_functions(b@, p1 + 1, count as nat) == match parse_functions(b@, at as int, (count - i) as nat) {
                    Ok((rest, end)) => Ok((functions@.map_values(|f: ThetaFunction| f.view()) + rest, end)),
                    Err(e) => Err::<(Seq<FunctionView>, int), DisassembleError>(e),
                },
                holds_names(self.interned(), functions@.map_values(|f: ThetaFunction| f.view())),
            decreases count - i,
        {
            let ghost before = functions@.map_values(|f: ThetaFunction| f.view());
            let ghost tb = self.interned();
            let (f, next) = match self.load_function(b, at) {
                Ok(x) => x,
                Err(e) => return Err(e),
            };
            let ghost fv = f.view();
            functions.push(f);
            proof {
                let after = functions@.map_values(|f: ThetaFunction| f.view());
                assert(after =~= before.push(fv));
                assert forall|x: int, j: int| 0 <= x < after.len() && 0 <= j < names_of(after[x]).len()
                    implies self.interned().contains(#[trigger] names_of(after[x])[j]) by {
                    if x < before.len() {
                        assert(after[x] == before[x]);
                        assert(tb.contains(names_of(before[x])[j]));
                        let k = choose|k: int| 0 <= k < tb.len() && tb[k] == names_of(before[x])[j];
                        assert(self.interned().subrange(0, tb.len() as int)[k] == tb[k]);
                    }
                }
                match parse_functions(b@, next as int, (count - i - 1) as nat) {
                    Ok((rest, end)) => {
                        assert(before + (seq![fv] + rest) =~= after + rest);
                    },
                    Err(_) => {},
                }
                assert(self.interned().subrange(0, old(self).interned().len() as int)
                    =~= self.interned().subrange(0, tb.len() as int).subrange(0, old(self).interned().len() as int));
            }
            at = next;
            i = i + 1;
        }
        let ghost fvs = functions@.map_values(|f: ThetaFunction| f.view());
        assert(fvs + Seq::<FunctionView>::empty() =~= fvs);
        if at != b.len() {
            return Err(DisassembleError::TrailingBytes);
        }
        let bs = ThetaBitstream { constants, functions };
        assert(bs.view().functions == fvs);
        Ok(bs)
    }
}

} // verus!
