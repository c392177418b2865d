//! Compiled functions and the bitstream, the unit of linkage.
use crate::assembler::{encode_pool, pool_bytes, AssembleError, CHUNK_HEADER, MAX_POOL_LEN};
use crate::chunk::Chunk;
use crate::opcode::{encode_ops, ops_bytes, OpCode};
use crate::value::{push_u64, ThetaValue};
use vstd::bytes::spec_u64_to_le_bytes;
use vstd::prelude::*;

verus! {

/// A declared type, as the front end annotates it (`Unit` for no value).
#[derive(Clone, Copy, Debug, PartialEq, Eq, Structural)]
pub enum TypeInformation {
    Unit,
    Int,
    Double,
    Bool,
    String,
}

/// One declared argument of a function: its name (UTF-8 bytes) and type.
#[derive(Clone, Debug, PartialEq)]
pub struct FunctionArg {
    pub name: Vec<u8>,
    pub ty: TypeInformation,
}

/// A compiled function: name (UTF-8 bytes), arguments, return type and body.
#[derive(Clone, Debug)]
pub struct ThetaFunction {
    pub name: Vec<u8>,
    pub args: Vec<FunctionArg>,
    pub return_ty: TypeInformation,
    pub chunk: Chunk,
}

/// A global constant pool and the functions whose chunks index it.
#[derive(Clone, Debug)]
pub struct ThetaBitstream {
    pub constants: Vec<ThetaValue>,
    pub functions: Vec<ThetaFunction>,
}

impl ThetaBitstream {
    /// An empty bitstream.
    pub fn new() -> (r: ThetaBitstream)
        ensures
            r.constants@ == Seq::<ThetaValue>::empty(),
            r.functions@.len() == 0,
    {
        ThetaBitstream { constants: Vec::new(), functions: Vec::new() }
    }
}

/// A function as plain values: name, arguments, return type, and its
/// chunk's instructions and constants.
pub struct FunctionView {
    pub name: Seq<u8>,
    pub args: Seq<(Seq<u8>, TypeInformation)>,
    pub return_ty: TypeInformation,
    pub instructions: Seq<OpCode>,
    pub constants: Seq<ThetaValue>,
}

/// A bitstream as plain values.
pub struct BitstreamView {
    pub constants: Seq<ThetaValue>,
    pub functions: Seq<FunctionView>,
}

impl ThetaFunction {
    pub open spec fn view(&self) -> FunctionView {
        FunctionView {
            name: self.name@,
            args: self.args@.map_values(|a: FunctionArg| (a.name@, a.ty)),
            return_ty: self.return_ty,
            instructions: self.chunk.instructions@,
            constants: self.chunk.constants@,
        }
    }
}

impl ThetaBitstream {
    pub open spec fn view(&self) -> BitstreamView {
        BitstreamView { constants: self.constants@, functions: self.functions@.map_values(|f: ThetaFunction| f.view()) }
    }
}

/// The one-byte tag of each declared type.
pub open spec fn type_tag(t: TypeInformation) -> u8 {
    match t {
        TypeInformation::Unit => 0,
        TypeInformation::Int => 1,
        TypeInformation::Double => 2,
        TypeInformation::Bool => 3,
        TypeInformation::String => 4,
    }
}

/// A name: a one-byte length, then its bytes.
pub open spec fn name_bytes(n: Seq<u8>) -> Seq<u8> {
    seq![n.len() as u8] + n
}

/// The declared arguments, in order.
pub open spec fn args_bytes(a: Seq<(Seq<u8>, TypeInformation)>) -> Seq<u8>
    decreases a.len(),
{
    if a.len() == 0 {
        Seq::empty()
    } else {
        name_bytes(a[0].0) + seq![type_tag(a[0].1)] + args_bytes(a.skip(1))
    }
}

/// One function: name, argument count and arguments, return type, constant
/// pool, the length of its code as a 64-bit word, then the code.
pub open spec fn function_bytes(f: FunctionView) -> Seq<u8> {
    name_bytes(f.name) + seq![f.args.len() as u8] + args_bytes(f.args) + seq![type_tag(f.return_ty)]
        + pool_bytes(f.constants) + spec_u64_to_le_bytes(ops_bytes(f.instructions).len() as u64)
        + ops_bytes(f.instructions)
}

/// The functions of a function pool, in order.
pub open spec fn functions_bytes(s: Seq<FunctionView>) -> Seq<u8>
    decreases s.len(),
{
    if s.len() == 0 {
        Seq::empty()
    } else {
        function_bytes(s[0]) + functions_bytes(s.skip(1))
    }
}

/// A bitstream image: the chunk header marker, the global constant pool, a
/// one-byte function count, then the functions.
pub open spec fn bitstream_bytes(b: BitstreamView) -> Seq<u8> {
    spec_u64_to_le_bytes(CHUNK_HEADER) + pool_bytes(b.constants) + seq![b.functions.len() as u8]
        + functions_bytes(b.functions)
}

/// Whether each name, argument list and function list fits its one-byte length.
pub open spec fn function_fits(f: FunctionView) -> bool {
    &&& f.name.len() <= 255
    &&& f.args.len() <= 255
    &&& forall|i: int| 0 <= i < f.args.len() ==> (#[trigger] f.args[i]).0.len() <= 255
}

/// Why a function pool cannot be encoded, if it cannot: a function's pool
/// of more than `MAX_POOL_LEN` constants first, then a list or name too long
/// for its one-byte length.
pub open spec fn function_pool_error(fs: Seq<FunctionView>) -> Option<AssembleError> {
    if exists|i: int| 0 <= i < fs.len() && (#[trigger] fs[i]).constants.len() > MAX_POOL_LEN {
        Some(AssembleError::TooManyConstants)
    } else if fs.len() > 255 || exists|i: int| 0 <= i < fs.len() && !function_fits(#[trigger] fs[i]) {
        Some(AssembleError::TooLong)
    } else {
        None
    }
}

/// Why a bitstream cannot be encoded, if it cannot: a global pool of more
/// than `MAX_POOL_LEN` constants, else what `function_pool_error` says.
pub open spec fn bitstream_error(b: BitstreamView) -> Option<AssembleError> {
    if b.constants.len() > MAX_POOL_LEN {
        Some(AssembleError::TooManyConstants)
    } else {
        function_pool_error(b.functions)
    }
}

/// Appends a name; it must fit a one-byte length.
fn encode_name(n: &Vec<u8>, out: &mut Vec<u8>)
    requires
        n@.len() <= 255,
    ensures
        final(out)@ == old(out)@ + name_bytes(n@),
{
    out.push(n.len() as u8);
    let ghost start = out@;
    let mut i: usize = 0;
    while i < n.len()
        invariant
            i <= n@.len(),
            out@ == start + n@.subrange(0, i as int),
        decreases n@.len() - i,
    {
        out.push(n[i]);
        i = i + 1;
        assert(out@ =~= start + n@.subrange(0, i as int));
    }
    assert(n@.subrange(0, i as int) =~= n@);
    assert(final(out)@ =~= old(out)@ + name_bytes(n@));
}

fn type_tag_of(t: TypeInformation) -> (r: u8)
    ensures
        r == type_tag(t),
{
    match t {
        TypeInformation::Unit => 0,
        TypeInformation::Int => 1,
        TypeInformation::Double => 2,
        TypeInformation::Bool => 3,
        TypeInformation::String => 4,
    }
}

/// Appends one function; it must fit.
fn encode_function(f: &ThetaFunction, out: &mut Vec<u8>)
    requires
        function_fits(f.view()),
        f.chunk.constants@.len() <= MAX_POOL_LEN,
    ensures
        final(out)@ == old(out)@ + function_bytes(f.view()),
{
    let ghost v = f.view();
    let ghost start = out@;
    encode_name(&f.name, out);
    out.push(f.args.len() as u8);
    let ghost head = out@;
    let mut k: usize = 0;
    assert(v.args.skip(0) =~= v.args);
    while k < f.args.len()
        invariant
            k <= f.args@.len(),
            v == f.view(),
            function_fits(v),
            out@ + args_bytes(v.args.skip(k as int)) == head + args_bytes(v.args),
        decreases f.args@.len() - k,
    {
        let ghost prev = out@;
        let ghost rest = args_bytes(v.args.skip(k + 1));
        proof {
            assert(v.args.skip(k as int).skip(1) =~= v.args.skip(k + 1));
            assert(v.args.skip(k as int)[0] == v.args[k as int]);
            assert(v.args[k as int].0.len() <= 255);
        }
        encode_name(&f.args[k].name, out);
        out.push(type_tag_of(f.args[k].ty));
        proof {
            let item = name_bytes(v.args[k as int].0) + seq![type_tag(v.args[k as int].1)];
            assert(out@ =~= prev + item);
            assert((prev + item) + rest =~= prev + (item + rest));
        }
        k = k + 1;
    }
    assert(v.args.skip(k as int) =~= Seq::<(Seq<u8>, TypeInformation)>::empty());
    assert(out@ + Seq::<u8>::empty() =~= out@);
    out.push(type_tag_of(f.return_ty));
    encode_pool(&f.chunk.constants, out);
    let mut code: Vec<u8> = Vec::new();
    encode_ops(&f.chunk.instructions, &mut code);
    assert(code@ =~= ops_bytes(v.instructions));
    push_u64(out, code.len() as u64);
    let ghost before_code = out@;
    let mut i: usize = 0;
    while i < code.len()
        invariant
            i <= code@.len(),
            out@ == before_code + code@.subrange(0, i as int),
        decreases code@.len() - i,
    {
        out.push(code[i]);
        i = i + 1;
        assert(out@ =~= before_code + code@.subrange(0, i as int));
    }
    assert(code@.subrange(0, i as int) =~= code@);
    assert(final(out)@ =~= old(out)@ + function_bytes(v));
}

/// The first reason, if any, why the function pool `fs` cannot be encoded.
pub(crate) fn check_function_pool(fs: &Vec<ThetaFunction>) -> (r: Result<(), AssembleError>)
    ensures
        r == match function_pool_error(fs@.map_values(|f: ThetaFunction| f.view())) {
            Some(e) => Err::<(), AssembleError>(e),
            None => Ok::<(), AssembleError>(()),
        },
{
    let ghost v = fs@.map_values(|f: ThetaFunction| f.view());
    let mut pools_fit = true;
    let mut names_fit = fs.len() <= 255;
    let mut i: usize = 0;
    while i < fs.len()
        invariant
            i <= fs@.len(),
            v == fs@.map_values(|f: ThetaFunction| f.view()),
            pools_fit == (forall|j: int| 0 <= j < i ==> (#[trigger] v[j]).constants.len() <= MAX_POOL_LEN),
            names_fit == (v.len() <= 255 && forall|j: int| 0 <= j < i ==> function_fits(#[trigger] v[j])),
        decreases fs@.len() - i,
    {
        let f = &fs[i];
        assert(v[i as int] == f.view());
        if f.chunk.constants.len() > MAX_POOL_LEN {
            pools_fit = false;
        }
        let mut fits = f.name.len() <= 255 && f.args.len() <= 255;
        let mut k: usize = 0;
        while k < f.args.len()
            invariant
                k <= f.args@.len(),
                fits == (f.name@.len() <= 255 && f.args@.len() <= 255
                    && forall|j: int| 0 <= j < k ==> (#[trigger] f.args@[j]).name@.len() <= 255),
            decreases f.args@.len() - k,
        {
            if f.args[k].name.len() > 255 {
                fits = false;
            }
            k = k + 1;
        }
        proof {
            assert(fits == function_fits(f.view())) by {
                if fits {
                    assert forall|j: int| 0 <= j < f.view().args.len() implies (#[trigger] f.view().args[j]).0.len() <= 255 by {
                        assert(f.view().args[j].0 == f.args@[j].name@);
                    }
                } else if function_fits(f.view()) {
                    assert forall|j: int| 0 <= j < f.args@.len() implies (#[trigger] f.args@[j]).name@.len() <= 255 by {
                        assert(f.view().args[j].0 == f.args@[j].name@);
                    }
                }
            }
        }
        if !fits {
            names_fit = false;
        }
        i = i + 1;
    }
    if !pools_fit {
        return Err(AssembleError::TooManyConstants);
    }
    if !names_fit {
        return Err(AssembleError::TooLong);
    }
    Ok(())
}

/// The first reason, if any, why `b` cannot be encoded.
fn check_bitstream(b: &ThetaBitstream) -> (r: Result<(), AssembleError>)
    ensures
        r == match bitstream_error(b.view()) {
            Some(e) => Err::<(), AssembleError>(e),
            None => Ok::<(), AssembleError>(()),
        },
{
    if b.constants.len() > MAX_POOL_LEN {
        return Err(AssembleError::TooManyConstants);
    }
    check_function_pool(&b.functions)
}

/// Appends a bitstream image. Fails, writing nothing, with the error
/// `bitstream_error` names.
pub fn encode_bitstream(b: &ThetaBitstream, out: &mut Vec<u8>) -> (r: Result<(), AssembleError>)
    ensures
        match bitstream_error(b.view()) {
            Some(e) => r == Err::<(), AssembleError>(e) && final(out)@ == old(out)@,
            None => r is Ok && final(out)@ == old(out)@ + bitstream_bytes(b.view()),
        },
{
    match check_bitstream(b) {
        Err(e) => return Err(e),
        Ok(()) => {},
    }
    push_u64(out, CHUNK_HEADER);
    encode_pool(&b.constants, out);
    proof {
        assert forall|i: int| 0 <= i < b.functions@.len() implies function_fits((#[trigger] b.functions@[i]).view())
            && b.functions@[i].chunk.constants@.len() <= MAX_POOL_LEN by {
            assert(b.view().functions[i] == b.functions@[i].view());
        }
    }
    encode_function_pool(&b.functions, out);
    assert(final(out)@ =~= old(out)@ + bitstream_bytes(b.view()));
    Ok(())
}

/// Appends a function pool: a one-byte count, then the functions. Each must
/// fit, and there must be at most 255.
pub fn encode_function_pool(fs: &Vec<ThetaFunction>, out: &mut Vec<u8>)
    requires
        fs@.len() <= 255,
        forall|i: int| 0 <= i < fs@.len() ==> function_fits((#[trigger] fs@[i]).view())
            && fs@[i].chunk.constants@.len() <= MAX_POOL_LEN,
    ensures
        final(out)@ == old(out)@ + seq![fs@.len() as u8] + functions_bytes(fs@.map_values(|f: ThetaFunction| f.view())),
{
    let ghost v = fs@.map_values(|f: ThetaFunction| f.view());
    out.push(fs.len() as u8);
    let ghost head = out@;
    let mut k: usize = 0;
    assert(v.skip(0) =~= v);
    while k < fs.len()
        invariant
            k <= fs@.len(),
            v == fs@.map_values(|f: ThetaFunction| f.view()),
            forall|i: int| 0 <= i < fs@.len() ==> function_fits((#[trigger] fs@[i]).view())
                && fs@[i].chunk.constants@.len() <= MAX_POOL_LEN,
            out@ + functions_bytes(v.skip(k as int)) == head + functions_bytes(v),
        decreases fs@.len() - k,
    {
        let ghost prev = out@;
        let ghost rest = functions_bytes(v.skip(k + 1));
        proof {
            assert(v.skip(k as int).skip(1) =~= v.skip(k + 1));
            assert(v.skip(k as int)[0] == v[k as int]);
            assert(v[k as int] == fs@[k as int].view());
        }
        encode_function(&fs[k], out);
        proof {
            let item = function_bytes(v[k as int]);
            assert((prev + item) + rest =~= prev + (item + rest));
        }
        k = k + 1;
    }
    assert(v.skip(k as int) =~= Seq::<FunctionView>::empty());
    assert(out@ + Seq::<u8>::empty() =~= out@);
    assert(final(out)@ =~= old(out)@ + seq![fs@.len() as u8] + functions_bytes(v));
}

} // verus!
