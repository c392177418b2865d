//! Incremental linking for a REPL: each line's code joins one growing
//! bitstream without disturbing the constant indices already in it.
use crate::assembler::{AssembleError, BasicAssembler};
use crate::bitstream::{bitstream_bytes, bitstream_error, BitstreamView, FunctionView, ThetaBitstream, ThetaFunction};
use crate::loader::{code_fits, holds_names, lemma_bitstream_round_trip};
use crate::opcode::{encode_ops, ops_bytes};
use crate::value::DisassembleError;
use crate::vm::{entry_outcome, ExecutionError, is_entry_frame, run_outcome, with_frame, Env, FloatUnit, ThetaCallFrame, VM};
use vstd::string::StringSliceAdditionalSpecFns;
use crate::chunk::{fits_relocation, relocated, Chunk};
use crate::opcode::OpCode;
use crate::value::ThetaValue;
use vstd::prelude::*;

verus! {

/// What the REPL host does after a line.
#[derive(Clone, Copy, Debug, PartialEq, Eq, Structural)]
pub enum ReplStatus {
    ReplOk,
    ReplTerminate,
}

/// One compiled item of a line: top-level code, or a function definition.
pub enum LineItem {
    Declaration(Chunk),
    Definition(ThetaFunction),
}

/// The linked state as plain values: the bitstream's pool and functions, and
/// the top-level instructions, which index that pool.
pub struct SessionView {
    pub constants: Seq<ThetaValue>,
    pub functions: Seq<FunctionView>,
    pub top: Seq<OpCode>,
}

/// A function with its instructions relocated by `n`.
pub open spec fn relocated_function(f: FunctionView, n: int) -> FunctionView {
    FunctionView {
        name: f.name,
        args: f.args,
        return_ty: f.return_ty,
        instructions: relocated(f.instructions, n),
        constants: f.constants,
    }
}

/// Whether an item's constant indices stay within one byte after being
/// shifted past the pool `s` has.
pub open spec fn item_fits(s: SessionView, item: LineItem) -> bool {
    match item {
        LineItem::Declaration(c) => fits_relocation(c.instructions@, s.constants.len() as int),
        LineItem::Definition(f) => fits_relocation(f.chunk.instructions@, s.constants.len() as int),
    }
}

/// The state after linking one item: its constants join the pool; a
/// declaration's instructions, relocated past the old pool, join the
/// top-level code; a definition joins the functions with its chunk relocated.
pub open spec fn link_item(s: SessionView, item: LineItem) -> SessionView {
    let n = s.constants.len() as int;
    match item {
        LineItem::Declaration(c) => SessionView {
            constants: s.constants + c.constants@,
            functions: s.functions,
            top: s.top + relocated(c.instructions@, n),
        },
        LineItem::Definition(f) => SessionView {
            constants: s.constants + f.chunk.constants@,
            functions: s.functions.push(relocated_function(f.view(), n)),
            top: s.top,
        },
    }
}

/// The state after linking the items of a line in order.
pub open spec fn link_items(s: SessionView, items: Seq<LineItem>) -> SessionView
    decreases items.len(),
{
    if items.len() == 0 {
        s
    } else {
        link_items(link_item(s, items[0]), items.skip(1))
    }
}

/// Whether every item of `items` fits when linked in order from `s`.
pub open spec fn items_fit(s: SessionView, items: Seq<LineItem>) -> bool
    decreases items.len(),
{
    items.len() == 0 || (item_fits(s, items[0]) && items_fit(link_item(s, items[0]), items.skip(1)))
}

/// The state after a whole line: its items linked, then `ReturnVoid`
/// appended to non-empty top-level code so that its frame ends.
pub open spec fn link_line(s: SessionView, items: Seq<LineItem>) -> SessionView {
    let t = link_items(s, items);
    if t.top.len() == 0 {
        t
    } else {
        SessionView { constants: t.constants, functions: t.functions, top: t.top.push(OpCode::ReturnVoid) }
    }
}

/// The session that nothing has been linked into.
pub open spec fn empty_session() -> SessionView {
    SessionView { constants: Seq::empty(), functions: Seq::empty(), top: Seq::empty() }
}

/// A REPL session's linked image: the bitstream and the top-level chunk.
/// The top-level chunk's instructions index the bitstream's pool, so a
/// declaration's constants join that pool and the chunk keeps no constants
/// of its own; this stands in for merging the declaration's constants onto
/// the chunk, which would number them a second time.
pub struct ReplSession {
    pub bitstream: ThetaBitstream,
    pub chunk: Chunk,
}

impl ReplSession {
    pub open spec fn view(&self) -> SessionView {
        SessionView {
            constants: self.bitstream.constants@,
            functions: self.bitstream.view().functions,
            top: self.chunk.instructions@,
        }
    }

    /// A session with nothing linked.
    pub fn new() -> (r: ReplSession)
        ensures
            r.view() == empty_session(),
            r.chunk.constants@.len() == 0,
    {
        let r = ReplSession { bitstream: ThetaBitstream::new(), chunk: Chunk::new() };
        assert(r.view().functions =~= Seq::<FunctionView>::empty());
        r
    }

    /// Links one item.
    pub fn link(&mut self, item: LineItem)
        requires
            item_fits(old(self).view(), item),
        ensures
            final(self).view() == link_item(old(self).view(), item),
            final(self).chunk.constants@ == old(self).chunk.constants@,
    {
        let n = self.bitstream.constants.len();
        match item {
            LineItem::Declaration(c) => {
                let moved = c.relocate(n);
                let mut extra = moved.instructions;
                let mut consts = c.constants;
                self.chunk.instructions.append(&mut extra);
                self.bitstream.constants.append(&mut consts);
            },
            LineItem::Definition(f) => {
                let moved = f.chunk.relocate(n);
                let ghost fv = f.view();
                let g = ThetaFunction { name: f.name, args: f.args, return_ty: f.return_ty, chunk: moved };
                let mut consts = f.chunk.constants;
                self.bitstream.constants.append(&mut consts);
                self.bitstream.functions.push(g);
                proof {
                    assert(g.view() == relocated_function(fv, n as int));
                    assert(self.bitstream.view().functions =~= old(self).bitstream.view().functions.push(g.view()));
                }
            },
        }
    }

    /// Links the items of one line in order, then ends non-empty top-level
    /// code with `ReturnVoid`.
    pub fn link_line(&mut self, items: Vec<LineItem>)
        requires
            items_fit(old(self).view(), items@),
        ensures
            final(self).view() == link_line(old(self).view(), items@),
            final(self).chunk.constants@ == old(self).chunk.constants@,
    {
        let ghost all = items@;
        let mut rest = items;
        let mut items: Vec<LineItem> = Vec::new();
        while rest.len() > 0
            invariant
                rest@.len() + items@.len() == all.len(),
                rest@ == all.take(rest@.len() as int),
                *self == *old(self),
                forall|i: int| 0 <= i < items@.len() ==> #[trigger] items@[i] == all[all.len() - 1 - i],
            decreases rest@.len(),
        {
            let ghost k = rest@.len();
            let x = rest.pop().unwrap();
            proof {
                assert(x == all[k - 1]);
                assert(rest@ =~= all.take(k - 1));
            }
            items.push(x);
        }
        let ghost start = self.view();
        let ghost mut done: nat = 0;
        assert(all.skip(0) =~= all);
        assert(start == old(self).view());
        while items.len() > 0
            invariant
                self.chunk.constants@ == old(self).chunk.constants@,
                done <= all.len(),
                items@.len() == all.len() - done,
                forall|i: int| 0 <= i < items@.len() ==> #[trigger] items@[i] == all[all.len() - 1 - i],
                items_fit(self.view(), all.skip(done as int)),
                link_items(start, all) == link_items(self.view(), all.skip(done as int)),
            decreases items@.len(),
        {
            let item = items.pop().unwrap();
            proof {
                assert(item == all[done as int]);
                assert(all.skip(done as int)[0] == item);
                assert(all.skip(done as int).skip(1) =~= all.skip(done as int + 1));
            }
            self.link(item);
            proof {
                done = done + 1;
            }
        }
        proof {
            assert(all.skip(done as int) =~= Seq::<LineItem>::empty());
        }
        if self.chunk.instructions.len() > 0 {
            self.chunk.write_to_chunk(OpCode::ReturnVoid);
        }
    }
}

/// Linking is reproducible: two fresh sessions fed the same lines in the
/// same order end with byte-identical bitstream images.
pub proof fn lemma_linking_reproducible(a: ReplSession, b: ReplSession, first: Seq<LineItem>, second: Seq<LineItem>)
    requires
        a.view() == link_line(link_line(empty_session(), first), second),
        b.view() == link_line(link_line(empty_session(), first), second),
    ensures
        bitstream_bytes(a.bitstream.view()) == bitstream_bytes(b.bitstream.view()),
        a.chunk.instructions@ == b.chunk.instructions@,
{
    assert(a.bitstream.view() =~= b.bitstream.view());
}

/// Why running a REPL line failed.
#[derive(Clone, Copy, Debug, PartialEq, Eq, Structural)]
pub enum LineError {
    /// A shifted constant index would not fit its byte.
    IndexOverflow,
    Assemble(AssembleError),
    Disassemble(DisassembleError),
    Execution(ExecutionError),
}

/// The line's linked bitstream as plain values.
pub open spec fn line_bitstream(items: Seq<LineItem>) -> BitstreamView {
    let s = link_line(empty_session(), items);
    BitstreamView { constants: s.constants, functions: s.functions }
}

/// Whether shifting each `Constant` index of `ops` by `n` stays within one byte.
fn ops_fit(ops: &Vec<OpCode>, n: u128) -> (r: bool)
    ensures
        r == fits_relocation(ops@, n as int),
{
    let mut i: usize = 0;
    while i < ops.len()
        invariant
            i <= ops@.len(),
            forall|j: int| 0 <= j < i ==> (#[trigger] ops@[j] matches OpCode::Constant { index } ==> index + n <= 255),
        decreases ops@.len() - i,
    {
        match ops[i] {
            OpCode::Constant { index } => {
                if n > (255 - index) as u128 {
                    assert(!(ops@[i as int] matches OpCode::Constant { index } ==> index + n <= 255));
                    return false;
                }
            },
            _ => {},
        }
        i = i + 1;
    }
    true
}

/// Whether the items of a line, linked in order into a fresh session, keep
/// every shifted constant index within one byte.
pub fn line_fits(items: &Vec<LineItem>) -> (r: bool)
    ensures
        r == items_fit(empty_session(), items@),
{
    let ghost all = items@;
    let ghost mut s = empty_session();
    let mut n: u128 = 0;
    let mut k: usize = 0;
    assert(all.skip(0) =~= all);
    while k < items.len()
        invariant
            k <= all.len(),
            all == items@,
            n == s.constants.len(),
            n <= k * 0x1_0000_0000_0000_0000,
            k <= 0xffff_ffff_ffff_ffff,
            items_fit(empty_session(), all) == items_fit(s, all.skip(k as int)),
        decreases all.len() - k,
    {
        proof {
            assert(all.skip(k as int)[0] == all[k as int]);
            assert(all.skip(k as int).skip(1) =~= all.skip(k + 1));
        }
        let (fits, more) = match &items[k] {
            LineItem::Declaration(c) => (ops_fit(&c.instructions, n), c.constants.len()),
            LineItem::Definition(f) => (ops_fit(&f.chunk.instructions, n), f.chunk.constants.len()),
        };
        if !fits {
            return false;
        }
        proof {
            s = link_item(s, all[k as int]);
        }
        assert(n + more <= (k + 1) * 0x1_0000_0000_0000_0000) by (nonlinear_arith)
            requires
                n <= k * 0x1_0000_0000_0000_0000,
                more < 0x1_0000_0000_0000_0000,
        ;
        n = n + more as u128;
        k = k + 1;
    }
    assert(all.skip(k as int).len() == 0);
    true
}

/// Assembles `bs`, decodes the bytes again through `vm`'s string table,
/// and loads the result; the handle of the loaded bitstream comes back.
fn load_linked(vm: &mut VM, bs: &ThetaBitstream) -> (r: Result<usize, LineError>)
    requires
        old(vm).wf(),
    ensures
        final(vm).wf(),
        final(vm).env().code == old(vm).env().code,
        final(vm).machine() == old(vm).machine(),
        r matches Ok(h) ==> h == old(vm).env().pools.len() && final(vm).env().pools.len() == old(vm).env().pools.len() + 1,
        bitstream_error(bs.view()) matches Some(e) ==> r == Err::<usize, LineError>(LineError::Assemble(e))
            && *final(vm) == *old(vm),
        bitstream_error(bs.view()) is None && code_fits(bs.view().functions) ==> {
            &&& r is Ok
            &&& final(vm).env().pools == old(vm).env().pools.push(bs.view().constants)
            &&& final(vm).pool() == old(vm).pool() + bs.view().constants
            &&& final(vm).function_pool().map_values(|f: ThetaFunction| f.view())
                == old(vm).function_pool().map_values(|f: ThetaFunction| f.view()) + bs.view().functions
            &&& old(vm).interned().len() <= final(vm).interned().len()
            &&& final(vm).interned().subrange(0, old(vm).interned().len() as int) == old(vm).interned()
            &&& holds_names(final(vm).interned(), bs.view().functions)
        },
{
    let mut assembler = BasicAssembler::new();
    match assembler.assemble_bitstream(bs) {
        Err(e) => return Err(LineError::Assemble(e)),
        Ok(()) => {},
    }
    let bytes = assembler.into_bytes();
    assert(bytes@ =~= bitstream_bytes(bs.view()));
    proof {
        if code_fits(bs.view().functions) {
            lemma_bitstream_round_trip(bs.view());
        }
    }
    let ghost fp0 = vm.function_pool();
    let ghost t0 = vm.interned();
    let loaded = match vm.load_bitstream_image(bytes.as_slice()) {
        Ok(b) => b,
        Err(e) => return Err(LineError::Disassemble(e)),
    };
    let ghost lf = loaded.functions@;
    let ghost lv = loaded.view();
    let ghost t1 = vm.interned();
    let h = vm.load_bitstream(loaded);
    proof {
        assert(vm.function_pool().map_values(|f: ThetaFunction| f.view())
            =~= fp0.map_values(|f: ThetaFunction| f.view()) + lf.map_values(|f: ThetaFunction| f.view()));
        assert(lf.map_values(|f: ThetaFunction| f.view()) == lv.functions);
        if code_fits(bs.view().functions) && bitstream_error(bs.view()) is None {
            assert(lv == bs.view());
        }
    }
    Ok(h)
}

/// Runs one compiled REPL line on `vm`: links its items into a fresh
/// bitstream and top-level chunk, assembles the bitstream, decodes it again
/// through the string table, loads it, and runs the top-level code, if any,
/// in a new frame over that bitstream. A line whose shifted constant indices
/// would not fit a byte is refused before anything happens.
#[verifier::rlimit(100)]
pub fn run_line<F: FloatUnit>(vm: &mut VM, items: Vec<LineItem>, fpu: &F) -> (r: Result<Option<ThetaValue>, LineError>)
    requires
        old(vm).wf(),
    ensures
        final(vm).wf(),
        !items_fit(empty_session(), items@) ==> r == Err::<Option<ThetaValue>, LineError>(LineError::IndexOverflow)
            && *final(vm) == *old(vm),
        items_fit(empty_session(), items@) ==> (bitstream_error(line_bitstream(items@)) matches Some(e)
            ==> r == Err::<Option<ThetaValue>, LineError>(LineError::Assemble(e)) && *final(vm) == *old(vm)),
        items_fit(empty_session(), items@) && bitstream_error(line_bitstream(items@)) is None
            && code_fits(line_bitstream(items@).functions) ==> {
            let lv = line_bitstream(items@);
            let top = link_line(empty_session(), items@).top;
            let env = Env {
                code: old(vm).env().code.push(ops_bytes(top)),
                pools: old(vm).env().pools.push(lv.constants),
            };
            &&& final(vm).pool() == old(vm).pool() + lv.constants
            &&& final(vm).function_pool().map_values(|f: ThetaFunction| f.view())
                == old(vm).function_pool().map_values(|f: ThetaFunction| f.view()) + lv.functions
            &&& old(vm).interned().len() <= final(vm).interned().len()
            &&& final(vm).interned().subrange(0, old(vm).interned().len() as int) == old(vm).interned()
            &&& holds_names(final(vm).interned(), lv.functions)
            &&& top.len() == 0 ==> r == Ok::<Option<ThetaValue>, LineError>(None) && final(vm).machine() == old(vm).machine()
                && final(vm).env().pools == env.pools
            &&& top.len() > 0 ==> final(vm).env() == env && final(vm).machine().frames.len() == 0 && match r {
                Ok(y) => entry_outcome(env, old(vm).env(), old(vm).machine(), Ok(y), final(vm).machine()),
                Err(LineError::Execution(e)) => entry_outcome(env, old(vm).env(), old(vm).machine(), Err(e), final(vm).machine()),
                Err(_) => false,
            }
        },
{
    if !line_fits(&items) {
        return Err(LineError::IndexOverflow);
    }
    let ghost items_v = items@;
    let mut session = ReplSession::new();
    session.link_line(items);
    let ghost lv = line_bitstream(items_v);
    assert(session.bitstream.view() =~= lv);
    let ghost env0 = vm.env();
    let ghost m0 = vm.machine();
    let h = match load_linked(vm, &session.bitstream) {
        Ok(h) => h,
        Err(e) => return Err(e),
    };
    if session.chunk.instructions.len() == 0 {
        return Ok(None);
    }
    let mut code: Vec<u8> = Vec::new();
    encode_ops(&session.chunk.instructions, &mut code);
    assert(code@ =~= ops_bytes(session.chunk.instructions@));
    let c = vm.load_code(code);
    let frame = ThetaCallFrame { rip: 0, locals: Vec::new(), bitstream: h, chunk: c };
    let ghost f = frame;
    vm.push_frame(frame);
    let ghost env1 = vm.env();
    let ghost start = vm.machine();
    let out = vm.execute_code(fpu);
    proof {
        assert(f.locals@.len() == 0);
        assert(f.bitstream == env0.pools.len());
        assert(f.chunk == env0.code.len());
        assert(is_entry_frame(f, env0));
        assert(start == with_frame(m0, f));
        assert(run_outcome(env1, with_frame(m0, f), out, vm.machine()));
    }
    match out {
        Ok(v) => Ok(v),
        Err(e) => Err(LineError::Execution(e)),
    }
}

/// How many bytes the whitespace character that ends `b` takes, or 0 when
/// `b` does not end in one. The characters are those of Unicode's
/// White_Space property, in UTF-8: tab, line feed, vertical tab, form feed,
/// carriage return, space, U+0085, U+00A0, U+1680, U+2000 to U+200A,
/// U+2028, U+2029, U+202F, U+205F and U+3000.
pub open spec fn ws_suffix_len(b: Seq<u8>) -> nat {
    let n = b.len() as int;
    if n >= 1 && (9 <= b[n - 1] <= 13 || b[n - 1] == 32) {
        1
    } else if n >= 2 && b[n - 2] == 0xc2 && (b[n - 1] == 0x85 || b[n - 1] == 0xa0) {
        2
    } else if n >= 3 && ((b[n - 3] == 0xe1 && b[n - 2] == 0x9a && b[n - 1] == 0x80)
        || (b[n - 3] == 0xe2 && b[n - 2] == 0x80 && ((0x80 <= b[n - 1] <= 0x8a) || b[n - 1] == 0xa8
            || b[n - 1] == 0xa9 || b[n - 1] == 0xaf))
        || (b[n - 3] == 0xe2 && b[n - 2] == 0x81 && b[n - 1] == 0x9f)
        || (b[n - 3] == 0xe3 && b[n - 2] == 0x80 && b[n - 1] == 0x80)) {
        3
    } else {
        0
    }
}

/// The UTF-8 bytes `b` without their trailing whitespace characters.
pub open spec fn trim_end(b: Seq<u8>) -> Seq<u8>
    decreases b.len(),
{
    if ws_suffix_len(b) > 0 {
        trim_end(b.subrange(0, b.len() - ws_suffix_len(b)))
    } else {
        b
    }
}

/// `ws_suffix_len` of the first `len` bytes of `b`.
fn ws_suffix_at(b: &[u8], len: usize) -> (r: usize)
    requires
        len <= b@.len(),
    ensures
        r == ws_suffix_len(b@.subrange(0, len as int)),
{
    let ghost p = b@.subrange(0, len as int);
    if len >= 1 && ((9 <= b[len - 1] && b[len - 1] <= 13) || b[len - 1] == 32) {
        return 1;
    }
    if len >= 2 && b[len - 2] == 0xc2 && (b[len - 1] == 0x85 || b[len - 1] == 0xa0) {
        return 2;
    }
    if len >= 3 {
        let x = b[len - 3];
        let y = b[len - 2];
        let z = b[len - 1];
        if (x == 0xe1 && y == 0x9a && z == 0x80)
            || (x == 0xe2 && y == 0x80 && ((0x80 <= z && z <= 0x8a) || z == 0xa8 || z == 0xa9 || z == 0xaf))
            || (x == 0xe2 && y == 0x81 && z == 0x9f)
            || (x == 0xe3 && y == 0x80 && z == 0x80) {
            return 3;
        }
    }
    0
}

/// What a REPL input line means before any compiling: `None` for code; for a
/// line starting with `--`, a command, which ends the session when it is
/// `--quit` or `--exit` (trailing whitespace aside).
pub open spec fn command_status(b: Seq<u8>) -> Option<ReplStatus> {
    if b.len() >= 2 && b[0] == 45 && b[1] == 45 {
        let t = trim_end(b);
        if t == "--quit".spec_bytes() || t == "--exit".spec_bytes() {
            Some(ReplStatus::ReplTerminate)
        } else {
            Some(ReplStatus::ReplOk)
        }
    } else {
        None
    }
}

fn bytes_are(b: &[u8], len: usize, s: &str) -> (r: bool)
    requires
        len <= b@.len(),
    ensures
        r == (b@.subrange(0, len as int) == s.spec_bytes()),
{
    let t = s.as_bytes();
    if t.len() != len {
        return false;
    }
    let mut i: usize = 0;
    while i < len
        invariant
            i <= len,
            len <= b@.len(),
            t@.len() == len,
            t@ == s.spec_bytes(),
            forall|k: int| 0 <= k < i ==> b@[k] == t@[k],
        decreases len - i,
    {
        if b[i] != t[i] {
            assert(b@.subrange(0, len as int)[i as int] != t@[i as int]);
            return false;
        }
        i = i + 1;
    }
    assert(b@.subrange(0, len as int) =~= t@);
    true
}

/// Classifies a REPL input line as `command_status` says.
pub fn line_status(line: &str) -> (r: Option<ReplStatus>)
    ensures
        r == command_status(line.spec_bytes()),
{
    let b = line.as_bytes();
    if b.len() < 2 || b[0] != 45 || b[1] != 45 {
        return None;
    }
    let mut len: usize = b.len();
    assert(b@.subrange(0, len as int) =~= b@);
    let mut k = ws_suffix_at(b, len);
    while k > 0
        invariant
            len <= b@.len(),
            k == ws_suffix_len(b@.subrange(0, len as int)),
            trim_end(b@) == trim_end(b@.subrange(0, len as int)),
        decreases len,
    {
        assert(b@.subrange(0, len as int).subrange(0, len - k) =~= b@.subrange(0, len - k));
        len = len - k;
        k = ws_suffix_at(b, len);
    }
    assert(trim_end(b@.subrange(0, len as int)) == b@.subrange(0, len as int));
    assert(b@.subrange(0, b@.len() as int) =~= b@);
    if bytes_are(b, len, "--quit") || bytes_are(b, len, "--exit") {
        Some(ReplStatus::ReplTerminate)
    } else {
        Some(ReplStatus::ReplOk)
    }
}

} // verus!
