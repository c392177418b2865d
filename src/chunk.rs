//! A chunk: an instruction stream with the constant table it indexes, and
//! the index shifting that lets chunks be concatenated.
use crate::opcode::OpCode;
use crate::value::ThetaValue;
use vstd::prelude::*;

verus! {

/// An ordered instruction stream and the constants its `Constant`
/// instructions refer to by index.
#[derive(Clone, Debug)]
pub struct Chunk {
    pub instructions: Vec<OpCode>,
    pub constants: Vec<ThetaValue>,
}

/// One instruction with its constant index shifted by `n`; every other
/// instruction unchanged.
pub open spec fn relocate_op(op: OpCode, n: int) -> OpCode {
    match op {
        OpCode::Constant { index } => OpCode::Constant { index: (index + n) as u8 },
        _ => op,
    }
}

/// Every instruction of `s` relocated by `n`.
pub open spec fn relocated(s: Seq<OpCode>, n: int) -> Seq<OpCode> {
    s.map_values(|op: OpCode| relocate_op(op, n))
}

/// Shifting each constant index of `s` by `n` keeps it within one byte.
pub open spec fn fits_relocation(s: Seq<OpCode>, n: int) -> bool {
    forall|i: int| 0 <= i < s.len() ==> (#[trigger] s[i] matches OpCode::Constant { index } ==> index + n <= 255)
}

impl Chunk {
    /// An empty chunk.
    pub fn new() -> (r: Chunk)
        ensures
            r.instructions@ == Seq::<OpCode>::empty(),
            r.constants@ == Seq::<ThetaValue>::empty(),
    {
        Chunk { instructions: Vec::new(), constants: Vec::new() }
    }

    /// The instruction stream.
    pub fn instructions(&self) -> (r: &Vec<OpCode>)
        ensures
            r == &self.instructions,
    {
        &self.instructions
    }

    /// The constant table.
    pub fn constants(&self) -> (r: &Vec<ThetaValue>)
        ensures
            r == &self.constants,
    {
        &self.constants
    }

    /// Appends one instruction.
    pub fn write_to_chunk(&mut self, op: OpCode)
        ensures
            final(self).instructions@ == old(self).instructions@.push(op),
            final(self).constants@ == old(self).constants@,
    {
        self.instructions.push(op);
    }

    /// Appends a constant and returns its index.
    pub fn add_constant(&mut self, v: ThetaValue) -> (r: usize)
        ensures
            r == old(self).constants@.len(),
            final(self).constants@ == old(self).constants@.push(v),
            final(self).instructions@ == old(self).instructions@,
    {
        let r = self.constants.len();
        self.constants.push(v);
        r
    }

    /// A copy of this chunk with every `Constant { index }` turned into
    /// `Constant { index + n }`; other instructions and the constant table
    /// are kept as they are.
    pub fn relocate(&self, n: usize) -> (r: Chunk)
        requires
            fits_relocation(self.instructions@, n as int),
        ensures
            r.instructions@ == relocated(self.instructions@, n as int),
            r.constants@ == self.constants@,
    {
        let mut out: Vec<OpCode> = Vec::new();
        let mut i: usize = 0;
        while i < self.instructions.len()
            invariant
                i <= self.instructions@.len(),
                fits_relocation(self.instructions@, n as int),
                out@ == relocated(self.instructions@.take(i as int), n as int),
            decreases self.instructions@.len() - i,
        {
            let op = self.instructions[i];
            let moved = match op {
                OpCode::Constant { index } => {
                    assert(self.instructions@[i as int] matches OpCode::Constant { index } ==> index + n <= 255);
                    OpCode::Constant { index: (index as usize + n) as u8 }
                },
                _ => op,
            };
            out.push(moved);
            assert(self.instructions@.take(i + 1) =~= self.instructions@.take(i as int).push(op));
            i = i + 1;
            assert(out@ =~= relocated(self.instructions@.take(i as int), n as int));
        }
        assert(self.instructions@.take(i as int) =~= self.instructions@);
        Chunk { instructions: out, constants: self.constants.clone() }
    }

    /// The concatenation of two chunks: constants `self ++ other`, and
    /// instructions `self ++ other` with `other`'s shifted past `self`'s constants.
    pub fn merge_chunk(self, other: Chunk) -> (r: Chunk)
        requires
            fits_relocation(other.instructions@, self.constants@.len() as int),
        ensures
            r.constants@ == self.constants@ + other.constants@,
            r.instructions@ == self.instructions@ + relocated(other.instructions@, self.constants@.len() as int),
    {
        let moved = other.relocate(self.constants.len());
        let mut instructions = self.instructions;
        let mut constants = self.constants;
        let mut extra = moved.instructions;
        let mut more = other.constants;
        instructions.append(&mut extra);
        constants.append(&mut more);
        Chunk { instructions, constants }
    }
}

/// Relocation changes no instruction but `Constant`, and shifts each
/// `Constant { i }` to `Constant { i + n }`.
pub proof fn lemma_relocate_shifts(s: Seq<OpCode>, n: int, i: int)
    requires
        0 <= n,
        fits_relocation(s, n),
        0 <= i < s.len(),
    ensures
        relocated(s, n).len() == s.len(),
        s[i] is Constant ==> relocated(s, n)[i] == (OpCode::Constant { index: (s[i]->index + n) as u8 })
            && relocated(s, n)[i]->index == s[i]->index + n,
        !(s[i] is Constant) ==> relocated(s, n)[i] == s[i],
{
    assert(s[i] matches OpCode::Constant { index } ==> index + n <= 255);
}

/// Relocating by zero gives the chunk back.
pub proof fn lemma_relocate_zero(s: Seq<OpCode>)
    ensures
        fits_relocation(s, 0),
        relocated(s, 0) == s,
{
    assert forall|i: int| 0 <= i < s.len() implies (#[trigger] s[i] matches OpCode::Constant { index } ==> index + 0 <= 255) by {}
    assert(relocated(s, 0) =~= s);
}

/// Merging two chunks concatenates their constants, and their instructions
/// with the second's as relocating it by the first's constant count gives
/// them.
pub proof fn lemma_merge(a: Chunk, b: Chunk, m: Chunk, r: Chunk)
    requires
        fits_relocation(b.instructions@, a.constants@.len() as int),
        m.constants@ == a.constants@ + b.constants@,
        m.instructions@ == a.instructions@ + relocated(b.instructions@, a.constants@.len() as int),
        r.instructions@ == relocated(b.instructions@, a.constants@.len() as int),
        r.constants@ == b.constants@,
    ensures
        m.constants@ == a.constants@ + r.constants@,
        m.instructions@ == a.instructions@ + r.instructions@,
        m.instructions@.len() == a.instructions@.len() + b.instructions@.len(),
{
}

} // verus!
