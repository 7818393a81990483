use vstd::prelude::*;

verus! {

/// One compiled instruction. Counts of the six foldable variants are at
/// least 1 in a compiled stream; the two jump variants carry the absolute
/// index of the paired bracket instruction within the stream.
#[derive(Debug, Copy, Clone, PartialEq, Eq, Structural)]
pub enum Instruction {
    /// Add the count to the current cell, modulo 256.
    Inc(usize),
    /// Subtract the count from the current cell, modulo 256.
    Dec(usize),
    /// Move the memory cursor right by the count.
    IncMemPtr(usize),
    /// Move the memory cursor left by the count.
    DecMemPtr(usize),
    /// Read the count's worth of input bytes into the current cell; only
    /// the last byte read stays visible.
    GetChar(usize),
    /// Emit the current cell to the output, count times.
    PutChar(usize),
    /// If the current cell is zero, jump to the paired closing bracket.
    JmpToIfZero(usize),
    /// If the current cell is not zero, jump back to the paired opening
    /// bracket.
    JmpBackIfNonZero(usize),
}

/// The mathematical model of an instruction: the same eight variants with
/// unbounded natural payloads.
pub enum SpecInstruction {
    Inc(nat),
    Dec(nat),
    IncMemPtr(nat),
    DecMemPtr(nat),
    GetChar(nat),
    PutChar(nat),
    JmpToIfZero(nat),
    JmpBackIfNonZero(nat),
}

impl View for Instruction {
    type V = SpecInstruction;

    open spec fn view(&self) -> SpecInstruction {
        match *self {
            Instruction::Inc(n) => SpecInstruction::Inc(n as nat),
            Instruction::Dec(n) => SpecInstruction::Dec(n as nat),
            Instruction::IncMemPtr(n) => SpecInstruction::IncMemPtr(n as nat),
            Instruction::DecMemPtr(n) => SpecInstruction::DecMemPtr(n as nat),
            Instruction::GetChar(n) => SpecInstruction::GetChar(n as nat),
            Instruction::PutChar(n) => SpecInstruction::PutChar(n as nat),
            Instruction::JmpToIfZero(t) => SpecInstruction::JmpToIfZero(t as nat),
            Instruction::JmpBackIfNonZero(t) => SpecInstruction::JmpBackIfNonZero(t as nat),
        }
    }
}

/// The model of a whole stream: each instruction replaced by its model.
pub open spec fn stream_view(s: Seq<Instruction>) -> Seq<SpecInstruction> {
    s.map_values(|x: Instruction| x@)
}

/// The single natural payload of an instruction: the count of a foldable
/// instruction, the target of a jump.
pub open spec fn payload_of(i: SpecInstruction) -> nat {
    match i {
        SpecInstruction::Inc(n) => n,
        SpecInstruction::Dec(n) => n,
        SpecInstruction::IncMemPtr(n) => n,
        SpecInstruction::DecMemPtr(n) => n,
        SpecInstruction::GetChar(n) => n,
        SpecInstruction::PutChar(n) => n,
        SpecInstruction::JmpToIfZero(t) => t,
        SpecInstruction::JmpBackIfNonZero(t) => t,
    }
}

/// True of the six counted variants; the two jumps never fold.
pub open spec fn is_foldable_inst(i: SpecInstruction) -> bool {
    !(i is JmpToIfZero) && !(i is JmpBackIfNonZero)
}

/// Both instructions are the same foldable variant, whatever their counts.
pub open spec fn same_foldable_variant(a: SpecInstruction, b: SpecInstruction) -> bool {
    ||| (a is Inc && b is Inc)
    ||| (a is Dec && b is Dec)
    ||| (a is IncMemPtr && b is IncMemPtr)
    ||| (a is DecMemPtr && b is DecMemPtr)
    ||| (a is GetChar && b is GetChar)
    ||| (a is PutChar && b is PutChar)
}

/// Appending to a stream appends the instruction's model to the stream's
/// model.
pub proof fn lemma_stream_view_push(s: Seq<Instruction>, x: Instruction)
    ensures
        stream_view(s.push(x)) == stream_view(s).push(x@),
{
    assert(stream_view(s.push(x)) =~= stream_view(s).push(x@));
}

/// Replacing one instruction replaces exactly its model.
pub proof fn lemma_stream_view_update(s: Seq<Instruction>, i: int, x: Instruction)
    requires
        0 <= i < s.len(),
    ensures
        stream_view(s.update(i, x)) == stream_view(s).update(i, x@),
{
    assert(stream_view(s.update(i, x)) =~= stream_view(s).update(i, x@));
}

} // verus!
