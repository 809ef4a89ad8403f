//! The intermediate representation the engine consumes: a control-flow graph
//! of basic blocks over numbered storage slots, and the findings it reports.

use vstd::prelude::*;

verus! {

/// Declared kind of a slot.  Used only to label diagnostics; the analysis
/// semantics never read it.
#[derive(Clone, Copy, PartialEq, Eq, Structural, Debug)]
pub enum SlotKind {
    Value,
    Reference,
    RawPointer,
}

/// One instruction of the analyzed function body.
///
/// `AssignReference` with `via_deref == false` is a direct unique borrow of
/// `source`; with `via_deref == true` it is a reborrow through `source`.
/// `AssignRawPointer` with `via_deref == true` forms an untyped pointer view
/// through `source`.  `AssignOther` assigns an unrelated fresh value.
/// `WritePointerTarget` writes through the pointer held in `target`; the
/// written operand `value` plays no part in the analysis.
#[derive(Clone, Copy, PartialEq, Eq, Structural, Debug)]
pub enum Instr {
    AssignReference { dest: usize, source: usize, via_deref: bool, is_unique: bool },
    AssignRawPointer { dest: usize, source: usize, via_deref: bool },
    AssignOther { dest: usize },
    WritePointerTarget { target: usize, value: usize },
}

impl Instr {
    /// Every slot the instruction names lies below `n`.
    pub open spec fn wf(self, n: nat) -> bool {
        match self {
            Instr::AssignReference { dest, source, .. } => dest < n && source < n,
            Instr::AssignRawPointer { dest, source, .. } => dest < n && source < n,
            Instr::AssignOther { dest } => dest < n,
            Instr::WritePointerTarget { target, value } => target < n && value < n,
        }
    }
}

/// A basic block: an ordered instruction list and its successor edges.
pub struct Block {
    pub statements: Vec<Instr>,
    pub successors: Vec<usize>,
}

impl Block {
    pub open spec fn wf(self, n_slots: nat, n_blocks: nat) -> bool {
        &&& self.statements@.len() <= usize::MAX as int
        &&& forall|k: int| 0 <= k < self.statements@.len() ==> (#[trigger] self.statements@[k]).wf(
            n_slots,
        )
        &&& forall|j: int| 0 <= j < self.successors@.len() ==> #[trigger] self.successors@[j]
            < n_blocks
    }
}

/// The control-flow graph of one function body.
pub struct Cfg {
    pub n_slots: usize,
    pub entry: usize,
    pub blocks: Vec<Block>,
    pub slot_kinds: Vec<SlotKind>,
}

impl Cfg {
    pub open spec fn wf(self) -> bool {
        &&& self.blocks@.len() <= usize::MAX as int
        &&& self.entry < self.blocks@.len()
        &&& self.slot_kinds@.len() == self.n_slots
        &&& forall|b: int| 0 <= b < self.blocks@.len() ==> (#[trigger] self.blocks@[b]).wf(
            self.n_slots as nat,
            self.blocks@.len(),
        )
    }
}

/// A position in the CFG: a block and an instruction index within it.
#[derive(Clone, Copy, PartialEq, Eq, Structural, Debug)]
pub struct Location {
    pub block: usize,
    pub statement_index: usize,
}

/// What a finding reports.
#[derive(Clone, Copy, PartialEq, Eq, Structural, Debug)]
pub enum FindingMessage {
    WriteThroughRevokedPointer,
}

/// One reported violation: a write performed through a revoked pointer.
#[derive(Clone, Copy, PartialEq, Eq, Structural, Debug)]
pub struct Finding {
    pub location: Location,
    pub slot: usize,
    pub message: FindingMessage,
}

} // verus!
