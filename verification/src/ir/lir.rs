//! Low-level IR: a flat list of tape operations with explicit labels.

use vstd::prelude::*;

use crate::ir::hir::{factors_view, sets_view};

verus! {

/// Identifier of a jump target inside a LIR program.
#[derive(Debug, Clone, Copy, PartialEq, Eq, Hash, Structural)]
pub struct LabelId(pub u32);

/// One LIR instruction.
///
/// Offsets count cells relative to the data pointer. Cells are bytes and wrap.
#[allow(inconsistent_fields)]
#[derive(Debug, Clone, PartialEq, Eq)]
pub enum LirInst {
    /// Move the data pointer by a number of cells.
    PtrAdd(isize),

    /// Make sure that the cells from `lo_extent` to `hi_extent` exist, then
    /// move the data pointer by `delta`, which lies within them.
    PtrAddChecked {
        /// Distance to move.
        delta: isize,
        /// Lowest offset that has to exist, at most 0.
        lo_extent: isize,
        /// Highest offset that has to exist, at least 0.
        hi_extent: isize,
    },

    /// For each `(off, f)` add `f` times the current cell to the cell at
    /// `off`; then clear the current cell.
    LinearMul(Vec<(isize, i32)>),

    /// Like `LinearMul`, and clears the cells at `sets` too; does nothing at
    /// all where the current cell is zero.
    LinearMulWithSets {
        /// Offsets with their factors.
        factors: Vec<(isize, i32)>,
        /// Offsets to clear.
        sets: Vec<isize>,
    },

    /// Move by the given step, 1 or -1, until the current cell is zero.
    Scan(isize),

    /// Like `Scan`, where the next `hint_bytes` cells are known to exist.
    ScanWithHint {
        /// The step, 1 or -1.
        dir: isize,
        /// Number of cells that exist in that direction.
        hint_bytes: u32,
    },

    /// Add to the current cell.
    CellAdd(i32),

    /// Set the current cell.
    CellSet(u8),

    /// Add to the cell at `off`, which is not 0.
    CellAddAt {
        /// Offset of the cell.
        off: isize,
        /// Amount to add.
        delta: i32,
    },

    /// Set the cell at `off`, which is not 0.
    CellSetAt {
        /// Offset of the cell.
        off: isize,
        /// The value to store.
        val: u8,
    },

    /// Clear `count` cells, at least two, from offset `start` on.
    ZeroRun {
        /// Offset of the first cell.
        start: i32,
        /// Number of cells.
        count: u32,
    },

    /// Write the current cell to the output.
    PutByte,

    /// Read a byte into the current cell.
    GetByte,

    /// Jump target.
    Label(LabelId),

    /// Jump where the current cell is zero.
    JumpIfZero(LabelId),

    /// Jump where the current cell is not zero.
    JumpIfNonZero(LabelId),
}

/// A LIR program.
#[derive(Debug, Clone, PartialEq, Eq)]
pub struct LirProgram {
    /// Instructions in execution order.
    pub insts: Vec<LirInst>,
}

impl LirProgram {
    /// Number of instructions.
    pub fn len(&self) -> (n: usize)
        ensures
            n == self.insts@.len(),
    {
        self.insts.len()
    }
}

/// Hands out fresh labels, counting up from 0.
#[derive(Debug)]
pub struct LabelGen {
    next: u32,
}

impl LabelGen {
    /// The number of the next label.
    pub closed spec fn next_id(self) -> int {
        self.next as int
    }

    /// A generator whose first label is 0.
    pub fn new() -> (g: Self)
        ensures
            g.next_id() == 0,
    {
        LabelGen { next: 0 }
    }

    /// The next unused label.
    pub fn fresh(&mut self) -> (id: LabelId)
        requires
            old(self).next_id() < u32::MAX,
        ensures
            id.0 == old(self).next_id(),
            final(self).next_id() == old(self).next_id() + 1,
    {
        let id = LabelId(self.next);
        self.next += 1;
        id
    }
}

/// A LIR instruction as a mathematical value.
pub enum Lir {
    /// Move the data pointer.
    PtrAdd(int),
    /// Make cells exist, then move: distance, lowest and highest offset.
    PtrAddChecked(int, int, int),
    /// Add multiples of the current cell to others and clear it.
    LinearMul(Seq<(int, int)>),
    /// The same, clearing further cells; nothing where the cell is zero.
    LinearMulWithSets(Seq<(int, int)>, Seq<int>),
    /// Move until the current cell is zero.
    Scan(int),
    /// The same, with a number of cells that exist.
    ScanWithHint(int, int),
    /// Add to the current cell.
    CellAdd(int),
    /// Set the current cell.
    CellSet(int),
    /// Add at an offset.
    CellAddAt(int, int),
    /// Set at an offset.
    CellSetAt(int, int),
    /// Clear cells from an offset on.
    ZeroRun(int, int),
    /// Write the current cell.
    PutByte,
    /// Read into the current cell.
    GetByte,
    /// Jump target.
    Label(int),
    /// Jump where the current cell is zero.
    JumpIfZero(int),
    /// Jump where the current cell is not zero.
    JumpIfNonZero(int),
}

/// The value of a LIR instruction.
pub open spec fn lir_view(inst: LirInst) -> Lir {
    match inst {
        LirInst::PtrAdd(d) => Lir::PtrAdd(d as int),
        LirInst::PtrAddChecked { delta, lo_extent, hi_extent } => Lir::PtrAddChecked(
            delta as int,
            lo_extent as int,
            hi_extent as int,
        ),
        LirInst::LinearMul(factors) => Lir::LinearMul(factors_view(factors@)),
        LirInst::LinearMulWithSets { factors, sets } => Lir::LinearMulWithSets(
            factors_view(factors@),
            sets_view(sets@),
        ),
        LirInst::Scan(dir) => Lir::Scan(dir as int),
        LirInst::ScanWithHint { dir, hint_bytes } => Lir::ScanWithHint(
            dir as int,
            hint_bytes as int,
        ),
        LirInst::CellAdd(k) => Lir::CellAdd(k as int),
        LirInst::CellSet(v) => Lir::CellSet(v as int),
        LirInst::CellAddAt { off, delta } => Lir::CellAddAt(off as int, delta as int),
        LirInst::CellSetAt { off, val } => Lir::CellSetAt(off as int, val as int),
        LirInst::ZeroRun { start, count } => Lir::ZeroRun(start as int, count as int),
        LirInst::PutByte => Lir::PutByte,
        LirInst::GetByte => Lir::GetByte,
        LirInst::Label(id) => Lir::Label(id.0 as int),
        LirInst::JumpIfZero(id) => Lir::JumpIfZero(id.0 as int),
        LirInst::JumpIfNonZero(id) => Lir::JumpIfNonZero(id.0 as int),
    }
}

/// The values of a list of LIR instructions.
pub open spec fn lirs_view(insts: Seq<LirInst>) -> Seq<Lir> {
    Seq::new(insts.len(), |i: int| lir_view(insts[i]))
}

} // verus!
