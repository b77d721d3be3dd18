//! Interpreter bytecode.
//!
//! A flat instruction format. Loops are `LoopStart` / `LoopEnd` pairs with
//! absolute jump targets, frequent pairs are single operations, writes at an
//! offset need no pointer moves, and a loop without I/O is one operation.

use std::sync::Arc;

use vstd::prelude::*;

verus! {

/// Packed factor list of a `LinearMul` operation.
#[derive(Debug, PartialEq, Eq)]
pub struct LinearMulPlan {
    /// Offsets with their factors modulo 256, as signed values.
    pub factors: Vec<(i32, i16)>,
}

/// Packed factors and cleared offsets of a `LinearMulWithSets` operation.
#[derive(Debug, PartialEq, Eq)]
pub struct LinearMulWithSetsPlan {
    /// Offsets with their factors modulo 256, as signed values.
    pub factors: Vec<(i32, i16)>,
    /// Offsets that are cleared where the current cell is not zero.
    pub sets: Vec<i32>,
}

/// A loop body that runs as one operation.
///
/// The body holds no I/O and no jumps. After each run of the body the loop
/// condition is tested at the pointer that the body leaves.
#[derive(Debug, PartialEq, Eq)]
pub struct LoopBlockPlan {
    /// Where execution goes on behind the loop.
    pub after_pc: u32,
    /// The body.
    pub ops: Vec<InterpOp>,
}

/// One bytecode operation.
#[allow(inconsistent_fields)]
#[derive(Debug, PartialEq, Eq)]
pub enum InterpOp {
    /// Does nothing; keeps the place of an operation that is gone.
    NoOp,
    /// Move the data pointer.
    Move(i32),
    /// Add to the current cell, modulo 256.
    Add(i32),
    /// Move by `d`, then add `k`.
    MoveAdd {
        /// Distance to move.
        d: i32,
        /// Amount to add.
        k: i32,
    },
    /// Clear the current cell, then move.
    ZeroMove(i32),
    /// Add to the cell at `off` without moving.
    AddAt {
        /// Offset of the cell.
        off: i32,
        /// Amount to add.
        delta: i32,
    },
    /// Set the cell at `off` without moving.
    SetAt {
        /// Offset of the cell.
        off: i32,
        /// The value to store.
        val: u8,
    },
    /// Set the current cell.
    SetByte(u8),
    /// Write the current cell to the output.
    PutByte,
    /// Read a byte into the current cell.
    GetByte,
    /// Clear the current cell.
    Zero,
    /// Add multiples of the current cell to others, then clear it.
    LinearMul(Arc<LinearMulPlan>),
    /// Like `LinearMul`, and clears further cells; does nothing where the
    /// current cell is zero.
    LinearMulWithSets(Arc<LinearMulWithSetsPlan>),
    /// Move by the step, 1 or -1, until the current cell is zero.
    Scan(i8),
    /// Run a body until the current cell is zero.
    LoopBlock(Arc<LoopBlockPlan>),
    /// Where the current cell is zero, go on behind `end_pc`.
    LoopStart {
        /// Index of the matching `LoopEnd`.
        end_pc: u32,
    },
    /// Where the current cell is not zero, go on behind `start_pc`.
    LoopEnd {
        /// Index of the matching `LoopStart`.
        start_pc: u32,
    },
}

/// Number of distinct tags.
pub const INTERP_OP_TAG_COUNT: usize = 17;

impl InterpOp {
    /// The operation's number.
    pub open spec fn tag_of(self) -> int {
        match self {
            InterpOp::NoOp => 0,
            InterpOp::Move(_) => 1,
            InterpOp::Add(_) => 2,
            InterpOp::MoveAdd { .. } => 3,
            InterpOp::ZeroMove(_) => 4,
            InterpOp::AddAt { .. } => 5,
            InterpOp::SetAt { .. } => 6,
            InterpOp::SetByte(_) => 7,
            InterpOp::PutByte => 8,
            InterpOp::GetByte => 9,
            InterpOp::Zero => 10,
            InterpOp::LinearMul(_) => 11,
            InterpOp::LinearMulWithSets(_) => 12,
            InterpOp::Scan(_) => 13,
            InterpOp::LoopBlock(_) => 14,
            InterpOp::LoopStart { .. } => 15,
            InterpOp::LoopEnd { .. } => 16,
        }
    }

    /// The operation's number, below [`INTERP_OP_TAG_COUNT`].
    pub fn tag(&self) -> (n: usize)
        ensures
            n == self.tag_of(),
            n < INTERP_OP_TAG_COUNT,
    {
        match self {
            InterpOp::NoOp => 0,
            InterpOp::Move(_) => 1,
            InterpOp::Add(_) => 2,
            InterpOp::MoveAdd { .. } => 3,
            InterpOp::ZeroMove(_) => 4,
            InterpOp::AddAt { .. } => 5,
            InterpOp::SetAt { .. } => 6,
            InterpOp::SetByte(_) => 7,
            InterpOp::PutByte => 8,
            InterpOp::GetByte => 9,
            InterpOp::Zero => 10,
            InterpOp::LinearMul(_) => 11,
            InterpOp::LinearMulWithSets(_) => 12,
            InterpOp::Scan(_) => 13,
            InterpOp::LoopBlock(_) => 14,
            InterpOp::LoopStart { .. } => 15,
            InterpOp::LoopEnd { .. } => 16,
        }
    }
}

/// A program in bytecode form.
#[derive(Debug, PartialEq, Eq)]
pub struct InterpProgram {
    /// The operations; jump targets are indices into this list.
    pub ops: Vec<InterpOp>,
}

/// A bytecode operation as a mathematical value.
pub enum Op {
    /// Does nothing.
    NoOp,
    /// Move the data pointer.
    Move(int),
    /// Add to the current cell.
    Add(int),
    /// Move, then add.
    MoveAdd(int, int),
    /// Clear, then move.
    ZeroMove(int),
    /// Add at an offset.
    AddAt(int, int),
    /// Set at an offset.
    SetAt(int, int),
    /// Set the current cell.
    SetByte(int),
    /// Write the current cell.
    PutByte,
    /// Read into the current cell.
    GetByte,
    /// Clear the current cell.
    Zero,
    /// Add multiples of the current cell to others and clear it.
    LinearMul(Seq<(int, int)>),
    /// The same, clearing further cells; nothing where the cell is zero.
    LinearMulWithSets(Seq<(int, int)>, Seq<int>),
    /// Move until the current cell is zero.
    Scan(int),
    /// A whole loop: where it goes on, and its body.
    LoopBlock(int, Seq<Op>),
    /// Start of a loop, with the index of its end.
    LoopStart(int),
    /// End of a loop, with the index of its start.
    LoopEnd(int),
}

/// A packed factor list as mathematical values.
pub open spec fn packed_view(factors: Seq<(i32, i16)>) -> Seq<(int, int)> {
    Seq::new(factors.len(), |i: int| (factors[i].0 as int, factors[i].1 as int))
}

/// A packed list of offsets as mathematical values.
pub open spec fn packed_sets_view(sets: Seq<i32>) -> Seq<int> {
    Seq::new(sets.len(), |i: int| sets[i] as int)
}

/// The value of an operation.
pub open spec fn op_view(op: InterpOp) -> Op
    decreases op,
{
    match op {
        InterpOp::NoOp => Op::NoOp,
        InterpOp::Move(d) => Op::Move(d as int),
        InterpOp::Add(k) => Op::Add(k as int),
        InterpOp::MoveAdd { d, k } => Op::MoveAdd(d as int, k as int),
        InterpOp::ZeroMove(d) => Op::ZeroMove(d as int),
        InterpOp::AddAt { off, delta } => Op::AddAt(off as int, delta as int),
        InterpOp::SetAt { off, val } => Op::SetAt(off as int, val as int),
        InterpOp::SetByte(v) => Op::SetByte(v as int),
        InterpOp::PutByte => Op::PutByte,
        InterpOp::GetByte => Op::GetByte,
        InterpOp::Zero => Op::Zero,
        InterpOp::LinearMul(plan) => Op::LinearMul(packed_view(plan.factors@)),
        InterpOp::LinearMulWithSets(plan) => Op::LinearMulWithSets(
            packed_view(plan.factors@),
            packed_sets_view(plan.sets@),
        ),
        InterpOp::Scan(step) => Op::Scan(step as int),
        InterpOp::LoopBlock(plan) => Op::LoopBlock(plan.after_pc as int, ops_view(plan.ops@)),
        InterpOp::LoopStart { end_pc } => Op::LoopStart(end_pc as int),
        InterpOp::LoopEnd { start_pc } => Op::LoopEnd(start_pc as int),
    }
}

/// The values of a list of operations.
pub open spec fn ops_view(ops: Seq<InterpOp>) -> Seq<Op>
    decreases ops,
{
    if ops.len() == 0 {
        Seq::empty()
    } else {
        ops_view(ops.drop_last()).push(op_view(ops.last()))
    }
}

/// The values stand in the order of the operations.
pub broadcast proof fn lemma_ops_index(ops: Seq<InterpOp>, i: int)
    requires
        0 <= i < ops.len(),
    ensures
        #[trigger] ops_view(ops)[i] == op_view(ops[i]),
    decreases ops.len(),
{
    lemma_ops_len(ops.drop_last());
    if i < ops.len() - 1 {
        lemma_ops_index(ops.drop_last(), i);
    }
}

/// There are as many values as operations.
pub broadcast proof fn lemma_ops_len(ops: Seq<InterpOp>)
    ensures
        #[trigger] ops_view(ops).len() == ops.len(),
    decreases ops.len(),
{
    if ops.len() > 0 {
        lemma_ops_len(ops.drop_last());
    }
}

/// What is known of the values of a list of operations.
pub broadcast group group_ops_view {
    lemma_ops_index,
    lemma_ops_len,
}

} // verus!
