//! High-level IR: the tree of tape operations between the parser and the back
//! ends.

use vstd::prelude::*;

verus! {

/// One HIR instruction.
#[derive(Debug)]
pub enum HirInst {
    /// Move the data pointer by a number of cells.
    Move(isize),
    /// Add to the current cell, modulo 256.
    Add(i32),
    /// Clear the current cell.
    Zero,
    /// Write the current cell to the output.
    PutByte,
    /// Read a byte into the current cell.
    GetByte,
    /// For each `(off, f)` add `f` times the current cell to the cell at
    /// `off`; then clear the current cell.
    LinearMul(Vec<(isize, i32)>),
    /// Like `LinearMul`, and clears the cells at `sets` too; does nothing at
    /// all where the current cell is zero.
    LinearMulWithSets {
        /// Offsets with their factors.
        factors: Vec<(isize, i32)>,
        /// Offsets to clear.
        sets: Vec<isize>,
    },
    /// Move in the direction of the sign, which is not 0, until the current
    /// cell is zero.
    Scan(isize),
    /// Run the body while the current cell is not zero.
    Loop(Vec<HirInst>),
}

/// A HIR program.
#[derive(Debug)]
pub struct HirProgram {
    /// Instructions in execution order.
    pub insts: Vec<HirInst>,
}

/// A HIR instruction as a mathematical value.
pub enum Hir {
    /// Move the data pointer.
    Move(int),
    /// Add to the current cell.
    Add(int),
    /// Clear the current cell.
    Zero,
    /// Write the current cell.
    PutByte,
    /// Read into the current cell.
    GetByte,
    /// Add multiples of the current cell to others and clear it.
    LinearMul(Seq<(int, int)>),
    /// The same, clearing further cells; nothing where the cell is zero.
    LinearMulWithSets(Seq<(int, int)>, Seq<int>),
    /// Move until the current cell is zero.
    Scan(int),
    /// Repeat while the current cell is not zero.
    Loop(Seq<Hir>),
}

/// A list of offsets and factors as mathematical values.
pub open spec fn factors_view(factors: Seq<(isize, i32)>) -> Seq<(int, int)> {
    Seq::new(factors.len(), |i: int| (factors[i].0 as int, factors[i].1 as int))
}

/// A list of offsets as mathematical values.
pub open spec fn sets_view(sets: Seq<isize>) -> Seq<int> {
    Seq::new(sets.len(), |i: int| sets[i] as int)
}

/// The value of a HIR instruction.
pub open spec fn hir_view(inst: HirInst) -> Hir
    decreases inst,
{
    match inst {
        HirInst::Move(d) => Hir::Move(d as int),
        HirInst::Add(k) => Hir::Add(k as int),
        HirInst::Zero => Hir::Zero,
        HirInst::PutByte => Hir::PutByte,
        HirInst::GetByte => Hir::GetByte,
        HirInst::LinearMul(factors) => Hir::LinearMul(factors_view(factors@)),
        HirInst::LinearMulWithSets { factors, sets } => Hir::LinearMulWithSets(
            factors_view(factors@),
            sets_view(sets@),
        ),
        HirInst::Scan(dir) => Hir::Scan(dir as int),
        HirInst::Loop(body) => Hir::Loop(hirs_view(body@)),
    }
}

/// The values of a list of HIR instructions.
pub open spec fn hirs_view(insts: Seq<HirInst>) -> Seq<Hir>
    decreases insts,
{
    if insts.len() == 0 {
        Seq::empty()
    } else {
        hirs_view(insts.drop_last()).push(hir_view(insts.last()))
    }
}

/// The values stand in the order of the instructions.
pub proof fn lemma_hirs_index(insts: Seq<HirInst>)
    ensures
        hirs_view(insts).len() == insts.len(),
        forall|i: int| 0 <= i < insts.len() ==> #[trigger] hirs_view(insts)[i] == hir_view(insts[i]),
    decreases insts.len(),
{
    if insts.len() > 0 {
        lemma_hirs_index(insts.drop_last());
        assert forall|i: int| 0 <= i < insts.len() implies #[trigger] hirs_view(insts)[i]
            == hir_view(insts[i]) by {
            if i < insts.len() - 1 {
                assert(hirs_view(insts.drop_last())[i] == hir_view(insts.drop_last()[i]));
            }
        }
    }
}

/// The value of a list with one more instruction.
pub proof fn lemma_hirs_push(insts: Seq<HirInst>, inst: HirInst)
    ensures
        hirs_view(insts.push(inst)) == hirs_view(insts).push(hir_view(inst)),
{
    assert(insts.push(inst).drop_last() =~= insts);
}

/// Whether some instruction, at any depth, writes a byte.
pub open spec fn writes(insts: Seq<Hir>) -> bool
    decreases insts,
{
    exists|i: int| 0 <= i < insts.len() && one_writes(#[trigger] insts[i])
}

/// Whether the instruction, or one inside it, writes a byte.
pub open spec fn one_writes(inst: Hir) -> bool
    decreases inst,
{
    match inst {
        Hir::PutByte => true,
        Hir::Loop(body) => writes(body),
        _ => false,
    }
}

/// Whether some instruction, at any depth, reads a byte.
pub open spec fn reads(insts: Seq<Hir>) -> bool
    decreases insts,
{
    exists|i: int| 0 <= i < insts.len() && one_reads(#[trigger] insts[i])
}

/// Whether the instruction, or one inside it, reads a byte.
pub open spec fn one_reads(inst: Hir) -> bool
    decreases inst,
{
    match inst {
        Hir::GetByte => true,
        Hir::Loop(body) => reads(body),
        _ => false,
    }
}

fn block_writes(insts: &Vec<HirInst>) -> (b: bool)
    ensures
        b == writes(hirs_view(insts@)),
    decreases insts,
{
    proof {
        lemma_hirs_index(insts@);
    }
    let ghost hirs = hirs_view(insts@);
    let mut i: usize = 0;
    while i < insts.len()
        invariant
            i <= insts.len(),
            hirs == hirs_view(insts@),
            hirs.len() == insts@.len(),
            forall|k: int| 0 <= k < insts@.len() ==> #[trigger] hirs[k] == hir_view(insts@[k]),
            forall|k: int| 0 <= k < i ==> !one_writes(#[trigger] hirs[k]),
        decreases insts.len() - i,
    {
        let found = match &insts[i] {
            HirInst::PutByte => true,
            HirInst::Loop(body) => block_writes(body),
            _ => false,
        };
        assert(hirs[i as int] == hir_view(insts@[i as int]));
        if found {
            return true;
        }
        i += 1;
    }
    false
}

fn block_reads(insts: &Vec<HirInst>) -> (b: bool)
    ensures
        b == reads(hirs_view(insts@)),
    decreases insts,
{
    proof {
        lemma_hirs_index(insts@);
    }
    let ghost hirs = hirs_view(insts@);
    let mut i: usize = 0;
    while i < insts.len()
        invariant
            i <= insts.len(),
            hirs == hirs_view(insts@),
            hirs.len() == insts@.len(),
            forall|k: int| 0 <= k < insts@.len() ==> #[trigger] hirs[k] == hir_view(insts@[k]),
            forall|k: int| 0 <= k < i ==> !one_reads(#[trigger] hirs[k]),
        decreases insts.len() - i,
    {
        let found = match &insts[i] {
            HirInst::GetByte => true,
            HirInst::Loop(body) => block_reads(body),
            _ => false,
        };
        assert(hirs[i as int] == hir_view(insts@[i as int]));
        if found {
            return true;
        }
        i += 1;
    }
    false
}

impl HirProgram {
    /// Whether the program can write to the output.
    pub fn has_put_byte(&self) -> (b: bool)
        ensures
            b == writes(hirs_view(self.insts@)),
    {
        block_writes(&self.insts)
    }

    /// Whether the program can read from the input.
    pub fn has_get_byte(&self) -> (b: bool)
        ensures
            b == reads(hirs_view(self.insts@)),
    {
        block_reads(&self.insts)
    }
}

} // verus!
