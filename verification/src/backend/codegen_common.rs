//! Instruction selection shared by the Linux and the Windows back end.
//!
//! Holds the allocator of internal labels, the pointer moves with their
//! bounds checks, and the translation of a LIR program's body. What differs
//! between the platforms (output, input, stack alignment) is behind
//! [`PlatformEmitter`].
//!
//! Each emitter has a spec function that gives the instructions it appends.
//! The internal labels an emitter takes are counted down from `next`.

use std::collections::HashSet;

use vstd::prelude::*;

use crate::backend::asm_ir::{AsmInst, AsmLabel, Reg64};
use crate::ir::lir::{LabelId, LirInst, LirProgram};

verus! {

broadcast use vstd::std_specs::hash::group_hash_axioms;

/// Downward-counting allocator for transient internal labels.
///
/// User labels count up from 0; internal labels count down from a ceiling of
/// the platform's, and never below `floor`.
pub struct LabelAllocator {
    next: u32,
    floor: u32,
}

impl LabelAllocator {
    /// The number of the next label.
    pub closed spec fn next(self) -> int {
        self.next as int
    }

    /// The bound that the allocator stays above.
    pub closed spec fn floor(self) -> int {
        self.floor as int
    }

    /// An allocator that starts at `base` and counts down towards `floor`.
    pub fn new(base: u32, floor: u32) -> (r: Self)
        ensures
            r.next() == base,
            r.floor() == floor,
    {
        LabelAllocator { next: base, floor }
    }

    /// The next internal label.
    pub fn fresh(&mut self) -> (label: AsmLabel)
        requires
            old(self).next() > old(self).floor(),
        ensures
            label == internal(old(self).next(), 0),
            final(self).next() == old(self).next() - 1,
            final(self).floor() == old(self).floor(),
            0 <= final(self).floor() <= final(self).next() < u32::MAX,
    {
        let label = AsmLabel(self.next);
        self.next -= 1;
        label
    }
}

/// The internal label that is `k` allocations away when the allocator stands
/// at `next`.
pub open spec fn internal(next: int, k: int) -> AsmLabel {
    AsmLabel((next - k) as u32)
}

/// The labels of the run-time routines that a program body refers to.
#[derive(Debug, Clone, Copy, PartialEq, Eq, Structural)]
pub struct Routines {
    /// Grows the tape.
    pub ensure_tape: AsmLabel,
    /// Writes the output buffer out.
    pub flush_output: AsmLabel,
    /// Leaves the process with status 1.
    pub exit_one: AsmLabel,
}

/// Map a LIR [`LabelId`] onto an [`AsmLabel`]: the number stays the same.
pub fn map_label(id: LabelId) -> (label: AsmLabel)
    ensures
        label == AsmLabel(id.0),
{
    AsmLabel(id.0)
}

/// `add byte [r13 + off], imm` in the shortest form that holds `off`.
pub open spec fn add_at(off: int, imm: i8) -> AsmInst {
    if i8::MIN <= off <= i8::MAX {
        AsmInst::AddMem8ImmDisp8(Reg64::R13, off as i8, imm)
    } else {
        AsmInst::AddMem8ImmDisp32(Reg64::R13, off as i32, imm)
    }
}

/// `mov byte [r13 + off], val` in the shortest form that holds `off`.
pub open spec fn set_at(off: int, val: u8) -> AsmInst {
    if i8::MIN <= off <= i8::MAX {
        AsmInst::MovMem8ImmDisp8(Reg64::R13, off as i8, val)
    } else {
        AsmInst::MovMem8ImmDisp32(Reg64::R13, off as i32, val)
    }
}

/// Pick the form of the displaced add by the width of `off`.
pub fn mem8_add_at_r13(off: isize, imm: i8) -> (inst: AsmInst)
    requires
        i32::MIN <= off <= i32::MAX,
    ensures
        inst == add_at(off as int, imm),
{
    if -128 <= off && off <= 127 {
        AsmInst::AddMem8ImmDisp8(Reg64::R13, off as i8, imm)
    } else {
        AsmInst::AddMem8ImmDisp32(Reg64::R13, off as i32, imm)
    }
}

/// Pick the form of the displaced store by the width of `off`.
pub fn mem8_set_at_r13(off: isize, val: u8) -> (inst: AsmInst)
    requires
        i32::MIN <= off <= i32::MAX,
    ensures
        inst == set_at(off as int, val),
{
    if -128 <= off && off <= 127 {
        AsmInst::MovMem8ImmDisp8(Reg64::R13, off as i8, val)
    } else {
        AsmInst::MovMem8ImmDisp32(Reg64::R13, off as i32, val)
    }
}

/// `v` cut to the range of a 32-bit immediate.
pub open spec fn clamp_i32(v: int) -> int {
    if v > i32::MAX {
        i32::MAX as int
    } else if v < i32::MIN {
        i32::MIN as int
    } else {
        v
    }
}

/// `add reg, value` in as many 32-bit immediates as it takes.
pub open spec fn add_reg_insts(reg: Reg64, value: int) -> Seq<AsmInst>
    decreases
        if value < 0 {
            -value
        } else {
            value
        },
{
    if value == 0 {
        Seq::empty()
    } else {
        seq![AsmInst::AddRegImm32(reg, clamp_i32(value) as i32)] + add_reg_insts(
            reg,
            value - clamp_i32(value),
        )
    }
}

/// The immediates of [`add_reg_insts`] add up to the value.
pub open spec fn immediates_sum(insts: Seq<AsmInst>) -> int
    decreases insts.len(),
{
    if insts.len() == 0 {
        0
    } else {
        (match insts[0] {
            AsmInst::AddRegImm32(_, imm) => imm as int,
            _ => 0,
        }) + immediates_sum(insts.drop_first())
    }
}

/// Splitting a pointer move into immediates loses nothing: they add up to it.
pub proof fn law_split_add_is_exact(reg: Reg64, value: int)
    ensures
        immediates_sum(add_reg_insts(reg, value)) == value,
        forall|i: int|
            0 <= i < add_reg_insts(reg, value).len() ==> (#[trigger] add_reg_insts(
                reg,
                value,
            )[i]) is AddRegImm32,
    decreases
        if value < 0 {
            -value
        } else {
            value
        },
{
    if value != 0 {
        let rest = value - clamp_i32(value);
        law_split_add_is_exact(reg, rest);
        let insts = add_reg_insts(reg, value);
        assert(insts.drop_first() =~= add_reg_insts(reg, rest));
        assert forall|i: int| 0 <= i < insts.len() implies (#[trigger] insts[i]) is AddRegImm32 by {
            if i > 0 {
                assert(insts[i] == add_reg_insts(reg, rest)[i - 1]);
            }
        }
    }
}

/// Emit `add reg, value`, in several immediates where it exceeds 32 bits.
pub fn emit_add_reg_isize(out: &mut Vec<AsmInst>, reg: Reg64, value: isize)
    ensures
        final(out)@ == old(out)@ + add_reg_insts(reg, value as int),
{
    let mut remaining: i64 = value as i64;
    assert(out@ + add_reg_insts(reg, value as int) =~= old(out)@ + add_reg_insts(
        reg,
        value as int,
    ));
    while remaining != 0
        invariant
            out@ + add_reg_insts(reg, remaining as int) == old(out)@ + add_reg_insts(
                reg,
                value as int,
            ),
        decreases
            if remaining < 0 {
                -remaining
            } else {
                remaining as int
            },
    {
        let chunk: i32 = if remaining > 0x7FFF_FFFF {
            0x7FFF_FFFF
        } else if remaining < -0x8000_0000 {
            -0x8000_0000
        } else {
            remaining as i32
        };
        let ghost before = out@;
        out.push(AsmInst::AddRegImm32(reg, chunk));
        proof {
            assert(before + add_reg_insts(reg, remaining as int) =~= out@ + add_reg_insts(
                reg,
                remaining - chunk,
            ));
        }
        remaining = remaining - chunk as i64;
    }
    assert(out@ + add_reg_insts(reg, 0) =~= out@);
}

/// Move `r13` by `n`, with a call of the growth routine where the target is
/// outside the tape. Takes two labels, unless `n` is 0.
pub open spec fn ptr_add_insts(next: int, n: int, ensure_tape: AsmLabel) -> Seq<AsmInst> {
    if n == 0 {
        Seq::empty()
    } else {
        let slow_path = internal(next, 0);
        let done = internal(next, 1);
        seq![AsmInst::MovRegReg(Reg64::R15, Reg64::R13)] + add_reg_insts(Reg64::R15, n) + seq![
            AsmInst::CmpRegReg(Reg64::R15, Reg64::R12),
            AsmInst::Jb(slow_path),
            AsmInst::CmpRegReg(Reg64::R15, Reg64::R14),
            AsmInst::Jae(slow_path),
            AsmInst::MovRegReg(Reg64::R13, Reg64::R15),
            AsmInst::Jmp(done),
            AsmInst::Label(slow_path),
            AsmInst::Call(ensure_tape),
            AsmInst::Label(done),
        ]
    }
}

/// Labels taken by [`ptr_add_insts`].
pub open spec fn ptr_add_labels(n: int) -> int {
    if n == 0 {
        0
    } else {
        2
    }
}

/// Emit `PtrAdd`.
pub fn emit_ptr_add_out(
    out: &mut Vec<AsmInst>,
    labels: &mut LabelAllocator,
    n: isize,
    ensure_tape_label: AsmLabel,
)
    requires
        old(labels).next() - ptr_add_labels(n as int) >= old(labels).floor(),
    ensures
        final(out)@ == old(out)@ + ptr_add_insts(old(labels).next(), n as int, ensure_tape_label),
        final(labels).next() == old(labels).next() - ptr_add_labels(n as int),
        final(labels).floor() == old(labels).floor(),
{
    if n == 0 {
        assert(out@ =~= old(out)@ + ptr_add_insts(labels.next(), 0, ensure_tape_label));
        return ;
    }
    let slow_path = labels.fresh();
    let done = labels.fresh();
    out.push(AsmInst::MovRegReg(Reg64::R15, Reg64::R13));
    emit_add_reg_isize(out, Reg64::R15, n);
    out.push(AsmInst::CmpRegReg(Reg64::R15, Reg64::R12));
    out.push(AsmInst::Jb(slow_path));
    out.push(AsmInst::CmpRegReg(Reg64::R15, Reg64::R14));
    out.push(AsmInst::Jae(slow_path));
    out.push(AsmInst::MovRegReg(Reg64::R13, Reg64::R15));
    out.push(AsmInst::Jmp(done));
    out.push(AsmInst::Label(slow_path));
    out.push(AsmInst::Call(ensure_tape_label));
    out.push(AsmInst::Label(done));
    assert(out@ =~= old(out)@ + ptr_add_insts(
        old(labels).next(),
        n as int,
        ensure_tape_label,
    ));
}

/// Check that `r13 + lo` is not below the tape; nothing for an extent of 0.
pub open spec fn probe_low_insts(lo: int, slow: AsmLabel) -> Seq<AsmInst> {
    if lo < 0 {
        seq![AsmInst::MovRegReg(Reg64::R15, Reg64::R13)] + add_reg_insts(Reg64::R15, lo) + seq![
            AsmInst::CmpRegReg(Reg64::R15, Reg64::R12),
            AsmInst::Jb(slow),
        ]
    } else {
        Seq::empty()
    }
}

/// Check that `r13 + hi` is not past the tape; nothing for an extent of 0.
pub open spec fn probe_high_insts(hi: int, slow: AsmLabel) -> Seq<AsmInst> {
    if hi > 0 {
        seq![AsmInst::MovRegReg(Reg64::R15, Reg64::R13)] + add_reg_insts(Reg64::R15, hi) + seq![
            AsmInst::CmpRegReg(Reg64::R15, Reg64::R14),
            AsmInst::Jae(slow),
        ]
    } else {
        Seq::empty()
    }
}

/// Grow the tape so that `r13 + extent` exists, move `r13` back and probe
/// again; nothing for an extent of 0.
pub open spec fn regrow_insts(
    extent: int,
    slow: AsmLabel,
    retry: AsmLabel,
    ensure_tape: AsmLabel,
) -> Seq<AsmInst> {
    if extent != 0 {
        seq![AsmInst::Label(slow), AsmInst::Call(ensure_tape)] + add_reg_insts(
            Reg64::R13,
            -extent,
        ) + seq![AsmInst::Jmp(retry)]
    } else {
        Seq::empty()
    }
}

/// Make sure that `[r13 + lo, r13 + hi]` is mapped, then move `r13` by `delta`.
/// One probe per side that has an extent; after growth the move of `r13` by the
/// growth routine is undone and the probes run again. Takes four labels,
/// unless both extents are 0.
pub open spec fn ptr_add_checked_insts(
    next: int,
    delta: int,
    lo: int,
    hi: int,
    ensure_tape: AsmLabel,
) -> Seq<AsmInst> {
    if lo == 0 && hi == 0 {
        Seq::empty()
    } else {
        let retry = internal(next, 0);
        let slow_lo = internal(next, 1);
        let slow_hi = internal(next, 2);
        let done = internal(next, 3);
        seq![AsmInst::Label(retry)] + probe_low_insts(lo, slow_lo) + probe_high_insts(hi, slow_hi)
            + add_reg_insts(Reg64::R13, delta) + seq![AsmInst::Jmp(done)] + regrow_insts(
            lo,
            slow_lo,
            retry,
            ensure_tape,
        ) + regrow_insts(hi, slow_hi, retry, ensure_tape) + seq![AsmInst::Label(done)]
    }
}

/// Labels taken by [`ptr_add_checked_insts`].
pub open spec fn ptr_add_checked_labels(lo: int, hi: int) -> int {
    if lo == 0 && hi == 0 {
        0
    } else {
        4
    }
}

/// Emit the check of the low side.
fn emit_probe_low(out: &mut Vec<AsmInst>, lo: isize, slow: AsmLabel)
    ensures
        final(out)@ == old(out)@ + probe_low_insts(lo as int, slow),
{
    if lo < 0 {
        out.push(AsmInst::MovRegReg(Reg64::R15, Reg64::R13));
        emit_add_reg_isize(out, Reg64::R15, lo);
        out.push(AsmInst::CmpRegReg(Reg64::R15, Reg64::R12));
        out.push(AsmInst::Jb(slow));
    }
    assert(out@ =~= old(out)@ + probe_low_insts(lo as int, slow));
}

/// Emit the check of the high side.
fn emit_probe_high(out: &mut Vec<AsmInst>, hi: isize, slow: AsmLabel)
    ensures
        final(out)@ == old(out)@ + probe_high_insts(hi as int, slow),
{
    if hi > 0 {
        out.push(AsmInst::MovRegReg(Reg64::R15, Reg64::R13));
        emit_add_reg_isize(out, Reg64::R15, hi);
        out.push(AsmInst::CmpRegReg(Reg64::R15, Reg64::R14));
        out.push(AsmInst::Jae(slow));
    }
    assert(out@ =~= old(out)@ + probe_high_insts(hi as int, slow));
}

/// Emit the growth for one side.
fn emit_regrow(
    out: &mut Vec<AsmInst>,
    extent: isize,
    slow: AsmLabel,
    retry: AsmLabel,
    ensure_tape_label: AsmLabel,
)
    requires
        extent > isize::MIN,
    ensures
        final(out)@ == old(out)@ + regrow_insts(extent as int, slow, retry, ensure_tape_label),
{
    if extent != 0 {
        out.push(AsmInst::Label(slow));
        out.push(AsmInst::Call(ensure_tape_label));
        emit_add_reg_isize(out, Reg64::R13, -extent);
        out.push(AsmInst::Jmp(retry));
    }
    assert(out@ =~= old(out)@ + regrow_insts(extent as int, slow, retry, ensure_tape_label));
}

/// Emit `PtrAddChecked`.
pub fn emit_ptr_add_checked_out(
    out: &mut Vec<AsmInst>,
    labels: &mut LabelAllocator,
    delta: isize,
    lo_extent: isize,
    hi_extent: isize,
    ensure_tape_label: AsmLabel,
)
    requires
        isize::MIN < lo_extent <= delta <= hi_extent,
        lo_extent <= 0 <= hi_extent,
        old(labels).next() - ptr_add_checked_labels(lo_extent as int, hi_extent as int) >= old(
            labels).floor(),
    ensures
        final(out)@ == old(out)@ + ptr_add_checked_insts(
            old(labels).next(),
            delta as int,
            lo_extent as int,
            hi_extent as int,
            ensure_tape_label,
        ),
        final(labels).next() == old(labels).next() - ptr_add_checked_labels(
            lo_extent as int,
            hi_extent as int,
        ),
        final(labels).floor() == old(labels).floor(),
{
    if lo_extent == 0 && hi_extent == 0 {
        assert(out@ =~= old(out)@ + Seq::<AsmInst>::empty());
        return ;
    }
    let retry = labels.fresh();
    let slow_lo = labels.fresh();
    let slow_hi = labels.fresh();
    let done = labels.fresh();
    let ghost base = out@;
    out.push(AsmInst::Label(retry));
    let ghost s1 = seq![AsmInst::Label(retry)];
    assert(out@ =~= base + s1);
    emit_probe_low(out, lo_extent, slow_lo);
    let ghost s2 = s1 + probe_low_insts(lo_extent as int, slow_lo);
    assert(out@ =~= base + s2);
    emit_probe_high(out, hi_extent, slow_hi);
    let ghost s3 = s2 + probe_high_insts(hi_extent as int, slow_hi);
    assert(out@ =~= base + s3);
    emit_add_reg_isize(out, Reg64::R13, delta);
    let ghost s4 = s3 + add_reg_insts(Reg64::R13, delta as int);
    assert(out@ =~= base + s4);
    out.push(AsmInst::Jmp(done));
    let ghost s5 = s4 + seq![AsmInst::Jmp(done)];
    assert(out@ =~= base + s5);
    emit_regrow(out, lo_extent, slow_lo, retry, ensure_tape_label);
    let ghost s6 = s5 + regrow_insts(lo_extent as int, slow_lo, retry, ensure_tape_label);
    assert(out@ =~= base + s6);
    emit_regrow(out, hi_extent, slow_hi, retry, ensure_tape_label);
    let ghost s7 = s6 + regrow_insts(hi_extent as int, slow_hi, retry, ensure_tape_label);
    assert(out@ =~= base + s7);
    out.push(AsmInst::Label(done));
    assert(out@ =~= base + (s7 + seq![AsmInst::Label(done)]));
    assert(s7 + seq![AsmInst::Label(done)] == ptr_add_checked_insts(
        old(labels).next(),
        delta as int,
        lo_extent as int,
        hi_extent as int,
        ensure_tape_label,
    ));
}


/// What differs between the platforms: output, input, stack alignment.
pub trait PlatformEmitter {
    /// The instructions that write the current cell.
    spec fn put_byte_insts(&self, next: int, flush_output: AsmLabel) -> Seq<AsmInst>;

    /// Labels taken by `put_byte_insts`.
    spec fn put_byte_labels(&self) -> nat;

    /// The instructions that read into the current cell.
    spec fn get_byte_insts(
        &self,
        next: int,
        exit_one: AsmLabel,
        flush_output: AsmLabel,
    ) -> Seq<AsmInst>;

    /// Labels taken by `get_byte_insts`.
    spec fn get_byte_labels(&self) -> nat;

    /// Whether `call` needs the stack aligned to sixteen bytes.
    spec fn aligns_rsp(&self) -> bool;

    /// Whether a loop starts at a multiple of sixteen bytes.
    spec fn aligns_loops(&self) -> bool;

    /// Emit `PutByte`.
    fn emit_put_byte(
        &self,
        out: &mut Vec<AsmInst>,
        labels: &mut LabelAllocator,
        flush_output_label: AsmLabel,
    )
        requires
            old(labels).next() - self.put_byte_labels() >= old(labels).floor(),
        ensures
            final(out)@ == old(out)@ + self.put_byte_insts(old(labels).next(), flush_output_label),
            final(labels).next() == old(labels).next() - self.put_byte_labels(),
            final(labels).floor() == old(labels).floor(),
    ;

    /// Emit `GetByte`.
    fn emit_get_byte(
        &self,
        out: &mut Vec<AsmInst>,
        labels: &mut LabelAllocator,
        exit_one_label: AsmLabel,
        flush_output_label: AsmLabel,
    )
        requires
            old(labels).next() - self.get_byte_labels() >= old(labels).floor(),
        ensures
            final(out)@ == old(out)@ + self.get_byte_insts(
                old(labels).next(),
                exit_one_label,
                flush_output_label,
            ),
            final(labels).next() == old(labels).next() - self.get_byte_labels(),
            final(labels).floor() == old(labels).floor(),
    ;

    /// Whether `call` needs the stack aligned to sixteen bytes.
    fn needs_rsp_alignment(&self) -> (r: bool)
        ensures
            r == self.aligns_rsp(),
    ;

    /// Whether a loop starts at a multiple of sixteen bytes.
    fn needs_loop_alignment(&self) -> (r: bool)
        ensures
            r == self.aligns_loops(),
    ;
}

/// What one LIR instruction turns into, and the state behind it.
pub struct Step {
    /// The instructions.
    pub insts: Seq<AsmInst>,
    /// The number of the next internal label.
    pub next: int,
    /// Offsets around `r13` that are known to be mapped.
    pub window: Option<(int, int)>,
}

/// `v` modulo 256.
fn byte_of(v: i32) -> (b: u8)
    ensures
        b == v as int % 256,
{
    // The shift by a multiple of 256 keeps the remainder.
    ((v as i64 + 0x8000_0000) as u64 % 256) as u8
}

/// Add `n` to the current cell; one instruction, or none where `n` is a
/// multiple of 256.
pub open spec fn cell_add_insts(n: int) -> Seq<AsmInst> {
    let imm = n % 256;
    if imm == 0 {
        Seq::empty()
    } else if imm == 1 {
        seq![AsmInst::IncMem8(Reg64::R13)]
    } else if imm == 255 {
        seq![AsmInst::DecMem8(Reg64::R13)]
    } else {
        seq![AsmInst::AddMem8Imm8(Reg64::R13, (imm as u8) as i8)]
    }
}

fn emit_cell_add(out: &mut Vec<AsmInst>, n: i32)
    ensures
        final(out)@ == old(out)@ + cell_add_insts(n as int),
{
    let imm = byte_of(n);
    if imm == 0 {
    } else if imm == 1 {
        out.push(AsmInst::IncMem8(Reg64::R13));
    } else if imm == 255 {
        out.push(AsmInst::DecMem8(Reg64::R13));
    } else {
        out.push(AsmInst::AddMem8Imm8(Reg64::R13, imm as i8));
    }
    assert(out@ =~= old(out)@ + cell_add_insts(n as int));
}

/// Add `f` times `bl` to the current cell.
pub open spec fn scaled_here_insts(f: i32) -> Seq<AsmInst> {
    let m = f as int % 256;
    if m == 0 {
        Seq::empty()
    } else if m == 1 {
        seq![AsmInst::AddMemR13Bl]
    } else if m == 255 {
        seq![AsmInst::SubMemR13Bl]
    } else {
        seq![AsmInst::ImulEaxEbxImm32(f), AsmInst::AddMemR13Al]
    }
}

/// Add `f` times `bl` to the cell at `off`.
pub open spec fn scaled_at_insts(off: isize, f: i32) -> Seq<AsmInst> {
    let m = f as int % 256;
    if m == 0 {
        Seq::empty()
    } else if m == 1 {
        seq![AsmInst::AddMemR13BlDisp8(off as i8)]
    } else if m == 255 {
        seq![AsmInst::SubMemR13BlDisp8(off as i8)]
    } else {
        seq![AsmInst::ImulEaxEbxImm32(f), AsmInst::AddMemR13AlDisp8(off as i8)]
    }
}

fn emit_scaled_here(out: &mut Vec<AsmInst>, f: i32)
    ensures
        final(out)@ == old(out)@ + scaled_here_insts(f),
{
    let m = byte_of(f);
    if m == 0 {
    } else if m == 1 {
        out.push(AsmInst::AddMemR13Bl);
    } else if m == 255 {
        out.push(AsmInst::SubMemR13Bl);
    } else {
        out.push(AsmInst::ImulEaxEbxImm32(f));
        out.push(AsmInst::AddMemR13Al);
    }
    assert(out@ =~= old(out)@ + scaled_here_insts(f));
}

fn emit_scaled_at(out: &mut Vec<AsmInst>, off: isize, f: i32)
    ensures
        final(out)@ == old(out)@ + scaled_at_insts(off, f),
{
    let m = byte_of(f);
    let d = off as i8;
    if m == 0 {
    } else if m == 1 {
        out.push(AsmInst::AddMemR13BlDisp8(d));
    } else if m == 255 {
        out.push(AsmInst::SubMemR13BlDisp8(d));
    } else {
        out.push(AsmInst::ImulEaxEbxImm32(f));
        out.push(AsmInst::AddMemR13AlDisp8(d));
    }
    assert(out@ =~= old(out)@ + scaled_at_insts(off, f));
}

/// The scaled additions of the first `k` factors, by displacement.
pub open spec fn factors_at_insts(factors: Seq<(isize, i32)>, k: int) -> Seq<AsmInst>
    decreases k,
{
    if k <= 0 {
        Seq::empty()
    } else {
        factors_at_insts(factors, k - 1) + scaled_at_insts(factors[k - 1].0, factors[k - 1].1)
    }
}

/// The clearing of the first `k` cells, by displacement.
pub open spec fn sets_at_insts(sets: Seq<isize>, k: int) -> Seq<AsmInst>
    decreases k,
{
    if k <= 0 {
        Seq::empty()
    } else {
        sets_at_insts(sets, k - 1) + seq![
            AsmInst::MovMem8ImmDisp8(Reg64::R13, sets[k - 1] as i8, 0),
        ]
    }
}

/// Labels taken by walking to the cell at `off` and back.
pub open spec fn walk_labels(off: int) -> int {
    2 * ptr_add_labels(off)
}

/// Labels taken by walking to the first `k` cells and back.
pub open spec fn walks_labels(offs: Seq<isize>, k: int) -> int
    decreases k,
{
    if k <= 0 {
        0
    } else {
        walks_labels(offs, k - 1) + walk_labels(offs[k - 1] as int)
    }
}

/// Move to the cell at `off`, run `work` there, and move back.
pub open spec fn walk_insts(
    next: int,
    off: int,
    work: Seq<AsmInst>,
    ensure_tape: AsmLabel,
) -> Seq<AsmInst> {
    ptr_add_insts(next, off, ensure_tape) + work + ptr_add_insts(
        next - ptr_add_labels(off),
        -off,
        ensure_tape,
    )
}

/// The offsets of factors.
pub open spec fn offsets_of(factors: Seq<(isize, i32)>) -> Seq<isize> {
    Seq::new(factors.len(), |i: int| factors[i].0)
}

/// The scaled additions of the first `k` factors, by moving the pointer.
pub open spec fn factors_walk_insts(
    factors: Seq<(isize, i32)>,
    next: int,
    k: int,
    ensure_tape: AsmLabel,
) -> Seq<AsmInst>
    decreases k,
{
    if k <= 0 {
        Seq::empty()
    } else {
        factors_walk_insts(factors, next, k - 1, ensure_tape) + walk_insts(
            next - walks_labels(offsets_of(factors), k - 1),
            factors[k - 1].0 as int,
            scaled_here_insts(factors[k - 1].1),
            ensure_tape,
        )
    }
}

/// The clearing of the first `k` cells, by moving the pointer.
pub open spec fn sets_walk_insts(
    sets: Seq<isize>,
    next: int,
    k: int,
    ensure_tape: AsmLabel,
) -> Seq<AsmInst>
    decreases k,
{
    if k <= 0 {
        Seq::empty()
    } else {
        sets_walk_insts(sets, next, k - 1, ensure_tape) + walk_insts(
            next - walks_labels(sets, k - 1),
            sets[k - 1] as int,
            seq![AsmInst::MovMem8Imm8(Reg64::R13, 0)],
            ensure_tape,
        )
    }
}

/// Whether every offset fits a displacement byte.
pub open spec fn all_disp8(offs: Seq<isize>) -> bool {
    forall|i: int| 0 <= i < offs.len() ==> i8::MIN <= #[trigger] offs[i] <= i8::MAX
}

/// The lowest of 0 and the first `k` offsets.
pub open spec fn lowest(offs: Seq<isize>, k: int) -> int
    decreases k,
{
    if k <= 0 {
        0
    } else if offs[k - 1] < lowest(offs, k - 1) {
        offs[k - 1] as int
    } else {
        lowest(offs, k - 1)
    }
}

/// The highest of 0 and the first `k` offsets.
pub open spec fn highest(offs: Seq<isize>, k: int) -> int
    decreases k,
{
    if k <= 0 {
        0
    } else if offs[k - 1] > highest(offs, k - 1) {
        offs[k - 1] as int
    } else {
        highest(offs, k - 1)
    }
}

/// The span of a list of offsets and 0, and whether all fit a byte.
fn span_of(offs: &Vec<isize>) -> (r: (isize, isize, bool))
    ensures
        r.0 == lowest(offs@, offs@.len() as int),
        r.1 == highest(offs@, offs@.len() as int),
        r.2 == all_disp8(offs@),
        r.2 ==> i8::MIN <= r.0 <= 0 <= r.1 <= i8::MAX,
{
    let mut lo: isize = 0;
    let mut hi: isize = 0;
    let mut small = true;
    let mut k: usize = 0;
    while k < offs.len()
        invariant
            k <= offs.len(),
            lo == lowest(offs@, k as int),
            hi == highest(offs@, k as int),
            lo <= 0 <= hi,
            small == (forall|i: int| 0 <= i < k ==> i8::MIN <= #[trigger] offs@[i] <= i8::MAX),
            small ==> i8::MIN <= lo && hi <= i8::MAX,
        decreases offs.len() - k,
    {
        let off = offs[k];
        if off < lo {
            lo = off;
        }
        if off > hi {
            hi = off;
        }
        if off < -128 || off > 127 {
            small = false;
        }
        k += 1;
    }
    (lo, hi, small)
}

/// The frame that saves `rbx` around a linear multiplication; `inner` is what
/// runs with the multiplicand in `bl` and the current cell cleared.
pub open spec fn multiplicand_frame(aligned: bool, inner: Seq<AsmInst>) -> Seq<AsmInst> {
    seq![AsmInst::Push(Reg64::Rbx)] + (if aligned {
        seq![AsmInst::AddRegImm32(Reg64::Rsp, (-8) as i32)]
    } else {
        Seq::empty()
    }) + seq![AsmInst::MovzxEbxFromMemR13, AsmInst::MovMem8Imm8(Reg64::R13, 0)] + inner + (
    if aligned {
        seq![AsmInst::AddRegImm32(Reg64::Rsp, 8)]
    } else {
        Seq::empty()
    }) + seq![AsmInst::Pop(Reg64::Rbx)]
}

fn emit_frame_entry(out: &mut Vec<AsmInst>, aligned: bool)
    ensures
        final(out)@ == old(out)@ + (seq![AsmInst::Push(Reg64::Rbx)] + (if aligned {
            seq![AsmInst::AddRegImm32(Reg64::Rsp, (-8) as i32)]
        } else {
            Seq::empty()
        }) + seq![AsmInst::MovzxEbxFromMemR13, AsmInst::MovMem8Imm8(Reg64::R13, 0)]),
{
    out.push(AsmInst::Push(Reg64::Rbx));
    if aligned {
        out.push(AsmInst::AddRegImm32(Reg64::Rsp, -8));
    }
    out.push(AsmInst::MovzxEbxFromMemR13);
    out.push(AsmInst::MovMem8Imm8(Reg64::R13, 0));
}

fn emit_frame_exit(out: &mut Vec<AsmInst>, aligned: bool)
    ensures
        final(out)@ == old(out)@ + ((if aligned {
            seq![AsmInst::AddRegImm32(Reg64::Rsp, 8)]
        } else {
            Seq::empty()
        }) + seq![AsmInst::Pop(Reg64::Rbx)]),
{
    if aligned {
        out.push(AsmInst::AddRegImm32(Reg64::Rsp, 8));
    }
    out.push(AsmInst::Pop(Reg64::Rbx));
}

/// The additions and clearings of a linear multiplication: by displacement
/// where all offsets fit a byte, by moving the pointer otherwise.
pub open spec fn linear_inner_insts(
    factors: Seq<(isize, i32)>,
    sets: Seq<isize>,
    next: int,
    ensure_tape: AsmLabel,
) -> Seq<AsmInst> {
    let offs = offsets_of(factors) + sets;
    let n = offs.len() as int;
    if all_disp8(offs) {
        ptr_add_checked_insts(next, 0, lowest(offs, n), highest(offs, n), ensure_tape)
            + factors_at_insts(factors, factors.len() as int) + sets_at_insts(
            sets,
            sets.len() as int,
        )
    } else {
        factors_walk_insts(factors, next, factors.len() as int, ensure_tape) + sets_walk_insts(
            sets,
            next - walks_labels(offsets_of(factors), factors.len() as int),
            sets.len() as int,
            ensure_tape,
        )
    }
}

/// Labels taken by [`linear_inner_insts`].
pub open spec fn linear_inner_labels(factors: Seq<(isize, i32)>, sets: Seq<isize>) -> int {
    let offs = offsets_of(factors) + sets;
    let n = offs.len() as int;
    if all_disp8(offs) {
        ptr_add_checked_labels(lowest(offs, n), highest(offs, n))
    } else {
        walks_labels(offsets_of(factors), factors.len() as int) + walks_labels(
            sets,
            sets.len() as int,
        )
    }
}

/// The window that is known to be mapped behind the probes of a linear
/// multiplication, on every path that has gone through them.
pub open spec fn linear_window(
    factors: Seq<(isize, i32)>,
    sets: Seq<isize>,
) -> Option<(int, int)> {
    let offs = offsets_of(factors) + sets;
    let n = offs.len() as int;
    if all_disp8(offs) {
        Some((lowest(offs, n), highest(offs, n)))
    } else {
        None
    }
}

/// Offsets that can be negated.
pub open spec fn negatable(offs: Seq<isize>) -> bool {
    forall|i: int| 0 <= i < offs.len() ==> #[trigger] offs[i] > isize::MIN
}

/// Walking takes labels, and more cells take more.
pub proof fn lemma_walks_labels_nonneg(offs: Seq<isize>, i: int, j: int)
    requires
        0 <= i <= j,
    ensures
        walks_labels(offs, i) <= walks_labels(offs, j),
        0 <= walks_labels(offs, i),
    decreases j, i,
{
    if i < j {
        lemma_walks_labels_nonneg(offs, i, j - 1);
    } else if i > 0 {
        lemma_walks_labels_nonneg(offs, i - 1, i - 1);
    }
}

/// Emit the walk to one factor's cell and back.
fn emit_factor_walk(
    out: &mut Vec<AsmInst>,
    labels: &mut LabelAllocator,
    off: isize,
    f: i32,
    ensure_tape_label: AsmLabel,
)
    requires
        off > isize::MIN,
        old(labels).next() - walk_labels(off as int) >= old(labels).floor(),
    ensures
        final(out)@ == old(out)@ + walk_insts(
            old(labels).next(),
            off as int,
            scaled_here_insts(f),
            ensure_tape_label,
        ),
        final(labels).next() == old(labels).next() - walk_labels(off as int),
        final(labels).floor() == old(labels).floor(),
{
    emit_ptr_add_out(out, labels, off, ensure_tape_label);
    emit_scaled_here(out, f);
    emit_ptr_add_out(out, labels, -off, ensure_tape_label);
    assert(out@ =~= old(out)@ + walk_insts(
        old(labels).next(),
        off as int,
        scaled_here_insts(f),
        ensure_tape_label,
    ));
}

/// Emit the walk to a cell that is cleared, and back.
fn emit_set_walk(
    out: &mut Vec<AsmInst>,
    labels: &mut LabelAllocator,
    off: isize,
    ensure_tape_label: AsmLabel,
)
    requires
        off > isize::MIN,
        old(labels).next() - walk_labels(off as int) >= old(labels).floor(),
    ensures
        final(out)@ == old(out)@ + walk_insts(
            old(labels).next(),
            off as int,
            seq![AsmInst::MovMem8Imm8(Reg64::R13, 0)],
            ensure_tape_label,
        ),
        final(labels).next() == old(labels).next() - walk_labels(off as int),
        final(labels).floor() == old(labels).floor(),
{
    emit_ptr_add_out(out, labels, off, ensure_tape_label);
    out.push(AsmInst::MovMem8Imm8(Reg64::R13, 0));
    emit_ptr_add_out(out, labels, -off, ensure_tape_label);
    assert(out@ =~= old(out)@ + walk_insts(
        old(labels).next(),
        off as int,
        seq![AsmInst::MovMem8Imm8(Reg64::R13, 0)],
        ensure_tape_label,
    ));
}

fn emit_factors_at(out: &mut Vec<AsmInst>, factors: &Vec<(isize, i32)>)
    ensures
        final(out)@ == old(out)@ + factors_at_insts(factors@, factors@.len() as int),
{
    let mut k: usize = 0;
    assert(out@ =~= old(out)@ + factors_at_insts(factors@, 0));
    while k < factors.len()
        invariant
            k <= factors.len(),
            out@ == old(out)@ + factors_at_insts(factors@, k as int),
        decreases factors.len() - k,
    {
        let (off, f) = factors[k];
        emit_scaled_at(out, off, f);
        k += 1;
        assert(out@ =~= old(out)@ + factors_at_insts(factors@, k as int));
    }
}

fn emit_sets_at(out: &mut Vec<AsmInst>, sets: &Vec<isize>)
    ensures
        final(out)@ == old(out)@ + sets_at_insts(sets@, sets@.len() as int),
{
    let mut k: usize = 0;
    assert(out@ =~= old(out)@ + sets_at_insts(sets@, 0));
    while k < sets.len()
        invariant
            k <= sets.len(),
            out@ == old(out)@ + sets_at_insts(sets@, k as int),
        decreases sets.len() - k,
    {
        out.push(AsmInst::MovMem8ImmDisp8(Reg64::R13, sets[k] as i8, 0));
        k += 1;
        assert(out@ =~= old(out)@ + sets_at_insts(sets@, k as int));
    }
}

fn emit_factors_walk(
    out: &mut Vec<AsmInst>,
    labels: &mut LabelAllocator,
    factors: &Vec<(isize, i32)>,
    ensure_tape_label: AsmLabel,
)
    requires
        negatable(offsets_of(factors@)),
        old(labels).next() - walks_labels(offsets_of(factors@), factors@.len() as int) >= old(
            labels).floor(),
    ensures
        final(out)@ == old(out)@ + factors_walk_insts(
            factors@,
            old(labels).next(),
            factors@.len() as int,
            ensure_tape_label,
        ),
        final(labels).next() == old(labels).next() - walks_labels(
            offsets_of(factors@),
            factors@.len() as int,
        ),
        final(labels).floor() == old(labels).floor(),
{
    let ghost start = old(labels).next();
    let ghost offs = offsets_of(factors@);
    let mut k: usize = 0;
    assert(out@ =~= old(out)@ + factors_walk_insts(factors@, start, 0, ensure_tape_label));
    while k < factors.len()
        invariant
            k <= factors.len(),
            offs == offsets_of(factors@),
            negatable(offs),
            start == old(labels).next(),
            out@ == old(out)@ + factors_walk_insts(factors@, start, k as int, ensure_tape_label),
            labels.next() == start - walks_labels(offs, k as int),
            labels.floor() == old(labels).floor(),
            start - walks_labels(offs, factors@.len() as int) >= labels.floor(),
        decreases factors.len() - k,
    {
        let (off, f) = factors[k];
        proof {
            assert(offs[k as int] == off);
            lemma_walks_labels_nonneg(offs, k + 1, factors@.len() as int);
        }
        emit_factor_walk(out, labels, off, f, ensure_tape_label);
        k += 1;
        assert(out@ =~= old(out)@ + factors_walk_insts(
            factors@,
            start,
            k as int,
            ensure_tape_label,
        ));
    }
}

fn emit_sets_walk(
    out: &mut Vec<AsmInst>,
    labels: &mut LabelAllocator,
    sets: &Vec<isize>,
    ensure_tape_label: AsmLabel,
)
    requires
        negatable(sets@),
        old(labels).next() - walks_labels(sets@, sets@.len() as int) >= old(labels).floor(),
    ensures
        final(out)@ == old(out)@ + sets_walk_insts(
            sets@,
            old(labels).next(),
            sets@.len() as int,
            ensure_tape_label,
        ),
        final(labels).next() == old(labels).next() - walks_labels(sets@, sets@.len() as int),
        final(labels).floor() == old(labels).floor(),
{
    let ghost start = old(labels).next();
    let mut k: usize = 0;
    assert(out@ =~= old(out)@ + sets_walk_insts(sets@, start, 0, ensure_tape_label));
    while k < sets.len()
        invariant
            k <= sets.len(),
            negatable(sets@),
            start == old(labels).next(),
            out@ == old(out)@ + sets_walk_insts(sets@, start, k as int, ensure_tape_label),
            labels.next() == start - walks_labels(sets@, k as int),
            labels.floor() == old(labels).floor(),
            start - walks_labels(sets@, sets@.len() as int) >= labels.floor(),
        decreases sets.len() - k,
    {
        proof {
            lemma_walks_labels_nonneg(sets@, k + 1, sets@.len() as int);
        }
        emit_set_walk(out, labels, sets[k], ensure_tape_label);
        k += 1;
        assert(out@ =~= old(out)@ + sets_walk_insts(sets@, start, k as int, ensure_tape_label));
    }
}

/// Emit the additions and clearings of a linear multiplication; returns the
/// window that is known to be mapped afterwards.
fn emit_linear_inner(
    out: &mut Vec<AsmInst>,
    labels: &mut LabelAllocator,
    factors: &Vec<(isize, i32)>,
    sets: &Vec<isize>,
    ensure_tape_label: AsmLabel,
) -> (window: Option<(isize, isize)>)
    requires
        negatable(offsets_of(factors@)),
        negatable(sets@),
        old(labels).next() - linear_inner_labels(factors@, sets@) >= old(labels).floor(),
    ensures
        final(out)@ == old(out)@ + linear_inner_insts(
            factors@,
            sets@,
            old(labels).next(),
            ensure_tape_label,
        ),
        final(labels).next() == old(labels).next() - linear_inner_labels(factors@, sets@),
        final(labels).floor() == old(labels).floor(),
        window_view(window) == linear_window(factors@, sets@),
{
    let mut offs: Vec<isize> = Vec::new();
    let mut k: usize = 0;
    while k < factors.len()
        invariant
            k <= factors.len(),
            offs@ == offsets_of(factors@).take(k as int),
        decreases factors.len() - k,
    {
        offs.push(factors[k].0);
        k += 1;
        assert(offs@ =~= offsets_of(factors@).take(k as int));
    }
    let mut j: usize = 0;
    assert(offs@ =~= offsets_of(factors@) + sets@.take(0));
    while j < sets.len()
        invariant
            j <= sets.len(),
            offs@ == offsets_of(factors@) + sets@.take(j as int),
        decreases sets.len() - j,
    {
        offs.push(sets[j]);
        j += 1;
        assert(offs@ =~= offsets_of(factors@) + sets@.take(j as int));
    }
    assert(offs@ =~= offsets_of(factors@) + sets@);
    let (lo, hi, small) = span_of(&offs);
    if small {
        emit_ptr_add_checked_out(out, labels, 0, lo, hi, ensure_tape_label);
        emit_factors_at(out, factors);
        emit_sets_at(out, sets);
        assert(out@ =~= old(out)@ + linear_inner_insts(
            factors@,
            sets@,
            old(labels).next(),
            ensure_tape_label,
        ));
        Some((lo, hi))
    } else {
        proof {
            lemma_walks_labels_nonneg(sets@, 0, sets@.len() as int);
        }
        emit_factors_walk(out, labels, factors, ensure_tape_label);
        emit_sets_walk(out, labels, sets, ensure_tape_label);
        assert(out@ =~= old(out)@ + linear_inner_insts(
            factors@,
            sets@,
            old(labels).next(),
            ensure_tape_label,
        ));
        None
    }
}

/// A window over mathematical integers.
pub open spec fn window_view(window: Option<(isize, isize)>) -> Option<(int, int)> {
    match window {
        Some((lo, hi)) => Some((lo as int, hi as int)),
        None => None,
    }
}


/// The bounds-checked loop that moves by `step` until the cell is zero; takes
/// labels for its head and its exit, and two more for the move.
pub open spec fn scan_loop_insts(next: int, step: int, ensure_tape: AsmLabel) -> Seq<AsmInst> {
    let top = internal(next, 0);
    let done = internal(next, 1);
    seq![AsmInst::Label(top), AsmInst::CmpMem8Imm8(Reg64::R13, 0), AsmInst::Jz(done)]
        + ptr_add_insts(next - 2, step, ensure_tape) + seq![
        AsmInst::Jmp(top),
        AsmInst::Label(done),
    ]
}

/// The `repne scasb` over the cells that are known to exist. The direction
/// flag is clear again behind it, and `r13` is at the cell the scan stopped at.
pub open spec fn scan_hint_insts(step: int, hint: u32) -> Seq<AsmInst> {
    if hint == 0 {
        Seq::empty()
    } else {
        seq![
            AsmInst::MovRegImm64(Reg64::Rax, 0),
            AsmInst::MovRegReg(Reg64::Rdi, Reg64::R13),
            AsmInst::MovRegImm64(Reg64::Rcx, hint as i64),
        ] + (if step == -1 {
            seq![AsmInst::Std, AsmInst::RepneScasb, AsmInst::Cld]
        } else {
            seq![AsmInst::Cld, AsmInst::RepneScasb]
        }) + seq![
            AsmInst::MovRegReg(Reg64::R13, Reg64::Rdi),
            AsmInst::AddRegImm32(Reg64::R13, (-step) as i32),
        ]
    }
}

/// Clear the cells from `start` on: a string store for sixteen or more, one
/// store per cell otherwise.
pub open spec fn zero_run_insts(start: i32, count: u32) -> Seq<AsmInst> {
    if count >= 16 {
        seq![
            AsmInst::XorEaxEax,
            AsmInst::LeaRegMem(Reg64::Rdi, Reg64::R13, start),
            AsmInst::MovEcxImm32(count as i32),
            AsmInst::Cld,
            AsmInst::RepStosb,
        ]
    } else {
        Seq::new(
            count as nat,
            |i: int|
                if start + i == 0 {
                    AsmInst::MovMem8Imm8(Reg64::R13, 0)
                } else {
                    set_at(start + i, 0)
                },
        )
    }
}

/// Whether some jump back goes to `id`.
pub open spec fn is_loop_head(insts: Seq<LirInst>, id: LabelId) -> bool {
    exists|j: int|
        0 <= j < insts.len() && #[trigger] insts[j] is JumpIfNonZero && insts[j]->JumpIfNonZero_0
            == id
}

/// The window behind a checked move: what was known and what was checked,
/// seen from the new position.
pub open spec fn checked_window(
    window: Option<(int, int)>,
    delta: int,
    lo: int,
    hi: int,
) -> Option<(int, int)> {
    match window {
        Some((wlo, whi)) => Some(
            (
                (if wlo < lo {
                    wlo
                } else {
                    lo
                }) - delta,
                (if whi > hi {
                    whi
                } else {
                    hi
                }) - delta,
            ),
        ),
        None => Some((lo - delta, hi - delta)),
    }
}

/// Whether the window holds all offsets from `lo` to `hi`.
pub open spec fn covers(window: Option<(int, int)>, lo: int, hi: int) -> bool {
    match window {
        Some((wlo, whi)) => wlo <= lo && hi <= whi,
        None => false,
    }
}

/// The translation of one LIR instruction of the program `all`.
pub open spec fn lir_step<P: PlatformEmitter>(
    platform: P,
    all: Seq<LirInst>,
    routines: Routines,
    inst: LirInst,
    next: int,
    window: Option<(int, int)>,
) -> Step {
    let ensure = routines.ensure_tape;
    match inst {
        LirInst::PtrAdd(n) => if n == 0 {
            Step { insts: Seq::empty(), next, window }
        } else if covers(window, n as int, n as int) {
            Step {
                insts: add_reg_insts(Reg64::R13, n as int),
                next,
                window: Some((window->Some_0.0 - n, window->Some_0.1 - n)),
            }
        } else {
            Step { insts: ptr_add_insts(next, n as int, ensure), next: next - 2, window: None }
        },
        LirInst::PtrAddChecked { delta, lo_extent, hi_extent } => {
            let after = checked_window(window, delta as int, lo_extent as int, hi_extent as int);
            if covers(window, lo_extent as int, hi_extent as int) {
                Step { insts: add_reg_insts(Reg64::R13, delta as int), next, window: after }
            } else {
                Step {
                    insts: ptr_add_checked_insts(
                        next,
                        delta as int,
                        lo_extent as int,
                        hi_extent as int,
                        ensure,
                    ),
                    next: next - ptr_add_checked_labels(lo_extent as int, hi_extent as int),
                    window: after,
                }
            }
        },
        LirInst::LinearMul(factors) => if factors@.len() == 0 {
            Step { insts: seq![AsmInst::MovMem8Imm8(Reg64::R13, 0)], next, window }
        } else {
            Step {
                insts: multiplicand_frame(
                    platform.aligns_rsp(),
                    linear_inner_insts(factors@, Seq::empty(), next, ensure),
                ),
                next: next - linear_inner_labels(factors@, Seq::empty()),
                window: linear_window(factors@, Seq::empty()),
            }
        },
        LirInst::LinearMulWithSets { factors, sets } => {
            let done = internal(next, 0);
            Step {
                insts: seq![AsmInst::CmpMem8Imm8(Reg64::R13, 0), AsmInst::Jz(done)]
                    + multiplicand_frame(
                    platform.aligns_rsp(),
                    linear_inner_insts(factors@, sets@, next - 1, ensure),
                ) + seq![AsmInst::Label(done)],
                next: next - 1 - linear_inner_labels(factors@, sets@),
                window: None,
            }
        },
        LirInst::Scan(step) => Step {
            insts: scan_loop_insts(next, step as int, ensure),
            next: next - 2 - ptr_add_labels(step as int),
            window: None,
        },
        LirInst::ScanWithHint { dir, hint_bytes } => Step {
            insts: scan_hint_insts(dir as int, hint_bytes) + scan_loop_insts(
                next,
                dir as int,
                ensure,
            ),
            next: next - 2 - ptr_add_labels(dir as int),
            window: None,
        },
        LirInst::CellAdd(n) => Step { insts: cell_add_insts(n as int), next, window },
        LirInst::CellSet(v) => Step {
            insts: seq![AsmInst::MovMem8Imm8(Reg64::R13, v)],
            next,
            window,
        },
        LirInst::CellAddAt { off, delta } => Step {
            insts: if delta as int % 256 == 0 {
                Seq::empty()
            } else {
                seq![add_at(off as int, ((delta as int % 256) as u8) as i8)]
            },
            next,
            window,
        },
        LirInst::CellSetAt { off, val } => Step {
            insts: seq![set_at(off as int, val)],
            next,
            window,
        },
        LirInst::ZeroRun { start, count } => Step {
            insts: zero_run_insts(start, count),
            next,
            window,
        },
        LirInst::PutByte => Step {
            insts: platform.put_byte_insts(next, routines.flush_output),
            next: next - platform.put_byte_labels(),
            window: None,
        },
        LirInst::GetByte => Step {
            insts: platform.get_byte_insts(next, routines.exit_one, routines.flush_output),
            next: next - platform.get_byte_labels(),
            window: None,
        },
        LirInst::Label(id) => Step {
            insts: if platform.aligns_loops() && is_loop_head(all, id) {
                seq![AsmInst::Align16, AsmInst::Label(AsmLabel(id.0))]
            } else {
                seq![AsmInst::Label(AsmLabel(id.0))]
            },
            next,
            window: None,
        },
        LirInst::JumpIfZero(id) => Step {
            insts: seq![AsmInst::CmpMem8Imm8(Reg64::R13, 0), AsmInst::Jz(AsmLabel(id.0))],
            next,
            window: None,
        },
        LirInst::JumpIfNonZero(id) => Step {
            insts: seq![AsmInst::CmpMem8Imm8(Reg64::R13, 0), AsmInst::Jnz(AsmLabel(id.0))],
            next,
            window: None,
        },
    }
}

/// The translation of the first `n` instructions of a program.
pub open spec fn lir_body<P: PlatformEmitter>(
    platform: P,
    insts: Seq<LirInst>,
    routines: Routines,
    next: int,
    n: int,
) -> Step
    decreases n,
{
    if n <= 0 {
        Step { insts: Seq::empty(), next, window: None }
    } else {
        let before = lir_body(platform, insts, routines, next, n - 1);
        let step = lir_step(
            platform,
            insts,
            routines,
            insts[n - 1],
            before.next,
            before.window,
        );
        Step { insts: before.insts + step.insts, next: step.next, window: step.window }
    }
}

/// The instructions that have a translation.
pub open spec fn lir_inst_ok(inst: LirInst) -> bool {
    match inst {
        LirInst::PtrAddChecked { delta, lo_extent, hi_extent } => isize::MIN < lo_extent <= delta
            <= hi_extent && lo_extent <= 0 <= hi_extent,
        LirInst::LinearMul(factors) => negatable(offsets_of(factors@)),
        LirInst::LinearMulWithSets { factors, sets } => negatable(offsets_of(factors@))
            && negatable(sets@),
        LirInst::Scan(step) => step == 1 || step == -1,
        LirInst::ScanWithHint { dir, .. } => dir == 1 || dir == -1,
        LirInst::CellAddAt { off, .. } => off != 0 && i32::MIN <= off <= i32::MAX,
        LirInst::CellSetAt { off, .. } => off != 0 && i32::MIN <= off <= i32::MAX,
        LirInst::ZeroRun { start, count } => count >= 2 && (count < 16 ==> start + count - 1
            <= i32::MAX),
        _ => true,
    }
}

/// A window whose bounds are machine integers.
pub open spec fn window_fits(window: Option<(int, int)>) -> bool {
    match window {
        Some((lo, hi)) => isize::MIN <= lo <= isize::MAX && isize::MIN <= hi <= isize::MAX,
        None => true,
    }
}

/// The programs that have a translation with the labels between `floor` and
/// `next`.
pub open spec fn lir_ok<P: PlatformEmitter>(
    platform: P,
    insts: Seq<LirInst>,
    routines: Routines,
    next: int,
    floor: int,
) -> bool {
    &&& forall|i: int| 0 <= i < insts.len() ==> lir_inst_ok(#[trigger] insts[i])
    &&& forall|n: int|
        0 <= n <= insts.len() ==> window_fits(
            (#[trigger] lir_body(platform, insts, routines, next, n)).window,
        )
    &&& lir_body(platform, insts, routines, next, insts.len() as int).next >= floor
}

/// A step takes labels, it gives none back.
pub proof fn lemma_step_takes_labels<P: PlatformEmitter>(
    platform: P,
    all: Seq<LirInst>,
    routines: Routines,
    inst: LirInst,
    next: int,
    window: Option<(int, int)>,
)
    ensures
        lir_step(platform, all, routines, inst, next, window).next <= next,
{
    match inst {
        LirInst::LinearMul(factors) => {
            lemma_walks_labels_nonneg(offsets_of(factors@), 0, factors@.len() as int);
            lemma_walks_labels_nonneg(offsets_of(factors@), factors@.len() as int, factors@.len() as int);
        },
        LirInst::LinearMulWithSets { factors, sets } => {
            lemma_walks_labels_nonneg(offsets_of(factors@), 0, factors@.len() as int);
            lemma_walks_labels_nonneg(offsets_of(factors@), factors@.len() as int, factors@.len() as int);
            lemma_walks_labels_nonneg(sets@, 0, sets@.len() as int);
            lemma_walks_labels_nonneg(sets@, sets@.len() as int, sets@.len() as int);
        },
        _ => {},
    }
}

/// Longer prefixes take at least as many labels.
pub proof fn lemma_body_takes_labels<P: PlatformEmitter>(
    platform: P,
    insts: Seq<LirInst>,
    routines: Routines,
    next: int,
    i: int,
    j: int,
)
    requires
        0 <= i <= j,
    ensures
        lir_body(platform, insts, routines, next, j).next <= lir_body(
            platform,
            insts,
            routines,
            next,
            i,
        ).next,
    decreases j - i,
{
    if i < j {
        lemma_body_takes_labels(platform, insts, routines, next, i, j - 1);
        let before = lir_body(platform, insts, routines, next, j - 1);
        lemma_step_takes_labels(
            platform,
            insts,
            routines,
            insts[j - 1],
            before.next,
            before.window,
        );
    }
}

fn emit_scan_loop(
    out: &mut Vec<AsmInst>,
    labels: &mut LabelAllocator,
    step: isize,
    ensure_tape_label: AsmLabel,
)
    requires
        old(labels).next() - 2 - ptr_add_labels(step as int) >= old(labels).floor(),
    ensures
        final(out)@ == old(out)@ + scan_loop_insts(
            old(labels).next(),
            step as int,
            ensure_tape_label,
        ),
        final(labels).next() == old(labels).next() - 2 - ptr_add_labels(step as int),
        final(labels).floor() == old(labels).floor(),
{
    let top = labels.fresh();
    let done = labels.fresh();
    out.push(AsmInst::Label(top));
    out.push(AsmInst::CmpMem8Imm8(Reg64::R13, 0));
    out.push(AsmInst::Jz(done));
    emit_ptr_add_out(out, labels, step, ensure_tape_label);
    out.push(AsmInst::Jmp(top));
    out.push(AsmInst::Label(done));
    assert(out@ =~= old(out)@ + scan_loop_insts(
        old(labels).next(),
        step as int,
        ensure_tape_label,
    ));
}

fn emit_scan_hint(out: &mut Vec<AsmInst>, step: isize, hint: u32)
    requires
        step == 1 || step == -1,
    ensures
        final(out)@ == old(out)@ + scan_hint_insts(step as int, hint),
{
    if hint > 0 {
        out.push(AsmInst::MovRegImm64(Reg64::Rax, 0));
        out.push(AsmInst::MovRegReg(Reg64::Rdi, Reg64::R13));
        out.push(AsmInst::MovRegImm64(Reg64::Rcx, hint as i64));
        if step == -1 {
            out.push(AsmInst::Std);
        } else {
            out.push(AsmInst::Cld);
        }
        out.push(AsmInst::RepneScasb);
        if step == -1 {
            out.push(AsmInst::Cld);
        }
        out.push(AsmInst::MovRegReg(Reg64::R13, Reg64::Rdi));
        out.push(AsmInst::AddRegImm32(Reg64::R13, -(step as i32)));
    }
    assert(out@ =~= old(out)@ + scan_hint_insts(step as int, hint));
}

fn emit_zero_run(out: &mut Vec<AsmInst>, start: i32, count: u32)
    requires
        count < 16 ==> start + count - 1 <= i32::MAX,
    ensures
        final(out)@ == old(out)@ + zero_run_insts(start, count),
{
    if count >= 16 {
        out.push(AsmInst::XorEaxEax);
        out.push(AsmInst::LeaRegMem(Reg64::Rdi, Reg64::R13, start));
        out.push(AsmInst::MovEcxImm32(count as i32));
        out.push(AsmInst::Cld);
        out.push(AsmInst::RepStosb);
    } else {
        let mut i: u32 = 0;
        assert(out@ =~= old(out)@ + zero_run_insts(start, count).take(0));
        while i < count
            invariant
                i <= count < 16,
                start + count - 1 <= i32::MAX,
                out@ == old(out)@ + zero_run_insts(start, count).take(i as int),
            decreases count - i,
        {
            let off: isize = start as isize + i as isize;
            if off == 0 {
                out.push(AsmInst::MovMem8Imm8(Reg64::R13, 0));
            } else {
                out.push(mem8_set_at_r13(off, 0));
            }
            i += 1;
            assert(out@ =~= old(out)@ + zero_run_insts(start, count).take(i as int));
        }
        assert(zero_run_insts(start, count).take(count as int) =~= zero_run_insts(start, count));
    }
    assert(out@ =~= old(out)@ + zero_run_insts(start, count));
}

/// Emit `LinearMul` with at least one factor.
fn emit_linear_mul(
    out: &mut Vec<AsmInst>,
    labels: &mut LabelAllocator,
    factors: &Vec<(isize, i32)>,
    sets: &Vec<isize>,
    aligned: bool,
    ensure_tape_label: AsmLabel,
) -> (window: Option<(isize, isize)>)
    requires
        negatable(offsets_of(factors@)),
        negatable(sets@),
        old(labels).next() - linear_inner_labels(factors@, sets@) >= old(labels).floor(),
    ensures
        final(out)@ == old(out)@ + multiplicand_frame(
            aligned,
            linear_inner_insts(factors@, sets@, old(labels).next(), ensure_tape_label),
        ),
        final(labels).next() == old(labels).next() - linear_inner_labels(factors@, sets@),
        final(labels).floor() == old(labels).floor(),
        window_view(window) == linear_window(factors@, sets@),
{
    emit_frame_entry(out, aligned);
    let window = emit_linear_inner(out, labels, factors, sets, ensure_tape_label);
    emit_frame_exit(out, aligned);
    assert(out@ =~= old(out)@ + multiplicand_frame(
        aligned,
        linear_inner_insts(factors@, sets@, old(labels).next(), ensure_tape_label),
    ));
    window
}

/// Emit `PtrAddChecked`, without probes where the window covers it.
fn emit_checked(
    out: &mut Vec<AsmInst>,
    labels: &mut LabelAllocator,
    delta: isize,
    lo: isize,
    hi: isize,
    window: Option<(isize, isize)>,
    ensure_tape_label: AsmLabel,
) -> (after: Option<(isize, isize)>)
    requires
        isize::MIN < lo <= delta <= hi,
        lo <= 0 <= hi,
        !covers(window_view(window), lo as int, hi as int) ==> old(labels).next()
            - ptr_add_checked_labels(lo as int, hi as int) >= old(labels).floor(),
        window_fits(
            checked_window(window_view(window), delta as int, lo as int, hi as int),
        ),
    ensures
        final(out)@ == old(out)@ + (if covers(window_view(window), lo as int, hi as int) {
            add_reg_insts(Reg64::R13, delta as int)
        } else {
            ptr_add_checked_insts(
                old(labels).next(),
                delta as int,
                lo as int,
                hi as int,
                ensure_tape_label,
            )
        }),
        final(labels).next() == old(labels).next() - (if covers(
            window_view(window),
            lo as int,
            hi as int,
        ) {
            0
        } else {
            ptr_add_checked_labels(lo as int, hi as int)
        }),
        final(labels).floor() == old(labels).floor(),
        window_view(after) == checked_window(
            window_view(window),
            delta as int,
            lo as int,
            hi as int,
        ),
{
    let covered = match window {
        Some((wlo, whi)) => wlo <= lo && hi <= whi,
        None => false,
    };
    if covered {
        emit_add_reg_isize(out, Reg64::R13, delta);
    } else {
        emit_ptr_add_checked_out(out, labels, delta, lo, hi, ensure_tape_label);
    }
    match window {
        Some((wlo, whi)) => {
            let nlo: isize = if wlo < lo {
                wlo
            } else {
                lo
            };
            let nhi: isize = if whi > hi {
                whi
            } else {
                hi
            };
            Some((nlo - delta, nhi - delta))
        },
        None => Some((lo - delta, hi - delta)),
    }
}

/// The labels that some jump back goes to.
fn collect_loop_heads(lir: &LirProgram) -> (heads: HashSet<u32>)
    ensures
        forall|id: LabelId| #[trigger]
            is_loop_head(lir.insts@, id) <==> heads@.contains(id.0),
{
    let mut heads: HashSet<u32> = HashSet::new();
    let ghost insts = lir.insts@;
    let mut k: usize = 0;
    while k < lir.insts.len()
        invariant
            k <= lir.insts.len(),
            insts == lir.insts@,
            forall|x: u32| #[trigger]
                heads@.contains(x) <==> exists|j: int|
                    0 <= j < k && #[trigger] insts[j] is JumpIfNonZero
                        && insts[j]->JumpIfNonZero_0 == LabelId(x),
        decreases lir.insts.len() - k,
    {
        let ghost before = heads@;
        match &lir.insts[k] {
            LirInst::JumpIfNonZero(id) => {
                heads.insert(id.0);
                assert(insts[k as int] is JumpIfNonZero);
                assert(insts[k as int]->JumpIfNonZero_0 == LabelId(id.0));
            },
            _ => {},
        }
        k += 1;
        proof {
            assert forall|x: u32| #[trigger]
                heads@.contains(x) <==> exists|j: int|
                    0 <= j < k && #[trigger] insts[j] is JumpIfNonZero
                        && insts[j]->JumpIfNonZero_0 == LabelId(x) by {
                if before.contains(x) {
                    let j = choose|j: int|
                        0 <= j < k - 1 && #[trigger] insts[j] is JumpIfNonZero
                            && insts[j]->JumpIfNonZero_0 == LabelId(x);
                    assert(0 <= j < k && insts[j] is JumpIfNonZero);
                }
            }
        }
    }
    proof {
        assert forall|id: LabelId| #[trigger]
            is_loop_head(lir.insts@, id) <==> heads@.contains(id.0) by {
            assert(LabelId(id.0) == id);
        }
    }
    heads
}

/// Emit one LIR instruction.
#[verifier::rlimit(40)]
fn emit_lir_inst<P: PlatformEmitter>(
    out: &mut Vec<AsmInst>,
    labels: &mut LabelAllocator,
    lir: &LirProgram,
    heads: &HashSet<u32>,
    inst: &LirInst,
    window: Option<(isize, isize)>,
    routines: Routines,
    platform: &P,
) -> (after: Option<(isize, isize)>)
    requires
        lir_inst_ok(*inst),
        forall|id: LabelId| #[trigger]
            is_loop_head(lir.insts@, id) <==> heads@.contains(id.0),
        lir_step(
            *platform,
            lir.insts@,
            routines,
            *inst,
            old(labels).next(),
            window_view(window),
        ).next >= old(labels).floor(),
        window_fits(
            lir_step(
                *platform,
                lir.insts@,
                routines,
                *inst,
                old(labels).next(),
                window_view(window),
            ).window,
        ),
    ensures
        ({
            let step = lir_step(
                *platform,
                lir.insts@,
                routines,
                *inst,
                old(labels).next(),
                window_view(window),
            );
            &&& final(out)@ == old(out)@ + step.insts
            &&& final(labels).next() == step.next
            &&& final(labels).floor() == old(labels).floor()
            &&& window_view(after) == step.window
        }),
{
    let ensure = routines.ensure_tape;
    match inst {
        LirInst::PtrAdd(n) => {
            let n: isize = *n;
            if n == 0 {
                assert(out@ =~= old(out)@ + Seq::<AsmInst>::empty());
                return window;
            }
            match window {
                Some((wlo, whi)) => {
                    if wlo <= n && n <= whi {
                        emit_add_reg_isize(out, Reg64::R13, n);
                        return Some((wlo - n, whi - n));
                    }
                },
                None => {},
            }
            emit_ptr_add_out(out, labels, n, ensure);
            None
        },
        LirInst::PtrAddChecked { delta, lo_extent, hi_extent } => emit_checked(
            out,
            labels,
            *delta,
            *lo_extent,
            *hi_extent,
            window,
            ensure,
        ),
        LirInst::LinearMul(factors) => {
            if factors.len() == 0 {
                out.push(AsmInst::MovMem8Imm8(Reg64::R13, 0));
                assert(out@ =~= old(out)@ + seq![AsmInst::MovMem8Imm8(Reg64::R13, 0)]);
                return window;
            }
            let none: Vec<isize> = Vec::new();
            emit_linear_mul(out, labels, factors, &none, platform.needs_rsp_alignment(), ensure)
        },
        LirInst::LinearMulWithSets { factors, sets } => {
            proof {
                lemma_walks_labels_nonneg(offsets_of(factors@), 0, factors@.len() as int);
                lemma_walks_labels_nonneg(sets@, 0, sets@.len() as int);
                lemma_walks_labels_nonneg(offsets_of(factors@), factors@.len() as int, factors@.len() as int);
                lemma_walks_labels_nonneg(sets@, sets@.len() as int, sets@.len() as int);
            }
            let done = labels.fresh();
            out.push(AsmInst::CmpMem8Imm8(Reg64::R13, 0));
            out.push(AsmInst::Jz(done));
            let _ = emit_linear_mul(
                out,
                labels,
                factors,
                sets,
                platform.needs_rsp_alignment(),
                ensure,
            );
            out.push(AsmInst::Label(done));
            assert(out@ =~= old(out)@ + lir_step(
                *platform,
                lir.insts@,
                routines,
                *inst,
                old(labels).next(),
                window_view(window),
            ).insts);
            None
        },
        LirInst::Scan(step) => {
            emit_scan_loop(out, labels, *step, ensure);
            None
        },
        LirInst::ScanWithHint { dir, hint_bytes } => {
            emit_scan_hint(out, *dir, *hint_bytes);
            emit_scan_loop(out, labels, *dir, ensure);
            assert(out@ =~= old(out)@ + (scan_hint_insts(*dir as int, *hint_bytes)
                + scan_loop_insts(old(labels).next(), *dir as int, ensure)));
            None
        },
        LirInst::CellAdd(n) => {
            emit_cell_add(out, *n);
            window
        },
        LirInst::CellSet(v) => {
            out.push(AsmInst::MovMem8Imm8(Reg64::R13, *v));
            assert(out@ =~= old(out)@ + seq![AsmInst::MovMem8Imm8(Reg64::R13, *v)]);
            window
        },
        LirInst::CellAddAt { off, delta } => {
            let imm = byte_of(*delta);
            if imm != 0 {
                out.push(mem8_add_at_r13(*off, imm as i8));
                assert(out@ =~= old(out)@ + seq![add_at(*off as int, imm as i8)]);
            } else {
                assert(out@ =~= old(out)@ + Seq::<AsmInst>::empty());
            }
            window
        },
        LirInst::CellSetAt { off, val } => {
            out.push(mem8_set_at_r13(*off, *val));
            assert(out@ =~= old(out)@ + seq![set_at(*off as int, *val)]);
            window
        },
        LirInst::ZeroRun { start, count } => {
            emit_zero_run(out, *start, *count);
            window
        },
        LirInst::PutByte => {
            platform.emit_put_byte(out, labels, routines.flush_output);
            None
        },
        LirInst::GetByte => {
            platform.emit_get_byte(out, labels, routines.exit_one, routines.flush_output);
            None
        },
        LirInst::Label(id) => {
            assert(is_loop_head(lir.insts@, *id) <==> heads@.contains(id.0));
            if platform.needs_loop_alignment() && heads.contains(&id.0) {
                out.push(AsmInst::Align16);
                out.push(AsmInst::Label(map_label(*id)));
                assert(out@ =~= old(out)@ + seq![
                    AsmInst::Align16,
                    AsmInst::Label(AsmLabel(id.0)),
                ]);
            } else {
                out.push(AsmInst::Label(map_label(*id)));
                assert(out@ =~= old(out)@ + seq![AsmInst::Label(AsmLabel(id.0))]);
            }
            None
        },
        LirInst::JumpIfZero(id) => {
            out.push(AsmInst::CmpMem8Imm8(Reg64::R13, 0));
            out.push(AsmInst::Jz(map_label(*id)));
            assert(out@ =~= old(out)@ + seq![
                AsmInst::CmpMem8Imm8(Reg64::R13, 0),
                AsmInst::Jz(AsmLabel(id.0)),
            ]);
            None
        },
        LirInst::JumpIfNonZero(id) => {
            out.push(AsmInst::CmpMem8Imm8(Reg64::R13, 0));
            out.push(AsmInst::Jnz(map_label(*id)));
            assert(out@ =~= old(out)@ + seq![
                AsmInst::CmpMem8Imm8(Reg64::R13, 0),
                AsmInst::Jnz(AsmLabel(id.0)),
            ]);
            None
        },
    }
}

/// Translate the LIR instruction stream; only output, input and the stack
/// alignment depend on the platform.
pub fn emit_lir_body<P: PlatformEmitter>(
    out: &mut Vec<AsmInst>,
    labels: &mut LabelAllocator,
    lir: &LirProgram,
    routines: Routines,
    platform: &P,
)
    requires
        lir_ok(*platform, lir.insts@, routines, old(labels).next(), old(labels).floor()),
    ensures
        ({
            let body = lir_body(
                *platform,
                lir.insts@,
                routines,
                old(labels).next(),
                lir.insts@.len() as int,
            );
            &&& final(out)@ == old(out)@ + body.insts
            &&& final(labels).next() == body.next
            &&& final(labels).floor() == old(labels).floor()
        }),
{
    let heads = collect_loop_heads(lir);
    let ghost insts = lir.insts@;
    let ghost start = old(labels).next();
    let mut window: Option<(isize, isize)> = None;
    let mut k: usize = 0;
    assert(out@ =~= old(out)@ + lir_body(*platform, insts, routines, start, 0).insts);
    while k < lir.insts.len()
        invariant
            k <= lir.insts.len(),
            insts == lir.insts@,
            start == old(labels).next(),
            labels.floor() == old(labels).floor(),
            lir_ok(*platform, insts, routines, start, labels.floor()),
            forall|id: LabelId| #[trigger]
                is_loop_head(lir.insts@, id) <==> heads@.contains(id.0),
            out@ == old(out)@ + lir_body(*platform, insts, routines, start, k as int).insts,
            labels.next() == lir_body(*platform, insts, routines, start, k as int).next,
            window_view(window) == lir_body(*platform, insts, routines, start, k as int).window,
        decreases lir.insts.len() - k,
    {
        proof {
            lemma_body_takes_labels(
                *platform,
                insts,
                routines,
                start,
                k + 1,
                insts.len() as int,
            );
            assert(window_fits(lir_body(*platform, insts, routines, start, k + 1).window));
            assert(lir_inst_ok(insts[k as int]));
        }
        window = emit_lir_inst(
            out,
            labels,
            lir,
            &heads,
            &lir.insts[k],
            window,
            routines,
            platform,
        );
        k += 1;
        assert(out@ =~= old(out)@ + lir_body(*platform, insts, routines, start, k as int).insts);
    }
}

} // verus!
