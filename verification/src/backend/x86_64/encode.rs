//! x86_64 machine-code encoder.
//!
//! Encoding runs in two phases. The first appends the bytes of every
//! instruction, with a zero placeholder where a label's displacement belongs,
//! binds each label to the offset at which it stands, and records one fixup
//! per placeholder. The second overwrites the placeholders with the
//! displacements, measured from the end of the instruction.
//!
//! The result is stated without the two phases: instruction `i` of a program
//! occupies the bytes from `offset_of(insts, i)` to `offset_of(insts, i + 1)`,
//! and these are `inst_bytes` of the instruction.

use std::collections::HashMap;

use vstd::prelude::*;

use crate::backend::asm_ir::{AsmInst, AsmLabel, AsmProgram, Reg64};
use crate::bytes::{push_all, push_le32, push_le64};
use crate::bytes::{le32, le64};

verus! {

broadcast use vstd::std_specs::hash::group_hash_axioms;

/// Encoded program, carrying the finished machine-code byte sequence.
#[derive(Debug, Clone)]
pub struct EncodedProgram {
    /// `.text` bytes, ready to be written into an ELF / PE image.
    pub text: Vec<u8>,
}

/// Byte range that a single `AsmInst` occupies inside the emitted `.text`.
#[derive(Debug, Clone, Copy, PartialEq, Eq, Structural)]
pub struct EncodedInst {
    /// Start offset of the instruction inside `.text`.
    pub offset: usize,
    /// Encoded byte length. Labels have length 0.
    pub len: usize,
}

/// Byte offset of every label of an encoded program.
#[derive(Debug)]
pub struct LabelMap {
    offsets: HashMap<u32, usize>,
}

impl View for LabelMap {
    type V = Map<u32, usize>;

    closed spec fn view(&self) -> Map<u32, usize> {
        self.offsets@
    }
}

impl LabelMap {
    /// The offset of `label`, if the program binds it.
    pub fn get(&self, label: &AsmLabel) -> (r: Option<&usize>)
        ensures
            match r {
                Some(offset) => self@.contains_key(label.0) && *offset == self@[label.0],
                None => !self@.contains_key(label.0),
            },
    {
        self.offsets.get(&label.0)
    }
}

/// The displacement field at the end of an instruction, if it refers to a
/// label.
#[derive(Debug, Clone, Copy, PartialEq, Eq, Structural)]
pub enum LabelField {
    /// The instruction refers to no label.
    Absent,
    /// A one-byte displacement to the label.
    Rel8(AsmLabel),
    /// A four-byte displacement to the label.
    Rel32(AsmLabel),
}

impl LabelField {
    /// Width of the field in bytes.
    pub open spec fn width(self) -> nat {
        match self {
            LabelField::Absent => 0,
            LabelField::Rel8(_) => 1,
            LabelField::Rel32(_) => 4,
        }
    }

    /// The field's bytes for displacement `rel`.
    pub open spec fn bytes(self, rel: int) -> Seq<u8> {
        match self {
            LabelField::Absent => Seq::empty(),
            LabelField::Rel8(_) => seq![(rel as i8) as u8],
            LabelField::Rel32(_) => le32((rel as i32) as u32),
        }
    }

    /// Whether displacement `rel` fits the field.
    pub open spec fn fits(self, rel: int) -> bool {
        match self {
            LabelField::Absent => true,
            LabelField::Rel8(_) => i8::MIN <= rel <= i8::MAX,
            LabelField::Rel32(_) => i32::MIN <= rel <= i32::MAX,
        }
    }

    /// The label referred to; meaningless for `Absent`.
    pub open spec fn label(self) -> AsmLabel {
        match self {
            LabelField::Absent => AsmLabel(0),
            LabelField::Rel8(l) => l,
            LabelField::Rel32(l) => l,
        }
    }
}

/// The x86_64 number of a register.
pub open spec fn reg_code(reg: Reg64) -> int {
    match reg {
        Reg64::Rax => 0,
        Reg64::Rcx => 1,
        Reg64::Rdx => 2,
        Reg64::Rbx => 3,
        Reg64::Rsp => 4,
        Reg64::Rbp => 5,
        Reg64::Rsi => 6,
        Reg64::Rdi => 7,
        Reg64::R8 => 8,
        Reg64::R9 => 9,
        Reg64::R10 => 10,
        Reg64::R11 => 11,
        Reg64::R12 => 12,
        Reg64::R13 => 13,
        Reg64::R14 => 14,
        Reg64::R15 => 15,
    }
}

/// REX prefix `0100 W R 0 B` with W set: 64-bit operands.
pub open spec fn rex_w(r: int, b: int) -> u8 {
    (0x48 + 4 * r + b) as u8
}

/// ModRM byte `mm rrr bbb`.
pub open spec fn modrm(mode: int, reg: int, rm: int) -> u8 {
    (64 * mode + 8 * reg + rm) as u8
}

/// `op r/m64, r64` between two registers.
pub open spec fn reg_reg_bytes(opcode: u8, rm: Reg64, reg: Reg64) -> Seq<u8> {
    seq![
        rex_w(reg_code(reg) / 8, reg_code(rm) / 8),
        opcode,
        modrm(3, reg_code(reg) % 8, reg_code(rm) % 8),
    ]
}

/// `op r64, imm` of the immediate ALU group: the one-byte immediate form where
/// the value fits a signed byte, the four-byte form otherwise.
pub open spec fn reg_imm_bytes(subcode: int, reg: Reg64, imm: i32) -> Seq<u8> {
    let rex = rex_w(0, reg_code(reg) / 8);
    let rm = modrm(3, subcode, reg_code(reg) % 8);
    if i8::MIN <= imm <= i8::MAX {
        seq![rex, 0x83, rm, (imm as i8) as u8]
    } else {
        seq![rex, 0x81, rm] + le32(imm as u32)
    }
}

/// ModRM, SIB and displacement of the memory operand `[base + disp]`: no
/// displacement byte for 0 (unless the base is RBP or R13), one for a signed
/// byte, four otherwise; RSP and R12 need the SIB byte.
pub open spec fn mem_operand_bytes(reg_field: int, base: Reg64, disp: i32) -> Seq<u8> {
    let low = reg_code(base) % 8;
    let sib = if low == 4 {
        seq![0x24u8]
    } else {
        Seq::<u8>::empty()
    };
    if disp == 0 && low != 5 {
        seq![modrm(0, reg_field, low)] + sib
    } else if i8::MIN <= disp <= i8::MAX {
        seq![modrm(1, reg_field, low)] + sib + seq![(disp as i8) as u8]
    } else {
        seq![modrm(2, reg_field, low)] + sib + le32(disp as u32)
    }
}

/// `op r64, [base + disp]` (or the store direction, by opcode).
pub open spec fn mem_reg_bytes(opcode: u8, base: Reg64, disp: i32, reg: Reg64) -> Seq<u8> {
    seq![rex_w(reg_code(reg) / 8, reg_code(base) / 8), opcode] + mem_operand_bytes(
        reg_code(reg) % 8,
        base,
        disp,
    )
}

/// Byte operation on `[reg]`, written `[reg + 0]` with a displacement byte.
pub open spec fn mem8_bytes(opcode: u8, subcode: int, reg: Reg64) -> Seq<u8> {
    seq![rex_w(0, reg_code(reg) / 8), opcode, modrm(1, subcode, reg_code(reg) % 8), 0x00u8]
}

/// Byte operation on `[reg + disp8]` with a byte immediate.
pub open spec fn mem8_disp8_bytes(opcode: u8, reg: Reg64, disp: i8, imm: u8) -> Seq<u8> {
    seq![rex_w(0, reg_code(reg) / 8), opcode, modrm(1, 0, reg_code(reg) % 8), disp as u8, imm]
}

/// Byte operation on `[reg + disp32]` with a byte immediate.
pub open spec fn mem8_disp32_bytes(opcode: u8, reg: Reg64, disp: i32, imm: u8) -> Seq<u8> {
    seq![rex_w(0, reg_code(reg) / 8), opcode, modrm(2, 0, reg_code(reg) % 8)] + le32(
        disp as u32,
    ) + seq![imm]
}

/// `push r64` / `pop r64`; R8 to R15 take a REX.B prefix.
pub open spec fn push_pop_bytes(opcode: int, reg: Reg64) -> Seq<u8> {
    let op = (opcode + reg_code(reg) % 8) as u8;
    if reg_code(reg) >= 8 {
        seq![0x41u8, op]
    } else {
        seq![op]
    }
}

/// Padding needed at offset `pos` to reach a multiple of sixteen.
pub open spec fn align_pad(pos: nat) -> nat {
    ((16 - pos % 16) % 16) as nat
}

/// `n` bytes of padding in the recommended multi-byte `nop` forms.
pub open spec fn nop_bytes(n: nat) -> Seq<u8>
    decreases n,
{
    if n == 0 {
        Seq::empty()
    } else if n == 1 {
        seq![0x90u8]
    } else if n == 2 {
        seq![0x66u8, 0x90]
    } else if n == 3 {
        seq![0x0Fu8, 0x1F, 0x00]
    } else if n == 4 {
        seq![0x0Fu8, 0x1F, 0x40, 0x00]
    } else if n == 5 {
        seq![0x0Fu8, 0x1F, 0x44, 0x00, 0x00]
    } else if n == 6 {
        seq![0x66u8, 0x0F, 0x1F, 0x44, 0x00, 0x00]
    } else if n == 7 {
        seq![0x0Fu8, 0x1F, 0x80, 0x00, 0x00, 0x00, 0x00]
    } else {
        seq![0x0Fu8, 0x1F, 0x84, 0x00, 0x00, 0x00, 0x00, 0x00] + nop_bytes((n - 8) as nat)
    }
}

/// The label operand of an instruction.
pub open spec fn label_field(inst: AsmInst) -> LabelField {
    match inst {
        AsmInst::Jz(label) => LabelField::Rel32(label),
        AsmInst::Jnz(label) => LabelField::Rel32(label),
        AsmInst::Jb(label) => LabelField::Rel32(label),
        AsmInst::Jae(label) => LabelField::Rel32(label),
        AsmInst::Jl(label) => LabelField::Rel32(label),
        AsmInst::Jge(label) => LabelField::Rel32(label),
        AsmInst::Jmp(label) => LabelField::Rel32(label),
        AsmInst::Call(label) => LabelField::Rel32(label),
        AsmInst::CallMemLabel(label) => LabelField::Rel32(label),
        AsmInst::LeaRegLabel(_, label) => LabelField::Rel32(label),
        AsmInst::JzShort(label) => LabelField::Rel8(label),
        AsmInst::JnzShort(label) => LabelField::Rel8(label),
        AsmInst::JbShort(label) => LabelField::Rel8(label),
        AsmInst::JaeShort(label) => LabelField::Rel8(label),
        AsmInst::JlShort(label) => LabelField::Rel8(label),
        AsmInst::JgeShort(label) => LabelField::Rel8(label),
        AsmInst::JmpShort(label) => LabelField::Rel8(label),
        _ => LabelField::Absent,
    }
}

/// The opcode bytes of an instruction that refers to a label.
pub open spec fn branch_bytes(inst: AsmInst) -> Seq<u8> {
    match inst {
        AsmInst::LeaRegLabel(dst, _) => seq![rex_w(reg_code(dst) / 8, 0), 0x8D, modrm(0, reg_code(dst) % 8, 5)],
        AsmInst::Jz(_) => seq![0x0Fu8, 0x84],
        AsmInst::Jnz(_) => seq![0x0Fu8, 0x85],
        AsmInst::Jb(_) => seq![0x0Fu8, 0x82],
        AsmInst::Jae(_) => seq![0x0Fu8, 0x83],
        AsmInst::Jl(_) => seq![0x0Fu8, 0x8C],
        AsmInst::Jge(_) => seq![0x0Fu8, 0x8D],
        AsmInst::Jmp(_) => seq![0xE9u8],
        AsmInst::JzShort(_) => seq![0x74u8],
        AsmInst::JnzShort(_) => seq![0x75u8],
        AsmInst::JbShort(_) => seq![0x72u8],
        AsmInst::JaeShort(_) => seq![0x73u8],
        AsmInst::JlShort(_) => seq![0x7Cu8],
        AsmInst::JgeShort(_) => seq![0x7Du8],
        AsmInst::JmpShort(_) => seq![0xEBu8],
        AsmInst::Call(_) => seq![0xE8u8],
        AsmInst::CallMemLabel(_) => seq![0x48u8, 0xFF, modrm(0, 2, 5)],
        _ => Seq::empty(),
    }
}

/// The bytes of an instruction on 64-bit registers.
pub open spec fn reg_inst_bytes(inst: AsmInst) -> Seq<u8> {
    match inst {
        AsmInst::MovRegImm64(reg, imm) => seq![rex_w(0, reg_code(reg) / 8), (0xB8 + reg_code(reg) % 8) as u8] + le64(imm as u64),
        AsmInst::MovRegReg(dst, src) => reg_reg_bytes(0x89, dst, src),
        AsmInst::AddRegImm32(reg, imm) => reg_imm_bytes(0, reg, imm),
        AsmInst::AndRegImm32(reg, imm) => reg_imm_bytes(4, reg, imm),
        AsmInst::AddRegReg(dst, src) => reg_reg_bytes(0x01, dst, src),
        AsmInst::SubRegReg(dst, src) => reg_reg_bytes(0x29, dst, src),
        AsmInst::CmpRegReg(lhs, rhs) => reg_reg_bytes(0x39, lhs, rhs),
        AsmInst::CmpRegImm32(reg, imm) => reg_imm_bytes(7, reg, imm),
        AsmInst::ShrRegImm8(reg, imm) => seq![rex_w(0, reg_code(reg) / 8), 0xC1, modrm(3, 5, reg_code(reg) % 8), imm],
        AsmInst::LeaRegMem(dst, base, disp) => mem_reg_bytes(0x8D, base, disp, dst),
        AsmInst::MovMemReg64(base, disp, src) => mem_reg_bytes(0x89, base, disp, src),
        AsmInst::MovRegMem64(dst, base, disp) => mem_reg_bytes(0x8B, base, disp, dst),
        AsmInst::Push(reg) => push_pop_bytes(0x50, reg),
        AsmInst::Pop(reg) => push_pop_bytes(0x58, reg),
        _ => Seq::empty(),
    }
}

/// The bytes of an instruction on a tape byte with an explicit base register.
pub open spec fn mem8_inst_bytes(inst: AsmInst) -> Seq<u8> {
    match inst {
        AsmInst::AddMem8Imm8(reg, imm) => mem8_bytes(0x80, 0, reg).push(imm as u8),
        AsmInst::IncMem8(reg) => mem8_bytes(0xFE, 0, reg),
        AsmInst::DecMem8(reg) => mem8_bytes(0xFE, 1, reg),
        AsmInst::MovMem8Imm8(reg, imm) => mem8_bytes(0xC6, 0, reg).push(imm),
        AsmInst::AddMem8ImmDisp8(reg, disp, imm) => mem8_disp8_bytes(0x80, reg, disp, imm as u8),
        AsmInst::MovMem8ImmDisp8(reg, disp, imm) => mem8_disp8_bytes(0xC6, reg, disp, imm),
        AsmInst::AddMem8ImmDisp32(reg, disp, imm) => mem8_disp32_bytes(0x80, reg, disp, imm as u8),
        AsmInst::MovMem8ImmDisp32(reg, disp, imm) => mem8_disp32_bytes(0xC6, reg, disp, imm),
        AsmInst::CmpMem8Imm8(reg, imm) => mem8_bytes(0x80, 7, reg).push(imm),
        _ => Seq::empty(),
    }
}

/// The bytes of an instruction whose registers are fixed.
pub open spec fn plain_bytes(inst: AsmInst) -> Seq<u8> {
    match inst {
        AsmInst::Ret => seq![0xC3u8],
        AsmInst::Cld => seq![0xFCu8],
        AsmInst::RepMovsb => seq![0xF3u8, 0xA4],
        AsmInst::Std => seq![0xFDu8],
        AsmInst::RepneScasb => seq![0xF2u8, 0xAE],
        AsmInst::XorEaxEax => seq![0x31u8, 0xC0],
        AsmInst::MovEcxImm32(imm) => seq![0xB9u8] + le32(imm as u32),
        AsmInst::RepStosb => seq![0xF3u8, 0xAA],
        AsmInst::Syscall => seq![0x0Fu8, 0x05],
        AsmInst::MovzxEbxFromMemR13 => seq![0x41u8, 0x0F, 0xB6, 0x5D, 0x00],
        AsmInst::MovEaxEbx => seq![0x89u8, 0xD8],
        AsmInst::ImulEaxEbxImm32(imm) => seq![0x69u8, 0xC3] + le32(imm as u32),
        AsmInst::AddMemR13Al => seq![0x41u8, 0x00, 0x45, 0x00],
        AsmInst::AddMemR13Bl => seq![0x41u8, 0x00, 0x5D, 0x00],
        AsmInst::SubMemR13Bl => seq![0x41u8, 0x28, 0x5D, 0x00],
        AsmInst::AddMemR13BlDisp8(disp) => seq![0x41u8, 0x00, 0x5D, disp as u8],
        AsmInst::SubMemR13BlDisp8(disp) => seq![0x41u8, 0x28, 0x5D, disp as u8],
        AsmInst::AddMemR13AlDisp8(disp) => seq![0x41u8, 0x00, 0x45, disp as u8],
        AsmInst::MovAlMemR13 => seq![0x41u8, 0x8A, 0x45, 0x00],
        AsmInst::MovMemRbxAl => seq![0x88u8, 0x03],
        _ => Seq::empty(),
    }
}

/// The bytes of an instruction at offset `pos`, up to its displacement field.
#[verifier::opaque]
pub open spec fn inst_head(inst: AsmInst, pos: nat) -> Seq<u8> {
    match inst {
        AsmInst::Label(_) => Seq::<u8>::empty(),
        AsmInst::Align16 => nop_bytes(align_pad(pos)),
        AsmInst::RawBytes(bytes) => bytes@,
        AsmInst::MovRegImm64(..)
        | AsmInst::MovRegReg(..)
        | AsmInst::AddRegImm32(..)
        | AsmInst::AndRegImm32(..)
        | AsmInst::AddRegReg(..)
        | AsmInst::SubRegReg(..)
        | AsmInst::CmpRegReg(..)
        | AsmInst::CmpRegImm32(..)
        | AsmInst::ShrRegImm8(..)
        | AsmInst::LeaRegMem(..)
        | AsmInst::MovMemReg64(..)
        | AsmInst::MovRegMem64(..)
        | AsmInst::Push(..)
        | AsmInst::Pop(..) => reg_inst_bytes(inst),
        AsmInst::AddMem8Imm8(..)
        | AsmInst::IncMem8(..)
        | AsmInst::DecMem8(..)
        | AsmInst::MovMem8Imm8(..)
        | AsmInst::AddMem8ImmDisp8(..)
        | AsmInst::MovMem8ImmDisp8(..)
        | AsmInst::AddMem8ImmDisp32(..)
        | AsmInst::MovMem8ImmDisp32(..)
        | AsmInst::CmpMem8Imm8(..) => mem8_inst_bytes(inst),
        AsmInst::Jz(..)
        | AsmInst::Jnz(..)
        | AsmInst::Jb(..)
        | AsmInst::Jae(..)
        | AsmInst::Jl(..)
        | AsmInst::Jge(..)
        | AsmInst::Jmp(..)
        | AsmInst::Call(..)
        | AsmInst::CallMemLabel(..)
        | AsmInst::LeaRegLabel(..)
        | AsmInst::JzShort(..)
        | AsmInst::JnzShort(..)
        | AsmInst::JbShort(..)
        | AsmInst::JaeShort(..)
        | AsmInst::JlShort(..)
        | AsmInst::JgeShort(..)
        | AsmInst::JmpShort(..) => branch_bytes(inst),
        _ => plain_bytes(inst),
    }
}

/// The bytes of an instruction at offset `pos`, whose label operand is `rel`
/// bytes away from the instruction's end.
pub open spec fn inst_bytes(inst: AsmInst, pos: nat, rel: int) -> Seq<u8> {
    inst_head(inst, pos) + label_field(inst).bytes(rel)
}

/// The number of bytes of an instruction at offset `pos`.
pub open spec fn inst_len(inst: AsmInst, pos: nat) -> nat {
    inst_head(inst, pos).len() + label_field(inst).width()
}

/// The offset of instruction `i`, counted from the start of the program.
pub open spec fn offset_of(insts: Seq<AsmInst>, i: int) -> nat
    decreases i,
{
    if i <= 0 {
        0
    } else {
        offset_of(insts, i - 1) + inst_len(insts[i - 1], offset_of(insts, i - 1))
    }
}

/// The offsets of the labels that stand among the first `n` instructions.
pub open spec fn label_map(insts: Seq<AsmInst>, n: int) -> Map<u32, usize>
    decreases n,
{
    if n <= 0 {
        Map::empty()
    } else {
        match insts[n - 1] {
            AsmInst::Label(l) => label_map(insts, n - 1).insert(
                l.0,
                offset_of(insts, n - 1) as usize,
            ),
            _ => label_map(insts, n - 1),
        }
    }
}

/// The offsets of all labels of a program.
pub open spec fn labels_of(insts: Seq<AsmInst>) -> Map<u32, usize> {
    label_map(insts, insts.len() as int)
}

/// The distance from the end of instruction `i` to its label operand.
pub open spec fn displacement(insts: Seq<AsmInst>, i: int) -> int {
    labels_of(insts)[label_field(insts[i]).label().0] - offset_of(insts, i + 1)
}

/// The byte forms on `[reg]` have no SIB byte, so RSP and R12 are no base.
pub open spec fn operands_encodable(inst: AsmInst) -> bool {
    match inst {
        AsmInst::AddMem8Imm8(reg, _) => reg_code(reg) % 8 != 4,
        AsmInst::IncMem8(reg) => reg_code(reg) % 8 != 4,
        AsmInst::DecMem8(reg) => reg_code(reg) % 8 != 4,
        AsmInst::MovMem8Imm8(reg, _) => reg_code(reg) % 8 != 4,
        AsmInst::AddMem8ImmDisp8(reg, _, _) => reg_code(reg) % 8 != 4,
        AsmInst::MovMem8ImmDisp8(reg, _, _) => reg_code(reg) % 8 != 4,
        AsmInst::AddMem8ImmDisp32(reg, _, _) => reg_code(reg) % 8 != 4,
        AsmInst::MovMem8ImmDisp32(reg, _, _) => reg_code(reg) % 8 != 4,
        AsmInst::CmpMem8Imm8(reg, _) => reg_code(reg) % 8 != 4,
        _ => true,
    }
}

/// No label is bound twice.
pub open spec fn labels_unique(insts: Seq<AsmInst>) -> bool {
    forall|i: int, j: int|
        0 <= i < j < insts.len() && #[trigger] insts[i] is Label && #[trigger] insts[j] is Label
            ==> insts[i]->Label_0 != insts[j]->Label_0
}

/// Every label referred to is bound.
pub open spec fn labels_bound(insts: Seq<AsmInst>) -> bool {
    forall|i: int|
        0 <= i < insts.len() && label_field(#[trigger] insts[i]) !is Absent ==> labels_of(
            insts,
        ).contains_key(label_field(insts[i]).label().0)
}

/// Every displacement fits its field.
pub open spec fn displacements_fit(insts: Seq<AsmInst>) -> bool {
    forall|i: int|
        0 <= i < insts.len() && label_field(#[trigger] insts[i]) !is Absent ==> label_field(
            insts[i],
        ).fits(displacement(insts, i))
}

/// The programs that have machine code: labels are unique and bound, operands
/// have an encoding, displacements fit, and the code has an address range.
pub open spec fn encodable(insts: Seq<AsmInst>) -> bool {
    &&& labels_unique(insts)
    &&& labels_bound(insts)
    &&& displacements_fit(insts)
    &&& forall|i: int| 0 <= i < insts.len() ==> operands_encodable(#[trigger] insts[i])
    &&& offset_of(insts, insts.len() as int) <= usize::MAX
}

/// `text` holds the bytes of instruction `i`, with its displacement, where the
/// instruction belongs.
pub open spec fn encoded_at(insts: Seq<AsmInst>, text: Seq<u8>, i: int) -> bool {
    text.subrange(offset_of(insts, i) as int, offset_of(insts, i + 1) as int) == inst_bytes(
        insts[i],
        offset_of(insts, i),
        displacement(insts, i),
    )
}

/// `text` is the machine code of `insts`.
pub open spec fn encodes(insts: Seq<AsmInst>, text: Seq<u8>) -> bool {
    &&& text.len() == offset_of(insts, insts.len() as int)
    &&& forall|i: int| 0 <= i < insts.len() ==> #[trigger] encoded_at(insts, text, i)
}

/// The machine code of the first `n` instructions.
pub open spec fn code_upto(insts: Seq<AsmInst>, n: int) -> Seq<u8>
    decreases n,
{
    if n <= 0 {
        Seq::empty()
    } else {
        code_upto(insts, n - 1) + inst_bytes(
            insts[n - 1],
            offset_of(insts, n - 1),
            displacement(insts, n - 1),
        )
    }
}

/// The machine code of a program.
pub open spec fn machine_code(insts: Seq<AsmInst>) -> Seq<u8> {
    code_upto(insts, insts.len() as int)
}

proof fn lemma_code_upto(insts: Seq<AsmInst>, text: Seq<u8>, n: int)
    requires
        encodes(insts, text),
        0 <= n <= insts.len(),
    ensures
        offset_of(insts, n) <= text.len(),
        text.take(offset_of(insts, n) as int) == code_upto(insts, n),
    decreases n,
{
    lemma_offset_monotone(insts, n, insts.len() as int);
    if n > 0 {
        lemma_code_upto(insts, text, n - 1);
        lemma_offset_monotone(insts, n - 1, n);
        let lo = offset_of(insts, n - 1) as int;
        let hi = offset_of(insts, n) as int;
        assert(encoded_at(insts, text, n - 1));
        assert(text.take(hi) =~= text.take(lo) + text.subrange(lo, hi));
    } else {
        assert(text.take(0) =~= Seq::<u8>::empty());
    }
}

/// A program has one machine code: the bytes of its instructions, in order.
pub proof fn law_machine_code_is_unique(insts: Seq<AsmInst>, text: Seq<u8>)
    requires
        encodes(insts, text),
    ensures
        text == machine_code(insts),
{
    lemma_code_upto(insts, text, insts.len() as int);
    assert(text.take(text.len() as int) =~= text);
}

/// The padding has the length asked for.
pub proof fn lemma_nop_len(n: nat)
    ensures
        nop_bytes(n).len() == n,
    decreases n,
{
    if n >= 8 {
        lemma_nop_len((n - 8) as nat);
    }
}

/// Offsets grow with the instruction index.
pub proof fn lemma_offset_monotone(insts: Seq<AsmInst>, i: int, j: int)
    requires
        0 <= i <= j,
    ensures
        offset_of(insts, i) <= offset_of(insts, j),
    decreases j - i,
{
    if i < j {
        lemma_offset_monotone(insts, i, j - 1);
    }
}

/// Kind of a fixup: the width of the displacement to patch in.
#[derive(Debug, Clone, Copy, PartialEq, Eq, Structural)]
enum FixupKind {
    /// Four bytes, relative to the byte that follows them.
    Rel32FromNextInsn,
    /// One byte, relative to the byte that follows it.
    Rel8FromNextInsn,
}

/// A placeholder that still needs to be patched.
#[derive(Debug, Clone, Copy)]
struct Fixup {
    /// Target label of the jump or call.
    label: AsmLabel,
    /// Offset of the placeholder inside the code.
    at: usize,
    /// Width of the placeholder.
    kind: FixupKind,
}

/// Machine-code encoding buffer: bytes, bound labels and open fixups.
struct CodeBuffer {
    bytes: Vec<u8>,
    labels: HashMap<u32, usize>,
    fixups: Vec<Fixup>,
}

/// The label field that a fixup stands for.
spec fn fixup_field(fixup: Fixup) -> LabelField {
    match fixup.kind {
        FixupKind::Rel32FromNextInsn => LabelField::Rel32(fixup.label),
        FixupKind::Rel8FromNextInsn => LabelField::Rel8(fixup.label),
    }
}

/// The displacement that a fixup calls for.
spec fn fixup_rel(fixup: Fixup, labels: Map<u32, usize>) -> int {
    labels[fixup.label.0] - (fixup.at + fixup_field(fixup).width())
}

/// `bytes` with one fixup resolved.
spec fn patch_one(bytes: Seq<u8>, fixup: Fixup, labels: Map<u32, usize>) -> Seq<u8> {
    let field = fixup_field(fixup).bytes(fixup_rel(fixup, labels));
    Seq::new(
        bytes.len(),
        |p: int|
            if fixup.at <= p < fixup.at + field.len() {
                field[p - fixup.at]
            } else {
                bytes[p]
            },
    )
}

/// `bytes` with the first `k` fixups resolved.
spec fn patch_all(
    bytes: Seq<u8>,
    fixups: Seq<Fixup>,
    labels: Map<u32, usize>,
    k: int,
) -> Seq<u8>
    decreases k,
{
    if k <= 0 {
        bytes
    } else {
        patch_one(patch_all(bytes, fixups, labels, k - 1), fixups[k - 1], labels)
    }
}

/// The number of label operands among the first `n` instructions.
spec fn fixup_count(insts: Seq<AsmInst>, n: int) -> nat
    decreases n,
{
    if n <= 0 {
        0
    } else {
        fixup_count(insts, n - 1) + if label_field(insts[n - 1]) is Absent {
            0nat
        } else {
            1nat
        }
    }
}

/// `fixup` is the one that instruction `i` gives rise to.
spec fn is_fixup_of(insts: Seq<AsmInst>, i: int, fixup: Fixup) -> bool {
    &&& fixup_field(fixup) == label_field(insts[i])
    &&& fixup.at + label_field(insts[i]).width() == offset_of(insts, i + 1)
}

/// One fixup was added, for the field `field` at the end of the code.
spec fn adds_fixup(before: CodeBuffer, after: CodeBuffer, field: LabelField) -> bool {
    &&& after.fixups@.len() == before.fixups@.len() + 1
    &&& after.fixups@.drop_last() == before.fixups@
    &&& fixup_field(after.fixups@.last()) == field
    &&& after.fixups@.last().at + field.width() == after.bytes@.len()
}

/// The first phase has run over the first `n` instructions.
spec fn emitted(insts: Seq<AsmInst>, n: int, buf: CodeBuffer) -> bool {
    &&& buf.bytes@.len() == offset_of(insts, n)
    &&& forall|i: int| 0 <= i < n ==> #[trigger] patched_at(insts, buf.bytes@, 0, i)
    &&& buf.labels@ == label_map(insts, n)
    &&& buf.fixups@.len() == fixup_count(insts, n)
    &&& forall|i: int| 0 <= i < n ==> #[trigger] has_fixup(insts, buf.fixups@, i)
}

/// The fixup of instruction `i` is recorded, if it has one.
spec fn has_fixup(insts: Seq<AsmInst>, fixups: Seq<Fixup>, i: int) -> bool {
    label_field(insts[i]) !is Absent ==> fixup_count(insts, i) < fixups.len() && is_fixup_of(
        insts,
        i,
        fixups[fixup_count(insts, i) as int],
    )
}

proof fn lemma_fixup_count_monotone(insts: Seq<AsmInst>, i: int, j: int)
    requires
        0 <= i <= j,
    ensures
        fixup_count(insts, i) <= fixup_count(insts, j),
    decreases j - i,
{
    if i < j {
        lemma_fixup_count_monotone(insts, i, j - 1);
    }
}

proof fn lemma_field_len(field: LabelField, rel: int)
    ensures
        field.bytes(rel).len() == field.width(),
{
}

proof fn lemma_patch_len(bytes: Seq<u8>, fixups: Seq<Fixup>, labels: Map<u32, usize>, k: int)
    ensures
        patch_all(bytes, fixups, labels, k).len() == bytes.len(),
    decreases k,
{
    if k > 0 {
        lemma_patch_len(bytes, fixups, labels, k - 1);
    }
}

/// Resolving a fixup replaces the displacement at the end of its instruction.
proof fn lemma_patch_here(
    bytes: Seq<u8>,
    fixup: Fixup,
    labels: Map<u32, usize>,
    lo: int,
    head: Seq<u8>,
)
    requires
        fixup.at == lo + head.len(),
        0 <= lo,
        fixup.at + fixup_field(fixup).width() <= bytes.len(),
        bytes.subrange(lo, fixup.at + fixup_field(fixup).width()) == head + fixup_field(
            fixup,
        ).bytes(0),
    ensures
        patch_one(bytes, fixup, labels).subrange(lo, fixup.at + fixup_field(fixup).width())
            == head + fixup_field(fixup).bytes(fixup_rel(fixup, labels)),
{
    let field = fixup_field(fixup);
    let hi = fixup.at + field.width();
    lemma_field_len(field, 0);
    lemma_field_len(field, fixup_rel(fixup, labels));
    let now = patch_one(bytes, fixup, labels).subrange(lo, hi);
    let want = head + field.bytes(fixup_rel(fixup, labels));
    assert forall|p: int| 0 <= p < now.len() implies now[p] == want[p] by {
        assert(bytes.subrange(lo, hi)[p] == bytes[lo + p]);
        if p < head.len() {
            assert((head + field.bytes(0))[p] == head[p]);
        }
    }
    assert(now =~= want);
}

/// Resolving a fixup leaves the bytes outside its field alone.
proof fn lemma_patch_elsewhere(
    bytes: Seq<u8>,
    fixup: Fixup,
    labels: Map<u32, usize>,
    lo: int,
    hi: int,
)
    requires
        0 <= lo <= hi <= bytes.len(),
        hi <= fixup.at || fixup.at + fixup_field(fixup).width() <= lo,
    ensures
        patch_one(bytes, fixup, labels).subrange(lo, hi) == bytes.subrange(lo, hi),
{
    lemma_field_len(fixup_field(fixup), fixup_rel(fixup, labels));
    assert(patch_one(bytes, fixup, labels).subrange(lo, hi) =~= bytes.subrange(lo, hi));
}

/// The bytes of instruction `i` in `text`, with displacements filled in for
/// the first `k` instructions.
spec fn patched_at(insts: Seq<AsmInst>, text: Seq<u8>, k: int, i: int) -> bool {
    text.subrange(offset_of(insts, i) as int, offset_of(insts, i + 1) as int) == inst_bytes(
        insts[i],
        offset_of(insts, i),
        if i < k {
            displacement(insts, i)
        } else {
            0
        },
    )
}

/// Once the fixups of the first `k` instructions are resolved, these
/// instructions carry their displacements and the others still hold zeros.
proof fn lemma_patched(insts: Seq<AsmInst>, buf: CodeBuffer, k: int)
    requires
        emitted(insts, insts.len() as int, buf),
        0 <= k <= insts.len(),
    ensures
        ({
            let text = patch_all(
                buf.bytes@,
                buf.fixups@,
                labels_of(insts),
                fixup_count(insts, k) as int,
            );
            &&& text.len() == offset_of(insts, insts.len() as int)
            &&& forall|i: int| 0 <= i < insts.len() ==> #[trigger] patched_at(insts, text, k, i)
        }),
    decreases k,
{
    let labels = labels_of(insts);
    let n = insts.len() as int;
    lemma_patch_len(buf.bytes@, buf.fixups@, labels, fixup_count(insts, k) as int);
    if k > 0 {
        lemma_patched(insts, buf, k - 1);
        let before = patch_all(
            buf.bytes@,
            buf.fixups@,
            labels,
            fixup_count(insts, k - 1) as int,
        );
        let after = patch_all(buf.bytes@, buf.fixups@, labels, fixup_count(insts, k) as int);
        lemma_patch_len(buf.bytes@, buf.fixups@, labels, fixup_count(insts, k - 1) as int);
        assert forall|i: int| 0 <= i < n implies #[trigger] patched_at(insts, after, k, i) by {
            assert(patched_at(insts, before, k - 1, i));
            lemma_patched_step(insts, buf, before, after, k, i);
        }
    }
}

proof fn lemma_patched_step(
    insts: Seq<AsmInst>,
    buf: CodeBuffer,
    before: Seq<u8>,
    after: Seq<u8>,
    k: int,
    i: int,
)
    requires
        emitted(insts, insts.len() as int, buf),
        0 < k <= insts.len(),
        0 <= i < insts.len(),
        before.len() == offset_of(insts, insts.len() as int),
        label_field(insts[k - 1]) is Absent ==> after == before,
        label_field(insts[k - 1]) !is Absent ==> after == patch_one(
            before,
            buf.fixups@[fixup_count(insts, k - 1) as int],
            labels_of(insts),
        ),
        patched_at(insts, before, k - 1, i),
    ensures
        patched_at(insts, after, k, i),
{
    let lo = offset_of(insts, i) as int;
    let hi = offset_of(insts, i + 1) as int;
    let field = label_field(insts[k - 1]);
    lemma_offset_monotone(insts, i + 1, insts.len() as int);
    if field is Absent {
        if i == k - 1 {
            assert(field.bytes(0) == field.bytes(displacement(insts, i)));
        }
    } else {
        let fixup = buf.fixups@[fixup_count(insts, k - 1) as int];
        assert(has_fixup(insts, buf.fixups@, k - 1));
        assert(fixup_rel(fixup, labels_of(insts)) == displacement(insts, k - 1));
        if i == k - 1 {
            lemma_patch_here(
                before,
                fixup,
                labels_of(insts),
                lo,
                inst_head(insts[i], offset_of(insts, i)),
            );
        } else {
            if i < k - 1 {
                lemma_offset_monotone(insts, i + 1, k - 1);
            } else {
                lemma_offset_monotone(insts, k, i);
            }
            lemma_patch_elsewhere(before, fixup, labels_of(insts), lo, hi);
        }
    }
}

impl CodeBuffer {
    /// An empty buffer.
    fn new() -> (buf: Self)
        ensures
            buf.bytes@ == Seq::<u8>::empty(),
            buf.labels@ == Map::<u32, usize>::empty(),
            buf.fixups@ == Seq::<Fixup>::empty(),
    {
        CodeBuffer { bytes: Vec::new(), labels: HashMap::new(), fixups: Vec::new() }
    }

    /// The offset of the next byte.
    fn pos(&self) -> (p: usize)
        ensures
            p == self.bytes@.len(),
    {
        self.bytes.len()
    }

    /// Bind a label to the current offset.
    fn bind_label(&mut self, label: AsmLabel)
        ensures
            final(self).bytes@ == old(self).bytes@,
            final(self).fixups@ == old(self).fixups@,
            final(self).labels@ == old(self).labels@.insert(
                label.0,
                old(self).bytes@.len() as usize,
            ),
    {
        let at = self.pos();
        self.labels.insert(label.0, at);
    }

    /// Append one byte.
    fn emit_u8(&mut self, b: u8)
        ensures
            final(self).bytes@ == old(self).bytes@.push(b),
            final(self).fixups@ == old(self).fixups@,
            final(self).labels@ == old(self).labels@,
    {
        self.bytes.push(b);
    }

    /// Append a little-endian 32-bit integer.
    fn emit_i32(&mut self, v: i32)
        ensures
            final(self).bytes@ == old(self).bytes@ + le32(v as u32),
            final(self).fixups@ == old(self).fixups@,
            final(self).labels@ == old(self).labels@,
    {
        push_le32(&mut self.bytes, v as u32);
    }

    /// Append a little-endian 64-bit integer.
    fn emit_i64(&mut self, v: i64)
        ensures
            final(self).bytes@ == old(self).bytes@ + le64(v as u64),
            final(self).fixups@ == old(self).fixups@,
            final(self).labels@ == old(self).labels@,
    {
        push_le64(&mut self.bytes, v as u64);
    }

    /// Append a four-byte placeholder and record its fixup.
    fn emit_rel32_fixup(&mut self, label: AsmLabel)
        ensures
            final(self).bytes@ == old(self).bytes@ + LabelField::Rel32(label).bytes(0),
            final(self).labels@ == old(self).labels@,
            adds_fixup(*old(self), *final(self), LabelField::Rel32(label)),
    {
        let at = self.pos();
        self.emit_i32(0);
        self.fixups.push(Fixup { label, at, kind: FixupKind::Rel32FromNextInsn });
        assert(self.fixups@.drop_last() =~= old(self).fixups@);
    }

    /// Append a one-byte placeholder and record its fixup.
    fn emit_rel8_fixup(&mut self, label: AsmLabel)
        ensures
            final(self).bytes@ == old(self).bytes@ + LabelField::Rel8(label).bytes(0),
            final(self).labels@ == old(self).labels@,
            adds_fixup(*old(self), *final(self), LabelField::Rel8(label)),
    {
        let at = self.pos();
        self.emit_u8(0);
        self.fixups.push(Fixup { label, at, kind: FixupKind::Rel8FromNextInsn });
        assert(self.fixups@.drop_last() =~= old(self).fixups@);
        assert(self.bytes@ =~= old(self).bytes@ + LabelField::Rel8(label).bytes(0));
    }

    /// Resolve every fixup and hand back the code and the label offsets.
    fn finish(self) -> (r: (Vec<u8>, LabelMap))
        requires
            forall|k: int|
                0 <= k < self.fixups@.len() ==> {
                    let fixup = #[trigger] self.fixups@[k];
                    &&& self.labels@.contains_key(fixup.label.0)
                    &&& fixup.at + fixup_field(fixup).width() <= self.bytes@.len()
                    &&& fixup_field(fixup).fits(fixup_rel(fixup, self.labels@))
                },
        ensures
            r.0@ == patch_all(
                self.bytes@,
                self.fixups@,
                self.labels@,
                self.fixups@.len() as int,
            ),
            r.1@ == self.labels@,
    {
        let mut bytes = self.bytes;
        let fixups = self.fixups;
        let labels = self.labels;
        let mut k: usize = 0;
        while k < fixups.len()
            invariant
                k <= fixups.len(),
                fixups@ == self.fixups@,
                labels@ == self.labels@,
                bytes@ == patch_all(self.bytes@, fixups@, labels@, k as int),
                bytes@.len() == self.bytes@.len(),
                forall|k: int|
                    0 <= k < self.fixups@.len() ==> {
                        let fixup = #[trigger] self.fixups@[k];
                        &&& self.labels@.contains_key(fixup.label.0)
                        &&& fixup.at + fixup_field(fixup).width() <= self.bytes@.len()
                        &&& fixup_field(fixup).fits(fixup_rel(fixup, self.labels@))
                    },
            decreases fixups.len() - k,
        {
            let fixup: Fixup = fixups[k];
            assert(self.fixups@[k as int] == fixup);
            assert(bytes.len() == bytes@.len());
            let at = fixup.at;
            let target: usize = match labels.get(&fixup.label.0) {
                Some(offset) => *offset,
                None => 0,
            };
            let ghost before = bytes@;
            match fixup.kind {
                FixupKind::Rel32FromNextInsn => {
                    let rel = relative(target, at + 4) as u32;
                    bytes.set(at, (rel % 256) as u8);
                    bytes.set(at + 1, ((rel / 256) % 256) as u8);
                    bytes.set(at + 2, ((rel / 65536) % 256) as u8);
                    bytes.set(at + 3, ((rel / 16777216) % 256) as u8);
                },
                FixupKind::Rel8FromNextInsn => {
                    let rel = relative(target, at + 1) as i8;
                    bytes.set(at, rel as u8);
                },
            }
            assert(bytes@ =~= patch_one(before, fixup, labels@));
            k += 1;
        }
        (bytes, LabelMap { offsets: labels })
    }
}

/// `target - next`, which fits 32 bits.
fn relative(target: usize, next: usize) -> (rel: i32)
    requires
        i32::MIN <= target - next <= i32::MAX,
    ensures
        rel == target - next,
{
    if target >= next {
        (target - next) as i32
    } else {
        (-((next - target) as i64)) as i32
    }
}

/// The x86_64 register number of a `Reg64`.
pub fn reg_num(reg: Reg64) -> (n: u8)
    ensures
        n == reg_code(reg),
        n < 16,
{
    match reg {
        Reg64::Rax => 0,
        Reg64::Rcx => 1,
        Reg64::Rdx => 2,
        Reg64::Rbx => 3,
        Reg64::Rsp => 4,
        Reg64::Rbp => 5,
        Reg64::Rsi => 6,
        Reg64::Rdi => 7,
        Reg64::R8 => 8,
        Reg64::R9 => 9,
        Reg64::R10 => 10,
        Reg64::R11 => 11,
        Reg64::R12 => 12,
        Reg64::R13 => 13,
        Reg64::R14 => 14,
        Reg64::R15 => 15,
    }
}

/// The REX.W prefix with the R and B bits given.
fn rex_byte(r: u8, b: u8) -> (rex: u8)
    requires
        r <= 1,
        b <= 1,
    ensures
        rex == rex_w(r as int, b as int),
{
    0x48 + 4 * r + b
}

/// The ModRM byte of the three fields.
fn modrm_byte(mode: u8, reg: u8, rm: u8) -> (b: u8)
    requires
        mode <= 3,
        reg <= 7,
        rm <= 7,
    ensures
        b == modrm(mode as int, reg as int, rm as int),
{
    64 * mode + 8 * reg + rm
}

/// Emit `op r/m64, r64` between two registers.
fn emit_reg_reg(buf: &mut CodeBuffer, opcode: u8, rm: Reg64, reg: Reg64)
    ensures
        final(buf).bytes@ == old(buf).bytes@ + reg_reg_bytes(opcode, rm, reg),
        final(buf).fixups@ == old(buf).fixups@,
        final(buf).labels@ == old(buf).labels@,
{
    let r = reg_num(reg);
    let b = reg_num(rm);
    buf.emit_u8(rex_byte(r / 8, b / 8));
    buf.emit_u8(opcode);
    buf.emit_u8(modrm_byte(3, r % 8, b % 8));
    assert(buf.bytes@ =~= old(buf).bytes@ + reg_reg_bytes(opcode, rm, reg));
}

/// Emit `op r64, imm` in the shorter of its two forms.
fn emit_reg_imm32(buf: &mut CodeBuffer, subcode: u8, reg: Reg64, imm: i32)
    requires
        subcode <= 7,
    ensures
        final(buf).bytes@ == old(buf).bytes@ + reg_imm_bytes(subcode as int, reg, imm),
        final(buf).fixups@ == old(buf).fixups@,
        final(buf).labels@ == old(buf).labels@,
{
    let rm = reg_num(reg);
    buf.emit_u8(rex_byte(0, rm / 8));
    if -128 <= imm && imm <= 127 {
        buf.emit_u8(0x83);
        buf.emit_u8(modrm_byte(3, subcode, rm % 8));
        buf.emit_u8((imm as i8) as u8);
    } else {
        buf.emit_u8(0x81);
        buf.emit_u8(modrm_byte(3, subcode, rm % 8));
        buf.emit_i32(imm);
    }
    assert(buf.bytes@ =~= old(buf).bytes@ + reg_imm_bytes(subcode as int, reg, imm));
}

/// Emit ModRM, SIB and displacement of `[base + disp]`.
fn emit_modrm_sib_mem(buf: &mut CodeBuffer, reg_field: u8, base: Reg64, disp: i32)
    requires
        reg_field <= 7,
    ensures
        final(buf).bytes@ == old(buf).bytes@ + mem_operand_bytes(reg_field as int, base, disp),
        final(buf).fixups@ == old(buf).fixups@,
        final(buf).labels@ == old(buf).labels@,
{
    let low = reg_num(base) % 8;
    let fits_disp8 = -128 <= disp && disp <= 127;
    let mode: u8 = if disp == 0 && low != 5 {
        0
    } else if fits_disp8 {
        1
    } else {
        2
    };
    buf.emit_u8(modrm_byte(mode, reg_field, low));
    if low == 4 {
        buf.emit_u8(0x24);
    }
    if mode == 1 {
        buf.emit_u8((disp as i8) as u8);
    } else if mode == 2 {
        buf.emit_i32(disp);
    }
    assert(buf.bytes@ =~= old(buf).bytes@ + mem_operand_bytes(reg_field as int, base, disp));
}

/// Emit `op r64, [base + disp]`, or the store direction, by opcode.
fn emit_mem_reg64(buf: &mut CodeBuffer, opcode: u8, base: Reg64, disp: i32, reg: Reg64)
    ensures
        final(buf).bytes@ == old(buf).bytes@ + mem_reg_bytes(opcode, base, disp, reg),
        final(buf).fixups@ == old(buf).fixups@,
        final(buf).labels@ == old(buf).labels@,
{
    let r = reg_num(reg);
    buf.emit_u8(rex_byte(r / 8, reg_num(base) / 8));
    buf.emit_u8(opcode);
    emit_modrm_sib_mem(buf, r % 8, base, disp);
    assert(buf.bytes@ =~= old(buf).bytes@ + mem_reg_bytes(opcode, base, disp, reg));
}

/// Emit an instruction whose memory operand is `[rip + label]`.
fn emit_rip_rel(buf: &mut CodeBuffer, opcode: u8, reg_field: u8, label: AsmLabel, rex_r: u8)
    requires
        reg_field <= 7,
        rex_r <= 1,
    ensures
        final(buf).bytes@ == old(buf).bytes@ + (seq![
            rex_w(rex_r as int, 0),
            opcode,
            modrm(0, reg_field as int, 5),
        ] + LabelField::Rel32(label).bytes(0)),
        final(buf).labels@ == old(buf).labels@,
        adds_fixup(*old(buf), *final(buf), LabelField::Rel32(label)),
{
    buf.emit_u8(rex_byte(rex_r, 0));
    buf.emit_u8(opcode);
    buf.emit_u8(modrm_byte(0, reg_field, 5));
    buf.emit_rel32_fixup(label);
    assert(buf.bytes@ =~= old(buf).bytes@ + (seq![
        rex_w(rex_r as int, 0),
        opcode,
        modrm(0, reg_field as int, 5),
    ] + LabelField::Rel32(label).bytes(0)));
}

/// Emit `shr r64, imm8`.
fn emit_shift_right_imm8(buf: &mut CodeBuffer, reg: Reg64, imm: u8)
    ensures
        final(buf).bytes@ == old(buf).bytes@ + reg_inst_bytes(AsmInst::ShrRegImm8(reg, imm)),
        final(buf).fixups@ == old(buf).fixups@,
        final(buf).labels@ == old(buf).labels@,
{
    let rm = reg_num(reg);
    buf.emit_u8(rex_byte(0, rm / 8));
    buf.emit_u8(0xC1);
    buf.emit_u8(modrm_byte(3, 5, rm % 8));
    buf.emit_u8(imm);
    assert(buf.bytes@ =~= old(buf).bytes@ + reg_inst_bytes(AsmInst::ShrRegImm8(reg, imm)));
}

/// Emit a byte operation on `[reg]` without immediate.
///
/// The `[reg + 0]` form with a displacement byte is used because `[r13]`
/// without one means `[rip + disp32]`.
fn emit_mem8_disp0_no_imm(buf: &mut CodeBuffer, opcode: u8, subcode: u8, reg: Reg64)
    requires
        subcode <= 7,
        reg_code(reg) % 8 != 4,
    ensures
        final(buf).bytes@ == old(buf).bytes@ + mem8_bytes(opcode, subcode as int, reg),
        final(buf).fixups@ == old(buf).fixups@,
        final(buf).labels@ == old(buf).labels@,
{
    let rm = reg_num(reg);
    buf.emit_u8(rex_byte(0, rm / 8));
    buf.emit_u8(opcode);
    buf.emit_u8(modrm_byte(1, subcode, rm % 8));
    buf.emit_u8(0x00);
    assert(buf.bytes@ =~= old(buf).bytes@ + mem8_bytes(opcode, subcode as int, reg));
}

/// Emit a byte operation on `[reg]` with a byte immediate.
fn emit_mem8_disp0(buf: &mut CodeBuffer, opcode: u8, subcode: u8, reg: Reg64, imm: u8)
    requires
        subcode <= 7,
        reg_code(reg) % 8 != 4,
    ensures
        final(buf).bytes@ == old(buf).bytes@ + mem8_bytes(opcode, subcode as int, reg).push(imm),
        final(buf).fixups@ == old(buf).fixups@,
        final(buf).labels@ == old(buf).labels@,
{
    emit_mem8_disp0_no_imm(buf, opcode, subcode, reg);
    buf.emit_u8(imm);
    assert(buf.bytes@ =~= old(buf).bytes@ + mem8_bytes(opcode, subcode as int, reg).push(imm));
}

/// Emit a byte operation on `[reg + disp8]` with a byte immediate.
fn emit_mem8_disp8(buf: &mut CodeBuffer, opcode: u8, reg: Reg64, disp: i8, imm: u8)
    requires
        reg_code(reg) % 8 != 4,
    ensures
        final(buf).bytes@ == old(buf).bytes@ + mem8_disp8_bytes(opcode, reg, disp, imm),
        final(buf).fixups@ == old(buf).fixups@,
        final(buf).labels@ == old(buf).labels@,
{
    let rm = reg_num(reg);
    buf.emit_u8(rex_byte(0, rm / 8));
    buf.emit_u8(opcode);
    buf.emit_u8(modrm_byte(1, 0, rm % 8));
    buf.emit_u8(disp as u8);
    buf.emit_u8(imm);
    assert(buf.bytes@ =~= old(buf).bytes@ + mem8_disp8_bytes(opcode, reg, disp, imm));
}

/// Emit a byte operation on `[reg + disp32]` with a byte immediate.
fn emit_mem8_disp32(buf: &mut CodeBuffer, opcode: u8, reg: Reg64, disp: i32, imm: u8)
    requires
        reg_code(reg) % 8 != 4,
    ensures
        final(buf).bytes@ == old(buf).bytes@ + mem8_disp32_bytes(opcode, reg, disp, imm),
        final(buf).fixups@ == old(buf).fixups@,
        final(buf).labels@ == old(buf).labels@,
{
    let rm = reg_num(reg);
    buf.emit_u8(rex_byte(0, rm / 8));
    buf.emit_u8(opcode);
    buf.emit_u8(modrm_byte(2, 0, rm % 8));
    buf.emit_i32(disp);
    buf.emit_u8(imm);
    assert(buf.bytes@ =~= old(buf).bytes@ + mem8_disp32_bytes(opcode, reg, disp, imm));
}

/// Emit a conditional near jump: `0F cc rel32`.
fn emit_jcc_rel32(buf: &mut CodeBuffer, cc: u8, label: AsmLabel)
    ensures
        final(buf).bytes@ == old(buf).bytes@ + (seq![0x0Fu8, cc] + LabelField::Rel32(
            label,
        ).bytes(0)),
        final(buf).labels@ == old(buf).labels@,
        adds_fixup(*old(buf), *final(buf), LabelField::Rel32(label)),
{
    buf.emit_u8(0x0F);
    buf.emit_u8(cc);
    buf.emit_rel32_fixup(label);
    assert(buf.bytes@ =~= old(buf).bytes@ + (seq![0x0Fu8, cc] + LabelField::Rel32(
        label,
    ).bytes(0)));
}

/// Emit a short jump: `opcode rel8`.
fn emit_short_jump(buf: &mut CodeBuffer, opcode: u8, label: AsmLabel)
    ensures
        final(buf).bytes@ == old(buf).bytes@ + (seq![opcode] + LabelField::Rel8(label).bytes(0)),
        final(buf).labels@ == old(buf).labels@,
        adds_fixup(*old(buf), *final(buf), LabelField::Rel8(label)),
{
    buf.emit_u8(opcode);
    buf.emit_rel8_fixup(label);
    assert(buf.bytes@ =~= old(buf).bytes@ + (seq![opcode] + LabelField::Rel8(label).bytes(0)));
}

/// Emit `n` bytes of padding.
fn emit_nop_sequence(buf: &mut CodeBuffer, n: usize)
    ensures
        final(buf).bytes@ == old(buf).bytes@ + nop_bytes(n as nat),
        final(buf).fixups@ == old(buf).fixups@,
        final(buf).labels@ == old(buf).labels@,
    decreases n,
{
    if n == 0 {
    } else if n == 1 {
        buf.emit_u8(0x90);
    } else if n == 2 {
        buf.emit_u8(0x66);
        buf.emit_u8(0x90);
    } else if n == 3 {
        buf.emit_u8(0x0F);
        buf.emit_u8(0x1F);
        buf.emit_u8(0x00);
    } else if n == 4 {
        buf.emit_u8(0x0F);
        buf.emit_u8(0x1F);
        buf.emit_u8(0x40);
        buf.emit_u8(0x00);
    } else if n == 5 {
        buf.emit_u8(0x0F);
        buf.emit_u8(0x1F);
        buf.emit_u8(0x44);
        buf.emit_u8(0x00);
        buf.emit_u8(0x00);
    } else if n == 6 {
        buf.emit_u8(0x66);
        buf.emit_u8(0x0F);
        buf.emit_u8(0x1F);
        buf.emit_u8(0x44);
        buf.emit_u8(0x00);
        buf.emit_u8(0x00);
    } else if n == 7 {
        buf.emit_u8(0x0F);
        buf.emit_u8(0x1F);
        buf.emit_u8(0x80);
        buf.emit_u8(0x00);
        buf.emit_u8(0x00);
        buf.emit_u8(0x00);
        buf.emit_u8(0x00);
    } else {
        buf.emit_u8(0x0F);
        buf.emit_u8(0x1F);
        buf.emit_u8(0x84);
        buf.emit_u8(0x00);
        buf.emit_u8(0x00);
        buf.emit_u8(0x00);
        buf.emit_u8(0x00);
        buf.emit_u8(0x00);
        emit_nop_sequence(buf, n - 8);
    }
    assert(buf.bytes@ =~= old(buf).bytes@ + nop_bytes(n as nat));
}

/// Emit `push r64` or `pop r64`.
fn emit_push_pop64(buf: &mut CodeBuffer, reg: Reg64, is_push: bool)
    ensures
        final(buf).bytes@ == old(buf).bytes@ + push_pop_bytes(
            if is_push {
                0x50
            } else {
                0x58
            },
            reg,
        ),
        final(buf).fixups@ == old(buf).fixups@,
        final(buf).labels@ == old(buf).labels@,
{
    let n = reg_num(reg);
    let opcode: u8 = if is_push {
        0x50
    } else {
        0x58
    };
    if n >= 8 {
        buf.emit_u8(0x41);
    }
    buf.emit_u8(opcode + n % 8);
    assert(buf.bytes@ =~= old(buf).bytes@ + push_pop_bytes(opcode as int, reg));
}

/// Encode an instruction on 64-bit registers.
#[verifier::rlimit(40)]
fn encode_reg_inst(buf: &mut CodeBuffer, inst: &AsmInst)
    ensures
        final(buf).bytes@ == old(buf).bytes@ + reg_inst_bytes(*inst),
        final(buf).fixups@ == old(buf).fixups@,
        final(buf).labels@ == old(buf).labels@,
{
    match inst {
        AsmInst::MovRegImm64(reg, imm) => {
            let code = reg_num(*reg);
            buf.emit_u8(rex_byte(0, code / 8));
            buf.emit_u8(0xB8 + code % 8);
            buf.emit_i64(*imm);
            assert(buf.bytes@ =~= old(buf).bytes@ + reg_inst_bytes(*inst));
        },
        AsmInst::MovRegReg(dst, src) => {
            emit_reg_reg(buf, 0x89, *dst, *src);
            assert(buf.bytes@ =~= old(buf).bytes@ + reg_inst_bytes(*inst));
        },
        AsmInst::AddRegImm32(reg, imm) => {
            emit_reg_imm32(buf, 0, *reg, *imm);
            assert(buf.bytes@ =~= old(buf).bytes@ + reg_inst_bytes(*inst));
        },
        AsmInst::AndRegImm32(reg, imm) => {
            emit_reg_imm32(buf, 4, *reg, *imm);
            assert(buf.bytes@ =~= old(buf).bytes@ + reg_inst_bytes(*inst));
        },
        AsmInst::AddRegReg(dst, src) => {
            emit_reg_reg(buf, 0x01, *dst, *src);
            assert(buf.bytes@ =~= old(buf).bytes@ + reg_inst_bytes(*inst));
        },
        AsmInst::SubRegReg(dst, src) => {
            emit_reg_reg(buf, 0x29, *dst, *src);
            assert(buf.bytes@ =~= old(buf).bytes@ + reg_inst_bytes(*inst));
        },
        AsmInst::CmpRegReg(lhs, rhs) => {
            emit_reg_reg(buf, 0x39, *lhs, *rhs);
            assert(buf.bytes@ =~= old(buf).bytes@ + reg_inst_bytes(*inst));
        },
        AsmInst::CmpRegImm32(reg, imm) => {
            emit_reg_imm32(buf, 7, *reg, *imm);
            assert(buf.bytes@ =~= old(buf).bytes@ + reg_inst_bytes(*inst));
        },
        AsmInst::ShrRegImm8(reg, imm) => {
            emit_shift_right_imm8(buf, *reg, *imm);
            assert(buf.bytes@ =~= old(buf).bytes@ + reg_inst_bytes(*inst));
        },
        AsmInst::LeaRegMem(dst, base, disp) => {
            emit_mem_reg64(buf, 0x8D, *base, *disp, *dst);
            assert(buf.bytes@ =~= old(buf).bytes@ + reg_inst_bytes(*inst));
        },
        AsmInst::MovMemReg64(base, disp, src) => {
            emit_mem_reg64(buf, 0x89, *base, *disp, *src);
            assert(buf.bytes@ =~= old(buf).bytes@ + reg_inst_bytes(*inst));
        },
        AsmInst::MovRegMem64(dst, base, disp) => {
            emit_mem_reg64(buf, 0x8B, *base, *disp, *dst);
            assert(buf.bytes@ =~= old(buf).bytes@ + reg_inst_bytes(*inst));
        },
        AsmInst::Push(reg) => {
            emit_push_pop64(buf, *reg, true);
            assert(buf.bytes@ =~= old(buf).bytes@ + reg_inst_bytes(*inst));
        },
        AsmInst::Pop(reg) => {
            emit_push_pop64(buf, *reg, false);
            assert(buf.bytes@ =~= old(buf).bytes@ + reg_inst_bytes(*inst));
        },
        _ => {
            assert(buf.bytes@ =~= old(buf).bytes@ + reg_inst_bytes(*inst));
        },
    }
}

/// Encode an instruction on a tape byte with an explicit base register.
#[verifier::rlimit(40)]
fn encode_mem8_inst(buf: &mut CodeBuffer, inst: &AsmInst)
    requires
        operands_encodable(*inst),
    ensures
        final(buf).bytes@ == old(buf).bytes@ + mem8_inst_bytes(*inst),
        final(buf).fixups@ == old(buf).fixups@,
        final(buf).labels@ == old(buf).labels@,
{
    match inst {
        AsmInst::AddMem8Imm8(reg, imm) => {
            emit_mem8_disp0(buf, 0x80, 0, *reg, *imm as u8);
            assert(buf.bytes@ =~= old(buf).bytes@ + mem8_inst_bytes(*inst));
        },
        AsmInst::IncMem8(reg) => {
            emit_mem8_disp0_no_imm(buf, 0xFE, 0, *reg);
            assert(buf.bytes@ =~= old(buf).bytes@ + mem8_inst_bytes(*inst));
        },
        AsmInst::DecMem8(reg) => {
            emit_mem8_disp0_no_imm(buf, 0xFE, 1, *reg);
            assert(buf.bytes@ =~= old(buf).bytes@ + mem8_inst_bytes(*inst));
        },
        AsmInst::MovMem8Imm8(reg, imm) => {
            emit_mem8_disp0(buf, 0xC6, 0, *reg, *imm);
            assert(buf.bytes@ =~= old(buf).bytes@ + mem8_inst_bytes(*inst));
        },
        AsmInst::AddMem8ImmDisp8(reg, disp, imm) => {
            emit_mem8_disp8(buf, 0x80, *reg, *disp, *imm as u8);
            assert(buf.bytes@ =~= old(buf).bytes@ + mem8_inst_bytes(*inst));
        },
        AsmInst::MovMem8ImmDisp8(reg, disp, imm) => {
            emit_mem8_disp8(buf, 0xC6, *reg, *disp, *imm);
            assert(buf.bytes@ =~= old(buf).bytes@ + mem8_inst_bytes(*inst));
        },
        AsmInst::AddMem8ImmDisp32(reg, disp, imm) => {
            emit_mem8_disp32(buf, 0x80, *reg, *disp, *imm as u8);
            assert(buf.bytes@ =~= old(buf).bytes@ + mem8_inst_bytes(*inst));
        },
        AsmInst::MovMem8ImmDisp32(reg, disp, imm) => {
            emit_mem8_disp32(buf, 0xC6, *reg, *disp, *imm);
            assert(buf.bytes@ =~= old(buf).bytes@ + mem8_inst_bytes(*inst));
        },
        AsmInst::CmpMem8Imm8(reg, imm) => {
            emit_mem8_disp0(buf, 0x80, 7, *reg, *imm);
            assert(buf.bytes@ =~= old(buf).bytes@ + mem8_inst_bytes(*inst));
        },
        _ => {
            assert(buf.bytes@ =~= old(buf).bytes@ + mem8_inst_bytes(*inst));
        },
    }
}

/// Encode an instruction whose registers are fixed.
#[verifier::rlimit(40)]
fn encode_plain(buf: &mut CodeBuffer, inst: &AsmInst)
    ensures
        final(buf).bytes@ == old(buf).bytes@ + plain_bytes(*inst),
        final(buf).fixups@ == old(buf).fixups@,
        final(buf).labels@ == old(buf).labels@,
{
    match inst {
        AsmInst::Ret => {
            buf.emit_u8(0xC3);
            assert(buf.bytes@ =~= old(buf).bytes@ + plain_bytes(*inst));
        },
        AsmInst::Cld => {
            buf.emit_u8(0xFC);
            assert(buf.bytes@ =~= old(buf).bytes@ + plain_bytes(*inst));
        },
        AsmInst::RepMovsb => {
            buf.emit_u8(0xF3);
            buf.emit_u8(0xA4);
            assert(buf.bytes@ =~= old(buf).bytes@ + plain_bytes(*inst));
        },
        AsmInst::Std => {
            buf.emit_u8(0xFD);
            assert(buf.bytes@ =~= old(buf).bytes@ + plain_bytes(*inst));
        },
        AsmInst::RepneScasb => {
            buf.emit_u8(0xF2);
            buf.emit_u8(0xAE);
            assert(buf.bytes@ =~= old(buf).bytes@ + plain_bytes(*inst));
        },
        AsmInst::XorEaxEax => {
            buf.emit_u8(0x31);
            buf.emit_u8(0xC0);
            assert(buf.bytes@ =~= old(buf).bytes@ + plain_bytes(*inst));
        },
        AsmInst::MovEcxImm32(imm) => {
            buf.emit_u8(0xB9);
            buf.emit_i32(*imm);
            assert(buf.bytes@ =~= old(buf).bytes@ + plain_bytes(*inst));
        },
        AsmInst::RepStosb => {
            buf.emit_u8(0xF3);
            buf.emit_u8(0xAA);
            assert(buf.bytes@ =~= old(buf).bytes@ + plain_bytes(*inst));
        },
        AsmInst::Syscall => {
            buf.emit_u8(0x0F);
            buf.emit_u8(0x05);
            assert(buf.bytes@ =~= old(buf).bytes@ + plain_bytes(*inst));
        },
        AsmInst::MovzxEbxFromMemR13 => {
            buf.emit_u8(0x41);
            buf.emit_u8(0x0F);
            buf.emit_u8(0xB6);
            buf.emit_u8(0x5D);
            buf.emit_u8(0x00);
            assert(buf.bytes@ =~= old(buf).bytes@ + plain_bytes(*inst));
        },
        AsmInst::MovEaxEbx => {
            buf.emit_u8(0x89);
            buf.emit_u8(0xD8);
            assert(buf.bytes@ =~= old(buf).bytes@ + plain_bytes(*inst));
        },
        AsmInst::ImulEaxEbxImm32(imm) => {
            buf.emit_u8(0x69);
            buf.emit_u8(0xC3);
            buf.emit_i32(*imm);
            assert(buf.bytes@ =~= old(buf).bytes@ + plain_bytes(*inst));
        },
        AsmInst::AddMemR13Al => {
            buf.emit_u8(0x41);
            buf.emit_u8(0x00);
            buf.emit_u8(0x45);
            buf.emit_u8(0x00);
            assert(buf.bytes@ =~= old(buf).bytes@ + plain_bytes(*inst));
        },
        AsmInst::AddMemR13Bl => {
            buf.emit_u8(0x41);
            buf.emit_u8(0x00);
            buf.emit_u8(0x5D);
            buf.emit_u8(0x00);
            assert(buf.bytes@ =~= old(buf).bytes@ + plain_bytes(*inst));
        },
        AsmInst::SubMemR13Bl => {
            buf.emit_u8(0x41);
            buf.emit_u8(0x28);
            buf.emit_u8(0x5D);
            buf.emit_u8(0x00);
            assert(buf.bytes@ =~= old(buf).bytes@ + plain_bytes(*inst));
        },
        AsmInst::AddMemR13BlDisp8(disp) => {
            buf.emit_u8(0x41);
            buf.emit_u8(0x00);
            buf.emit_u8(0x5D);
            buf.emit_u8(*disp as u8);
            assert(buf.bytes@ =~= old(buf).bytes@ + plain_bytes(*inst));
        },
        AsmInst::SubMemR13BlDisp8(disp) => {
            buf.emit_u8(0x41);
            buf.emit_u8(0x28);
            buf.emit_u8(0x5D);
            buf.emit_u8(*disp as u8);
            assert(buf.bytes@ =~= old(buf).bytes@ + plain_bytes(*inst));
        },
        AsmInst::AddMemR13AlDisp8(disp) => {
            buf.emit_u8(0x41);
            buf.emit_u8(0x00);
            buf.emit_u8(0x45);
            buf.emit_u8(*disp as u8);
            assert(buf.bytes@ =~= old(buf).bytes@ + plain_bytes(*inst));
        },
        AsmInst::MovAlMemR13 => {
            buf.emit_u8(0x41);
            buf.emit_u8(0x8A);
            buf.emit_u8(0x45);
            buf.emit_u8(0x00);
            assert(buf.bytes@ =~= old(buf).bytes@ + plain_bytes(*inst));
        },
        AsmInst::MovMemRbxAl => {
            buf.emit_u8(0x88);
            buf.emit_u8(0x03);
            assert(buf.bytes@ =~= old(buf).bytes@ + plain_bytes(*inst));
        },
        _ => {
            assert(buf.bytes@ =~= old(buf).bytes@ + plain_bytes(*inst));
        },
    }
}

/// Encode an instruction that refers to a label.
#[verifier::rlimit(40)]
fn encode_branch(buf: &mut CodeBuffer, inst: &AsmInst)
    requires
        label_field(*inst) !is Absent,
    ensures
        final(buf).bytes@ == old(buf).bytes@ + (branch_bytes(*inst) + label_field(*inst).bytes(
            0,
        )),
        adds_fixup(*old(buf), *final(buf), label_field(*inst)),
        final(buf).labels@ == old(buf).labels@,
{
    match inst {
        AsmInst::Jz(label) => {
            emit_jcc_rel32(buf, 0x84, *label);
            assert(buf.bytes@ =~= old(buf).bytes@ + (branch_bytes(*inst) + label_field(*inst).bytes(0)));
        },
        AsmInst::Jnz(label) => {
            emit_jcc_rel32(buf, 0x85, *label);
            assert(buf.bytes@ =~= old(buf).bytes@ + (branch_bytes(*inst) + label_field(*inst).bytes(0)));
        },
        AsmInst::Jb(label) => {
            emit_jcc_rel32(buf, 0x82, *label);
            assert(buf.bytes@ =~= old(buf).bytes@ + (branch_bytes(*inst) + label_field(*inst).bytes(0)));
        },
        AsmInst::Jae(label) => {
            emit_jcc_rel32(buf, 0x83, *label);
            assert(buf.bytes@ =~= old(buf).bytes@ + (branch_bytes(*inst) + label_field(*inst).bytes(0)));
        },
        AsmInst::Jl(label) => {
            emit_jcc_rel32(buf, 0x8C, *label);
            assert(buf.bytes@ =~= old(buf).bytes@ + (branch_bytes(*inst) + label_field(*inst).bytes(0)));
        },
        AsmInst::Jge(label) => {
            emit_jcc_rel32(buf, 0x8D, *label);
            assert(buf.bytes@ =~= old(buf).bytes@ + (branch_bytes(*inst) + label_field(*inst).bytes(0)));
        },
        AsmInst::Jmp(label) => {
            buf.emit_u8(0xE9);
            buf.emit_rel32_fixup(*label);
            assert(buf.bytes@ =~= old(buf).bytes@ + (branch_bytes(*inst) + label_field(*inst).bytes(0)));
        },
        AsmInst::Call(label) => {
            buf.emit_u8(0xE8);
            buf.emit_rel32_fixup(*label);
            assert(buf.bytes@ =~= old(buf).bytes@ + (branch_bytes(*inst) + label_field(*inst).bytes(0)));
        },
        AsmInst::CallMemLabel(label) => {
            emit_rip_rel(buf, 0xFF, 2, *label, 0);
            assert(buf.bytes@ =~= old(buf).bytes@ + (branch_bytes(*inst) + label_field(*inst).bytes(0)));
        },
        AsmInst::LeaRegLabel(dst, label) => {
            let code = reg_num(*dst);
            emit_rip_rel(buf, 0x8D, code % 8, *label, code / 8);
            assert(buf.bytes@ =~= old(buf).bytes@ + (branch_bytes(*inst) + label_field(*inst).bytes(0)));
        },
        AsmInst::JzShort(label) => {
            emit_short_jump(buf, 0x74, *label);
            assert(buf.bytes@ =~= old(buf).bytes@ + (branch_bytes(*inst) + label_field(*inst).bytes(0)));
        },
        AsmInst::JnzShort(label) => {
            emit_short_jump(buf, 0x75, *label);
            assert(buf.bytes@ =~= old(buf).bytes@ + (branch_bytes(*inst) + label_field(*inst).bytes(0)));
        },
        AsmInst::JbShort(label) => {
            emit_short_jump(buf, 0x72, *label);
            assert(buf.bytes@ =~= old(buf).bytes@ + (branch_bytes(*inst) + label_field(*inst).bytes(0)));
        },
        AsmInst::JaeShort(label) => {
            emit_short_jump(buf, 0x73, *label);
            assert(buf.bytes@ =~= old(buf).bytes@ + (branch_bytes(*inst) + label_field(*inst).bytes(0)));
        },
        AsmInst::JlShort(label) => {
            emit_short_jump(buf, 0x7C, *label);
            assert(buf.bytes@ =~= old(buf).bytes@ + (branch_bytes(*inst) + label_field(*inst).bytes(0)));
        },
        AsmInst::JgeShort(label) => {
            emit_short_jump(buf, 0x7D, *label);
            assert(buf.bytes@ =~= old(buf).bytes@ + (branch_bytes(*inst) + label_field(*inst).bytes(0)));
        },
        AsmInst::JmpShort(label) => {
            emit_short_jump(buf, 0xEB, *label);
            assert(buf.bytes@ =~= old(buf).bytes@ + (branch_bytes(*inst) + label_field(*inst).bytes(0)));
        },
        _ => {},
    }
}

/// Encode a single instruction into the buffer.
fn encode_inst(buf: &mut CodeBuffer, inst: &AsmInst)
    requires
        operands_encodable(*inst),
    ensures
        final(buf).bytes@ == old(buf).bytes@ + inst_bytes(*inst, old(buf).bytes@.len(), 0),
        final(buf).labels@ == (match *inst {
            AsmInst::Label(l) => old(buf).labels@.insert(l.0, old(buf).bytes@.len() as usize),
            _ => old(buf).labels@,
        }),
        label_field(*inst) is Absent ==> final(buf).fixups@ == old(buf).fixups@,
        label_field(*inst) !is Absent ==> adds_fixup(*old(buf), *final(buf), label_field(*inst)),
{
    proof {
        reveal(inst_head);
    }
    let ghost pos = old(buf).bytes@.len();
    match inst {
        AsmInst::Label(label) => {
            buf.bind_label(*label);
        },
        AsmInst::Align16 => {
            let pad: usize = (16 - (buf.bytes.len() % 16)) % 16;
            emit_nop_sequence(buf, pad);
        },
        AsmInst::RawBytes(bytes) => {
            push_all(&mut buf.bytes, bytes);
        },
        AsmInst::MovRegImm64(..)
        | AsmInst::MovRegReg(..)
        | AsmInst::AddRegImm32(..)
        | AsmInst::AndRegImm32(..)
        | AsmInst::AddRegReg(..)
        | AsmInst::SubRegReg(..)
        | AsmInst::CmpRegReg(..)
        | AsmInst::CmpRegImm32(..)
        | AsmInst::ShrRegImm8(..)
        | AsmInst::LeaRegMem(..)
        | AsmInst::MovMemReg64(..)
        | AsmInst::MovRegMem64(..)
        | AsmInst::Push(..)
        | AsmInst::Pop(..) => encode_reg_inst(buf, inst),
        AsmInst::AddMem8Imm8(..)
        | AsmInst::IncMem8(..)
        | AsmInst::DecMem8(..)
        | AsmInst::MovMem8Imm8(..)
        | AsmInst::AddMem8ImmDisp8(..)
        | AsmInst::MovMem8ImmDisp8(..)
        | AsmInst::AddMem8ImmDisp32(..)
        | AsmInst::MovMem8ImmDisp32(..)
        | AsmInst::CmpMem8Imm8(..) => encode_mem8_inst(buf, inst),
        AsmInst::Jz(..)
        | AsmInst::Jnz(..)
        | AsmInst::Jb(..)
        | AsmInst::Jae(..)
        | AsmInst::Jl(..)
        | AsmInst::Jge(..)
        | AsmInst::Jmp(..)
        | AsmInst::Call(..)
        | AsmInst::CallMemLabel(..)
        | AsmInst::LeaRegLabel(..)
        | AsmInst::JzShort(..)
        | AsmInst::JnzShort(..)
        | AsmInst::JbShort(..)
        | AsmInst::JaeShort(..)
        | AsmInst::JlShort(..)
        | AsmInst::JgeShort(..)
        | AsmInst::JmpShort(..) => encode_branch(buf, inst),
        _ => encode_plain(buf, inst),
    }
    assert(buf.bytes@ =~= old(buf).bytes@ + inst_bytes(*inst, pos, 0));
}

/// Run the first phase over the whole program.
fn emit_program(program: &AsmProgram) -> (r: (CodeBuffer, Vec<EncodedInst>))
    requires
        forall|i: int|
            0 <= i < program.insts@.len() ==> operands_encodable(#[trigger] program.insts@[i]),
    ensures
        emitted(program.insts@, program.insts@.len() as int, r.0),
        r.1@.len() == program.insts@.len(),
        forall|i: int|
            0 <= i < program.insts@.len() ==> (#[trigger] r.1@[i]).offset == offset_of(
                program.insts@,
                i,
            ) && r.1@[i].offset + r.1@[i].len == offset_of(program.insts@, i + 1),
{
    let mut buf = CodeBuffer::new();
    let mut inst_map: Vec<EncodedInst> = Vec::new();
    let ghost insts = program.insts@;
    let mut n: usize = 0;
    while n < program.insts.len()
        invariant
            n <= program.insts.len(),
            insts == program.insts@,
            emitted(insts, n as int, buf),
            inst_map@.len() == n,
            forall|i: int|
                0 <= i < n ==> (#[trigger] inst_map@[i]).offset == offset_of(insts, i)
                    && inst_map@[i].offset + inst_map@[i].len == offset_of(insts, i + 1),
            forall|i: int|
                0 <= i < program.insts@.len() ==> operands_encodable(#[trigger] program.insts@[i]),
        decreases program.insts.len() - n,
    {
        let offset = buf.pos();
        let ghost before = buf;
        assert(operands_encodable(program.insts@[n as int]));
        encode_inst(&mut buf, &program.insts[n]);
        inst_map.push(EncodedInst { offset, len: buf.pos() - offset });
        proof {
            lemma_field_len(label_field(insts[n as int]), 0);
            lemma_emitted_step(insts, n as int, before, buf);
        }
        n += 1;
    }
    (buf, inst_map)
}

proof fn lemma_append_subrange(bytes: Seq<u8>, chunk: Seq<u8>, lo: int, hi: int)
    requires
        0 <= lo <= hi <= bytes.len(),
    ensures
        (bytes + chunk).subrange(lo, hi) == bytes.subrange(lo, hi),
        (bytes + chunk).subrange(bytes.len() as int, (bytes + chunk).len() as int) == chunk,
{
    assert((bytes + chunk).subrange(lo, hi) =~= bytes.subrange(lo, hi));
    assert((bytes + chunk).subrange(bytes.len() as int, (bytes + chunk).len() as int) =~= chunk);
}

/// Encoding one more instruction extends the first phase by it.
proof fn lemma_emitted_step(insts: Seq<AsmInst>, n: int, before: CodeBuffer, after: CodeBuffer)
    requires
        0 <= n < insts.len(),
        emitted(insts, n, before),
        after.bytes@ == before.bytes@ + inst_bytes(insts[n], before.bytes@.len(), 0),
        after.labels@ == (match insts[n] {
            AsmInst::Label(l) => before.labels@.insert(l.0, before.bytes@.len() as usize),
            _ => before.labels@,
        }),
        label_field(insts[n]) is Absent ==> after.fixups@ == before.fixups@,
        label_field(insts[n]) !is Absent ==> adds_fixup(before, after, label_field(insts[n])),
    ensures
        emitted(insts, n + 1, after),
{
    lemma_field_len(label_field(insts[n]), 0);
    let chunk = inst_bytes(insts[n], before.bytes@.len(), 0);
    assert(chunk.len() == inst_len(insts[n], before.bytes@.len()));
    assert(after.bytes@.len() == offset_of(insts, n + 1));
    assert forall|i: int| 0 <= i < n + 1 implies #[trigger] patched_at(
        insts,
        after.bytes@,
        0,
        i,
    ) by {
        if i < n {
            assert(patched_at(insts, before.bytes@, 0, i));
            lemma_offset_monotone(insts, i, i + 1);
            lemma_offset_monotone(insts, i + 1, n);
            lemma_append_subrange(
                before.bytes@,
                chunk,
                offset_of(insts, i) as int,
                offset_of(insts, i + 1) as int,
            );
        } else {
            lemma_append_subrange(before.bytes@, chunk, 0, 0);
        }
    }
    assert forall|i: int| 0 <= i < n + 1 implies #[trigger] has_fixup(
        insts,
        after.fixups@,
        i,
    ) by {
        if i < n && label_field(insts[i]) !is Absent {
            assert(has_fixup(insts, before.fixups@, i));
            let at = fixup_count(insts, i) as int;
            assert(before.fixups@[at] == after.fixups@[at]) by {
                if label_field(insts[n]) !is Absent {
                    assert(after.fixups@.drop_last()[at] == after.fixups@[at]);
                }
            }
        }
    }
}

/// Encode a program; with the machine code come the label offsets and the byte
/// range of every instruction.
fn encode_all(program: &AsmProgram) -> (r: (EncodedProgram, LabelMap, Vec<EncodedInst>))
    requires
        encodable(program.insts@),
    ensures
        encodes(program.insts@, r.0.text@),
        r.0.text@ == machine_code(program.insts@),
        r.1@ == labels_of(program.insts@),
        r.2@.len() == program.insts@.len(),
        forall|i: int|
            0 <= i < program.insts@.len() ==> (#[trigger] r.2@[i]).offset == offset_of(
                program.insts@,
                i,
            ) && r.2@[i].offset + r.2@[i].len == offset_of(program.insts@, i + 1),
{
    let ghost insts = program.insts@;
    let (buf, inst_map) = emit_program(program);
    proof {
        assert forall|k: int| 0 <= k < buf.fixups@.len() implies {
            let fixup = #[trigger] buf.fixups@[k];
            &&& buf.labels@.contains_key(fixup.label.0)
            &&& fixup.at + fixup_field(fixup).width() <= buf.bytes@.len()
            &&& fixup_field(fixup).fits(fixup_rel(fixup, buf.labels@))
        } by {
            let i = lemma_fixup_owner(insts, insts.len() as int, k);
            assert(has_fixup(insts, buf.fixups@, i));
            lemma_offset_monotone(insts, i + 1, insts.len() as int);
            assert(fixup_rel(buf.fixups@[k], buf.labels@) == displacement(insts, i));
        }
        lemma_patched(insts, buf, insts.len() as int);
    }
    let (text, labels) = buf.finish();
    assert forall|i: int| 0 <= i < insts.len() implies #[trigger] encoded_at(
        insts,
        text@,
        i,
    ) by {
        assert(patched_at(insts, text@, insts.len() as int, i));
    }
    proof {
        law_machine_code_is_unique(insts, text@);
    }
    (EncodedProgram { text }, labels, inst_map)
}

/// Every fixup stems from an instruction with a label operand.
proof fn lemma_fixup_owner(insts: Seq<AsmInst>, n: int, k: int) -> (i: int)
    requires
        0 <= n <= insts.len(),
        0 <= k < fixup_count(insts, n),
    ensures
        0 <= i < n,
        label_field(insts[i]) !is Absent,
        fixup_count(insts, i) == k,
    decreases n,
{
    if k < fixup_count(insts, n - 1) {
        lemma_fixup_owner(insts, n - 1, k)
    } else {
        n - 1
    }
}

/// The offsets of all labels and the byte range of every instruction.
///
/// Needs no displacement to fit: the layout does not depend on them.
pub fn layout_program(program: &AsmProgram) -> (r: (LabelMap, Vec<EncodedInst>))
    requires
        forall|i: int|
            0 <= i < program.insts@.len() ==> operands_encodable(#[trigger] program.insts@[i]),
    ensures
        r.0@ == labels_of(program.insts@),
        r.1@.len() == program.insts@.len(),
        forall|i: int|
            0 <= i < program.insts@.len() ==> (#[trigger] r.1@[i]).offset == offset_of(
                program.insts@,
                i,
            ) && r.1@[i].offset + r.1@[i].len == offset_of(program.insts@, i + 1),
        offset_of(program.insts@, program.insts@.len() as int) <= usize::MAX,
{
    let (buf, inst_map) = emit_program(program);
    let _ = buf.pos();
    (LabelMap { offsets: buf.labels }, inst_map)
}

/// Encode an `AsmProgram` into machine code.
pub fn encode_program(program: &AsmProgram) -> (r: EncodedProgram)
    requires
        encodable(program.insts@),
    ensures
        encodes(program.insts@, r.text@),
        r.text@ == machine_code(program.insts@),
{
    encode_all(program).0
}

/// Encode an `AsmProgram` and return both the encoded bytes and the byte
/// offset of every label inside `.text`.
pub fn encode_program_with_labels(program: &AsmProgram) -> (r: (EncodedProgram, LabelMap))
    requires
        encodable(program.insts@),
    ensures
        encodes(program.insts@, r.0.text@),
        r.0.text@ == machine_code(program.insts@),
        r.1@ == labels_of(program.insts@),
{
    let (encoded, labels, _) = encode_all(program);
    (encoded, labels)
}

/// Encode an `AsmProgram` and return both the encoded bytes and the byte
/// range of every instruction inside `.text`.
pub fn encode_program_with_inst_map(program: &AsmProgram) -> (r: (
    EncodedProgram,
    Vec<EncodedInst>,
))
    requires
        encodable(program.insts@),
    ensures
        encodes(program.insts@, r.0.text@),
        r.0.text@ == machine_code(program.insts@),
        r.1@.len() == program.insts@.len(),
        forall|i: int|
            0 <= i < program.insts@.len() ==> (#[trigger] r.1@[i]).offset == offset_of(
                program.insts@,
                i,
            ) && r.1@[i].offset + r.1@[i].len == offset_of(program.insts@, i + 1),
{
    let (encoded, _, inst_map) = encode_all(program);
    (encoded, inst_map)
}

} // verus!
