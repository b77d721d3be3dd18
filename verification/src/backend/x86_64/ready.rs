//! Tests of whether programs can be relaxed, encoded and packaged.

use std::collections::HashMap;

use vstd::prelude::*;

use crate::backend::asm_ir::{AsmInst, AsmLabel, AsmProgram};
use crate::backend::x86_64::encode::{
    displacement, displacements_fit, encodable, label_field, labels_bound, labels_of,
    labels_unique, lemma_offset_monotone, offset_of, operands_encodable,
};
use crate::backend::x86_64::encode::{
    layout_program, reg_num, EncodedInst, LabelField, LabelMap,
};
use crate::backend::x86_64::pe::{aligned, pe_size_ok, SECTION_ALIGNMENT, SECTION_RVA};
use crate::backend::x86_64::windows::WindowsProgram;
use crate::backend::x86_64::{has_room, packageable};

verus! {

/// Every operand of a program has an encoding.
pub open spec fn all_operands_encodable(insts: Seq<AsmInst>) -> bool {
    forall|i: int| 0 <= i < insts.len() ==> operands_encodable(#[trigger] insts[i])
}

/// The label operand of an instruction.
fn field_of(inst: &AsmInst) -> (f: LabelField)
    ensures
        f == label_field(*inst),
{
    match inst {
        AsmInst::Jz(label)
        | AsmInst::Jnz(label)
        | AsmInst::Jb(label)
        | AsmInst::Jae(label)
        | AsmInst::Jl(label)
        | AsmInst::Jge(label)
        | AsmInst::Jmp(label)
        | AsmInst::Call(label)
        | AsmInst::CallMemLabel(label)
        | AsmInst::LeaRegLabel(_, label) => LabelField::Rel32(*label),
        AsmInst::JzShort(label)
        | AsmInst::JnzShort(label)
        | AsmInst::JbShort(label)
        | AsmInst::JaeShort(label)
        | AsmInst::JlShort(label)
        | AsmInst::JgeShort(label)
        | AsmInst::JmpShort(label) => LabelField::Rel8(*label),
        _ => LabelField::Absent,
    }
}

/// Whether the operands of an instruction have an encoding.
fn operands_ok(inst: &AsmInst) -> (r: bool)
    ensures
        r == operands_encodable(*inst),
{
    match inst {
        AsmInst::AddMem8Imm8(reg, _) => reg_num(*reg) % 8 != 4,
        AsmInst::IncMem8(reg) => reg_num(*reg) % 8 != 4,
        AsmInst::DecMem8(reg) => reg_num(*reg) % 8 != 4,
        AsmInst::MovMem8Imm8(reg, _) => reg_num(*reg) % 8 != 4,
        AsmInst::AddMem8ImmDisp8(reg, _, _) => reg_num(*reg) % 8 != 4,
        AsmInst::MovMem8ImmDisp8(reg, _, _) => reg_num(*reg) % 8 != 4,
        AsmInst::AddMem8ImmDisp32(reg, _, _) => reg_num(*reg) % 8 != 4,
        AsmInst::MovMem8ImmDisp32(reg, _, _) => reg_num(*reg) % 8 != 4,
        AsmInst::CmpMem8Imm8(reg, _) => reg_num(*reg) % 8 != 4,
        _ => true,
    }
}

/// Whether every operand of a program has an encoding.
fn all_operands_ok(program: &AsmProgram) -> (r: bool)
    ensures
        r == all_operands_encodable(program.insts@),
{
    let mut i: usize = 0;
    while i < program.insts.len()
        invariant
            i <= program.insts.len(),
            forall|j: int| 0 <= j < i ==> operands_encodable(#[trigger] program.insts@[j]),
        decreases program.insts.len() - i,
    {
        if !operands_ok(&program.insts[i]) {
            assert(!operands_encodable(program.insts@[i as int]));
            return false;
        }
        i += 1;
    }
    true
}

/// Whether every label referred to is bound.
fn all_bound(program: &AsmProgram, labels: &LabelMap) -> (r: bool)
    requires
        labels@ == labels_of(program.insts@),
    ensures
        r == labels_bound(program.insts@),
{
    let mut i: usize = 0;
    while i < program.insts.len()
        invariant
            i <= program.insts.len(),
            labels@ == labels_of(program.insts@),
            forall|j: int|
                0 <= j < i && label_field(#[trigger] program.insts@[j]) !is Absent
                    ==> labels_of(program.insts@).contains_key(
                    label_field(program.insts@[j]).label().0,
                ),
        decreases program.insts.len() - i,
    {
        let bound = match field_of(&program.insts[i]) {
            LabelField::Absent => true,
            LabelField::Rel8(label) => labels.get(&label).is_some(),
            LabelField::Rel32(label) => labels.get(&label).is_some(),
        };
        if !bound {
            assert(label_field(program.insts@[i as int]) !is Absent);
            return false;
        }
        i += 1;
    }
    true
}

/// Whether no label is bound twice.
fn all_unique(program: &AsmProgram) -> (r: bool)
    ensures
        r == labels_unique(program.insts@),
{
    broadcast use vstd::std_specs::hash::group_hash_axioms;

    let ghost insts = program.insts@;
    let mut seen: HashMap<u32, usize> = HashMap::new();
    let mut i: usize = 0;
    while i < program.insts.len()
        invariant
            i <= program.insts.len(),
            insts == program.insts@,
            forall|j: int|
                0 <= j < i && #[trigger] insts[j] is Label ==> seen@.contains_key(
                    insts[j]->Label_0.0,
                ),
            forall|x: u32|
                seen@.contains_key(x) ==> seen@[x] < i && insts[seen@[x] as int] is Label
                    && insts[seen@[x] as int]->Label_0.0 == x,
            forall|j: int, k: int|
                0 <= j < k < i && #[trigger] insts[j] is Label && #[trigger] insts[k] is Label
                    ==> insts[j]->Label_0 != insts[k]->Label_0,
        decreases program.insts.len() - i,
    {
        if let AsmInst::Label(label) = &program.insts[i] {
            if seen.contains_key(&label.0) {
                proof {
                    let j = seen@[label.0] as int;
                    assert(insts[j] is Label && insts[i as int] is Label);
                    assert(insts[j]->Label_0 == insts[i as int]->Label_0);
                }
                return false;
            }
            seen.insert(label.0, i);
        }
        i += 1;
    }
    true
}

/// Whether every displacement fits its field.
fn all_fit(program: &AsmProgram, labels: &LabelMap, places: &Vec<EncodedInst>) -> (r: bool)
    requires
        labels@ == labels_of(program.insts@),
        labels_bound(program.insts@),
        offset_of(program.insts@, program.insts@.len() as int) <= usize::MAX,
        places@.len() == program.insts@.len(),
        forall|i: int|
            0 <= i < program.insts@.len() ==> (#[trigger] places@[i]).offset == offset_of(
                program.insts@,
                i,
            ) && places@[i].offset + places@[i].len == offset_of(program.insts@, i + 1),
    ensures
        r == displacements_fit(program.insts@),
{
    let ghost insts = program.insts@;
    let mut i: usize = 0;
    while i < program.insts.len()
        invariant
            i <= program.insts.len(),
            insts == program.insts@,
            labels@ == labels_of(insts),
            labels_bound(insts),
            offset_of(insts, insts.len() as int) <= usize::MAX,
            places@.len() == insts.len(),
            forall|j: int|
                0 <= j < insts.len() ==> (#[trigger] places@[j]).offset == offset_of(insts, j)
                    && places@[j].offset + places@[j].len == offset_of(insts, j + 1),
            forall|j: int|
                0 <= j < i && label_field(#[trigger] insts[j]) !is Absent ==> label_field(
                    insts[j],
                ).fits(displacement(insts, j)),
        decreases program.insts.len() - i,
    {
        let field = field_of(&program.insts[i]);
        proof {
            lemma_offset_monotone(insts, i + 1, insts.len() as int);
            assert(places@[i as int].offset + places@[i as int].len <= usize::MAX);
        }
        let end: usize = places[i].offset + places[i].len;
        let fits = match field {
            LabelField::Absent => true,
            LabelField::Rel8(label) => match labels.get(&label) {
                Some(at) => {
                    let rel: i128 = *at as i128 - end as i128;
                    -128 <= rel && rel <= 127
                },
                None => false,
            },
            LabelField::Rel32(label) => match labels.get(&label) {
                Some(at) => {
                    let rel: i128 = *at as i128 - end as i128;
                    -0x8000_0000 <= rel && rel <= 0x7fff_ffff
                },
                None => false,
            },
        };
        if !fits {
            assert(label_field(insts[i as int]) !is Absent);
            return false;
        }
        i += 1;
    }
    true
}

/// Whether a program can be relaxed: its labels are bound and its operands
/// have an encoding.
pub fn is_relaxable(program: &AsmProgram) -> (r: bool)
    ensures
        r == (labels_bound(program.insts@) && all_operands_encodable(program.insts@)),
{
    if !all_operands_ok(program) {
        return false;
    }
    let (labels, _) = layout_program(program);
    all_bound(program, &labels)
}

/// Whether a program has machine code.
pub fn is_encodable(program: &AsmProgram) -> (r: bool)
    ensures
        r == encodable(program.insts@),
{
    if !all_operands_ok(program) || !all_unique(program) {
        return false;
    }
    let (labels, places) = layout_program(program);
    all_bound(program, &labels) && all_fit(program, &labels, &places)
}

/// Whether a label is bound, with at least `room` bytes of code behind it.
fn room_behind(
    program: &WindowsProgram,
    labels: &LabelMap,
    len: usize,
    label: AsmLabel,
    room: u8,
) -> (r: bool)
    requires
        labels@ == labels_of(program.code.insts@),
        len == offset_of(program.code.insts@, program.code.insts@.len() as int),
    ensures
        r == has_room(*program, label, room as int),
{
    match labels.get(&label) {
        Some(at) => *at <= len && len - *at >= room as usize,
        None => false,
    }
}

/// Whether a Windows program can be packaged.
pub fn is_packageable(program: &WindowsProgram) -> (r: bool)
    ensures
        r == packageable(*program),
{
    if !is_encodable(&program.code) {
        return false;
    }
    let (labels, places) = layout_program(&program.code);
    let n = program.code.insts.len();
    let ghost insts = program.code.insts@;
    let len: usize = if n == 0 {
        0
    } else {
        assert(places@[n - 1].offset + places@[n - 1].len == offset_of(insts, n as int));
        places[n - 1].offset + places[n - 1].len
    };
    if !section_fits(len) || program.imports.len() == 0 {
        return false;
    }
    if !room_behind(program, &labels, len, program.entry_label, 0) || !room_behind(
        program,
        &labels,
        len,
        program.import_desc_label,
        20,
    ) || !room_behind(program, &labels, len, program.iat_label, 0) || !room_behind(
        program,
        &labels,
        len,
        program.dll_name_label,
        0,
    ) {
        return false;
    }
    let mut i: usize = 0;
    while i < program.imports.len()
        invariant
            i <= program.imports.len(),
            labels@ == labels_of(program.code.insts@),
            len == offset_of(program.code.insts@, program.code.insts@.len() as int),
            forall|j: int|
                0 <= j < i ==> {
                    let import = #[trigger] program.imports@[j];
                    &&& has_room(*program, import.hint_name_label, 0)
                    &&& has_room(*program, import.ilt_entry_label, 8)
                    &&& has_room(*program, import.iat_entry_label, 8)
                },
        decreases program.imports.len() - i,
    {
        let hint = program.imports[i].hint_name_label;
        let ilt = program.imports[i].ilt_entry_label;
        let iat = program.imports[i].iat_entry_label;
        if !room_behind(program, &labels, len, hint, 0) || !room_behind(
            program,
            &labels,
            len,
            ilt,
            8,
        ) || !room_behind(program, &labels, len, iat, 8) {
            assert(program.imports@[i as int].hint_name_label == hint);
            return false;
        }
        i += 1;
    }
    true
}

/// Whether a section of `len` bytes fits a PE image.
fn section_fits(len: usize) -> (r: bool)
    ensures
        r == pe_size_ok(len as int),
{
    let len: u128 = len as u128;
    let align: u128 = SECTION_ALIGNMENT as u128;
    let pages: u128 = (len + (align - 1)) / align;
    assert(aligned(len as int, SECTION_ALIGNMENT as int) == pages * 4096);
    SECTION_RVA as u128 + pages * align <= u32::MAX as u128
}

} // verus!
