//! x86_64: encoder, branch relaxation, listings, executable formats.

use vstd::prelude::*;

use crate::backend::asm_ir::{AsmLabel, AsmProgram};
use crate::backend::x86_64::elf::build_elf_executable;
use crate::backend::x86_64::elf::elf_image;
use crate::backend::x86_64::encode::{encode_program, encode_program_with_labels, LabelMap};
use crate::backend::x86_64::encode::{
    encodable, labels_of, machine_code, offset_of,
};
use crate::backend::x86_64::pe::{build_pe_executable, DataDirectory, SECTION_RVA};
use crate::backend::x86_64::pe::{lemma_aligned_bound, pe_image, pe_size_ok};
use crate::backend::x86_64::windows::WindowsProgram;
use crate::bytes::{le32, le64};

pub mod debug;
pub mod decode;
pub mod elf;
pub mod encode;
pub mod hex_laws;
pub mod machine;
pub mod pe;
pub mod ready;
pub mod relax;
pub mod windows;
pub mod windows_laws;

verus! {

/// Compile assembly into a Linux ELF64 executable.
pub fn compile_asm_to_elf(program: &AsmProgram) -> (image: Vec<u8>)
    requires
        encodable(program.insts@),
        offset_of(program.insts@, program.insts@.len() as int) + 120 <= u64::MAX,
    ensures
        image@ == elf_image(machine_code(program.insts@)),
{
    let encoded = encode_program(program);
    build_elf_executable(&encoded)
}

/// `bytes` with `chunk` written over it at `at`.
pub open spec fn write_at(bytes: Seq<u8>, at: int, chunk: Seq<u8>) -> Seq<u8> {
    Seq::new(
        bytes.len(),
        |p: int|
            if at <= p < at + chunk.len() {
                chunk[p - at]
            } else {
                bytes[p]
            },
    )
}

/// The address of a label, relative to the load address.
pub open spec fn label_rva(labels: Map<u32, usize>, label: AsmLabel) -> u32 {
    (SECTION_RVA + labels[label.0]) as u32
}

/// The section with the import descriptor filled in: lookup table, library
/// name and address table.
pub open spec fn with_descriptor(
    text: Seq<u8>,
    program: WindowsProgram,
    labels: Map<u32, usize>,
) -> Seq<u8> {
    let desc = labels[program.import_desc_label.0] as int;
    write_at(
        write_at(
            write_at(text, desc, le32(label_rva(labels, program.imports@[0].ilt_entry_label))),
            desc + 12,
            le32(label_rva(labels, program.dll_name_label)),
        ),
        desc + 16,
        le32(label_rva(labels, program.imports@[0].iat_entry_label)),
    )
}

/// The section with the slots of the first `k` imports filled in too: both
/// slots of an import hold the address of its hint/name record.
pub open spec fn with_slots(
    text: Seq<u8>,
    program: WindowsProgram,
    labels: Map<u32, usize>,
    k: int,
) -> Seq<u8>
    decreases k,
{
    if k <= 0 {
        with_descriptor(text, program, labels)
    } else {
        let import = program.imports@[k - 1];
        let rva = label_rva(labels, import.hint_name_label) as u64;
        write_at(
            write_at(
                with_slots(text, program, labels, k - 1),
                labels[import.ilt_entry_label.0] as int,
                le64(rva),
            ),
            labels[import.iat_entry_label.0] as int,
            le64(rva),
        )
    }
}

/// The section's contents.
pub open spec fn pe_section(program: WindowsProgram) -> Seq<u8> {
    with_slots(
        machine_code(program.code.insts@),
        program,
        labels_of(program.code.insts@),
        program.imports@.len() as int,
    )
}

/// The label is bound, with at least `room` bytes of code behind it.
pub open spec fn has_room(program: WindowsProgram, label: AsmLabel, room: int) -> bool {
    let insts = program.code.insts@;
    labels_of(insts).contains_key(label.0) && labels_of(insts)[label.0] + room <= offset_of(
        insts,
        insts.len() as int,
    )
}

/// The programs that can be packaged: they can be encoded, the section fits a
/// PE image, and the tables that the headers refer to are there.
pub open spec fn packageable(program: WindowsProgram) -> bool {
    &&& encodable(program.code.insts@)
    &&& pe_size_ok(offset_of(program.code.insts@, program.code.insts@.len() as int) as int)
    &&& program.imports@.len() > 0
    &&& has_room(program, program.entry_label, 0)
    &&& has_room(program, program.import_desc_label, 20)
    &&& has_room(program, program.iat_label, 0)
    &&& has_room(program, program.dll_name_label, 0)
    &&& forall|i: int|
        0 <= i < program.imports@.len() ==> {
            let import = #[trigger] program.imports@[i];
            &&& has_room(program, import.hint_name_label, 0)
            &&& has_room(program, import.ilt_entry_label, 8)
            &&& has_room(program, import.iat_entry_label, 8)
        }
}

/// Overwrite four bytes.
fn patch_u32(bytes: &mut Vec<u8>, offset: usize, value: u32)
    requires
        offset + 4 <= old(bytes)@.len(),
    ensures
        final(bytes)@ == write_at(old(bytes)@, offset as int, le32(value)),
{
    assert(bytes.len() == bytes@.len());
    bytes.set(offset, (value % 256) as u8);
    bytes.set(offset + 1, ((value / 256) % 256) as u8);
    bytes.set(offset + 2, ((value / 65536) % 256) as u8);
    bytes.set(offset + 3, ((value / 16777216) % 256) as u8);
    assert(bytes@ =~= write_at(old(bytes)@, offset as int, le32(value)));
}

/// Overwrite eight bytes.
fn patch_u64(bytes: &mut Vec<u8>, offset: usize, value: u64)
    requires
        offset + 8 <= old(bytes)@.len(),
    ensures
        final(bytes)@ == write_at(old(bytes)@, offset as int, le64(value)),
{
    assert(bytes.len() == bytes@.len());
    bytes.set(offset, (value % 256) as u8);
    bytes.set(offset + 1, ((value / 256) % 256) as u8);
    bytes.set(offset + 2, ((value / 65536) % 256) as u8);
    bytes.set(offset + 3, ((value / 16777216) % 256) as u8);
    bytes.set(offset + 4, ((value / 4294967296) % 256) as u8);
    bytes.set(offset + 5, ((value / 1099511627776) % 256) as u8);
    bytes.set(offset + 6, ((value / 281474976710656) % 256) as u8);
    bytes.set(offset + 7, ((value / 72057594037927936) % 256) as u8);
    assert(bytes@ =~= write_at(old(bytes)@, offset as int, le64(value)));
}

/// The offset of a label that the program binds.
fn label_offset(labels: &LabelMap, label: AsmLabel) -> (offset: usize)
    requires
        labels@.contains_key(label.0),
    ensures
        offset == labels@[label.0],
{
    match labels.get(&label) {
        Some(offset) => *offset,
        None => 0,
    }
}

/// The address of a label relative to the load address.
fn rva_of(labels: &LabelMap, label: AsmLabel) -> (rva: u32)
    requires
        labels@.contains_key(label.0),
        SECTION_RVA + labels@[label.0] <= u32::MAX,
    ensures
        rva == label_rva(labels@, label),
{
    SECTION_RVA + label_offset(labels, label) as u32
}

/// Compile a Windows program into a PE32+ executable.
pub fn compile_windows_program_to_pe(program: &WindowsProgram) -> (image: Vec<u8>)
    requires
        packageable(*program),
    ensures
        ({
            let labels = labels_of(program.code.insts@);
            image@ == pe_image(
                pe_section(*program),
                labels[program.entry_label.0] as u32,
                DataDirectory {
                    rva: label_rva(labels, program.import_desc_label),
                    size: program.import_dir_size,
                },
                DataDirectory {
                    rva: label_rva(labels, program.iat_label),
                    size: program.iat_size,
                },
            )
        }),
{
    let (encoded, labels) = encode_program_with_labels(&program.code);
    let ghost code = encoded.text@;
    let ghost map = labels@;
    proof {
        lemma_aligned_bound(code.len() as int, 0x1000);
    }
    let mut encoded = encoded;
    let desc = label_offset(&labels, program.import_desc_label);
    assert(has_room(*program, program.imports@[0].ilt_entry_label, 8));
    assert(has_room(*program, program.imports@[0].iat_entry_label, 8));
    let ilt_rva = rva_of(&labels, program.imports[0].ilt_entry_label);
    let dll_rva = rva_of(&labels, program.dll_name_label);
    let iat_rva = rva_of(&labels, program.imports[0].iat_entry_label);
    patch_u32(&mut encoded.text, desc, ilt_rva);
    patch_u32(&mut encoded.text, desc + 12, dll_rva);
    patch_u32(&mut encoded.text, desc + 16, iat_rva);
    let mut k: usize = 0;
    while k < program.imports.len()
        invariant
            k <= program.imports.len(),
            packageable(*program),
            code == machine_code(program.code.insts@),
            code.len() == offset_of(program.code.insts@, program.code.insts@.len() as int),
            code.len() <= aligned_len(code.len() as int),
            pe_size_ok(code.len() as int),
            map == labels@,
            map == labels_of(program.code.insts@),
            encoded.text@ == with_slots(code, *program, map, k as int),
            encoded.text@.len() == code.len(),
        decreases program.imports.len() - k,
    {
        let import = &program.imports[k];
        assert(has_room(*program, program.imports@[k as int].hint_name_label, 0));
        let hint_rva = rva_of(&labels, import.hint_name_label);
        patch_u64(&mut encoded.text, label_offset(&labels, import.ilt_entry_label), hint_rva as u64);
        patch_u64(&mut encoded.text, label_offset(&labels, import.iat_entry_label), hint_rva as u64);
        k += 1;
    }
    let entry = label_offset(&labels, program.entry_label) as u32;
    let import_directory = DataDirectory {
        rva: rva_of(&labels, program.import_desc_label),
        size: program.import_dir_size,
    };
    let iat_directory = DataDirectory {
        rva: rva_of(&labels, program.iat_label),
        size: program.iat_size,
    };
    build_pe_executable(&encoded, entry, import_directory, iat_directory)
}

/// A section's length rounded up to the section alignment.
pub open spec fn aligned_len(len: int) -> int {
    crate::backend::x86_64::pe::aligned(len, 0x1000)
}

} // verus!
