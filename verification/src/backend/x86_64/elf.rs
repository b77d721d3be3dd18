//! ELF64 executables.
//!
//! The file is the ELF header, one program header and the machine code. The
//! single loadable segment covers the whole file, readable and executable;
//! there are no sections. The entry point is the first byte of the code.

use vstd::prelude::*;

use crate::backend::x86_64::encode::EncodedProgram;
use crate::bytes::{push_all, push_le16, push_le32, push_le64};
use crate::bytes::{le16, le32, le64};

verus! {

/// Size of the ELF64 file header.
pub const ELF64_EHDR_SIZE: u64 = 64;

/// Size of an ELF64 program header entry.
pub const ELF64_PHDR_SIZE: u64 = 56;

/// Address at which the image is loaded.
pub const BASE_VADDR: u64 = 0x400000;

/// Segment alignment: one page.
pub const PAGE_ALIGN: u64 = 0x1000;

/// The ELF header of a one-segment executable.
pub open spec fn elf_header() -> Seq<u8> {
    seq![0x7Fu8, 0x45, 0x4C, 0x46, 2, 1, 1, 0, 0, 0, 0, 0, 0, 0, 0, 0]  // e_ident
         + le16(2)  // e_type: executable
         + le16(62)  // e_machine: x86_64
         + le32(1)  // e_version
         + le64(0x400078)  // e_entry
         + le64(64)  // e_phoff
         + le64(0)  // e_shoff
         + le32(0)  // e_flags
         + le16(64)  // e_ehsize
         + le16(56)  // e_phentsize
         + le16(1)  // e_phnum
         + le16(0)  // e_shentsize
         + le16(0)  // e_shnum
         + le16(0)  // e_shstrndx
}

/// The program header of a segment that covers a file of `file_size` bytes.
pub open spec fn elf_segment(file_size: u64) -> Seq<u8> {
    le32(1)  // p_type: loadable
         + le32(5)  // p_flags: readable and executable
         + le64(0)  // p_offset
         + le64(BASE_VADDR)  // p_vaddr
         + le64(BASE_VADDR)  // p_paddr
         + le64(file_size)  // p_filesz
         + le64(file_size)  // p_memsz
         + le64(PAGE_ALIGN)  // p_align
}

/// The executable around the machine code `text`.
pub open spec fn elf_image(text: Seq<u8>) -> Seq<u8> {
    elf_header() + elf_segment((120 + text.len()) as u64) + text
}

fn emit_header(out: &mut Vec<u8>)
    requires
        old(out)@.len() == 0,
    ensures
        final(out)@ == elf_header(),
{
    let mut ident: Vec<u8> = vec![0x7F, 0x45, 0x4C, 0x46, 2, 1, 1, 0, 0, 0, 0, 0, 0, 0, 0, 0];
    out.append(&mut ident);
    assert(out@ =~= seq![0x7Fu8, 0x45, 0x4C, 0x46, 2, 1, 1, 0, 0, 0, 0, 0, 0, 0, 0, 0]);
    push_le16(out, 2);
    push_le16(out, 62);
    push_le32(out, 1);
    push_le64(out, BASE_VADDR + ELF64_EHDR_SIZE + ELF64_PHDR_SIZE);
    push_le64(out, ELF64_EHDR_SIZE);
    push_le64(out, 0);
    push_le32(out, 0);
    push_le16(out, 64);
    push_le16(out, 56);
    push_le16(out, 1);
    push_le16(out, 0);
    push_le16(out, 0);
    push_le16(out, 0);
}

fn emit_segment(out: &mut Vec<u8>, file_size: u64)
    requires
        old(out)@.len() == 0,
    ensures
        final(out)@ == elf_segment(file_size),
{
    push_le32(out, 1);
    assert(out@ =~= le32(1));
    push_le32(out, 5);
    push_le64(out, 0);
    push_le64(out, BASE_VADDR);
    push_le64(out, BASE_VADDR);
    push_le64(out, file_size);
    push_le64(out, file_size);
    push_le64(out, PAGE_ALIGN);
}

/// The headers fill the bytes in front of the code, and the file holds nothing
/// behind it: the code starts at the entry point's offset.
pub proof fn law_elf_layout(text: Seq<u8>)
    ensures
        elf_header().len() == ELF64_EHDR_SIZE,
        elf_segment((120 + text.len()) as u64).len() == ELF64_PHDR_SIZE,
        elf_image(text).len() == 120 + text.len(),
        elf_image(text).subrange(120, 120 + text.len() as int) == text,
        elf_image(text).subrange(24, 32) == le64(
            (BASE_VADDR + ELF64_EHDR_SIZE + ELF64_PHDR_SIZE) as u64,
        ),
        elf_image(text).subrange(96, 104) == le64((120 + text.len()) as u64),
        elf_image(text).subrange(104, 112) == le64((120 + text.len()) as u64),
{
    let size = (120 + text.len()) as u64;
    assert(elf_header().len() == 64);
    assert(elf_segment(size).len() == 56);
    assert(elf_image(text).subrange(120, 120 + text.len() as int) =~= text);
    assert(elf_image(text).subrange(24, 32) =~= le64(0x400078));
    assert(elf_image(text).subrange(96, 104) =~= le64(size));
    assert(elf_image(text).subrange(104, 112) =~= le64(size));
}

/// Build a complete ELF64 executable around the encoded machine code.
pub fn build_elf_executable(encoded: &EncodedProgram) -> (out: Vec<u8>)
    requires
        encoded.text@.len() + 120 <= u64::MAX,
    ensures
        out@ == elf_image(encoded.text@),
{
    let file_size: u64 = encoded.text.len() as u64 + ELF64_EHDR_SIZE + ELF64_PHDR_SIZE;
    let mut out: Vec<u8> = Vec::new();
    emit_header(&mut out);
    let mut segment: Vec<u8> = Vec::new();
    emit_segment(&mut segment, file_size);
    out.append(&mut segment);
    push_all(&mut out, &encoded.text);
    out
}

} // verus!
