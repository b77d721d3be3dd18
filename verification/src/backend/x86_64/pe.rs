//! PE32+ executables for the Windows console.
//!
//! The file is a DOS stub, the PE headers and one section. The section holds
//! code and import table together and is mapped at `SECTION_RVA`.

use vstd::prelude::*;

use crate::backend::x86_64::encode::EncodedProgram;
use crate::bytes::{push_all, push_le16, push_le32, push_le64, push_zeros};
use crate::bytes::{le16, le32, le64};

verus! {

/// Size of the DOS stub, and the offset of the PE signature.
pub const DOS_STUB_SIZE: u32 = 0x80;

/// Size of the optional header.
pub const OPTIONAL_HEADER_SIZE: u16 = 240;

/// Alignment of sections in the file.
pub const FILE_ALIGNMENT: u32 = 0x200;

/// Alignment of sections in memory.
pub const SECTION_ALIGNMENT: u32 = 0x1000;

/// Preferred load address.
pub const IMAGE_BASE: u64 = 0x1_4000_0000;

/// Address of the section, relative to the load address.
pub const SECTION_RVA: u32 = 0x1000;

/// Console subsystem.
pub const SUBSYSTEM_WINDOWS_CUI: u16 = 3;

/// Size of the headers in the file, padded.
pub const SIZE_OF_HEADERS: u32 = 0x200;

/// Location of a table in the image.
#[derive(Debug, Clone, Copy, PartialEq, Eq, Structural)]
pub struct DataDirectory {
    /// Address relative to the load address.
    pub rva: u32,
    /// Size in bytes.
    pub size: u32,
}

/// `v` rounded up to a multiple of `a`.
pub open spec fn aligned(v: int, a: int) -> int {
    (v + a - 1) / a * a
}

/// The DOS stub: `MZ`, and the offset of the PE signature at 0x3C.
pub open spec fn dos_stub() -> Seq<u8> {
    seq![0x4Du8, 0x5A] + Seq::new(58, |i: int| 0u8) + le32(DOS_STUB_SIZE) + Seq::new(
        64,
        |i: int| 0u8,
    )
}

/// PE signature and COFF header.
pub open spec fn coff_header() -> Seq<u8> {
    seq![0x50u8, 0x45, 0, 0]  // "PE\0\0"
         + le16(0x8664)  // machine
         + le16(1)  // number of sections
         + le32(0)  // time stamp
         + le32(0)  // symbol table
         + le32(0)  // number of symbols
         + le16(OPTIONAL_HEADER_SIZE) + le16(0x0022)  // characteristics
}

/// The optional header up to the data directories.
pub open spec fn optional_header(code_size: u32, entry_offset: u32) -> Seq<u8> {
    le16(0x20B)  // magic: PE32+
         + seq![0u8, 0u8]  // linker version
         + le32(code_size) + le32(0) + le32(0) + le32((SECTION_RVA + entry_offset) as u32)
        + le32(SECTION_RVA) + le64(IMAGE_BASE) + le32(SECTION_ALIGNMENT) + le32(FILE_ALIGNMENT)
        + le16(6) + le16(0)  // operating system version
         + le16(0) + le16(0)  // image version
         + le16(6) + le16(0)  // subsystem version
         + le32(0) + le32(
        (SECTION_RVA + aligned(code_size as int, SECTION_ALIGNMENT as int)) as u32,
    )  // size of image
         + le32(SIZE_OF_HEADERS) + le32(0)  // checksum
         + le16(SUBSYSTEM_WINDOWS_CUI) + le16(0) + le64(0x100000) + le64(0x1000)  // stack
         + le64(0x100000) + le64(0x1000)  // heap
         + le32(0) + le32(16)  // number of data directories
}

/// One data directory.
pub open spec fn directory_bytes(dir: DataDirectory) -> Seq<u8> {
    le32(dir.rva) + le32(dir.size)
}

/// The first `k` data directories: imports at 1, address table at 12.
pub open spec fn directories(imports: DataDirectory, iat: DataDirectory, k: int) -> Seq<u8>
    decreases k,
{
    if k <= 0 {
        Seq::empty()
    } else {
        directories(imports, iat, k - 1) + directory_bytes(
            if k - 1 == 1 {
                imports
            } else if k - 1 == 12 {
                iat
            } else {
                DataDirectory { rva: 0, size: 0 }
            },
        )
    }
}

/// The header of the section.
pub open spec fn section_header(code_size: u32) -> Seq<u8> {
    seq![0x2Eu8, 0x74, 0x65, 0x78, 0x74, 0, 0, 0]  // ".text"
         + le32(code_size) + le32(SECTION_RVA) + le32(
        aligned(code_size as int, FILE_ALIGNMENT as int) as u32,
    ) + le32(SIZE_OF_HEADERS) + le32(0) + le32(0) + le16(0) + le16(0) + le32(0xE0000060)
}

/// The headers, padded to `SIZE_OF_HEADERS`.
pub open spec fn pe_headers(
    code_size: u32,
    entry_offset: u32,
    imports: DataDirectory,
    iat: DataDirectory,
) -> Seq<u8> {
    dos_stub() + coff_header() + optional_header(code_size, entry_offset) + directories(
        imports,
        iat,
        16,
    ) + section_header(code_size) + Seq::new(80, |i: int| 0u8)
}

/// The executable around the section contents `text`.
pub open spec fn pe_image(
    text: Seq<u8>,
    entry_offset: u32,
    imports: DataDirectory,
    iat: DataDirectory,
) -> Seq<u8> {
    pe_headers(text.len() as u32, entry_offset, imports, iat) + text + Seq::new(
        (aligned(text.len() as int, FILE_ALIGNMENT as int) - text.len()) as nat,
        |i: int| 0u8,
    )
}

/// The section sizes that a PE image can describe.
pub open spec fn pe_size_ok(len: int) -> bool {
    SECTION_RVA + aligned(len, SECTION_ALIGNMENT as int) <= u32::MAX
}

/// `value` rounded up to a multiple of `alignment`.
fn align_up(value: u32, alignment: u32) -> (r: u32)
    requires
        alignment > 0,
        value + alignment - 1 <= u32::MAX,
    ensures
        r == aligned(value as int, alignment as int),
        value <= r < value + alignment,
{
    let units = (value + (alignment - 1)) / alignment;
    assert(units * alignment <= value + alignment - 1 && value <= units * alignment) by (nonlinear_arith)
        requires
            alignment > 0,
            units == (value + alignment - 1) / alignment as int,
    ;
    units * alignment
}

fn build_dos_stub(out: &mut Vec<u8>)
    requires
        old(out)@.len() == 0,
    ensures
        final(out)@ == dos_stub(),
{
    out.push(0x4D);
    out.push(0x5A);
    assert(out@ =~= seq![0x4Du8, 0x5A]);
    push_zeros(out, 58);
    push_le32(out, DOS_STUB_SIZE);
    push_zeros(out, 64);
}

fn emit_coff_header(out: &mut Vec<u8>)
    requires
        old(out)@.len() == 0,
    ensures
        final(out)@ == coff_header(),
{
    let mut signature: Vec<u8> = vec![0x50, 0x45, 0, 0];
    out.append(&mut signature);
    assert(out@ =~= seq![0x50u8, 0x45, 0, 0]);
    push_le16(out, 0x8664);
    push_le16(out, 1);
    push_le32(out, 0);
    push_le32(out, 0);
    push_le32(out, 0);
    push_le16(out, OPTIONAL_HEADER_SIZE);
    push_le16(out, 0x0022);
}

fn emit_optional_header(out: &mut Vec<u8>, code_size: u32, entry_offset: u32)
    requires
        old(out)@.len() == 0,
        pe_size_ok(code_size as int),
        SECTION_RVA + entry_offset <= u32::MAX,
    ensures
        final(out)@ == optional_header(code_size, entry_offset),
{
    proof {
        lemma_aligned_bound(code_size as int, SECTION_ALIGNMENT as int);
    }
    let size_of_image = SECTION_RVA + align_up(code_size, SECTION_ALIGNMENT);
    push_le16(out, 0x20B);
    assert(out@ =~= le16(0x20B));
    let mut linker: Vec<u8> = vec![0, 0];
    out.append(&mut linker);
    assert(out@ =~= le16(0x20B) + seq![0u8, 0u8]);
    push_le32(out, code_size);
    push_le32(out, 0);
    push_le32(out, 0);
    push_le32(out, SECTION_RVA + entry_offset);
    push_le32(out, SECTION_RVA);
    push_le64(out, IMAGE_BASE);
    push_le32(out, SECTION_ALIGNMENT);
    push_le32(out, FILE_ALIGNMENT);
    push_le16(out, 6);
    push_le16(out, 0);
    push_le16(out, 0);
    push_le16(out, 0);
    push_le16(out, 6);
    push_le16(out, 0);
    push_le32(out, 0);
    push_le32(out, size_of_image);
    push_le32(out, SIZE_OF_HEADERS);
    push_le32(out, 0);
    push_le16(out, SUBSYSTEM_WINDOWS_CUI);
    push_le16(out, 0);
    push_le64(out, 0x100000);
    push_le64(out, 0x1000);
    push_le64(out, 0x100000);
    push_le64(out, 0x1000);
    push_le32(out, 0);
    push_le32(out, 16);
}

fn emit_directories(out: &mut Vec<u8>, imports: DataDirectory, iat: DataDirectory)
    requires
        old(out)@.len() == 0,
    ensures
        final(out)@ == directories(imports, iat, 16),
{
    let mut idx: u8 = 0;
    assert(out@ =~= directories(imports, iat, 0));
    while idx < 16
        invariant
            idx <= 16,
            out@ == directories(imports, iat, idx as int),
        decreases 16 - idx,
    {
        let dir: DataDirectory = if idx == 1 {
            imports
        } else if idx == 12 {
            iat
        } else {
            DataDirectory { rva: 0, size: 0 }
        };
        let ghost before = out@;
        push_le32(out, dir.rva);
        push_le32(out, dir.size);
        assert(out@ =~= before + directory_bytes(dir));
        idx += 1;
    }
}

fn emit_section_header(out: &mut Vec<u8>, code_size: u32)
    requires
        old(out)@.len() == 0,
        pe_size_ok(code_size as int),
    ensures
        final(out)@ == section_header(code_size),
{
    proof {
        lemma_aligned_bound(code_size as int, SECTION_ALIGNMENT as int);
    }
    let mut name: Vec<u8> = vec![0x2E, 0x74, 0x65, 0x78, 0x74, 0, 0, 0];
    out.append(&mut name);
    assert(out@ =~= seq![0x2Eu8, 0x74, 0x65, 0x78, 0x74, 0, 0, 0]);
    push_le32(out, code_size);
    push_le32(out, SECTION_RVA);
    push_le32(out, align_up(code_size, FILE_ALIGNMENT));
    push_le32(out, SIZE_OF_HEADERS);
    push_le32(out, 0);
    push_le32(out, 0);
    push_le16(out, 0);
    push_le16(out, 0);
    push_le32(out, 0xE0000060);
}

/// Rounding up never goes down, nor up by a whole unit.
pub proof fn lemma_aligned_bound(v: int, a: int)
    requires
        a > 0,
        v >= 0,
    ensures
        v <= aligned(v, a) < v + a,
        aligned(v, a) % a == 0,
{
    let units = (v + a - 1) / a;
    assert(units * a <= v + a - 1 && v <= units * a && (units * a) % a == 0) by (nonlinear_arith)
        requires
            a > 0,
            units == (v + a - 1) / a,
    ;
}

proof fn lemma_directories_len(imports: DataDirectory, iat: DataDirectory, k: int)
    requires
        0 <= k,
    ensures
        directories(imports, iat, k).len() == 8 * k,
    decreases k,
{
    if k > 0 {
        lemma_directories_len(imports, iat, k - 1);
    }
}

/// The headers take `SIZE_OF_HEADERS` bytes, the section contents follow them,
/// and the file ends at a multiple of `FILE_ALIGNMENT`.
pub proof fn law_pe_layout(
    text: Seq<u8>,
    entry_offset: u32,
    imports: DataDirectory,
    iat: DataDirectory,
)
    ensures
        pe_headers(text.len() as u32, entry_offset, imports, iat).len() == SIZE_OF_HEADERS,
        pe_image(text, entry_offset, imports, iat).len() == SIZE_OF_HEADERS + aligned(
            text.len() as int,
            FILE_ALIGNMENT as int,
        ),
        pe_image(text, entry_offset, imports, iat).len() % (FILE_ALIGNMENT as nat) == 0,
        pe_image(text, entry_offset, imports, iat).subrange(
            SIZE_OF_HEADERS as int,
            SIZE_OF_HEADERS + text.len(),
        ) == text,
{
    lemma_directories_len(imports, iat, 16);
    lemma_aligned_bound(text.len() as int, FILE_ALIGNMENT as int);
    let size = text.len() as u32;
    assert(dos_stub().len() == 128);
    assert(coff_header().len() == 24);
    assert(optional_header(size, entry_offset).len() == 112);
    assert(section_header(size).len() == 40);
    assert(pe_headers(size, entry_offset, imports, iat).len() == 512);
    assert(pe_image(text, entry_offset, imports, iat).subrange(
        SIZE_OF_HEADERS as int,
        SIZE_OF_HEADERS + text.len(),
    ) =~= text);
}

/// Build a PE32+ executable around the section contents.
pub fn build_pe_executable(
    encoded: &EncodedProgram,
    entry_offset: u32,
    import_directory: DataDirectory,
    iat_directory: DataDirectory,
) -> (out: Vec<u8>)
    requires
        pe_size_ok(encoded.text@.len() as int),
        SECTION_RVA + entry_offset <= u32::MAX,
    ensures
        out@ == pe_image(encoded.text@, entry_offset, import_directory, iat_directory),
{
    proof {
        lemma_aligned_bound(encoded.text@.len() as int, SECTION_ALIGNMENT as int);
    }
    let size_of_code: u32 = encoded.text.len() as u32;
    let size_of_raw_data = align_up(size_of_code, FILE_ALIGNMENT);
    let mut out: Vec<u8> = Vec::new();
    build_dos_stub(&mut out);
    let mut part: Vec<u8> = Vec::new();
    emit_coff_header(&mut part);
    out.append(&mut part);
    let mut part: Vec<u8> = Vec::new();
    emit_optional_header(&mut part, size_of_code, entry_offset);
    out.append(&mut part);
    let mut part: Vec<u8> = Vec::new();
    emit_directories(&mut part, import_directory, iat_directory);
    out.append(&mut part);
    let mut part: Vec<u8> = Vec::new();
    emit_section_header(&mut part, size_of_code);
    out.append(&mut part);
    push_zeros(&mut out, 80);
    push_all(&mut out, &encoded.text);
    push_zeros(&mut out, (size_of_raw_data - size_of_code) as usize);
    out
}

} // verus!
