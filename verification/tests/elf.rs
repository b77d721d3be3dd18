use amazingbf::backend::x86_64::elf::{
    build_elf_executable, BASE_VADDR, ELF64_EHDR_SIZE, ELF64_PHDR_SIZE,
};
use amazingbf::backend::x86_64::encode::EncodedProgram;

fn read_u16(bytes: &[u8], offset: usize) -> u16 {
    u16::from_le_bytes(bytes[offset..offset + 2].try_into().unwrap())
}

fn read_u32(bytes: &[u8], offset: usize) -> u32 {
    u32::from_le_bytes(bytes[offset..offset + 4].try_into().unwrap())
}

fn read_u64(bytes: &[u8], offset: usize) -> u64 {
    u64::from_le_bytes(bytes[offset..offset + 8].try_into().unwrap())
}

#[test]
fn elf_header_and_segment_flags_match_backend_contract() {
    let encoded = EncodedProgram {
        text: vec![0xC3], // ret
    };
    let elf = build_elf_executable(&encoded);

    assert_eq!(&elf[0..4], b"\x7FELF");
    assert_eq!(read_u16(&elf, 16), 2);
    assert_eq!(read_u16(&elf, 18), 62);
    assert_eq!(
        read_u64(&elf, 24),
        BASE_VADDR + (ELF64_EHDR_SIZE + ELF64_PHDR_SIZE)
    );
    assert_eq!(read_u64(&elf, 32), ELF64_EHDR_SIZE);
    assert_eq!(read_u16(&elf, 54), ELF64_PHDR_SIZE as u16);
    assert_eq!(read_u32(&elf, ELF64_EHDR_SIZE as usize), 1);
    assert_eq!(read_u32(&elf, ELF64_EHDR_SIZE as usize + 4), 0x5);
    assert_eq!(read_u64(&elf, ELF64_EHDR_SIZE as usize + 32), elf.len() as u64);
    assert_eq!(read_u64(&elf, ELF64_EHDR_SIZE as usize + 40), elf.len() as u64);
}
