use amazingbf::backend::x86_64::encode::EncodedProgram;
use amazingbf::backend::x86_64::pe::{build_pe_executable, DataDirectory, SECTION_RVA};

fn read_u16(bytes: &[u8], offset: usize) -> u16 {
    u16::from_le_bytes(bytes[offset..offset + 2].try_into().unwrap())
}

fn read_u32(bytes: &[u8], offset: usize) -> u32 {
    u32::from_le_bytes(bytes[offset..offset + 4].try_into().unwrap())
}

#[test]
fn pe_header_tracks_entry_and_data_directories() {
    let image = build_pe_executable(
        &EncodedProgram { text: vec![0xC3] },
        0,
        DataDirectory {
            rva: 0x1234,
            size: 40,
        },
        DataDirectory {
            rva: 0x2345,
            size: 56,
        },
    );

    assert_eq!(&image[0..2], b"MZ");
    let pe_off = read_u32(&image, 0x3C) as usize;
    assert_eq!(&image[pe_off..pe_off + 4], b"PE\0\0");
    assert_eq!(read_u16(&image, pe_off + 4), 0x8664);
    assert_eq!(read_u16(&image, pe_off + 24), 0x20B);
    assert_eq!(read_u32(&image, pe_off + 40), SECTION_RVA);
    assert_eq!(read_u32(&image, pe_off + 24 + 112 + 8), 0x1234);
    assert_eq!(read_u32(&image, pe_off + 24 + 112 + 12), 40);
    assert_eq!(read_u32(&image, pe_off + 24 + 112 + 12 * 8), 0x2345);
    assert_eq!(read_u32(&image, pe_off + 24 + 112 + 12 * 8 + 4), 56);
}
