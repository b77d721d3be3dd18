use amazingbf::backend::asm_ir::{AsmInst, AsmLabel, AsmProgram, Reg64};
use amazingbf::backend::x86_64::debug::{dump_asm_listing, dump_hex_listing};
use amazingbf::backend::x86_64::encode::encode_program;

fn parse_hex_listing_bytes(listing: &str) -> Vec<u8> {
    let mut bytes = Vec::new();

    for line in listing.lines() {
        if let Some(rest) = line.strip_prefix("0x") {
            let Some((_, after_colon)) = rest.split_once(':') else {
                continue;
            };
            let Some((hex_field, _)) = after_colon.trim_start().split_once("  ") else {
                continue;
            };
            extend_hex_bytes(&mut bytes, hex_field);
            continue;
        }

        if let Some(rest) = line.strip_prefix("         ") {
            let trimmed = rest.trim();
            if !trimmed.is_empty() && trimmed.bytes().all(is_hex_listing_char) {
                extend_hex_bytes(&mut bytes, trimmed);
            }
        }
    }

    bytes
}

fn extend_hex_bytes(out: &mut Vec<u8>, field: &str) {
    for byte in field.split_whitespace() {
        out.push(u8::from_str_radix(byte, 16).unwrap());
    }
}

fn is_hex_listing_char(byte: u8) -> bool {
    byte.is_ascii_hexdigit() || byte == b' '
}

#[test]
fn hex_listing_bytes_match_production_encoder_output() {
    let program = AsmProgram {
        insts: vec![
            AsmInst::MovRegImm64(Reg64::Rax, 9),
            AsmInst::MovMem8Imm8(Reg64::R13, 0),
            AsmInst::Label(AsmLabel(7)),
            AsmInst::CmpMem8Imm8(Reg64::R13, 0),
            AsmInst::Jz(AsmLabel(7)),
            AsmInst::Ret,
        ],
    };

    let encoded = encode_program(&program);
    let listing = dump_hex_listing(&program);

    assert_eq!(parse_hex_listing_bytes(&listing), encoded.text);
}

#[test]
fn the_hex_column_is_the_machine_code() {
    let program = AsmProgram {
        insts: vec![
            AsmInst::Label(AsmLabel(3)),
            AsmInst::MovRegImm64(Reg64::Rax, 60),
            AsmInst::RawBytes((0u8..40).collect()),
            AsmInst::Ret,
        ],
    };
    let listing = dump_hex_listing(&program);
    let encoded = encode_program(&program);
    assert_eq!(parse_hex_listing_bytes(&listing), encoded.text);
    let offsets: Vec<&str> = listing
        .lines()
        .filter(|l| l.starts_with("0x"))
        .map(|l| l.split(':').next().unwrap())
        .collect();
    assert_eq!(offsets, ["0x0000", "0x000a", "0x0032"]);
}

#[test]
fn the_lowest_displacement_is_printed_by_its_magnitude() {
    let program = AsmProgram {
        insts: vec![AsmInst::MovMem8ImmDisp32(Reg64::R13, i32::MIN, 0)],
    };
    assert!(dump_asm_listing(&program).contains("[r13 - 0x80000000]"));
}
