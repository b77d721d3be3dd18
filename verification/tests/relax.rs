use amazingbf::backend::asm_ir::{AsmInst, AsmLabel, AsmProgram, Reg64};
use amazingbf::backend::x86_64::encode::encode_program;
use amazingbf::backend::x86_64::relax::relax_jumps;

fn lbl(id: u32) -> AsmLabel {
    AsmLabel(id)
}

#[test]
fn short_jump_chosen_when_target_in_range() {
    let target = lbl(1);
    let program = AsmProgram {
        insts: vec![
            AsmInst::Jz(target),
            AsmInst::Ret,
            AsmInst::Label(target),
            AsmInst::Ret,
        ],
    };
    let relaxed = relax_jumps(program);
    assert!(matches!(relaxed.insts[0], AsmInst::JzShort(_)));
}

#[test]
fn unconditional_jmp_shortens_when_in_range() {
    let target = lbl(2);
    let program = AsmProgram {
        insts: vec![
            AsmInst::Jmp(target),
            AsmInst::Ret,
            AsmInst::Label(target),
            AsmInst::Ret,
        ],
    };
    let relaxed = relax_jumps(program);
    assert!(matches!(relaxed.insts[0], AsmInst::JmpShort(_)));
}

#[test]
fn long_jump_preserved_when_target_out_of_rel8_range() {
    // 200 bytes of padding > 127 → long form required.
    let target = lbl(3);
    let program = AsmProgram {
        insts: vec![
            AsmInst::Jz(target),
            AsmInst::RawBytes(vec![0x90; 200]),
            AsmInst::Label(target),
            AsmInst::Ret,
        ],
    };
    let relaxed = relax_jumps(program);
    assert!(matches!(relaxed.insts[0], AsmInst::Jz(_)));
}

#[test]
fn backward_short_jump_converges() {
    // jmp back over a very short body: the short form definitely fits.
    let head = lbl(4);
    let program = AsmProgram {
        insts: vec![
            AsmInst::Label(head),
            AsmInst::AddRegImm32(Reg64::Rax, 1),
            AsmInst::Jmp(head),
        ],
    };
    let relaxed = relax_jumps(program);
    assert!(matches!(relaxed.insts[2], AsmInst::JmpShort(_)));
}

#[test]
fn chain_of_jumps_reaches_fixed_point() {
    // Several interleaved forward jumps to the same nearby label. The
    // first pass shrinks the closest one; each subsequent pass narrows
    // more because the program shortens. All must end up short.
    let target = lbl(5);
    let mut insts = Vec::new();
    for _ in 0..4 {
        insts.push(AsmInst::Jz(target));
    }
    insts.push(AsmInst::Label(target));
    insts.push(AsmInst::Ret);
    let relaxed = relax_jumps(AsmProgram { insts });
    for inst in &relaxed.insts[..4] {
        assert!(
            matches!(inst, AsmInst::JzShort(_)),
            "expected every jz to shorten: {:?}",
            inst
        );
    }
}

#[test]
fn encoder_emits_two_bytes_for_short_jump() {
    let target = lbl(6);
    let program = AsmProgram {
        insts: vec![
            AsmInst::JzShort(target),
            AsmInst::Label(target),
            AsmInst::Ret,
        ],
    };
    let encoded = encode_program(&program);
    // jz rel8 = 2 bytes; ret = 1 byte.
    assert_eq!(encoded.text.len(), 3);
    assert_eq!(encoded.text[0], 0x74); // opcode jz rel8
    assert_eq!(encoded.text[1], 0x00); // displacement to the immediately-following instruction
}

#[test]
fn short_jump_displacement_is_signed() {
    // Backward short jump: produces a negative rel8.
    let head = lbl(7);
    let program = AsmProgram {
        insts: vec![AsmInst::Label(head), AsmInst::Ret, AsmInst::JmpShort(head)],
    };
    let encoded = encode_program(&program);
    assert_eq!(encoded.text.len(), 3);
    assert_eq!(encoded.text[1], 0xEB); // jmp rel8 opcode
    // target is at offset 0; next_ip = fixup_at(2) + 1 = 3; rel = 0 - 3 = -3 = 0xFD
    assert_eq!(encoded.text[2], 0xFD);
}
