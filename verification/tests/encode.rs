use amazingbf::backend::asm_ir::{AsmInst, AsmLabel, AsmProgram, Reg64};
use amazingbf::backend::x86_64::encode::{
    encode_program, encode_program_with_inst_map, encode_program_with_labels,
};

#[test]
fn inst_map_tracks_per_instruction_byte_ranges() {
    let program = AsmProgram {
        insts: vec![
            AsmInst::MovRegImm64(Reg64::Rax, 9),
            AsmInst::Label(AsmLabel(3)),
            AsmInst::Ret,
        ],
    };

    let (encoded, inst_map) = encode_program_with_inst_map(&program);

    assert_eq!(inst_map.len(), program.insts.len());
    assert_eq!(inst_map[0].offset, 0);
    assert_eq!(inst_map[0].len, 10);
    assert_eq!(inst_map[1].offset, 10);
    assert_eq!(inst_map[1].len, 0);
    assert_eq!(inst_map[2].offset, 10);
    assert_eq!(inst_map[2].len, 1);
    assert_eq!(encoded.text.len(), 11);
}



#[test]
fn lea_rsp_disp8_and_stack_load_store_encode_with_sib() {
    let program = AsmProgram {
        insts: vec![
            AsmInst::LeaRegMem(Reg64::R9, Reg64::Rsp, 24),
            AsmInst::MovMemReg64(Reg64::Rsp, 32, Reg64::Rax),
            AsmInst::MovRegMem64(Reg64::R11, Reg64::Rsp, 16),
        ],
    };

    let encoded = encode_program(&program);
    assert_eq!(
        encoded.text,
        vec![
            0x4c, 0x8d, 0x4c, 0x24, 0x18, //
            0x48, 0x89, 0x44, 0x24, 0x20, //
            0x4c, 0x8b, 0x5c, 0x24, 0x10, //
        ]
    );
}

#[test]
fn inc_dec_mem8_on_r13_encode_to_four_bytes() {
    let program = AsmProgram {
        insts: vec![AsmInst::IncMem8(Reg64::R13), AsmInst::DecMem8(Reg64::R13)],
    };
    let encoded = encode_program(&program);
    // REX.W|B=0x49, opcode 0xFE, ModRM(mod=01 reg=0/1 rm=5)=0x45/0x4D, disp8=0x00.
    assert_eq!(
        encoded.text,
        vec![
            0x49, 0xFE, 0x45, 0x00, //
            0x49, 0xFE, 0x4D, 0x00,
        ]
    );
}

#[test]
fn reg_imm_uses_imm8_form_for_small_values() {
    // add rax, 1: REX.W + 0x83 /0 + ModRM + imm8 = 4 bytes.
    let program = AsmProgram {
        insts: vec![AsmInst::AddRegImm32(Reg64::Rax, 1)],
    };
    let encoded = encode_program(&program);
    assert_eq!(encoded.text.len(), 4);
    assert_eq!(encoded.text, vec![0x48, 0x83, 0xC0, 0x01]);
}

#[test]
fn reg_imm_uses_imm8_form_for_negative_small_values() {
    // sub via AddRegImm32(-1): REX.W + 0x83 /0 + ModRM + 0xFF = 4 bytes.
    let program = AsmProgram {
        insts: vec![AsmInst::AddRegImm32(Reg64::Rax, -1)],
    };
    let encoded = encode_program(&program);
    assert_eq!(encoded.text.len(), 4);
    assert_eq!(encoded.text[3], 0xFF);
}

#[test]
fn reg_imm_falls_back_to_imm32_for_large_values() {
    // add rax, 0x1000: REX.W + 0x81 /0 + ModRM + imm32 = 7 bytes.
    let program = AsmProgram {
        insts: vec![AsmInst::AddRegImm32(Reg64::Rax, 0x1000)],
    };
    let encoded = encode_program(&program);
    assert_eq!(encoded.text.len(), 7);
    assert_eq!(encoded.text, vec![0x48, 0x81, 0xC0, 0x00, 0x10, 0x00, 0x00]);
}

#[test]
fn reg_imm_imm8_boundary_128_uses_imm32_form() {
    // +128 does not fit i8 (range -128..=127), so falls back to imm32.
    let program = AsmProgram {
        insts: vec![AsmInst::AddRegImm32(Reg64::Rax, 128)],
    };
    let encoded = encode_program(&program);
    assert_eq!(encoded.text.len(), 7);
}

#[test]
fn cmp_reg_imm_also_uses_imm8_when_small() {
    let program = AsmProgram {
        insts: vec![AsmInst::CmpRegImm32(Reg64::Rax, 0)],
    };
    let encoded = encode_program(&program);
    // REX.W + 0x83 /7 + ModRM + imm8 = 4 bytes.
    assert_eq!(encoded.text.len(), 4);
    assert_eq!(encoded.text[1], 0x83);
}

#[test]
fn add_mem8_imm_disp8_on_r13_positive_disp() {
    // add byte [r13 + 5], 3
    // REX.W|B=0x49, opcode=0x80, ModRM(mod=01 reg=0 rm=5)=0x45,
    // disp8=0x05, imm8=0x03.
    let program = AsmProgram {
        insts: vec![AsmInst::AddMem8ImmDisp8(Reg64::R13, 5, 3)],
    };
    let encoded = encode_program(&program);
    assert_eq!(encoded.text, vec![0x49, 0x80, 0x45, 0x05, 0x03]);
}

#[test]
fn add_mem8_imm_disp8_on_r13_negative_disp_sign_extends() {
    // add byte [r13 - 1], 1
    // disp8=0xFF (two's complement −1).
    let program = AsmProgram {
        insts: vec![AsmInst::AddMem8ImmDisp8(Reg64::R13, -1, 1)],
    };
    let encoded = encode_program(&program);
    assert_eq!(encoded.text, vec![0x49, 0x80, 0x45, 0xFF, 0x01]);
}

#[test]
fn mov_mem8_imm_disp8_on_r13_max_positive_disp() {
    // mov byte [r13 + 127], 0x41
    // REX.W|B=0x49, opcode=0xC6, ModRM=0x45, disp8=0x7F, imm8=0x41.
    let program = AsmProgram {
        insts: vec![AsmInst::MovMem8ImmDisp8(Reg64::R13, 127, 0x41)],
    };
    let encoded = encode_program(&program);
    assert_eq!(encoded.text, vec![0x49, 0xC6, 0x45, 0x7F, 0x41]);
}


#[test]
fn add_mem8_imm_disp32_on_r13_encodes_little_endian_disp() {
    // add byte [r13 + 1000], 3
    // REX.W|B=0x49, opcode=0x80, ModRM(mod=10 reg=0 rm=5)=0x85,
    // disp32=0xE8 0x03 0x00 0x00 (1000 LE), imm8=0x03.
    let program = AsmProgram {
        insts: vec![AsmInst::AddMem8ImmDisp32(Reg64::R13, 1000, 3)],
    };
    let encoded = encode_program(&program);
    assert_eq!(
        encoded.text,
        vec![0x49, 0x80, 0x85, 0xE8, 0x03, 0x00, 0x00, 0x03]
    );
}

#[test]
fn mov_mem8_imm_disp32_on_r13_encodes_negative_disp_two_complement() {
    // mov byte [r13 - 1000], 0x41
    // disp32 = 0xFFFFFC18 (−1000 as i32 LE = 0x18 0xFC 0xFF 0xFF).
    let program = AsmProgram {
        insts: vec![AsmInst::MovMem8ImmDisp32(Reg64::R13, -1000, 0x41)],
    };
    let encoded = encode_program(&program);
    assert_eq!(
        encoded.text,
        vec![0x49, 0xC6, 0x85, 0x18, 0xFC, 0xFF, 0xFF, 0x41]
    );
}

#[test]
fn call_mem_label_and_label_map_use_rip_relative_fixups() {
    let slot = AsmLabel(9);
    let program = AsmProgram {
        insts: vec![
            AsmInst::CallMemLabel(slot),
            AsmInst::Ret,
            AsmInst::Label(slot),
            AsmInst::RawBytes(vec![0; 8]),
        ],
    };

    let (encoded, labels) = encode_program_with_labels(&program);
    assert_eq!(labels.get(&slot), Some(&8usize));
    assert_eq!(
        encoded.text[..7],
        [0x48, 0xff, 0x15, 0x01, 0x00, 0x00, 0x00]
    );
}

#[test]
fn mov_al_mem_r13_uses_disp8_zero_to_avoid_rip_alias() {
    // mov al, byte [r13] — R13's low 3 bits = 5 would collide with
    // RIP-relative in mod=00, so the encoder must select
    // mod=01 + disp8=0.  Expected: 41 8A 45 00.
    let program = AsmProgram {
        insts: vec![AsmInst::MovAlMemR13],
    };
    let encoded = encode_program(&program);
    assert_eq!(encoded.text, vec![0x41, 0x8A, 0x45, 0x00]);
}

#[test]
fn mov_mem_rbx_al_encodes_without_rex() {
    // mov byte [rbx], al — no REX (low regs, byte op on rbx is safe).
    // Expected: 88 03  (opcode=0x88, ModRM mod=00 reg=0 rm=3).
    let program = AsmProgram {
        insts: vec![AsmInst::MovMemRbxAl],
    };
    let encoded = encode_program(&program);
    assert_eq!(encoded.text, vec![0x88, 0x03]);
}

#[test]
fn std_encodes_to_single_byte_fd() {
    // std — set direction flag, opcode 0xFD, no operands.
    let program = AsmProgram {
        insts: vec![AsmInst::Std],
    };
    let encoded = encode_program(&program);
    assert_eq!(encoded.text, vec![0xFD]);
}

#[test]
fn repne_scasb_encodes_to_f2_ae() {
    // repne scasb — REPNE prefix 0xF2, then SCASB opcode 0xAE.
    let program = AsmProgram {
        insts: vec![AsmInst::RepneScasb],
    };
    let encoded = encode_program(&program);
    assert_eq!(encoded.text, vec![0xF2, 0xAE]);
}

#[test]
fn xor_eax_eax_encodes_to_two_bytes_31_c0() {
    // xor eax, eax — 2-byte form replacing the 10-byte `mov rax, 0`.
    let program = AsmProgram {
        insts: vec![AsmInst::XorEaxEax],
    };
    let encoded = encode_program(&program);
    assert_eq!(encoded.text, vec![0x31, 0xC0]);
}

#[test]
fn mov_ecx_imm32_encodes_with_imm_little_endian() {
    // mov ecx, 0x12345678 — 0xB9 + LE imm32. Upper 32 bits of RCX
    // are zeroed by the implicit zero-extension.
    let program = AsmProgram {
        insts: vec![AsmInst::MovEcxImm32(0x12345678)],
    };
    let encoded = encode_program(&program);
    assert_eq!(encoded.text, vec![0xB9, 0x78, 0x56, 0x34, 0x12]);
}

#[test]
fn add_mem_r13_bl_encodes_to_41_00_5d_00() {
    // add byte [r13+0], bl — REX.B + 0x00 (add r/m8, r8) +
    // ModRM(mod=01, reg=bl=3, rm=r13_low3=5) + disp8(0).
    let program = AsmProgram {
        insts: vec![AsmInst::AddMemR13Bl],
    };
    let encoded = encode_program(&program);
    assert_eq!(encoded.text, vec![0x41, 0x00, 0x5D, 0x00]);
}

#[test]
fn sub_mem_r13_bl_encodes_to_41_28_5d_00() {
    // sub byte [r13+0], bl — REX.B + 0x28 (sub r/m8, r8) +
    // ModRM(mod=01, reg=bl=3, rm=r13_low3=5) + disp8(0).
    let program = AsmProgram {
        insts: vec![AsmInst::SubMemR13Bl],
    };
    let encoded = encode_program(&program);
    assert_eq!(encoded.text, vec![0x41, 0x28, 0x5D, 0x00]);
}

#[test]
fn add_mem_r13_bl_disp8_encodes_with_signed_displacement() {
    let program = AsmProgram {
        insts: vec![AsmInst::AddMemR13BlDisp8(5)],
    };
    let encoded = encode_program(&program);
    assert_eq!(encoded.text, vec![0x41, 0x00, 0x5D, 0x05]);
    // Negative displacement
    let program = AsmProgram {
        insts: vec![AsmInst::AddMemR13BlDisp8(-3)],
    };
    let encoded = encode_program(&program);
    assert_eq!(encoded.text, vec![0x41, 0x00, 0x5D, 0xFD]);
}

#[test]
fn sub_mem_r13_bl_disp8_encodes_with_signed_displacement() {
    let program = AsmProgram {
        insts: vec![AsmInst::SubMemR13BlDisp8(7)],
    };
    let encoded = encode_program(&program);
    assert_eq!(encoded.text, vec![0x41, 0x28, 0x5D, 0x07]);
}

#[test]
fn add_mem_r13_al_disp8_encodes_with_signed_displacement() {
    let program = AsmProgram {
        insts: vec![AsmInst::AddMemR13AlDisp8(10)],
    };
    let encoded = encode_program(&program);
    assert_eq!(encoded.text, vec![0x41, 0x00, 0x45, 0x0A]);
}

#[test]
fn rep_stosb_encodes_to_f3_aa() {
    // rep stosb — REP prefix 0xF3, then STOSB opcode 0xAA.
    let program = AsmProgram {
        insts: vec![AsmInst::RepStosb],
    };
    let encoded = encode_program(&program);
    assert_eq!(encoded.text, vec![0xF3, 0xAA]);
}

#[test]
fn lea_rsi_rbp_minus_4096_uses_disp32() {
    // lea rsi, [rbp - 4096] — disp -4096 does not fit i8, so the
    // encoder must select mod=10 (disp32).  REX.W=0x48, opcode=0x8D,
    // ModRM(mod=10, reg=rsi=6, rm=rbp=5) = 0xB5, disp32 = -4096 LE
    // = 0x00 0xF0 0xFF 0xFF.
    let program = AsmProgram {
        insts: vec![AsmInst::LeaRegMem(Reg64::Rsi, Reg64::Rbp, -4096)],
    };
    let encoded = encode_program(&program);
    assert_eq!(encoded.text, vec![0x48, 0x8D, 0xB5, 0x00, 0xF0, 0xFF, 0xFF]);
}

#[test]
fn align16_emits_correct_nop_padding() {
    // 1-byte instruction (ret) + Align16 should pad to offset 16.
    let program = AsmProgram {
        insts: vec![AsmInst::Ret, AsmInst::Align16, AsmInst::Ret],
    };
    let encoded = encode_program(&program);
    // Ret = 1 byte at offset 0. Align16 pads 15 bytes (offsets 1..16).
    // Second Ret at offset 16.
    assert_eq!(encoded.text.len(), 17);
    assert_eq!(encoded.text[0], 0xC3); // ret
    assert_eq!(encoded.text[16], 0xC3); // ret at aligned offset
}

#[test]
fn align16_already_aligned_emits_nothing() {
    // 16 bytes of NOPs (two 8-byte NOPs) + Align16 should emit 0 padding.
    let program = AsmProgram {
        insts: vec![
            AsmInst::RawBytes(vec![0x90; 16]),
            AsmInst::Align16,
            AsmInst::Ret,
        ],
    };
    let encoded = encode_program(&program);
    assert_eq!(encoded.text.len(), 17); // 16 + 0 padding + 1 ret
    assert_eq!(encoded.text[16], 0xC3);
}
