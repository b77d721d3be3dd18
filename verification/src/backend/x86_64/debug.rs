//! Listings of assembly programs.
//!
//! `dump_asm_listing` writes a program as assembly text, `dump_hex_listing`
//! writes the offset and the bytes of every instruction beside its text.

use vstd::prelude::*;

use crate::backend::asm_ir::{AsmInst, AsmLabel, AsmProgram, Reg64};
use crate::backend::x86_64::encode::encode_program_with_inst_map;
use crate::backend::x86_64::encode::{encodable, lemma_offset_monotone, machine_code, offset_of};
use crate::text::{digit, push_dec, push_dec_signed, push_hex, push_repeat};
use crate::text::{dec, dec_signed, digit_char, hex, left_aligned, repeat, zero_padded};

verus! {

/// Lowest label that is written as an internal one.
pub const INTERNAL_LABEL_MIN: u32 = 0xFFFF_0000;

/// The name of a label: symbolic for the labels with a fixed meaning,
/// `__internal_` and eight digits for transient ones, `L` and the number for
/// those of the source program.
pub open spec fn label_text(label: AsmLabel) -> Seq<char> {
    if label.0 == 0xFFFF_FFFF {
        "__ensure_tape"@
    } else if label.0 == 0xFFFF_FFFE {
        "__oom_exit"@
    } else if label.0 == 0xFFFF_FFFD {
        "__grow_loop"@
    } else if label.0 >= INTERNAL_LABEL_MIN {
        "__internal_"@ + hex(label.0 as nat)
    } else {
        seq!['L'] + dec(label.0 as nat)
    }
}

/// A signed number in hexadecimal, with the sign in front.
pub open spec fn signed_hex(v: int) -> Seq<char> {
    if v < 0 {
        "-0x"@ + hex((-v) as nat)
    } else {
        "0x"@ + hex(v as nat)
    }
}

/// A displacement behind its base: the sign between blanks, then the
/// magnitude.
pub open spec fn disp_text(disp: int) -> Seq<char> {
    if disp < 0 {
        " - "@ + signed_hex(-disp)
    } else {
        " + "@ + signed_hex(disp)
    }
}

/// The two digits of a byte.
pub open spec fn byte_hex(b: u8) -> Seq<char> {
    seq![digit_char((b / 16) as int), digit_char((b % 16) as int)]
}

/// The remark behind a load of a system call's number.
pub open spec fn syscall_comment(imm: i64) -> Seq<char> {
    if imm == 0 {
        " ; sys_read"@
    } else if imm == 1 {
        " ; sys_write"@
    } else if imm == 9 {
        " ; sys_mmap"@
    } else if imm == 11 {
        " ; sys_munmap"@
    } else if imm == 60 {
        " ; sys_exit"@
    } else {
        Seq::empty()
    }
}

/// Append a label's name.
fn push_label(out: &mut String, label: AsmLabel)
    ensures
        final(out)@ == old(out)@ + label_text(label),
{
    let raw = label.0;
    if raw == 0xFFFF_FFFF {
        out.append("__ensure_tape");
    } else if raw == 0xFFFF_FFFE {
        out.append("__oom_exit");
    } else if raw == 0xFFFF_FFFD {
        out.append("__grow_loop");
    } else if raw >= INTERNAL_LABEL_MIN {
        out.append("__internal_");
        push_hex(out, raw as u64);
    } else {
        out.push('L');
        push_dec(out, raw as u64);
    }
    assert(out@ =~= old(out)@ + label_text(label));
}

/// Append a signed number in hexadecimal.
fn push_signed_hex(out: &mut String, v: i32)
    ensures
        final(out)@ == old(out)@ + signed_hex(v as int),
{
    if v < 0 {
        out.append("-0x");
        push_hex(out, (-(v as i64)) as u64);
    } else {
        out.append("0x");
        push_hex(out, v as u64);
    }
    assert(out@ =~= old(out)@ + signed_hex(v as int));
}

/// Append a displacement.
fn push_disp(out: &mut String, disp: i64)
    requires
        i32::MIN <= disp <= i32::MAX,
    ensures
        final(out)@ == old(out)@ + disp_text(disp as int),
{
    if disp < 0 {
        out.append(" - 0x");
        push_hex(out, (-disp) as u64);
    } else {
        out.append(" + 0x");
        push_hex(out, disp as u64);
    }
    proof {
        reveal_strlit(" - 0x");
        reveal_strlit(" + 0x");
        reveal_strlit(" - ");
        reveal_strlit(" + ");
        reveal_strlit("0x");
    }
    assert(out@ =~= old(out)@ + disp_text(disp as int));
}

/// Append the two digits of a byte.
fn push_byte_hex(out: &mut String, b: u8)
    ensures
        final(out)@ == old(out)@ + byte_hex(b),
{
    out.push(digit(b / 16));
    out.push(digit(b % 16));
    assert(out@ =~= old(out)@ + byte_hex(b));
}

/// Append the remark behind a load of a system call's number.
fn push_syscall_comment(out: &mut String, imm: i64)
    ensures
        final(out)@ == old(out)@ + syscall_comment(imm),
{
    if imm == 0 {
        out.append(" ; sys_read");
    } else if imm == 1 {
        out.append(" ; sys_write");
    } else if imm == 9 {
        out.append(" ; sys_mmap");
    } else if imm == 11 {
        out.append(" ; sys_munmap");
    } else if imm == 60 {
        out.append(" ; sys_exit");
    }
    assert(out@ =~= old(out)@ + syscall_comment(imm));
}

/// A byte operation on `[reg]` with an immediate.
pub open spec fn mem8_imm_text(op: Seq<char>, reg: Reg64, imm: u8) -> Seq<char> {
    op + reg.spec_name() + "], 0x"@ + byte_hex(imm)
}

/// A byte operation on `[reg + disp]` with an immediate.
pub open spec fn mem8_disp_text(op: Seq<char>, reg: Reg64, disp: int, imm: u8) -> Seq<char> {
    op + reg.spec_name() + disp_text(disp) + "], 0x"@ + byte_hex(imm)
}

fn push_mem8_imm(out: &mut String, op: &str, reg: Reg64, imm: u8)
    ensures
        final(out)@ == old(out)@ + mem8_imm_text(op@, reg, imm),
{
    out.append(op);
    out.append(reg.name());
    out.append("], 0x");
    push_byte_hex(out, imm);
    assert(out@ =~= old(out)@ + mem8_imm_text(op@, reg, imm));
}

fn push_mem8_disp(out: &mut String, op: &str, reg: Reg64, disp: i64, imm: u8)
    requires
        i32::MIN <= disp <= i32::MAX,
    ensures
        final(out)@ == old(out)@ + mem8_disp_text(op@, reg, disp as int, imm),
{
    out.append(op);
    out.append(reg.name());
    push_disp(out, disp);
    out.append("], 0x");
    push_byte_hex(out, imm);
    assert(out@ =~= old(out)@ + mem8_disp_text(op@, reg, disp as int, imm));
}

/// The text of an instruction that binds or refers to a label.
pub open spec fn branch_text(inst: AsmInst) -> Seq<char> {
    match inst {
        AsmInst::Label(label) => label_text(label) + ":"@,
        AsmInst::LeaRegLabel(dst, label) => "lea     "@ + dst.spec_name() + ", [rel "@ + label_text(label) + "]"@,
        AsmInst::Jz(label) => "jz      "@ + label_text(label),
        AsmInst::Jnz(label) => "jnz     "@ + label_text(label),
        AsmInst::Jb(label) => "jb      "@ + label_text(label) + "           ; unsigned below"@,
        AsmInst::Jae(label) => "jae     "@ + label_text(label) + "           ; unsigned above or equal"@,
        AsmInst::Jl(label) => "jl      "@ + label_text(label) + "           ; signed less"@,
        AsmInst::Jge(label) => "jge     "@ + label_text(label) + "           ; signed greater or equal"@,
        AsmInst::Jmp(label) => "jmp     "@ + label_text(label),
        AsmInst::JzShort(label) => "jz      "@ + label_text(label) + "           ; short"@,
        AsmInst::JnzShort(label) => "jnz     "@ + label_text(label) + "           ; short"@,
        AsmInst::JbShort(label) => "jb      "@ + label_text(label) + "           ; short, unsigned below"@,
        AsmInst::JaeShort(label) => "jae     "@ + label_text(label) + "           ; short, unsigned above or equal"@,
        AsmInst::JlShort(label) => "jl      "@ + label_text(label) + "           ; short, signed less"@,
        AsmInst::JgeShort(label) => "jge     "@ + label_text(label) + "           ; short, signed greater or equal"@,
        AsmInst::JmpShort(label) => "jmp     "@ + label_text(label) + "           ; short"@,
        AsmInst::Call(label) => "call    "@ + label_text(label),
        AsmInst::CallMemLabel(label) => "call    qword [rel "@ + label_text(label) + "]"@,
        _ => Seq::empty(),
    }
}

/// The text of an instruction on a register and an immediate.
pub open spec fn imm_text(inst: AsmInst) -> Seq<char> {
    match inst {
        AsmInst::MovRegImm64(reg, imm) => "mov     "@ + reg.spec_name() + ", 0x"@ + hex((imm as u64) as nat) + syscall_comment(imm),
        AsmInst::AddRegImm32(reg, imm) => "add     "@ + reg.spec_name() + ", "@ + signed_hex(imm as int),
        AsmInst::AndRegImm32(reg, imm) => "and     "@ + reg.spec_name() + ", "@ + signed_hex(imm as int),
        AsmInst::CmpRegImm32(reg, imm) => "cmp     "@ + reg.spec_name() + ", "@ + signed_hex(imm as int),
        AsmInst::ShrRegImm8(reg, imm) => "shr     "@ + reg.spec_name() + ", "@ + dec(imm as nat),
        _ => Seq::empty(),
    }
}

/// The text of an instruction on 64-bit registers.
pub open spec fn reg_text(inst: AsmInst) -> Seq<char> {
    match inst {
        AsmInst::MovRegReg(dst, src) => "mov     "@ + dst.spec_name() + ", "@ + src.spec_name(),
        AsmInst::AddRegReg(dst, src) => "add     "@ + dst.spec_name() + ", "@ + src.spec_name(),
        AsmInst::SubRegReg(dst, src) => "sub     "@ + dst.spec_name() + ", "@ + src.spec_name(),
        AsmInst::CmpRegReg(lhs, rhs) => "cmp     "@ + lhs.spec_name() + ", "@ + rhs.spec_name(),
        AsmInst::Push(reg) => "push    "@ + reg.spec_name(),
        AsmInst::Pop(reg) => "pop     "@ + reg.spec_name(),
        _ => Seq::empty(),
    }
}

/// The text of an instruction on a 64-bit memory operand.
pub open spec fn mem64_text(inst: AsmInst) -> Seq<char> {
    match inst {
        AsmInst::LeaRegMem(dst, base, disp) => "lea     "@ + dst.spec_name() + ", ["@ + base.spec_name() + disp_text(disp as int) + "]"@,
        AsmInst::MovMemReg64(base, disp, src) => "mov     qword ["@ + base.spec_name() + disp_text(disp as int) + "], "@ + src.spec_name(),
        AsmInst::MovRegMem64(dst, base, disp) => "mov     "@ + dst.spec_name() + ", qword ["@ + base.spec_name() + disp_text(disp as int) + "]"@,
        _ => Seq::empty(),
    }
}

/// The text of an instruction on a tape byte with an explicit base or displacement.
pub open spec fn mem8_text(inst: AsmInst) -> Seq<char> {
    match inst {
        AsmInst::AddMem8Imm8(reg, imm) => mem8_imm_text("add     byte ["@, reg, imm as u8),
        AsmInst::IncMem8(reg) => "inc     byte ["@ + reg.spec_name() + "]"@,
        AsmInst::DecMem8(reg) => "dec     byte ["@ + reg.spec_name() + "]"@,
        AsmInst::MovMem8Imm8(reg, imm) => mem8_imm_text("mov     byte ["@, reg, imm as u8),
        AsmInst::AddMem8ImmDisp8(reg, disp, imm) => mem8_disp_text("add     byte ["@, reg, disp as int, imm as u8),
        AsmInst::MovMem8ImmDisp8(reg, disp, imm) => mem8_disp_text("mov     byte ["@, reg, disp as int, imm as u8),
        AsmInst::AddMem8ImmDisp32(reg, disp, imm) => mem8_disp_text("add     byte ["@, reg, disp as int, imm as u8),
        AsmInst::MovMem8ImmDisp32(reg, disp, imm) => mem8_disp_text("mov     byte ["@, reg, disp as int, imm as u8),
        AsmInst::CmpMem8Imm8(reg, imm) => mem8_imm_text("cmp     byte ["@, reg, imm as u8),
        AsmInst::AddMemR13BlDisp8(disp) => "add     byte [r13"@ + disp_text(disp as int) + "], bl"@,
        AsmInst::SubMemR13BlDisp8(disp) => "sub     byte [r13"@ + disp_text(disp as int) + "], bl"@,
        AsmInst::AddMemR13AlDisp8(disp) => "add     byte [r13"@ + disp_text(disp as int) + "], al"@,
        _ => Seq::empty(),
    }
}

/// The text of an instruction whose registers are fixed.
pub open spec fn plain_text(inst: AsmInst) -> Seq<char> {
    match inst {
        AsmInst::Ret => "ret"@,
        AsmInst::Cld => "cld                         ; clear direction flag"@,
        AsmInst::RepMovsb => "rep movsb                   ; copy rcx bytes: [rsi] -> [rdi]"@,
        AsmInst::Std => "std                         ; set direction flag"@,
        AsmInst::RepneScasb => "repne scasb                 ; scan up to rcx bytes: [rdi] for al"@,
        AsmInst::XorEaxEax => "xor     eax, eax"@,
        AsmInst::MovEcxImm32(imm) => "mov     ecx, "@ + signed_hex(imm as int),
        AsmInst::RepStosb => "rep stosb                   ; store al to rcx bytes: [rdi]"@,
        AsmInst::Syscall => "syscall"@,
        AsmInst::RawBytes(bytes) => "; <raw "@ + dec(bytes@.len()) + " bytes: precomputed -O3 machine code>"@,
        AsmInst::MovzxEbxFromMemR13 => "movzx   ebx, byte [r13]"@,
        AsmInst::MovEaxEbx => "mov     eax, ebx"@,
        AsmInst::ImulEaxEbxImm32(imm) => "imul    eax, ebx, "@ + dec_signed(imm as int),
        AsmInst::AddMemR13Al => "add     byte [r13], al"@,
        AsmInst::AddMemR13Bl => "add     byte [r13], bl"@,
        AsmInst::SubMemR13Bl => "sub     byte [r13], bl"@,
        AsmInst::MovAlMemR13 => "mov     al, byte [r13]"@,
        AsmInst::MovMemRbxAl => "mov     byte [rbx], al"@,
        AsmInst::Align16 => "align   16"@,
        _ => Seq::empty(),
    }
}

/// The text of an instruction: mnemonic, operands, remark.
pub open spec fn inst_text(inst: AsmInst) -> Seq<char> {
    match inst {
        AsmInst::Label(..)
        | AsmInst::LeaRegLabel(..)
        | AsmInst::Jz(..)
        | AsmInst::Jnz(..)
        | AsmInst::Jb(..)
        | AsmInst::Jae(..)
        | AsmInst::Jl(..)
        | AsmInst::Jge(..)
        | AsmInst::Jmp(..)
        | AsmInst::JzShort(..)
        | AsmInst::JnzShort(..)
        | AsmInst::JbShort(..)
        | AsmInst::JaeShort(..)
        | AsmInst::JlShort(..)
        | AsmInst::JgeShort(..)
        | AsmInst::JmpShort(..)
        | AsmInst::Call(..)
        | AsmInst::CallMemLabel(..) => branch_text(inst),
        AsmInst::MovRegImm64(..)
        | AsmInst::AddRegImm32(..)
        | AsmInst::AndRegImm32(..)
        | AsmInst::CmpRegImm32(..)
        | AsmInst::ShrRegImm8(..) => imm_text(inst),
        AsmInst::MovRegReg(..)
        | AsmInst::AddRegReg(..)
        | AsmInst::SubRegReg(..)
        | AsmInst::CmpRegReg(..)
        | AsmInst::Push(..)
        | AsmInst::Pop(..) => reg_text(inst),
        AsmInst::LeaRegMem(..)
        | AsmInst::MovMemReg64(..)
        | AsmInst::MovRegMem64(..) => mem64_text(inst),
        AsmInst::AddMem8Imm8(..)
        | AsmInst::IncMem8(..)
        | AsmInst::DecMem8(..)
        | AsmInst::MovMem8Imm8(..)
        | AsmInst::AddMem8ImmDisp8(..)
        | AsmInst::MovMem8ImmDisp8(..)
        | AsmInst::AddMem8ImmDisp32(..)
        | AsmInst::MovMem8ImmDisp32(..)
        | AsmInst::CmpMem8Imm8(..)
        | AsmInst::AddMemR13BlDisp8(..)
        | AsmInst::SubMemR13BlDisp8(..)
        | AsmInst::AddMemR13AlDisp8(..) => mem8_text(inst),
        _ => plain_text(inst),
    }
}

/// Append the text of an instruction that binds or refers to a label.
#[verifier::rlimit(40)]
fn push_branch(out: &mut String, inst: &AsmInst)
    ensures
        final(out)@ == old(out)@ + branch_text(*inst),
{
    match inst {
        AsmInst::Label(label) => {
            push_label(out, *label);
            out.append(":");
            assert(out@ =~= old(out)@ + branch_text(*inst));
        },
        AsmInst::LeaRegLabel(dst, label) => {
            out.append("lea     ");
            out.append(dst.name());
            out.append(", [rel ");
            push_label(out, *label);
            out.append("]");
            assert(out@ =~= old(out)@ + branch_text(*inst));
        },
        AsmInst::Jz(label) => {
            out.append("jz      ");
            push_label(out, *label);
            assert(out@ =~= old(out)@ + branch_text(*inst));
        },
        AsmInst::Jnz(label) => {
            out.append("jnz     ");
            push_label(out, *label);
            assert(out@ =~= old(out)@ + branch_text(*inst));
        },
        AsmInst::Jb(label) => {
            out.append("jb      ");
            push_label(out, *label);
            out.append("           ; unsigned below");
            assert(out@ =~= old(out)@ + branch_text(*inst));
        },
        AsmInst::Jae(label) => {
            out.append("jae     ");
            push_label(out, *label);
            out.append("           ; unsigned above or equal");
            assert(out@ =~= old(out)@ + branch_text(*inst));
        },
        AsmInst::Jl(label) => {
            out.append("jl      ");
            push_label(out, *label);
            out.append("           ; signed less");
            assert(out@ =~= old(out)@ + branch_text(*inst));
        },
        AsmInst::Jge(label) => {
            out.append("jge     ");
            push_label(out, *label);
            out.append("           ; signed greater or equal");
            assert(out@ =~= old(out)@ + branch_text(*inst));
        },
        AsmInst::Jmp(label) => {
            out.append("jmp     ");
            push_label(out, *label);
            assert(out@ =~= old(out)@ + branch_text(*inst));
        },
        AsmInst::JzShort(label) => {
            out.append("jz      ");
            push_label(out, *label);
            out.append("           ; short");
            assert(out@ =~= old(out)@ + branch_text(*inst));
        },
        AsmInst::JnzShort(label) => {
            out.append("jnz     ");
            push_label(out, *label);
            out.append("           ; short");
            assert(out@ =~= old(out)@ + branch_text(*inst));
        },
        AsmInst::JbShort(label) => {
            out.append("jb      ");
            push_label(out, *label);
            out.append("           ; short, unsigned below");
            assert(out@ =~= old(out)@ + branch_text(*inst));
        },
        AsmInst::JaeShort(label) => {
            out.append("jae     ");
            push_label(out, *label);
            out.append("           ; short, unsigned above or equal");
            assert(out@ =~= old(out)@ + branch_text(*inst));
        },
        AsmInst::JlShort(label) => {
            out.append("jl      ");
            push_label(out, *label);
            out.append("           ; short, signed less");
            assert(out@ =~= old(out)@ + branch_text(*inst));
        },
        AsmInst::JgeShort(label) => {
            out.append("jge     ");
            push_label(out, *label);
            out.append("           ; short, signed greater or equal");
            assert(out@ =~= old(out)@ + branch_text(*inst));
        },
        AsmInst::JmpShort(label) => {
            out.append("jmp     ");
            push_label(out, *label);
            out.append("           ; short");
            assert(out@ =~= old(out)@ + branch_text(*inst));
        },
        AsmInst::Call(label) => {
            out.append("call    ");
            push_label(out, *label);
            assert(out@ =~= old(out)@ + branch_text(*inst));
        },
        AsmInst::CallMemLabel(label) => {
            out.append("call    qword [rel ");
            push_label(out, *label);
            out.append("]");
            assert(out@ =~= old(out)@ + branch_text(*inst));
        },
        _ => {
            assert(out@ =~= old(out)@ + branch_text(*inst));
        },
    }
}

/// Append the text of an instruction on a register and an immediate.
#[verifier::rlimit(40)]
fn push_imm(out: &mut String, inst: &AsmInst)
    ensures
        final(out)@ == old(out)@ + imm_text(*inst),
{
    match inst {
        AsmInst::MovRegImm64(reg, imm) => {
            out.append("mov     ");
            out.append(reg.name());
            out.append(", 0x");
            push_hex(out, *imm as u64);
            push_syscall_comment(out, *imm);
            assert(out@ =~= old(out)@ + imm_text(*inst));
        },
        AsmInst::AddRegImm32(reg, imm) => {
            out.append("add     ");
            out.append(reg.name());
            out.append(", ");
            push_signed_hex(out, *imm);
            assert(out@ =~= old(out)@ + imm_text(*inst));
        },
        AsmInst::AndRegImm32(reg, imm) => {
            out.append("and     ");
            out.append(reg.name());
            out.append(", ");
            push_signed_hex(out, *imm);
            assert(out@ =~= old(out)@ + imm_text(*inst));
        },
        AsmInst::CmpRegImm32(reg, imm) => {
            out.append("cmp     ");
            out.append(reg.name());
            out.append(", ");
            push_signed_hex(out, *imm);
            assert(out@ =~= old(out)@ + imm_text(*inst));
        },
        AsmInst::ShrRegImm8(reg, imm) => {
            out.append("shr     ");
            out.append(reg.name());
            out.append(", ");
            push_dec(out, *imm as u64);
            assert(out@ =~= old(out)@ + imm_text(*inst));
        },
        _ => {
            assert(out@ =~= old(out)@ + imm_text(*inst));
        },
    }
}

/// Append the text of an instruction on 64-bit registers.
#[verifier::rlimit(40)]
fn push_reg(out: &mut String, inst: &AsmInst)
    ensures
        final(out)@ == old(out)@ + reg_text(*inst),
{
    match inst {
        AsmInst::MovRegReg(dst, src) => {
            out.append("mov     ");
            out.append(dst.name());
            out.append(", ");
            out.append(src.name());
            assert(out@ =~= old(out)@ + reg_text(*inst));
        },
        AsmInst::AddRegReg(dst, src) => {
            out.append("add     ");
            out.append(dst.name());
            out.append(", ");
            out.append(src.name());
            assert(out@ =~= old(out)@ + reg_text(*inst));
        },
        AsmInst::SubRegReg(dst, src) => {
            out.append("sub     ");
            out.append(dst.name());
            out.append(", ");
            out.append(src.name());
            assert(out@ =~= old(out)@ + reg_text(*inst));
        },
        AsmInst::CmpRegReg(lhs, rhs) => {
            out.append("cmp     ");
            out.append(lhs.name());
            out.append(", ");
            out.append(rhs.name());
            assert(out@ =~= old(out)@ + reg_text(*inst));
        },
        AsmInst::Push(reg) => {
            out.append("push    ");
            out.append(reg.name());
            assert(out@ =~= old(out)@ + reg_text(*inst));
        },
        AsmInst::Pop(reg) => {
            out.append("pop     ");
            out.append(reg.name());
            assert(out@ =~= old(out)@ + reg_text(*inst));
        },
        _ => {
            assert(out@ =~= old(out)@ + reg_text(*inst));
        },
    }
}

/// Append the text of an instruction on a 64-bit memory operand.
#[verifier::rlimit(40)]
fn push_mem64(out: &mut String, inst: &AsmInst)
    ensures
        final(out)@ == old(out)@ + mem64_text(*inst),
{
    match inst {
        AsmInst::LeaRegMem(dst, base, disp) => {
            out.append("lea     ");
            out.append(dst.name());
            out.append(", [");
            out.append(base.name());
            push_disp(out, *disp as i64);
            out.append("]");
            assert(out@ =~= old(out)@ + mem64_text(*inst));
        },
        AsmInst::MovMemReg64(base, disp, src) => {
            out.append("mov     qword [");
            out.append(base.name());
            push_disp(out, *disp as i64);
            out.append("], ");
            out.append(src.name());
            assert(out@ =~= old(out)@ + mem64_text(*inst));
        },
        AsmInst::MovRegMem64(dst, base, disp) => {
            out.append("mov     ");
            out.append(dst.name());
            out.append(", qword [");
            out.append(base.name());
            push_disp(out, *disp as i64);
            out.append("]");
            assert(out@ =~= old(out)@ + mem64_text(*inst));
        },
        _ => {
            assert(out@ =~= old(out)@ + mem64_text(*inst));
        },
    }
}

/// Append the text of an instruction on a tape byte with an explicit base or displacement.
#[verifier::rlimit(40)]
fn push_mem8(out: &mut String, inst: &AsmInst)
    ensures
        final(out)@ == old(out)@ + mem8_text(*inst),
{
    match inst {
        AsmInst::AddMem8Imm8(reg, imm) => {
            push_mem8_imm(out, "add     byte [", *reg, *imm as u8);
            assert(out@ =~= old(out)@ + mem8_text(*inst));
        },
        AsmInst::IncMem8(reg) => {
            out.append("inc     byte [");
            out.append(reg.name());
            out.append("]");
            assert(out@ =~= old(out)@ + mem8_text(*inst));
        },
        AsmInst::DecMem8(reg) => {
            out.append("dec     byte [");
            out.append(reg.name());
            out.append("]");
            assert(out@ =~= old(out)@ + mem8_text(*inst));
        },
        AsmInst::MovMem8Imm8(reg, imm) => {
            push_mem8_imm(out, "mov     byte [", *reg, *imm as u8);
            assert(out@ =~= old(out)@ + mem8_text(*inst));
        },
        AsmInst::AddMem8ImmDisp8(reg, disp, imm) => {
            push_mem8_disp(out, "add     byte [", *reg, *disp as i64, *imm as u8);
            assert(out@ =~= old(out)@ + mem8_text(*inst));
        },
        AsmInst::MovMem8ImmDisp8(reg, disp, imm) => {
            push_mem8_disp(out, "mov     byte [", *reg, *disp as i64, *imm as u8);
            assert(out@ =~= old(out)@ + mem8_text(*inst));
        },
        AsmInst::AddMem8ImmDisp32(reg, disp, imm) => {
            push_mem8_disp(out, "add     byte [", *reg, *disp as i64, *imm as u8);
            assert(out@ =~= old(out)@ + mem8_text(*inst));
        },
        AsmInst::MovMem8ImmDisp32(reg, disp, imm) => {
            push_mem8_disp(out, "mov     byte [", *reg, *disp as i64, *imm as u8);
            assert(out@ =~= old(out)@ + mem8_text(*inst));
        },
        AsmInst::CmpMem8Imm8(reg, imm) => {
            push_mem8_imm(out, "cmp     byte [", *reg, *imm as u8);
            assert(out@ =~= old(out)@ + mem8_text(*inst));
        },
        AsmInst::AddMemR13BlDisp8(disp) => {
            out.append("add     byte [r13");
            push_disp(out, *disp as i64);
            out.append("], bl");
            assert(out@ =~= old(out)@ + mem8_text(*inst));
        },
        AsmInst::SubMemR13BlDisp8(disp) => {
            out.append("sub     byte [r13");
            push_disp(out, *disp as i64);
            out.append("], bl");
            assert(out@ =~= old(out)@ + mem8_text(*inst));
        },
        AsmInst::AddMemR13AlDisp8(disp) => {
            out.append("add     byte [r13");
            push_disp(out, *disp as i64);
            out.append("], al");
            assert(out@ =~= old(out)@ + mem8_text(*inst));
        },
        _ => {
            assert(out@ =~= old(out)@ + mem8_text(*inst));
        },
    }
}

/// Append the text of an instruction whose registers are fixed.
#[verifier::rlimit(40)]
fn push_plain(out: &mut String, inst: &AsmInst)
    ensures
        final(out)@ == old(out)@ + plain_text(*inst),
{
    match inst {
        AsmInst::Ret => {
            out.append("ret");
            assert(out@ =~= old(out)@ + plain_text(*inst));
        },
        AsmInst::Cld => {
            out.append("cld                         ; clear direction flag");
            assert(out@ =~= old(out)@ + plain_text(*inst));
        },
        AsmInst::RepMovsb => {
            out.append("rep movsb                   ; copy rcx bytes: [rsi] -> [rdi]");
            assert(out@ =~= old(out)@ + plain_text(*inst));
        },
        AsmInst::Std => {
            out.append("std                         ; set direction flag");
            assert(out@ =~= old(out)@ + plain_text(*inst));
        },
        AsmInst::RepneScasb => {
            out.append("repne scasb                 ; scan up to rcx bytes: [rdi] for al");
            assert(out@ =~= old(out)@ + plain_text(*inst));
        },
        AsmInst::XorEaxEax => {
            out.append("xor     eax, eax");
            assert(out@ =~= old(out)@ + plain_text(*inst));
        },
        AsmInst::MovEcxImm32(imm) => {
            out.append("mov     ecx, ");
            push_signed_hex(out, *imm);
            assert(out@ =~= old(out)@ + plain_text(*inst));
        },
        AsmInst::RepStosb => {
            out.append("rep stosb                   ; store al to rcx bytes: [rdi]");
            assert(out@ =~= old(out)@ + plain_text(*inst));
        },
        AsmInst::Syscall => {
            out.append("syscall");
            assert(out@ =~= old(out)@ + plain_text(*inst));
        },
        AsmInst::RawBytes(bytes) => {
            out.append("; <raw ");
            push_dec(out, bytes.len() as u64);
            out.append(" bytes: precomputed -O3 machine code>");
            assert(out@ =~= old(out)@ + plain_text(*inst));
        },
        AsmInst::MovzxEbxFromMemR13 => {
            out.append("movzx   ebx, byte [r13]");
            assert(out@ =~= old(out)@ + plain_text(*inst));
        },
        AsmInst::MovEaxEbx => {
            out.append("mov     eax, ebx");
            assert(out@ =~= old(out)@ + plain_text(*inst));
        },
        AsmInst::ImulEaxEbxImm32(imm) => {
            out.append("imul    eax, ebx, ");
            push_dec_signed(out, *imm as i64);
            assert(out@ =~= old(out)@ + plain_text(*inst));
        },
        AsmInst::AddMemR13Al => {
            out.append("add     byte [r13], al");
            assert(out@ =~= old(out)@ + plain_text(*inst));
        },
        AsmInst::AddMemR13Bl => {
            out.append("add     byte [r13], bl");
            assert(out@ =~= old(out)@ + plain_text(*inst));
        },
        AsmInst::SubMemR13Bl => {
            out.append("sub     byte [r13], bl");
            assert(out@ =~= old(out)@ + plain_text(*inst));
        },
        AsmInst::MovAlMemR13 => {
            out.append("mov     al, byte [r13]");
            assert(out@ =~= old(out)@ + plain_text(*inst));
        },
        AsmInst::MovMemRbxAl => {
            out.append("mov     byte [rbx], al");
            assert(out@ =~= old(out)@ + plain_text(*inst));
        },
        AsmInst::Align16 => {
            out.append("align   16");
            assert(out@ =~= old(out)@ + plain_text(*inst));
        },
        _ => {
            assert(out@ =~= old(out)@ + plain_text(*inst));
        },
    }
}

/// Append the text of an instruction.
fn push_inst(out: &mut String, inst: &AsmInst)
    ensures
        final(out)@ == old(out)@ + inst_text(*inst),
{
    match inst {
        AsmInst::Label(..)
        | AsmInst::LeaRegLabel(..)
        | AsmInst::Jz(..)
        | AsmInst::Jnz(..)
        | AsmInst::Jb(..)
        | AsmInst::Jae(..)
        | AsmInst::Jl(..)
        | AsmInst::Jge(..)
        | AsmInst::Jmp(..)
        | AsmInst::JzShort(..)
        | AsmInst::JnzShort(..)
        | AsmInst::JbShort(..)
        | AsmInst::JaeShort(..)
        | AsmInst::JlShort(..)
        | AsmInst::JgeShort(..)
        | AsmInst::JmpShort(..)
        | AsmInst::Call(..)
        | AsmInst::CallMemLabel(..) => push_branch(out, inst),
        AsmInst::MovRegImm64(..)
        | AsmInst::AddRegImm32(..)
        | AsmInst::AndRegImm32(..)
        | AsmInst::CmpRegImm32(..)
        | AsmInst::ShrRegImm8(..) => push_imm(out, inst),
        AsmInst::MovRegReg(..)
        | AsmInst::AddRegReg(..)
        | AsmInst::SubRegReg(..)
        | AsmInst::CmpRegReg(..)
        | AsmInst::Push(..)
        | AsmInst::Pop(..) => push_reg(out, inst),
        AsmInst::LeaRegMem(..)
        | AsmInst::MovMemReg64(..)
        | AsmInst::MovRegMem64(..) => push_mem64(out, inst),
        AsmInst::AddMem8Imm8(..)
        | AsmInst::IncMem8(..)
        | AsmInst::DecMem8(..)
        | AsmInst::MovMem8Imm8(..)
        | AsmInst::AddMem8ImmDisp8(..)
        | AsmInst::MovMem8ImmDisp8(..)
        | AsmInst::AddMem8ImmDisp32(..)
        | AsmInst::MovMem8ImmDisp32(..)
        | AsmInst::CmpMem8Imm8(..)
        | AsmInst::AddMemR13BlDisp8(..)
        | AsmInst::SubMemR13BlDisp8(..)
        | AsmInst::AddMemR13AlDisp8(..) => push_mem8(out, inst),
        _ => push_plain(out, inst),
    }
}

/// A line of the assembly listing: labels at the margin, the rest indented.
pub open spec fn asm_line(inst: AsmInst) -> Seq<char> {
    if inst is Label {
        inst_text(inst) + seq!['\n']
    } else {
        "    "@ + inst_text(inst) + seq!['\n']
    }
}

/// The lines of the first `n` instructions.
pub open spec fn asm_lines(insts: Seq<AsmInst>, n: int) -> Seq<char>
    decreases n,
{
    if n <= 0 {
        Seq::empty()
    } else {
        asm_lines(insts, n - 1) + asm_line(insts[n - 1])
    }
}

/// The assembly listing of a program.
pub open spec fn asm_listing(insts: Seq<AsmInst>) -> Seq<char> {
    "; === Brainfuck x86_64 Assembly Listing ===\n; "@ + dec(insts.len())
        + " instructions (including label pseudo-instructions)\n\n"@ + asm_lines(
        insts,
        insts.len() as int,
    )
}

/// Append one line of the assembly listing.
fn format_inst_asm(out: &mut String, inst: &AsmInst)
    ensures
        final(out)@ == old(out)@ + asm_line(*inst),
{
    match inst {
        AsmInst::Label(_) => {},
        _ => {
            out.append("    ");
        },
    }
    push_inst(out, inst);
    out.push('\n');
    assert(out@ =~= old(out)@ + asm_line(*inst));
}

/// Write a program as assembly text.
pub fn dump_asm_listing(program: &AsmProgram) -> (out: String)
    ensures
        out@ == asm_listing(program.insts@),
{
    let mut out = String::new();
    out.append("; === Brainfuck x86_64 Assembly Listing ===\n; ");
    push_dec(&mut out, program.insts.len() as u64);
    out.append(" instructions (including label pseudo-instructions)\n\n");
    let ghost head = out@;
    let ghost insts = program.insts@;
    let mut i: usize = 0;
    assert(out@ =~= head + asm_lines(insts, 0));
    while i < program.insts.len()
        invariant
            i <= program.insts.len(),
            insts == program.insts@,
            out@ == head + asm_lines(insts, i as int),
        decreases program.insts.len() - i,
    {
        format_inst_asm(&mut out, &program.insts[i]);
        i += 1;
        assert(out@ =~= head + asm_lines(insts, i as int));
    }
    assert(out@ =~= asm_listing(insts));
    out
}

/// The bytes in hexadecimal, blanks between them.
pub open spec fn hex_field(bytes: Seq<u8>) -> Seq<char>
    decreases bytes.len(),
{
    if bytes.len() == 0 {
        Seq::empty()
    } else if bytes.len() == 1 {
        byte_hex(bytes[0])
    } else {
        hex_field(bytes.drop_last()) + seq![' '] + byte_hex(bytes.last())
    }
}

/// Number of bytes on a line of the hex listing.
pub const BYTES_PER_LINE: usize = 14;

/// The continuation lines for the bytes from `from` on.
pub open spec fn hex_continuation(bytes: Seq<u8>, from: int) -> Seq<char>
    decreases bytes.len() - from,
{
    if from < 0 || from >= bytes.len() {
        Seq::empty()
    } else {
        let to = if from + BYTES_PER_LINE < bytes.len() {
            from + BYTES_PER_LINE
        } else {
            bytes.len() as int
        };
        "         "@ + hex_field(bytes.subrange(from, to)) + seq!['\n'] + hex_continuation(bytes, to)
    }
}

/// The lines of one instruction at offset `offset` with the given bytes.
pub open spec fn hex_lines_of(inst: AsmInst, offset: nat, bytes: Seq<u8>) -> Seq<char> {
    if inst is Label {
        "         "@ + repeat(' ', 44) + seq![' '] + inst_text(inst) + seq!['\n']
    } else if bytes.len() == 0 {
        Seq::empty()
    } else {
        let first = if bytes.len() < BYTES_PER_LINE {
            bytes.len() as int
        } else {
            BYTES_PER_LINE as int
        };
        "0x"@ + zero_padded(hex(offset), 4) + ":  "@ + left_aligned(
            hex_field(bytes.take(first)),
            44,
        ) + seq![' '] + inst_text(inst) + seq!['\n'] + hex_continuation(bytes, first)
    }
}

/// The lines of the first `n` instructions of a program with code `text`.
pub open spec fn hex_lines(insts: Seq<AsmInst>, text: Seq<u8>, n: int) -> Seq<char>
    decreases n,
{
    if n <= 0 {
        Seq::empty()
    } else {
        hex_lines(insts, text, n - 1) + hex_lines_of(
            insts[n - 1],
            offset_of(insts, n - 1),
            text.subrange(offset_of(insts, n - 1) as int, offset_of(insts, n) as int),
        )
    }
}

/// The hex listing of a program.
pub open spec fn hex_listing(insts: Seq<AsmInst>) -> Seq<char> {
    let text = machine_code(insts);
    "; === Brainfuck x86_64 Hex Listing ===\n; "@ + dec(insts.len()) + " instructions, "@ + dec(
        text.len(),
    ) + " encoded bytes\n\nOffset    Hex                                          Assembly\n"@
        + repeat('-', 9) + seq![' '] + repeat('-', 44) + seq![' '] + repeat('-', 40) + seq!['\n']
        + hex_lines(insts, text, insts.len() as int) + "\n; total "@ + dec(text.len())
        + " bytes of machine code\n"@
}

/// Append the bytes `text[from..to]` in hexadecimal.
fn push_hex_field(out: &mut String, text: &Vec<u8>, from: usize, to: usize)
    requires
        from <= to <= text@.len(),
    ensures
        final(out)@ == old(out)@ + hex_field(text@.subrange(from as int, to as int)),
{
    let mut i: usize = from;
    assert(out@ =~= old(out)@ + hex_field(text@.subrange(from as int, from as int)));
    while i < to
        invariant
            from <= i <= to <= text@.len(),
            out@ == old(out)@ + hex_field(text@.subrange(from as int, i as int)),
        decreases to - i,
    {
        if i > from {
            out.push(' ');
        }
        push_byte_hex(out, text[i]);
        i += 1;
        proof {
            let now = text@.subrange(from as int, i as int);
            assert(now.drop_last() =~= text@.subrange(from as int, i - 1));
            assert(out@ =~= old(out)@ + hex_field(now));
        }
    }
}

/// Append the continuation lines for the bytes `text[from..hi]`, where the
/// instruction starts at `lo`.
fn push_continuation(out: &mut String, text: &Vec<u8>, lo: usize, from: usize, hi: usize)
    requires
        lo <= from <= hi <= text@.len(),
    ensures
        final(out)@ == old(out)@ + hex_continuation(
            text@.subrange(lo as int, hi as int),
            from - lo,
        ),
    decreases hi - from,
{
    let ghost bytes = text@.subrange(lo as int, hi as int);
    if from < hi {
        let to: usize = if hi - from > BYTES_PER_LINE {
            from + BYTES_PER_LINE
        } else {
            hi
        };
        out.append("         ");
        push_hex_field(out, text, from, to);
        out.push('\n');
        push_continuation(out, text, lo, to, hi);
        assert(bytes.subrange(from - lo, to - lo) =~= text@.subrange(from as int, to as int));
    }
    assert(out@ =~= old(out)@ + hex_continuation(bytes, from - lo));
}

/// Append the first line of an instruction that has bytes.
fn push_first_line(
    out: &mut String,
    inst: &AsmInst,
    text: &Vec<u8>,
    lo: usize,
    first: usize,
)
    requires
        lo <= first <= text@.len(),
    ensures
        final(out)@ == old(out)@ + ("0x"@ + zero_padded(hex(lo as nat), 4) + ":  "@ + left_aligned(
            hex_field(text@.subrange(lo as int, first as int)),
            44,
        ) + seq![' '] + inst_text(*inst) + seq!['\n']),
{
    let mut digits = String::new();
    push_hex(&mut digits, lo as u64);
    assert(digits@ =~= hex(lo as nat));
    let n: usize = digits.as_str().unicode_len();
    let mut field = String::new();
    push_hex_field(&mut field, text, lo, first);
    assert(field@ =~= hex_field(text@.subrange(lo as int, first as int)));
    let m: usize = field.as_str().unicode_len();
    out.append("0x");
    let ghost at0 = out@;
    if n < 4 {
        push_repeat(out, '0', 4 - n);
    }
    out.append(digits.as_str());
    assert(out@ =~= at0 + zero_padded(hex(lo as nat), 4));
    out.append(":  ");
    let ghost at1 = out@;
    out.append(field.as_str());
    if m < 44 {
        push_repeat(out, ' ', 44 - m);
    }
    assert(out@ =~= at1 + left_aligned(field@, 44));
    out.push(' ');
    push_inst(out, inst);
    out.push('\n');
    assert(out@ =~= old(out)@ + ("0x"@ + zero_padded(hex(lo as nat), 4) + ":  "@ + left_aligned(
        hex_field(text@.subrange(lo as int, first as int)),
        44,
    ) + seq![' '] + inst_text(*inst) + seq!['\n']));
}

/// Append the lines of one instruction, whose bytes are `text[lo..hi]`.
fn push_hex_lines(out: &mut String, inst: &AsmInst, text: &Vec<u8>, lo: usize, hi: usize)
    requires
        lo <= hi <= text@.len(),
    ensures
        final(out)@ == old(out)@ + hex_lines_of(
            *inst,
            lo as nat,
            text@.subrange(lo as int, hi as int),
        ),
{
    let ghost bytes = text@.subrange(lo as int, hi as int);
    let is_label = match inst {
        AsmInst::Label(_) => true,
        _ => false,
    };
    if is_label {
        out.append("         ");
        push_repeat(out, ' ', 44);
        out.push(' ');
        push_inst(out, inst);
        out.push('\n');
        assert(out@ =~= old(out)@ + hex_lines_of(*inst, lo as nat, bytes));
        return ;
    }
    if lo == hi {
        assert(out@ =~= old(out)@ + hex_lines_of(*inst, lo as nat, bytes));
        return ;
    }
    let first: usize = if hi - lo < BYTES_PER_LINE {
        hi
    } else {
        lo + BYTES_PER_LINE
    };
    push_first_line(out, inst, text, lo, first);
    push_continuation(out, text, lo, first, hi);
    assert(bytes.take(first - lo) =~= text@.subrange(lo as int, first as int));
    assert(out@ =~= old(out)@ + hex_lines_of(*inst, lo as nat, bytes));
}

/// Write the offset and the bytes of every instruction beside its text.
pub fn dump_hex_listing(program: &AsmProgram) -> (out: String)
    requires
        encodable(program.insts@),
    ensures
        out@ == hex_listing(program.insts@),
{
    let (encoded, inst_map) = encode_program_with_inst_map(program);
    let ghost insts = program.insts@;
    let ghost text = encoded.text@;
    let mut out = String::new();
    out.append("; === Brainfuck x86_64 Hex Listing ===\n; ");
    push_dec(&mut out, program.insts.len() as u64);
    out.append(" instructions, ");
    push_dec(&mut out, encoded.text.len() as u64);
    out.append(
        " encoded bytes\n\nOffset    Hex                                          Assembly\n",
    );
    push_repeat(&mut out, '-', 9);
    out.push(' ');
    push_repeat(&mut out, '-', 44);
    out.push(' ');
    push_repeat(&mut out, '-', 40);
    out.push('\n');
    let ghost head = out@;
    let mut i: usize = 0;
    assert(out@ =~= head + hex_lines(insts, text, 0));
    while i < program.insts.len()
        invariant
            i <= program.insts.len(),
            insts == program.insts@,
            text == encoded.text@,
            text.len() == offset_of(insts, insts.len() as int),
            inst_map@.len() == insts.len(),
            forall|k: int|
                0 <= k < insts.len() ==> (#[trigger] inst_map@[k]).offset == offset_of(insts, k)
                    && inst_map@[k].offset + inst_map@[k].len == offset_of(insts, k + 1),
            out@ == head + hex_lines(insts, text, i as int),
        decreases program.insts.len() - i,
    {
        proof {
            lemma_offset_monotone(insts, i + 1, insts.len() as int);
        }
        let range = inst_map[i];
        assert(encoded.text.len() == text.len());
        push_hex_lines(
            &mut out,
            &program.insts[i],
            &encoded.text,
            range.offset,
            range.offset + range.len,
        );
        i += 1;
        assert(out@ =~= head + hex_lines(insts, text, i as int));
    }
    out.append("\n; total ");
    push_dec(&mut out, encoded.text.len() as u64);
    out.append(" bytes of machine code\n");
    assert(out@ =~= hex_listing(insts));
    out
}

} // verus!
