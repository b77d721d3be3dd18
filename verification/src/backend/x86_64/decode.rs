//! What machine code means: a decoder for the x86_64 forms that the encoder writes.
//!
//! The decoder goes by the opcode map alone: legacy prefixes, the REX prefix, the opcode,
//! ModRM, SIB, displacement and immediate. Encoding an instruction and decoding its bytes
//! gives the instruction back.

use vstd::prelude::*;

use crate::backend::asm_ir::{AsmInst, AsmLabel, Reg64};
use crate::backend::x86_64::encode::{
    encodable, encodes, inst_bytes, inst_head, inst_len, label_field, modrm, offset_of,
    operands_encodable, reg_code, rex_w,
};
use crate::backend::x86_64::encode::{
    branch_bytes, displacement, encoded_at, mem8_bytes, mem8_disp32_bytes, mem_operand_bytes,
    mem_reg_bytes, reg_imm_bytes, reg_reg_bytes,
};
use crate::bytes::{le32, le64};

verus! {

/// Where an operand is.
pub enum Place {
    /// In a register.
    Reg(Reg64),
    /// In memory, at a register's value and a displacement.
    Mem(Reg64, int),
    /// In memory, at a distance from the end of the instruction.
    Rip(int),
}

/// What an operation reads besides its destination.
pub enum Operand {
    /// A register.
    Reg(Reg64),
    /// A value.
    Imm(int),
}

/// Operations of two operands on integers.
pub enum Alu {
    /// Addition.
    Add,
    /// Bitwise or.
    Or,
    /// Addition with carry.
    Adc,
    /// Subtraction with borrow.
    Sbb,
    /// Bitwise and.
    And,
    /// Subtraction.
    Sub,
    /// Bitwise exclusive or.
    Xor,
    /// Subtraction whose result is dropped.
    Cmp,
}

/// Shifts.
pub enum Shift {
    /// To the left.
    Left,
    /// To the right, with zeros.
    Right,
    /// To the right, with copies of the sign.
    Signed,
}

/// Conditions of jumps.
pub enum When {
    /// Unsigned less.
    Below,
    /// Unsigned greater or equal.
    NotBelow,
    /// Equal.
    Zero,
    /// Not equal.
    NotZero,
    /// Signed less.
    Less,
    /// Signed greater or equal.
    NotLess,
}

/// A machine instruction. Sizes of operands are in bytes.
pub enum Ins {
    /// An operation whose result goes to the place.
    Alu(Alu, int, Place, Operand),
    /// A copy to the place.
    Store(int, Place, Operand),
    /// A copy from the place to the register.
    Load(int, Reg64, Place),
    /// A copy of a byte to the low half of a register, with zeros above.
    LoadByte(Reg64, Place),
    /// The address of the place.
    Address(Reg64, Place),
    /// A shift.
    Shift(Shift, int, Place, int),
    /// One more.
    Inc(int, Place),
    /// One less.
    Dec(int, Place),
    /// The place's value times a number.
    Multiply(int, Reg64, Place, int),
    /// Onto the stack.
    Push(Reg64),
    /// Off the stack.
    Pop(Reg64),
    /// A jump under a condition, by a distance from the instruction's end.
    JumpIf(When, int),
    /// A jump.
    Jump(int),
    /// A call.
    Call(int),
    /// A call of the address that the place holds.
    CallPlace(Place),
    /// Back to the caller.
    Ret,
    /// String operations go up.
    Up,
    /// String operations go down.
    Down,
    /// Copy as many bytes as RCX says.
    CopyBytes,
    /// Fill as many bytes as RCX says.
    FillBytes,
    /// Look for AL among as many bytes as RCX says.
    FindByte,
    /// Into the kernel.
    Syscall,
    /// Nothing.
    Nop,
}

/// The register of a number.
pub open spec fn register(n: int) -> Reg64 {
    if n == 0 {
        Reg64::Rax
    } else if n == 1 {
        Reg64::Rcx
    } else if n == 2 {
        Reg64::Rdx
    } else if n == 3 {
        Reg64::Rbx
    } else if n == 4 {
        Reg64::Rsp
    } else if n == 5 {
        Reg64::Rbp
    } else if n == 6 {
        Reg64::Rsi
    } else if n == 7 {
        Reg64::Rdi
    } else if n == 8 {
        Reg64::R8
    } else if n == 9 {
        Reg64::R9
    } else if n == 10 {
        Reg64::R10
    } else if n == 11 {
        Reg64::R11
    } else if n == 12 {
        Reg64::R12
    } else if n == 13 {
        Reg64::R13
    } else if n == 14 {
        Reg64::R14
    } else {
        Reg64::R15
    }
}

/// The operation of a digit of the immediate group, or of a block of eight opcodes.
pub open spec fn alu_of(digit: int) -> Alu {
    if digit == 0 {
        Alu::Add
    } else if digit == 1 {
        Alu::Or
    } else if digit == 2 {
        Alu::Adc
    } else if digit == 3 {
        Alu::Sbb
    } else if digit == 4 {
        Alu::And
    } else if digit == 5 {
        Alu::Sub
    } else if digit == 6 {
        Alu::Xor
    } else {
        Alu::Cmp
    }
}

/// The condition of the low half of a jump's opcode.
pub open spec fn when_of(code: int) -> Option<When> {
    if code == 2 {
        Some(When::Below)
    } else if code == 3 {
        Some(When::NotBelow)
    } else if code == 4 {
        Some(When::Zero)
    } else if code == 5 {
        Some(When::NotZero)
    } else if code == 12 {
        Some(When::Less)
    } else if code == 13 {
        Some(When::NotLess)
    } else {
        None
    }
}

/// The signed byte at a place.
pub open spec fn signed8(b: Seq<u8>, at: int) -> int {
    if b[at] < 128 {
        b[at] as int
    } else {
        b[at] - 256
    }
}

/// The unsigned four bytes at a place, least significant first.
pub open spec fn unsigned32(b: Seq<u8>, at: int) -> int {
    b[at] + 256 * b[at + 1] + 65536 * b[at + 2] + 16777216 * b[at + 3]
}

/// The signed four bytes at a place.
pub open spec fn signed32(b: Seq<u8>, at: int) -> int {
    let v = unsigned32(b, at);
    if v < 0x8000_0000 {
        v
    } else {
        v - 0x1_0000_0000
    }
}

/// The signed eight bytes at a place.
pub open spec fn signed64(b: Seq<u8>, at: int) -> int {
    unsigned32(b, at) + 0x1_0000_0000 * signed32(b, at + 4)
}

/// What stands before the opcode.
pub struct Prefixes {
    /// The repeat prefix, or zero.
    pub rep: int,
    /// REX.W: operands of eight bytes.
    pub wide: bool,
    /// REX.R: the upper eight registers in ModRM's middle field.
    pub high_reg: bool,
    /// REX.B: the upper eight registers in the other field.
    pub high_base: bool,
    /// Where the opcode is.
    pub at: int,
}

/// The prefixes of an instruction.
pub open spec fn prefixes(b: Seq<u8>) -> Prefixes {
    let (rep, at) = if b[0] == 0xF2 || b[0] == 0xF3 {
        (b[0] as int, 1int)
    } else {
        (0int, 0int)
    };
    if 0x40 <= b[at] < 0x50 {
        Prefixes {
            rep,
            wide: (b[at] / 8) % 2 == 1,
            high_reg: (b[at] / 4) % 2 == 1,
            high_base: b[at] % 2 == 1,
            at: at + 1,
        }
    } else {
        Prefixes { rep, wide: false, high_reg: false, high_base: false, at }
    }
}

/// The register of a three-bit field and its REX bit.
pub open spec fn field(low: int, high: bool) -> Reg64 {
    register(
        if high {
            low + 8
        } else {
            low
        },
    )
}

/// The middle field of the ModRM byte at a place.
pub open spec fn digit(b: Seq<u8>, at: int) -> int {
    (b[at] as int / 8) % 8
}

/// The operand that the ModRM byte at a place describes, and the place behind it. A SIB
/// byte with an index is not read.
pub open spec fn operand(b: Seq<u8>, at: int, high: bool) -> Option<(Place, int)> {
    let mode = b[at] as int / 64;
    let rm = b[at] as int % 8;
    if mode == 3 {
        Some((Place::Reg(field(rm, high)), at + 1))
    } else if mode == 0 && rm == 5 {
        Some((Place::Rip(signed32(b, at + 1)), at + 5))
    } else if rm == 4 && (b[at + 1] as int / 8) % 8 != 4 {
        None
    } else if rm == 4 && mode == 0 && b[at + 1] % 8 == 5 {
        None
    } else {
        let base = if rm == 4 {
            field(b[at + 1] as int % 8, high)
        } else {
            field(rm, high)
        };
        let next = if rm == 4 {
            at + 2
        } else {
            at + 1
        };
        if mode == 0 {
            Some((Place::Mem(base, 0), next))
        } else if mode == 1 {
            Some((Place::Mem(base, signed8(b, next)), next + 1))
        } else {
            Some((Place::Mem(base, signed32(b, next)), next + 4))
        }
    }
}

/// The instruction behind `0F`, and the place behind it.
pub open spec fn second_map(b: Seq<u8>, p: Prefixes) -> Option<(Ins, int)> {
    let at = p.at + 1;
    let op = b[at] as int;
    if op == 0x05 {
        Some((Ins::Syscall, at + 1))
    } else if op == 0x1F {
        match operand(b, at + 1, p.high_base) {
            None => None,
            Some((_, end)) => Some((Ins::Nop, end)),
        }
    } else if 0x80 <= op < 0x90 {
        match when_of(op - 0x80) {
            None => None,
            Some(when) => Some((Ins::JumpIf(when, signed32(b, at + 1)), at + 5)),
        }
    } else if op == 0xB6 {
        match operand(b, at + 1, p.high_base) {
            None => None,
            Some((place, end)) => Some(
                (Ins::LoadByte(field(digit(b, at + 1), p.high_reg), place), end),
            ),
        }
    } else {
        None
    }
}

/// An instruction whose operands the ModRM byte describes, and the place behind it.
pub open spec fn with_modrm(b: Seq<u8>, p: Prefixes) -> Option<(Ins, int)> {
    let at = p.at;
    let op = b[at] as int;
    let size = if p.wide {
        8int
    } else {
        4int
    };
    let reg = field(digit(b, at + 1), p.high_reg);
    let sub = digit(b, at + 1);
    match operand(b, at + 1, p.high_base) {
        None => None,
        Some((place, end)) => if op < 0x40 && op % 8 == 0 {
            Some((Ins::Alu(alu_of(op / 8), 1, place, Operand::Reg(reg)), end))
        } else if op < 0x40 && op % 8 == 1 {
            Some((Ins::Alu(alu_of(op / 8), size, place, Operand::Reg(reg)), end))
        } else if op == 0x69 {
            Some((Ins::Multiply(size, reg, place, signed32(b, end)), end + 4))
        } else if op == 0x80 {
            Some((Ins::Alu(alu_of(sub), 1, place, Operand::Imm(signed8(b, end))), end + 1))
        } else if op == 0x81 {
            Some((Ins::Alu(alu_of(sub), size, place, Operand::Imm(signed32(b, end))), end + 4))
        } else if op == 0x83 {
            Some((Ins::Alu(alu_of(sub), size, place, Operand::Imm(signed8(b, end))), end + 1))
        } else if op == 0x88 {
            Some((Ins::Store(1, place, Operand::Reg(reg)), end))
        } else if op == 0x89 {
            Some((Ins::Store(size, place, Operand::Reg(reg)), end))
        } else if op == 0x8A {
            Some((Ins::Load(1, reg, place), end))
        } else if op == 0x8B {
            Some((Ins::Load(size, reg, place), end))
        } else if op == 0x8D {
            Some((Ins::Address(reg, place), end))
        } else if op == 0xC1 && sub == 4 {
            Some((Ins::Shift(Shift::Left, size, place, b[end] as int), end + 1))
        } else if op == 0xC1 && sub == 5 {
            Some((Ins::Shift(Shift::Right, size, place, b[end] as int), end + 1))
        } else if op == 0xC1 && sub == 7 {
            Some((Ins::Shift(Shift::Signed, size, place, b[end] as int), end + 1))
        } else if op == 0xC6 && sub == 0 {
            Some((Ins::Store(1, place, Operand::Imm(signed8(b, end))), end + 1))
        } else if op == 0xFE && sub == 0 {
            Some((Ins::Inc(1, place), end))
        } else if op == 0xFE && sub == 1 {
            Some((Ins::Dec(1, place), end))
        } else if op == 0xFF && sub == 0 {
            Some((Ins::Inc(size, place), end))
        } else if op == 0xFF && sub == 1 {
            Some((Ins::Dec(size, place), end))
        } else if op == 0xFF && sub == 2 {
            Some((Ins::CallPlace(place), end))
        } else {
            None
        },
    }
}

/// An instruction without a ModRM byte, and the place behind it.
pub open spec fn without_modrm(b: Seq<u8>, p: Prefixes) -> Option<(Ins, int)> {
    let at = p.at;
    let op = b[at] as int;
    if 0x50 <= op < 0x58 {
        Some((Ins::Push(field(op - 0x50, p.high_base)), at + 1))
    } else if 0x58 <= op < 0x60 {
        Some((Ins::Pop(field(op - 0x58, p.high_base)), at + 1))
    } else if 0x70 <= op < 0x80 {
        match when_of(op - 0x70) {
            None => None,
            Some(when) => Some((Ins::JumpIf(when, signed8(b, at + 1)), at + 2)),
        }
    } else if op == 0x90 {
        Some((Ins::Nop, at + 1))
    } else if op == 0xA4 && p.rep == 0xF3 {
        Some((Ins::CopyBytes, at + 1))
    } else if op == 0xAA && p.rep == 0xF3 {
        Some((Ins::FillBytes, at + 1))
    } else if op == 0xAE && p.rep == 0xF2 {
        Some((Ins::FindByte, at + 1))
    } else if 0xB8 <= op < 0xC0 && p.wide {
        Some(
            (
                Ins::Store(
                    8,
                    Place::Reg(field(op - 0xB8, p.high_base)),
                    Operand::Imm(signed64(b, at + 1)),
                ),
                at + 9,
            ),
        )
    } else if 0xB8 <= op < 0xC0 {
        Some(
            (
                Ins::Store(
                    4,
                    Place::Reg(field(op - 0xB8, p.high_base)),
                    Operand::Imm(signed32(b, at + 1)),
                ),
                at + 5,
            ),
        )
    } else if op == 0xC3 {
        Some((Ins::Ret, at + 1))
    } else if op == 0xE8 {
        Some((Ins::Call(signed32(b, at + 1)), at + 5))
    } else if op == 0xE9 {
        Some((Ins::Jump(signed32(b, at + 1)), at + 5))
    } else if op == 0xEB {
        Some((Ins::Jump(signed8(b, at + 1)), at + 2))
    } else if op == 0xFC {
        Some((Ins::Up, at + 1))
    } else if op == 0xFD {
        Some((Ins::Down, at + 1))
    } else {
        None
    }
}

/// Whether a ModRM byte follows the opcode, among the opcodes of the first map in use.
pub open spec fn takes_modrm(op: int) -> bool {
    ||| op < 0x40 && op % 8 < 2
    ||| op == 0x69
    ||| 0x80 <= op < 0x84
    ||| 0x88 <= op < 0x8E
    ||| op == 0xC1
    ||| op == 0xC6
    ||| op == 0xFE
    ||| op == 0xFF
}

/// The instruction at the front of some bytes, and how many bytes it takes.
pub open spec fn decoded(b: Seq<u8>) -> Option<(Ins, int)> {
    let p = prefixes(b);
    let op = b[p.at] as int;
    if op == 0x0F {
        second_map(b, p)
    } else if takes_modrm(op) {
        with_modrm(b, p)
    } else {
        without_modrm(b, p)
    }
}

/// What an instruction of the assembly layer is to do, where its label is `rel` bytes
/// away from its end.
pub open spec fn meant(inst: AsmInst, rel: int) -> Ins {
    match inst {
        AsmInst::MovRegImm64(r, v) => Ins::Store(8, Place::Reg(r), Operand::Imm(v as int)),
        AsmInst::MovRegReg(d, s) => Ins::Store(8, Place::Reg(d), Operand::Reg(s)),
        AsmInst::AddRegImm32(r, v) => Ins::Alu(Alu::Add, 8, Place::Reg(r), Operand::Imm(v as int)),
        AsmInst::AndRegImm32(r, v) => Ins::Alu(Alu::And, 8, Place::Reg(r), Operand::Imm(v as int)),
        AsmInst::AddRegReg(d, s) => Ins::Alu(Alu::Add, 8, Place::Reg(d), Operand::Reg(s)),
        AsmInst::SubRegReg(d, s) => Ins::Alu(Alu::Sub, 8, Place::Reg(d), Operand::Reg(s)),
        AsmInst::CmpRegReg(l, r) => Ins::Alu(Alu::Cmp, 8, Place::Reg(l), Operand::Reg(r)),
        AsmInst::CmpRegImm32(r, v) => Ins::Alu(Alu::Cmp, 8, Place::Reg(r), Operand::Imm(v as int)),
        AsmInst::ShrRegImm8(r, n) => Ins::Shift(Shift::Right, 8, Place::Reg(r), n as int),
        AsmInst::LeaRegMem(d, base, disp) => Ins::Address(d, Place::Mem(base, disp as int)),
        AsmInst::LeaRegLabel(d, _) => Ins::Address(d, Place::Rip(rel)),
        AsmInst::MovMemReg64(base, disp, s) => Ins::Store(
            8,
            Place::Mem(base, disp as int),
            Operand::Reg(s),
        ),
        AsmInst::MovRegMem64(d, base, disp) => Ins::Load(8, d, Place::Mem(base, disp as int)),
        AsmInst::AddMem8Imm8(r, v) => Ins::Alu(Alu::Add, 1, Place::Mem(r, 0), Operand::Imm(v as int)),
        AsmInst::IncMem8(r) => Ins::Inc(1, Place::Mem(r, 0)),
        AsmInst::DecMem8(r) => Ins::Dec(1, Place::Mem(r, 0)),
        AsmInst::MovMem8Imm8(r, v) => Ins::Store(1, Place::Mem(r, 0), Operand::Imm(as_signed(v))),
        AsmInst::AddMem8ImmDisp8(r, disp, v) => Ins::Alu(
            Alu::Add,
            1,
            Place::Mem(r, disp as int),
            Operand::Imm(v as int),
        ),
        AsmInst::MovMem8ImmDisp8(r, disp, v) => Ins::Store(
            1,
            Place::Mem(r, disp as int),
            Operand::Imm(as_signed(v)),
        ),
        AsmInst::AddMem8ImmDisp32(r, disp, v) => Ins::Alu(
            Alu::Add,
            1,
            Place::Mem(r, disp as int),
            Operand::Imm(v as int),
        ),
        AsmInst::MovMem8ImmDisp32(r, disp, v) => Ins::Store(
            1,
            Place::Mem(r, disp as int),
            Operand::Imm(as_signed(v)),
        ),
        AsmInst::CmpMem8Imm8(r, v) => Ins::Alu(
            Alu::Cmp,
            1,
            Place::Mem(r, 0),
            Operand::Imm(as_signed(v)),
        ),
        AsmInst::Jz(_) | AsmInst::JzShort(_) => Ins::JumpIf(When::Zero, rel),
        AsmInst::Jnz(_) | AsmInst::JnzShort(_) => Ins::JumpIf(When::NotZero, rel),
        AsmInst::Jb(_) | AsmInst::JbShort(_) => Ins::JumpIf(When::Below, rel),
        AsmInst::Jae(_) | AsmInst::JaeShort(_) => Ins::JumpIf(When::NotBelow, rel),
        AsmInst::Jl(_) | AsmInst::JlShort(_) => Ins::JumpIf(When::Less, rel),
        AsmInst::Jge(_) | AsmInst::JgeShort(_) => Ins::JumpIf(When::NotLess, rel),
        AsmInst::Jmp(_) | AsmInst::JmpShort(_) => Ins::Jump(rel),
        AsmInst::Call(_) => Ins::Call(rel),
        AsmInst::CallMemLabel(_) => Ins::CallPlace(Place::Rip(rel)),
        AsmInst::Ret => Ins::Ret,
        AsmInst::Cld => Ins::Up,
        AsmInst::Std => Ins::Down,
        AsmInst::RepMovsb => Ins::CopyBytes,
        AsmInst::RepStosb => Ins::FillBytes,
        AsmInst::RepneScasb => Ins::FindByte,
        AsmInst::XorEaxEax => Ins::Alu(
            Alu::Xor,
            4,
            Place::Reg(Reg64::Rax),
            Operand::Reg(Reg64::Rax),
        ),
        AsmInst::MovEcxImm32(v) => Ins::Store(4, Place::Reg(Reg64::Rcx), Operand::Imm(v as int)),
        AsmInst::Syscall => Ins::Syscall,
        AsmInst::Push(r) => Ins::Push(r),
        AsmInst::Pop(r) => Ins::Pop(r),
        AsmInst::MovzxEbxFromMemR13 => Ins::LoadByte(Reg64::Rbx, Place::Mem(Reg64::R13, 0)),
        AsmInst::MovEaxEbx => Ins::Store(4, Place::Reg(Reg64::Rax), Operand::Reg(Reg64::Rbx)),
        AsmInst::ImulEaxEbxImm32(v) => Ins::Multiply(
            4,
            Reg64::Rax,
            Place::Reg(Reg64::Rbx),
            v as int,
        ),
        AsmInst::AddMemR13Al => Ins::Alu(
            Alu::Add,
            1,
            Place::Mem(Reg64::R13, 0),
            Operand::Reg(Reg64::Rax),
        ),
        AsmInst::MovAlMemR13 => Ins::Load(1, Reg64::Rax, Place::Mem(Reg64::R13, 0)),
        AsmInst::MovMemRbxAl => Ins::Store(
            1,
            Place::Mem(Reg64::Rbx, 0),
            Operand::Reg(Reg64::Rax),
        ),
        AsmInst::AddMemR13Bl => Ins::Alu(
            Alu::Add,
            1,
            Place::Mem(Reg64::R13, 0),
            Operand::Reg(Reg64::Rbx),
        ),
        AsmInst::SubMemR13Bl => Ins::Alu(
            Alu::Sub,
            1,
            Place::Mem(Reg64::R13, 0),
            Operand::Reg(Reg64::Rbx),
        ),
        AsmInst::AddMemR13BlDisp8(disp) => Ins::Alu(
            Alu::Add,
            1,
            Place::Mem(Reg64::R13, disp as int),
            Operand::Reg(Reg64::Rbx),
        ),
        AsmInst::SubMemR13BlDisp8(disp) => Ins::Alu(
            Alu::Sub,
            1,
            Place::Mem(Reg64::R13, disp as int),
            Operand::Reg(Reg64::Rbx),
        ),
        AsmInst::AddMemR13AlDisp8(disp) => Ins::Alu(
            Alu::Add,
            1,
            Place::Mem(Reg64::R13, disp as int),
            Operand::Reg(Reg64::Rax),
        ),
        AsmInst::Label(_) | AsmInst::Align16 | AsmInst::RawBytes(_) => Ins::Nop,
    }
}

/// A byte as a signed number.
pub open spec fn as_signed(v: u8) -> int {
    if v < 128 {
        v as int
    } else {
        v - 256
    }
}

/// Not an instruction, but a place, a gap or bytes that the program brings along.
pub open spec fn is_pseudo(inst: AsmInst) -> bool {
    inst is Label || inst is Align16 || inst is RawBytes
}

/// The byte of a signed byte.
proof fn lemma_byte(x: i8)
    ensures
        (x as u8) as int == (if x < 0 {
            x + 256
        } else {
            x as int
        }),
{
    assert(x < 0 ==> (x as u8) as i16 == x as i16 + 256) by (bit_vector);
    assert(x >= 0 ==> (x as u8) as i16 == x as i16) by (bit_vector);
}

/// Some bytes hold others at a place.
spec fn holds(b: Seq<u8>, at: int, part: Seq<u8>) -> bool {
    &&& 0 <= at
    &&& at + part.len() <= b.len()
    &&& forall|k: int| 0 <= k < part.len() ==> #[trigger] b[at + k] == part[k]
}

/// The four bytes of a number read as the number.
proof fn lemma_word(b: Seq<u8>, at: int, x: i32)
    requires
        holds(b, at, le32(x as u32)),
    ensures
        signed32(b, at) == x,
{
    let v = x as u32;
    assert(x < 0 ==> v as i64 == x as i64 + 0x1_0000_0000) by (bit_vector)
        requires
            v == x as u32,
    ;
    assert(x >= 0 ==> v as i64 == x as i64) by (bit_vector)
        requires
            v == x as u32,
    ;
    let l = le32(v);
    assert(b[at + 0] == l[0] && b[at + 1] == l[1] && b[at + 2] == l[2] && b[at + 3] == l[3]);
    assert(unsigned32(b, at) == v as int);
}

/// Bytes of the upper half of a long number.
proof fn lemma_upper(v: u64)
    ensures
        v / 1099511627776 == (v / 4294967296) / 256,
        v / 281474976710656 == (v / 4294967296) / 65536,
        v / 72057594037927936 == (v / 4294967296) / 16777216,
        (v / 4294967296) < 4294967296,
{
    assert(v / 1099511627776 == (v / 4294967296) / 256) by (bit_vector);
    assert(v / 281474976710656 == (v / 4294967296) / 65536) by (bit_vector);
    assert(v / 72057594037927936 == (v / 4294967296) / 16777216) by (bit_vector);
    assert((v / 4294967296) < 4294967296) by (bit_vector);
}

/// Bytes of the lower half of a long number.
proof fn lemma_lower(v: u64)
    ensures
        v % 256 == (v % 4294967296) % 256,
        (v / 256) % 256 == ((v % 4294967296) / 256) % 256,
        (v / 65536) % 256 == ((v % 4294967296) / 65536) % 256,
        (v / 16777216) % 256 == ((v % 4294967296) / 16777216) % 256,
{
    assert(v % 256 == (v % 4294967296) % 256) by (bit_vector);
    assert((v / 256) % 256 == ((v % 4294967296) / 256) % 256) by (bit_vector);
    assert((v / 65536) % 256 == ((v % 4294967296) / 65536) % 256) by (bit_vector);
    assert((v / 16777216) % 256 == ((v % 4294967296) / 16777216) % 256) by (bit_vector);
}

/// A number of four bytes is the sum of its bytes.
proof fn lemma_four(v: int)
    requires
        0 <= v < 4294967296,
    ensures
        v == v % 256 + 256 * ((v / 256) % 256) + 65536 * ((v / 65536) % 256) + 16777216 * ((v
            / 16777216) % 256),
{
}

/// The eight bytes of a number read as the number.
proof fn lemma_long(b: Seq<u8>, at: int, x: i64)
    requires
        holds(b, at, le64(x as u64)),
    ensures
        signed64(b, at) == x,
{
    let v = x as u64;
    assert(x < 0 ==> v as i128 == x as i128 + 0x1_0000_0000_0000_0000i128) by (bit_vector)
        requires
            v == x as u64,
    ;
    assert(x >= 0 ==> v as i128 == x as i128) by (bit_vector)
        requires
            v == x as u64,
    ;
    lemma_upper(v);
    lemma_lower(v);
    let low = (v % 4294967296) as int;
    let high = (v / 4294967296) as int;
    lemma_four(low);
    lemma_four(high);
    lemma_halves(b, at, v);
}

/// The halves of a long number read as such.
proof fn lemma_halves(b: Seq<u8>, at: int, v: u64)
    requires
        holds(b, at, le64(v)),
    ensures
        unsigned32(b, at) == v % 4294967296,
        unsigned32(b, at + 4) == v / 4294967296,
{
    lemma_upper(v);
    lemma_lower(v);
    let low = (v % 4294967296) as int;
    let high = (v / 4294967296) as int;
    lemma_four(low);
    lemma_four(high);
    let l = le64(v);
    assert(b[at + 0] == l[0] && b[at + 1] == l[1] && b[at + 2] == l[2] && b[at + 3] == l[3]);
    assert(b[at + 4] == l[4] && b[at + 5] == l[5] && b[at + 6] == l[6] && b[at + 7] == l[7]);
}

/// Parts stand where the whole does.
proof fn lemma_split(b: Seq<u8>, at: int, x: Seq<u8>, y: Seq<u8>)
    requires
        holds(b, at, x + y),
    ensures
        holds(b, at, x),
        holds(b, at + x.len(), y),
{
    let all = x + y;
    assert forall|k: int| 0 <= k < x.len() implies #[trigger] b[at + k] == x[k] by {
        assert(all[k] == x[k]);
    }
    assert forall|k: int| 0 <= k < y.len() implies #[trigger] b[at + x.len() + k] == y[k] by {
        assert(all[x.len() + k] == y[k]);
        assert(b[at + (x.len() + k)] == all[x.len() + k]);
    }
}

/// A register's number gives the register.
proof fn lemma_field(r: Reg64)
    ensures
        field(reg_code(r) % 8, reg_code(r) >= 8) == r,
        0 <= reg_code(r) < 16,
        reg_code(r) / 8 == (if reg_code(r) >= 8 {
            1int
        } else {
            0int
        }),
{
}

/// The fields of a ModRM byte.
proof fn lemma_modrm(mode: int, reg: int, rm: int)
    requires
        0 <= mode < 4,
        0 <= reg < 8,
        0 <= rm < 8,
    ensures
        modrm(mode, reg, rm) as int == 64 * mode + 8 * reg + rm,
        modrm(mode, reg, rm) as int / 64 == mode,
        (modrm(mode, reg, rm) as int / 8) % 8 == reg,
        modrm(mode, reg, rm) as int % 8 == rm,
{
}

/// A REX prefix for two registers.
proof fn lemma_rex(b: Seq<u8>, reg: Reg64, base: Reg64)
    requires
        b[0] == rex_w(reg_code(reg) / 8, reg_code(base) / 8),
    ensures
        prefixes(b) == (Prefixes {
            rep: 0,
            wide: true,
            high_reg: reg_code(reg) >= 8,
            high_base: reg_code(base) >= 8,
            at: 1,
        }),
{
    lemma_field(reg);
    lemma_field(base);
    let v = 0x48 + 4 * (reg_code(reg) / 8) + reg_code(base) / 8;
    assert(v == 0x48 || v == 0x49 || v == 0x4C || v == 0x4D);
}

/// A memory operand.
proof fn lemma_mem(b: Seq<u8>, at: int, reg: int, base: Reg64, disp: i32)
    requires
        0 <= reg < 8,
        holds(b, at, mem_operand_bytes(reg, base, disp)),
    ensures
        operand(b, at, reg_code(base) >= 8) == Some(
            (Place::Mem(base, disp as int), at + mem_operand_bytes(reg, base, disp).len()),
        ),
        digit(b, at) == reg,
{
    let low = reg_code(base) % 8;
    lemma_field(base);
    let m = mem_operand_bytes(reg, base, disp);
    assert(b[at + 0] == m[0]);
    let sib = if low == 4 {
        seq![0x24u8]
    } else {
        Seq::<u8>::empty()
    };
    if low == 4 {
        assert(m[1] == 0x24u8);
        assert(b[at + 1] == 0x24u8);
    }
    let n = 1 + sib.len();
    if disp == 0 && low != 5 {
        lemma_modrm(0, reg, low);
    } else if i8::MIN <= disp <= i8::MAX {
        lemma_modrm(1, reg, low);
        lemma_byte(disp as i8);
        assert(m[n as int] == (disp as i8) as u8);
        assert(b[at + n] == m[n as int]);
    } else {
        lemma_modrm(2, reg, low);
        assert(m =~= (seq![modrm(2, reg, low)] + sib) + le32(disp as u32));
        lemma_split(b, at, seq![modrm(2, reg, low)] + sib, le32(disp as u32));
        lemma_word(b, at + n, disp);
    }
}

/// `op r/m64, r64` between two registers.
proof fn lemma_two_registers(b: Seq<u8>, opcode: u8, rm: Reg64, reg: Reg64)
    requires
        holds(b, 0, reg_reg_bytes(opcode, rm, reg)),
    ensures
        prefixes(b).at == 1,
        prefixes(b).wide,
        b[1] == opcode,
        field(digit(b, 2), prefixes(b).high_reg) == reg,
        operand(b, 2, prefixes(b).high_base) == Some((Place::Reg(rm), 3int)),
{
    let l = reg_reg_bytes(opcode, rm, reg);
    assert(b[0int + 0] == l[0] && b[0int + 1] == l[1] && b[0int + 2] == l[2]);
    lemma_rex(b, reg, rm);
    lemma_field(reg);
    lemma_field(rm);
    lemma_modrm(3, reg_code(reg) % 8, reg_code(rm) % 8);
}

/// `op r64, imm` of the immediate group.
proof fn lemma_immediate(b: Seq<u8>, sub: int, reg: Reg64, imm: i32)
    requires
        0 <= sub < 8,
        holds(b, 0, reg_imm_bytes(sub, reg, imm)),
    ensures
        decoded(b) == Some(
            (
                Ins::Alu(alu_of(sub), 8, Place::Reg(reg), Operand::Imm(imm as int)),
                reg_imm_bytes(sub, reg, imm).len() as int,
            ),
        ),
{
    let l = reg_imm_bytes(sub, reg, imm);
    assert(b[0int + 0] == l[0] && b[0int + 1] == l[1] && b[0int + 2] == l[2]);
    lemma_rex(b, Reg64::Rax, reg);
    lemma_field(reg);
    lemma_modrm(3, sub, reg_code(reg) % 8);
    if i8::MIN <= imm <= i8::MAX {
        assert(b[0int + 3] == l[3]);
        lemma_byte(imm as i8);
    } else {
        assert(l =~= l.take(3) + le32(imm as u32));
        lemma_split(b, 0, l.take(3), le32(imm as u32));
        lemma_word(b, 3, imm);
    }
}

/// `op r64, [base + disp]`.
proof fn lemma_register_and_memory(b: Seq<u8>, opcode: u8, base: Reg64, disp: i32, reg: Reg64)
    requires
        holds(b, 0, mem_reg_bytes(opcode, base, disp, reg)),
    ensures
        prefixes(b).at == 1,
        prefixes(b).wide,
        b[1] == opcode,
        field(digit(b, 2), prefixes(b).high_reg) == reg,
        operand(b, 2, prefixes(b).high_base) == Some(
            (
                Place::Mem(base, disp as int),
                mem_reg_bytes(opcode, base, disp, reg).len() as int,
            ),
        ),
{
    let l = mem_reg_bytes(opcode, base, disp, reg);
    let head = seq![rex_w(reg_code(reg) / 8, reg_code(base) / 8), opcode];
    let tail = mem_operand_bytes(reg_code(reg) % 8, base, disp);
    assert(b[0int + 0] == l[0] && b[0int + 1] == l[1]);
    lemma_split(b, 0, head, tail);
    lemma_rex(b, reg, base);
    lemma_field(reg);
    lemma_mem(b, 2, reg_code(reg) % 8, base, disp);
}

/// A byte operation on `[reg + disp]`.
proof fn lemma_tape_byte(b: Seq<u8>, opcode: u8, sub: int, reg: Reg64, disp: i8)
    requires
        0 <= sub < 8,
        reg_code(reg) % 8 != 4,
        holds(
            b,
            0,
            seq![
                rex_w(0, reg_code(reg) / 8),
                opcode,
                modrm(1, sub, reg_code(reg) % 8),
                disp as u8,
            ],
        ),
    ensures
        prefixes(b).at == 1,
        b[1] == opcode,
        digit(b, 2) == sub,
        operand(b, 2, prefixes(b).high_base) == Some((Place::Mem(reg, disp as int), 4int)),
{
    let l = seq![
        rex_w(0, reg_code(reg) / 8),
        opcode,
        modrm(1, sub, reg_code(reg) % 8),
        disp as u8,
    ];
    assert(b[0int + 0] == l[0] && b[0int + 1] == l[1] && b[0int + 2] == l[2] && b[0int + 3] == l[3]);
    lemma_rex(b, Reg64::Rax, reg);
    lemma_field(reg);
    lemma_modrm(1, sub, reg_code(reg) % 8);
    lemma_byte(disp);
}

/// A byte operation on `[reg + disp32]`, with a byte behind it.
proof fn lemma_far_byte(b: Seq<u8>, opcode: u8, reg: Reg64, disp: i32, imm: u8)
    requires
        reg_code(reg) % 8 != 4,
        holds(b, 0, mem8_disp32_bytes(opcode, reg, disp, imm)),
    ensures
        prefixes(b).at == 1,
        b[1] == opcode,
        digit(b, 2) == 0,
        operand(b, 2, prefixes(b).high_base) == Some((Place::Mem(reg, disp as int), 7int)),
        b[7] == imm,
{
    let head = seq![rex_w(0, reg_code(reg) / 8), opcode, modrm(2, 0, reg_code(reg) % 8)];
    let l = mem8_disp32_bytes(opcode, reg, disp, imm);
    assert(l =~= head + (le32(disp as u32) + seq![imm]));
    lemma_split(b, 0, head, le32(disp as u32) + seq![imm]);
    lemma_split(b, 3, le32(disp as u32), seq![imm]);
    assert(b[0int + 0] == l[0] && b[0int + 1] == l[1] && b[0int + 2] == l[2]);
    assert(b[7int + 0] == seq![imm][0]);
    lemma_rex(b, Reg64::Rax, reg);
    lemma_field(reg);
    lemma_modrm(2, 0, reg_code(reg) % 8);
    lemma_word(b, 3, disp);
}

/// Bytes that begin with those of an instruction decode to what it is to do.
#[verifier::opaque]
spec fn right(inst: AsmInst, pos: nat, rel: int, b: Seq<u8>) -> bool {
    holds(b, 0, inst_bytes(inst, pos, rel)) ==> decoded(b) == Some(
        (meant(inst, rel), inst_len(inst, pos) as int),
    )
}

/// What the instruction's bytes decode to.
proof fn lemma_mov_imm(pos: nat, rel: int, b: Seq<u8>, reg: Reg64, imm: i64)
    ensures
        right(AsmInst::MovRegImm64(reg, imm), pos, rel, b),
{
    reveal(right);
    reveal(inst_head);
    let l = inst_bytes(AsmInst::MovRegImm64(reg, imm), pos, rel);
    if holds(b, 0, l) {
        let head = seq![rex_w(0, reg_code(reg) / 8), (0xB8 + reg_code(reg) % 8) as u8];
        assert(l =~= head + le64(imm as u64));
        lemma_split(b, 0, head, le64(imm as u64));
        assert(b[0int + 0] == l[0]);
        assert(b[0int + 1] == l[1]);
        lemma_rex(b, Reg64::Rax, reg);
        lemma_field(reg);
        lemma_long(b, 2, imm);
    }
}

/// What the instruction's bytes decode to.
proof fn lemma_mov_reg(pos: nat, rel: int, b: Seq<u8>, dst: Reg64, src: Reg64)
    ensures
        right(AsmInst::MovRegReg(dst, src), pos, rel, b),
{
    reveal(right);
    reveal(inst_head);
    let l = inst_bytes(AsmInst::MovRegReg(dst, src), pos, rel);
    if holds(b, 0, l) {
        assert(l =~= reg_reg_bytes(0x89, dst, src));
        lemma_two_registers(b, 0x89, dst, src);
    }
}

/// What the instruction's bytes decode to.
proof fn lemma_add_reg(pos: nat, rel: int, b: Seq<u8>, dst: Reg64, src: Reg64)
    ensures
        right(AsmInst::AddRegReg(dst, src), pos, rel, b),
{
    reveal(right);
    reveal(inst_head);
    let l = inst_bytes(AsmInst::AddRegReg(dst, src), pos, rel);
    if holds(b, 0, l) {
        assert(l =~= reg_reg_bytes(0x01, dst, src));
        lemma_two_registers(b, 0x01, dst, src);
    }
}

/// What the instruction's bytes decode to.
proof fn lemma_sub_reg(pos: nat, rel: int, b: Seq<u8>, dst: Reg64, src: Reg64)
    ensures
        right(AsmInst::SubRegReg(dst, src), pos, rel, b),
{
    reveal(right);
    reveal(inst_head);
    let l = inst_bytes(AsmInst::SubRegReg(dst, src), pos, rel);
    if holds(b, 0, l) {
        assert(l =~= reg_reg_bytes(0x29, dst, src));
        lemma_two_registers(b, 0x29, dst, src);
    }
}

/// What the instruction's bytes decode to.
proof fn lemma_compare_reg(pos: nat, rel: int, b: Seq<u8>, dst: Reg64, src: Reg64)
    ensures
        right(AsmInst::CmpRegReg(dst, src), pos, rel, b),
{
    reveal(right);
    reveal(inst_head);
    let l = inst_bytes(AsmInst::CmpRegReg(dst, src), pos, rel);
    if holds(b, 0, l) {
        assert(l =~= reg_reg_bytes(0x39, dst, src));
        lemma_two_registers(b, 0x39, dst, src);
    }
}

/// What the instruction's bytes decode to.
proof fn lemma_add_imm(pos: nat, rel: int, b: Seq<u8>, reg: Reg64, imm: i32)
    ensures
        right(AsmInst::AddRegImm32(reg, imm), pos, rel, b),
{
    reveal(right);
    reveal(inst_head);
    let l = inst_bytes(AsmInst::AddRegImm32(reg, imm), pos, rel);
    if holds(b, 0, l) {
        assert(l =~= reg_imm_bytes(0, reg, imm));
        lemma_immediate(b, 0, reg, imm);
    }
}

/// What the instruction's bytes decode to.
proof fn lemma_and_imm(pos: nat, rel: int, b: Seq<u8>, reg: Reg64, imm: i32)
    ensures
        right(AsmInst::AndRegImm32(reg, imm), pos, rel, b),
{
    reveal(right);
    reveal(inst_head);
    let l = inst_bytes(AsmInst::AndRegImm32(reg, imm), pos, rel);
    if holds(b, 0, l) {
        assert(l =~= reg_imm_bytes(4, reg, imm));
        lemma_immediate(b, 4, reg, imm);
    }
}

/// What the instruction's bytes decode to.
proof fn lemma_compare_imm(pos: nat, rel: int, b: Seq<u8>, reg: Reg64, imm: i32)
    ensures
        right(AsmInst::CmpRegImm32(reg, imm), pos, rel, b),
{
    reveal(right);
    reveal(inst_head);
    let l = inst_bytes(AsmInst::CmpRegImm32(reg, imm), pos, rel);
    if holds(b, 0, l) {
        assert(l =~= reg_imm_bytes(7, reg, imm));
        lemma_immediate(b, 7, reg, imm);
    }
}

/// What the instruction's bytes decode to.
proof fn lemma_shr(pos: nat, rel: int, b: Seq<u8>, reg: Reg64, imm: u8)
    ensures
        right(AsmInst::ShrRegImm8(reg, imm), pos, rel, b),
{
    reveal(right);
    reveal(inst_head);
    let l = inst_bytes(AsmInst::ShrRegImm8(reg, imm), pos, rel);
    if holds(b, 0, l) {
        assert(b[0int + 0] == l[0]);
        assert(b[0int + 1] == l[1]);
        assert(b[0int + 2] == l[2]);
        assert(b[0int + 3] == l[3]);
        lemma_rex(b, Reg64::Rax, reg);
        lemma_field(reg);
        lemma_modrm(3, 5, reg_code(reg) % 8);
    }
}

/// What the instruction's bytes decode to.
proof fn lemma_lea(pos: nat, rel: int, b: Seq<u8>, dst: Reg64, base: Reg64, disp: i32)
    ensures
        right(AsmInst::LeaRegMem(dst, base, disp), pos, rel, b),
{
    reveal(right);
    reveal(inst_head);
    let l = inst_bytes(AsmInst::LeaRegMem(dst, base, disp), pos, rel);
    if holds(b, 0, l) {
        assert(l =~= mem_reg_bytes(0x8D, base, disp, dst));
        lemma_register_and_memory(b, 0x8D, base, disp, dst);
    }
}

/// What the instruction's bytes decode to.
proof fn lemma_store(pos: nat, rel: int, b: Seq<u8>, base: Reg64, disp: i32, src: Reg64)
    ensures
        right(AsmInst::MovMemReg64(base, disp, src), pos, rel, b),
{
    reveal(right);
    reveal(inst_head);
    let l = inst_bytes(AsmInst::MovMemReg64(base, disp, src), pos, rel);
    if holds(b, 0, l) {
        assert(l =~= mem_reg_bytes(0x89, base, disp, src));
        lemma_register_and_memory(b, 0x89, base, disp, src);
    }
}

/// What the instruction's bytes decode to.
proof fn lemma_load(pos: nat, rel: int, b: Seq<u8>, dst: Reg64, base: Reg64, disp: i32)
    ensures
        right(AsmInst::MovRegMem64(dst, base, disp), pos, rel, b),
{
    reveal(right);
    reveal(inst_head);
    let l = inst_bytes(AsmInst::MovRegMem64(dst, base, disp), pos, rel);
    if holds(b, 0, l) {
        assert(l =~= mem_reg_bytes(0x8B, base, disp, dst));
        lemma_register_and_memory(b, 0x8B, base, disp, dst);
    }
}

/// What the instruction's bytes decode to.
proof fn lemma_push(pos: nat, rel: int, b: Seq<u8>, reg: Reg64)
    ensures
        right(AsmInst::Push(reg), pos, rel, b),
{
    reveal(right);
    reveal(inst_head);
    let l = inst_bytes(AsmInst::Push(reg), pos, rel);
    if holds(b, 0, l) {
        lemma_field(reg);
        assert(b[0int + 0] == l[0]);
        if reg_code(reg) >= 8 {
            assert(b[0int + 1] == l[1]);
        }
    }
}

/// What the instruction's bytes decode to.
proof fn lemma_pop(pos: nat, rel: int, b: Seq<u8>, reg: Reg64)
    ensures
        right(AsmInst::Pop(reg), pos, rel, b),
{
    reveal(right);
    reveal(inst_head);
    let l = inst_bytes(AsmInst::Pop(reg), pos, rel);
    if holds(b, 0, l) {
        lemma_field(reg);
        assert(b[0int + 0] == l[0]);
        if reg_code(reg) >= 8 {
            assert(b[0int + 1] == l[1]);
        }
    }
}

/// What the instruction's bytes decode to.
proof fn lemma_add_byte(pos: nat, rel: int, b: Seq<u8>, reg: Reg64, imm: i8)
    requires
        reg_code(reg) % 8 != 4,
    ensures
        right(AsmInst::AddMem8Imm8(reg, imm), pos, rel, b),
{
    reveal(right);
    reveal(inst_head);
    let l = inst_bytes(AsmInst::AddMem8Imm8(reg, imm), pos, rel);
    if holds(b, 0, l) {
        let near = mem8_bytes(0x80, 0, reg);
        assert(l =~= near + l.skip(4));
        lemma_split(b, 0, near, l.skip(4));
        lemma_byte(0);
        lemma_tape_byte(b, 0x80, 0, reg, 0);
        assert(b[0int + 4] == l[4]);
        lemma_byte(imm);
    }
}

/// What the instruction's bytes decode to.
proof fn lemma_inc_byte(pos: nat, rel: int, b: Seq<u8>, reg: Reg64)
    requires
        reg_code(reg) % 8 != 4,
    ensures
        right(AsmInst::IncMem8(reg), pos, rel, b),
{
    reveal(right);
    reveal(inst_head);
    let l = inst_bytes(AsmInst::IncMem8(reg), pos, rel);
    if holds(b, 0, l) {
        let near = mem8_bytes(0xFE, 0, reg);
        assert(l =~= near + l.skip(4));
        lemma_split(b, 0, near, l.skip(4));
        lemma_byte(0);
        lemma_tape_byte(b, 0xFE, 0, reg, 0);
    }
}

/// What the instruction's bytes decode to.
proof fn lemma_dec_byte(pos: nat, rel: int, b: Seq<u8>, reg: Reg64)
    requires
        reg_code(reg) % 8 != 4,
    ensures
        right(AsmInst::DecMem8(reg), pos, rel, b),
{
    reveal(right);
    reveal(inst_head);
    let l = inst_bytes(AsmInst::DecMem8(reg), pos, rel);
    if holds(b, 0, l) {
        let near = mem8_bytes(0xFE, 1, reg);
        assert(l =~= near + l.skip(4));
        lemma_split(b, 0, near, l.skip(4));
        lemma_byte(0);
        lemma_tape_byte(b, 0xFE, 1, reg, 0);
    }
}

/// What the instruction's bytes decode to.
proof fn lemma_set_byte(pos: nat, rel: int, b: Seq<u8>, reg: Reg64, imm: u8)
    requires
        reg_code(reg) % 8 != 4,
    ensures
        right(AsmInst::MovMem8Imm8(reg, imm), pos, rel, b),
{
    reveal(right);
    reveal(inst_head);
    let l = inst_bytes(AsmInst::MovMem8Imm8(reg, imm), pos, rel);
    if holds(b, 0, l) {
        let near = mem8_bytes(0xC6, 0, reg);
        assert(l =~= near + l.skip(4));
        lemma_split(b, 0, near, l.skip(4));
        lemma_byte(0);
        lemma_tape_byte(b, 0xC6, 0, reg, 0);
        assert(b[0int + 4] == l[4]);
    }
}

/// What the instruction's bytes decode to.
proof fn lemma_compare_byte(pos: nat, rel: int, b: Seq<u8>, reg: Reg64, imm: u8)
    requires
        reg_code(reg) % 8 != 4,
    ensures
        right(AsmInst::CmpMem8Imm8(reg, imm), pos, rel, b),
{
    reveal(right);
    reveal(inst_head);
    let l = inst_bytes(AsmInst::CmpMem8Imm8(reg, imm), pos, rel);
    if holds(b, 0, l) {
        let near = mem8_bytes(0x80, 7, reg);
        assert(l =~= near + l.skip(4));
        lemma_split(b, 0, near, l.skip(4));
        lemma_byte(0);
        lemma_tape_byte(b, 0x80, 7, reg, 0);
        assert(b[0int + 4] == l[4]);
    }
}

/// What the instruction's bytes decode to.
proof fn lemma_add_near(pos: nat, rel: int, b: Seq<u8>, reg: Reg64, disp: i8, imm: i8)
    requires
        reg_code(reg) % 8 != 4,
    ensures
        right(AsmInst::AddMem8ImmDisp8(reg, disp, imm), pos, rel, b),
{
    reveal(right);
    reveal(inst_head);
    let l = inst_bytes(AsmInst::AddMem8ImmDisp8(reg, disp, imm), pos, rel);
    if holds(b, 0, l) {
        let near = seq![
            rex_w(0, reg_code(reg) / 8),
            0x80u8,
            modrm(1, 0, reg_code(reg) % 8),
            disp as u8,
        ];
        assert(l =~= near + l.skip(4));
        lemma_split(b, 0, near, l.skip(4));
        lemma_tape_byte(b, 0x80u8, 0, reg, disp);
        assert(b[0int + 4] == l[4]);
        lemma_byte(imm);
    }
}

/// What the instruction's bytes decode to.
proof fn lemma_set_near(pos: nat, rel: int, b: Seq<u8>, reg: Reg64, disp: i8, imm: u8)
    requires
        reg_code(reg) % 8 != 4,
    ensures
        right(AsmInst::MovMem8ImmDisp8(reg, disp, imm), pos, rel, b),
{
    reveal(right);
    reveal(inst_head);
    let l = inst_bytes(AsmInst::MovMem8ImmDisp8(reg, disp, imm), pos, rel);
    if holds(b, 0, l) {
        let near = seq![
            rex_w(0, reg_code(reg) / 8),
            0xC6u8,
            modrm(1, 0, reg_code(reg) % 8),
            disp as u8,
        ];
        assert(l =~= near + l.skip(4));
        lemma_split(b, 0, near, l.skip(4));
        lemma_tape_byte(b, 0xC6u8, 0, reg, disp);
        assert(b[0int + 4] == l[4]);
    }
}

/// What the instruction's bytes decode to.
proof fn lemma_add_far(pos: nat, rel: int, b: Seq<u8>, reg: Reg64, disp: i32, imm: i8)
    requires
        reg_code(reg) % 8 != 4,
    ensures
        right(AsmInst::AddMem8ImmDisp32(reg, disp, imm), pos, rel, b),
{
    reveal(right);
    reveal(inst_head);
    let l = inst_bytes(AsmInst::AddMem8ImmDisp32(reg, disp, imm), pos, rel);
    if holds(b, 0, l) {
        assert(l =~= mem8_disp32_bytes(0x80, reg, disp, imm as u8));
        lemma_far_byte(b, 0x80, reg, disp, imm as u8);
        lemma_byte(imm);
    }
}

/// What the instruction's bytes decode to.
proof fn lemma_set_far(pos: nat, rel: int, b: Seq<u8>, reg: Reg64, disp: i32, imm: u8)
    requires
        reg_code(reg) % 8 != 4,
    ensures
        right(AsmInst::MovMem8ImmDisp32(reg, disp, imm), pos, rel, b),
{
    reveal(right);
    reveal(inst_head);
    let l = inst_bytes(AsmInst::MovMem8ImmDisp32(reg, disp, imm), pos, rel);
    if holds(b, 0, l) {
        assert(l =~= mem8_disp32_bytes(0xC6, reg, disp, imm));
        lemma_far_byte(b, 0xC6, reg, disp, imm);
    }
}

/// What the instruction's bytes decode to.
proof fn lemma_jz(pos: nat, rel: int, b: Seq<u8>, to: AsmLabel)
    requires
        label_field(AsmInst::Jz(to)).fits(rel),
    ensures
        right(AsmInst::Jz(to), pos, rel, b),
{
    reveal(right);
    reveal(inst_head);
    let l = inst_bytes(AsmInst::Jz(to), pos, rel);
    if holds(b, 0, l) {
        let head = branch_bytes(AsmInst::Jz(to));
        let tail = le32((rel as i32) as u32);
        assert(l =~= head + tail);
        lemma_split(b, 0, head, tail);
        assert(b[0int + 0] == l[0]);
        assert(b[0int + 1] == l[1]);
        lemma_word(b, 2, rel as i32);
    }
}

/// What the instruction's bytes decode to.
proof fn lemma_jnz(pos: nat, rel: int, b: Seq<u8>, to: AsmLabel)
    requires
        label_field(AsmInst::Jnz(to)).fits(rel),
    ensures
        right(AsmInst::Jnz(to), pos, rel, b),
{
    reveal(right);
    reveal(inst_head);
    let l = inst_bytes(AsmInst::Jnz(to), pos, rel);
    if holds(b, 0, l) {
        let head = branch_bytes(AsmInst::Jnz(to));
        let tail = le32((rel as i32) as u32);
        assert(l =~= head + tail);
        lemma_split(b, 0, head, tail);
        assert(b[0int + 0] == l[0]);
        assert(b[0int + 1] == l[1]);
        lemma_word(b, 2, rel as i32);
    }
}

/// What the instruction's bytes decode to.
proof fn lemma_jb(pos: nat, rel: int, b: Seq<u8>, to: AsmLabel)
    requires
        label_field(AsmInst::Jb(to)).fits(rel),
    ensures
        right(AsmInst::Jb(to), pos, rel, b),
{
    reveal(right);
    reveal(inst_head);
    let l = inst_bytes(AsmInst::Jb(to), pos, rel);
    if holds(b, 0, l) {
        let head = branch_bytes(AsmInst::Jb(to));
        let tail = le32((rel as i32) as u32);
        assert(l =~= head + tail);
        lemma_split(b, 0, head, tail);
        assert(b[0int + 0] == l[0]);
        assert(b[0int + 1] == l[1]);
        lemma_word(b, 2, rel as i32);
    }
}

/// What the instruction's bytes decode to.
proof fn lemma_jae(pos: nat, rel: int, b: Seq<u8>, to: AsmLabel)
    requires
        label_field(AsmInst::Jae(to)).fits(rel),
    ensures
        right(AsmInst::Jae(to), pos, rel, b),
{
    reveal(right);
    reveal(inst_head);
    let l = inst_bytes(AsmInst::Jae(to), pos, rel);
    if holds(b, 0, l) {
        let head = branch_bytes(AsmInst::Jae(to));
        let tail = le32((rel as i32) as u32);
        assert(l =~= head + tail);
        lemma_split(b, 0, head, tail);
        assert(b[0int + 0] == l[0]);
        assert(b[0int + 1] == l[1]);
        lemma_word(b, 2, rel as i32);
    }
}

/// What the instruction's bytes decode to.
proof fn lemma_jl(pos: nat, rel: int, b: Seq<u8>, to: AsmLabel)
    requires
        label_field(AsmInst::Jl(to)).fits(rel),
    ensures
        right(AsmInst::Jl(to), pos, rel, b),
{
    reveal(right);
    reveal(inst_head);
    let l = inst_bytes(AsmInst::Jl(to), pos, rel);
    if holds(b, 0, l) {
        let head = branch_bytes(AsmInst::Jl(to));
        let tail = le32((rel as i32) as u32);
        assert(l =~= head + tail);
        lemma_split(b, 0, head, tail);
        assert(b[0int + 0] == l[0]);
        assert(b[0int + 1] == l[1]);
        lemma_word(b, 2, rel as i32);
    }
}

/// What the instruction's bytes decode to.
proof fn lemma_jge(pos: nat, rel: int, b: Seq<u8>, to: AsmLabel)
    requires
        label_field(AsmInst::Jge(to)).fits(rel),
    ensures
        right(AsmInst::Jge(to), pos, rel, b),
{
    reveal(right);
    reveal(inst_head);
    let l = inst_bytes(AsmInst::Jge(to), pos, rel);
    if holds(b, 0, l) {
        let head = branch_bytes(AsmInst::Jge(to));
        let tail = le32((rel as i32) as u32);
        assert(l =~= head + tail);
        lemma_split(b, 0, head, tail);
        assert(b[0int + 0] == l[0]);
        assert(b[0int + 1] == l[1]);
        lemma_word(b, 2, rel as i32);
    }
}

/// What the instruction's bytes decode to.
proof fn lemma_jmp(pos: nat, rel: int, b: Seq<u8>, to: AsmLabel)
    requires
        label_field(AsmInst::Jmp(to)).fits(rel),
    ensures
        right(AsmInst::Jmp(to), pos, rel, b),
{
    reveal(right);
    reveal(inst_head);
    let l = inst_bytes(AsmInst::Jmp(to), pos, rel);
    if holds(b, 0, l) {
        let head = branch_bytes(AsmInst::Jmp(to));
        let tail = le32((rel as i32) as u32);
        assert(l =~= head + tail);
        lemma_split(b, 0, head, tail);
        assert(b[0int + 0] == l[0]);
        lemma_word(b, 1, rel as i32);
    }
}

/// What the instruction's bytes decode to.
proof fn lemma_call(pos: nat, rel: int, b: Seq<u8>, to: AsmLabel)
    requires
        label_field(AsmInst::Call(to)).fits(rel),
    ensures
        right(AsmInst::Call(to), pos, rel, b),
{
    reveal(right);
    reveal(inst_head);
    let l = inst_bytes(AsmInst::Call(to), pos, rel);
    if holds(b, 0, l) {
        let head = branch_bytes(AsmInst::Call(to));
        let tail = le32((rel as i32) as u32);
        assert(l =~= head + tail);
        lemma_split(b, 0, head, tail);
        assert(b[0int + 0] == l[0]);
        lemma_word(b, 1, rel as i32);
    }
}

/// What the instruction's bytes decode to.
proof fn lemma_jz_short(pos: nat, rel: int, b: Seq<u8>, to: AsmLabel)
    requires
        label_field(AsmInst::JzShort(to)).fits(rel),
    ensures
        right(AsmInst::JzShort(to), pos, rel, b),
{
    reveal(right);
    reveal(inst_head);
    let l = inst_bytes(AsmInst::JzShort(to), pos, rel);
    if holds(b, 0, l) {
        assert(b[0int + 0] == l[0]);
        assert(b[0int + 1] == l[1]);
        lemma_byte(rel as i8);
    }
}

/// What the instruction's bytes decode to.
proof fn lemma_jnz_short(pos: nat, rel: int, b: Seq<u8>, to: AsmLabel)
    requires
        label_field(AsmInst::JnzShort(to)).fits(rel),
    ensures
        right(AsmInst::JnzShort(to), pos, rel, b),
{
    reveal(right);
    reveal(inst_head);
    let l = inst_bytes(AsmInst::JnzShort(to), pos, rel);
    if holds(b, 0, l) {
        assert(b[0int + 0] == l[0]);
        assert(b[0int + 1] == l[1]);
        lemma_byte(rel as i8);
    }
}

/// What the instruction's bytes decode to.
proof fn lemma_jb_short(pos: nat, rel: int, b: Seq<u8>, to: AsmLabel)
    requires
        label_field(AsmInst::JbShort(to)).fits(rel),
    ensures
        right(AsmInst::JbShort(to), pos, rel, b),
{
    reveal(right);
    reveal(inst_head);
    let l = inst_bytes(AsmInst::JbShort(to), pos, rel);
    if holds(b, 0, l) {
        assert(b[0int + 0] == l[0]);
        assert(b[0int + 1] == l[1]);
        lemma_byte(rel as i8);
    }
}

/// What the instruction's bytes decode to.
proof fn lemma_jae_short(pos: nat, rel: int, b: Seq<u8>, to: AsmLabel)
    requires
        label_field(AsmInst::JaeShort(to)).fits(rel),
    ensures
        right(AsmInst::JaeShort(to), pos, rel, b),
{
    reveal(right);
    reveal(inst_head);
    let l = inst_bytes(AsmInst::JaeShort(to), pos, rel);
    if holds(b, 0, l) {
        assert(b[0int + 0] == l[0]);
        assert(b[0int + 1] == l[1]);
        lemma_byte(rel as i8);
    }
}

/// What the instruction's bytes decode to.
proof fn lemma_jl_short(pos: nat, rel: int, b: Seq<u8>, to: AsmLabel)
    requires
        label_field(AsmInst::JlShort(to)).fits(rel),
    ensures
        right(AsmInst::JlShort(to), pos, rel, b),
{
    reveal(right);
    reveal(inst_head);
    let l = inst_bytes(AsmInst::JlShort(to), pos, rel);
    if holds(b, 0, l) {
        assert(b[0int + 0] == l[0]);
        assert(b[0int + 1] == l[1]);
        lemma_byte(rel as i8);
    }
}

/// What the instruction's bytes decode to.
proof fn lemma_jge_short(pos: nat, rel: int, b: Seq<u8>, to: AsmLabel)
    requires
        label_field(AsmInst::JgeShort(to)).fits(rel),
    ensures
        right(AsmInst::JgeShort(to), pos, rel, b),
{
    reveal(right);
    reveal(inst_head);
    let l = inst_bytes(AsmInst::JgeShort(to), pos, rel);
    if holds(b, 0, l) {
        assert(b[0int + 0] == l[0]);
        assert(b[0int + 1] == l[1]);
        lemma_byte(rel as i8);
    }
}

/// What the instruction's bytes decode to.
proof fn lemma_jmp_short(pos: nat, rel: int, b: Seq<u8>, to: AsmLabel)
    requires
        label_field(AsmInst::JmpShort(to)).fits(rel),
    ensures
        right(AsmInst::JmpShort(to), pos, rel, b),
{
    reveal(right);
    reveal(inst_head);
    let l = inst_bytes(AsmInst::JmpShort(to), pos, rel);
    if holds(b, 0, l) {
        assert(b[0int + 0] == l[0]);
        assert(b[0int + 1] == l[1]);
        lemma_byte(rel as i8);
    }
}

/// What the instruction's bytes decode to.
proof fn lemma_call_place(pos: nat, rel: int, b: Seq<u8>, to: AsmLabel)
    requires
        label_field(AsmInst::CallMemLabel(to)).fits(rel),
    ensures
        right(AsmInst::CallMemLabel(to), pos, rel, b),
{
    reveal(right);
    reveal(inst_head);
    let l = inst_bytes(AsmInst::CallMemLabel(to), pos, rel);
    if holds(b, 0, l) {
        let head = branch_bytes(AsmInst::CallMemLabel(to));
        let tail = le32((rel as i32) as u32);
        assert(l =~= head + tail);
        lemma_split(b, 0, head, tail);
        assert(b[0int + 0] == l[0]);
        assert(b[0int + 1] == l[1]);
        assert(b[0int + 2] == l[2]);
        lemma_modrm(0, 2, 5);
        lemma_word(b, 3, rel as i32);
    }
}

/// What the instruction's bytes decode to.
proof fn lemma_lea_label(pos: nat, rel: int, b: Seq<u8>, dst: Reg64, to: AsmLabel)
    requires
        label_field(AsmInst::LeaRegLabel(dst, to)).fits(rel),
    ensures
        right(AsmInst::LeaRegLabel(dst, to), pos, rel, b),
{
    reveal(right);
    reveal(inst_head);
    let l = inst_bytes(AsmInst::LeaRegLabel(dst, to), pos, rel);
    if holds(b, 0, l) {
        let head = branch_bytes(AsmInst::LeaRegLabel(dst, to));
        let tail = le32((rel as i32) as u32);
        assert(l =~= head + tail);
        lemma_split(b, 0, head, tail);
        assert(b[0int + 0] == l[0]);
        assert(b[0int + 1] == l[1]);
        assert(b[0int + 2] == l[2]);
        lemma_rex(b, dst, Reg64::Rax);
        lemma_field(dst);
        lemma_modrm(0, reg_code(dst) % 8, 5);
        lemma_word(b, 3, rel as i32);
    }
}

/// What the instruction's bytes decode to.
proof fn lemma_ret(pos: nat, rel: int, b: Seq<u8>)
    ensures
        right(AsmInst::Ret, pos, rel, b),
{
    reveal(right);
    reveal(inst_head);
    let l = inst_bytes(AsmInst::Ret, pos, rel);
    if holds(b, 0, l) {
        assert(b[0int + 0] == l[0]);
    }
}

/// What the instruction's bytes decode to.
proof fn lemma_cld(pos: nat, rel: int, b: Seq<u8>)
    ensures
        right(AsmInst::Cld, pos, rel, b),
{
    reveal(right);
    reveal(inst_head);
    let l = inst_bytes(AsmInst::Cld, pos, rel);
    if holds(b, 0, l) {
        assert(b[0int + 0] == l[0]);
    }
}

/// What the instruction's bytes decode to.
proof fn lemma_std(pos: nat, rel: int, b: Seq<u8>)
    ensures
        right(AsmInst::Std, pos, rel, b),
{
    reveal(right);
    reveal(inst_head);
    let l = inst_bytes(AsmInst::Std, pos, rel);
    if holds(b, 0, l) {
        assert(b[0int + 0] == l[0]);
    }
}

/// What the instruction's bytes decode to.
proof fn lemma_rep_movsb(pos: nat, rel: int, b: Seq<u8>)
    ensures
        right(AsmInst::RepMovsb, pos, rel, b),
{
    reveal(right);
    reveal(inst_head);
    let l = inst_bytes(AsmInst::RepMovsb, pos, rel);
    if holds(b, 0, l) {
        assert(b[0int + 0] == l[0]);
        assert(b[0int + 1] == l[1]);
    }
}

/// What the instruction's bytes decode to.
proof fn lemma_repne_scasb(pos: nat, rel: int, b: Seq<u8>)
    ensures
        right(AsmInst::RepneScasb, pos, rel, b),
{
    reveal(right);
    reveal(inst_head);
    let l = inst_bytes(AsmInst::RepneScasb, pos, rel);
    if holds(b, 0, l) {
        assert(b[0int + 0] == l[0]);
        assert(b[0int + 1] == l[1]);
    }
}

/// What the instruction's bytes decode to.
proof fn lemma_rep_stosb(pos: nat, rel: int, b: Seq<u8>)
    ensures
        right(AsmInst::RepStosb, pos, rel, b),
{
    reveal(right);
    reveal(inst_head);
    let l = inst_bytes(AsmInst::RepStosb, pos, rel);
    if holds(b, 0, l) {
        assert(b[0int + 0] == l[0]);
        assert(b[0int + 1] == l[1]);
    }
}

/// What the instruction's bytes decode to.
proof fn lemma_xor_eax_eax(pos: nat, rel: int, b: Seq<u8>)
    ensures
        right(AsmInst::XorEaxEax, pos, rel, b),
{
    reveal(right);
    reveal(inst_head);
    let l = inst_bytes(AsmInst::XorEaxEax, pos, rel);
    if holds(b, 0, l) {
        assert(b[0int + 0] == l[0]);
        assert(b[0int + 1] == l[1]);
    }
}

/// What the instruction's bytes decode to.
proof fn lemma_syscall(pos: nat, rel: int, b: Seq<u8>)
    ensures
        right(AsmInst::Syscall, pos, rel, b),
{
    reveal(right);
    reveal(inst_head);
    let l = inst_bytes(AsmInst::Syscall, pos, rel);
    if holds(b, 0, l) {
        assert(b[0int + 0] == l[0]);
        assert(b[0int + 1] == l[1]);
    }
}

/// What the instruction's bytes decode to.
proof fn lemma_movzx_ebx_from_mem_r13(pos: nat, rel: int, b: Seq<u8>)
    ensures
        right(AsmInst::MovzxEbxFromMemR13, pos, rel, b),
{
    reveal(right);
    reveal(inst_head);
    let l = inst_bytes(AsmInst::MovzxEbxFromMemR13, pos, rel);
    if holds(b, 0, l) {
        assert(b[0int + 0] == l[0]);
        assert(b[0int + 1] == l[1]);
        assert(b[0int + 2] == l[2]);
        assert(b[0int + 3] == l[3]);
        assert(b[0int + 4] == l[4]);
    }
}

/// What the instruction's bytes decode to.
proof fn lemma_mov_eax_ebx(pos: nat, rel: int, b: Seq<u8>)
    ensures
        right(AsmInst::MovEaxEbx, pos, rel, b),
{
    reveal(right);
    reveal(inst_head);
    let l = inst_bytes(AsmInst::MovEaxEbx, pos, rel);
    if holds(b, 0, l) {
        assert(b[0int + 0] == l[0]);
        assert(b[0int + 1] == l[1]);
    }
}

/// What the instruction's bytes decode to.
proof fn lemma_add_mem_r13_al(pos: nat, rel: int, b: Seq<u8>)
    ensures
        right(AsmInst::AddMemR13Al, pos, rel, b),
{
    reveal(right);
    reveal(inst_head);
    let l = inst_bytes(AsmInst::AddMemR13Al, pos, rel);
    if holds(b, 0, l) {
        assert(b[0int + 0] == l[0]);
        assert(b[0int + 1] == l[1]);
        assert(b[0int + 2] == l[2]);
        assert(b[0int + 3] == l[3]);
    }
}

/// What the instruction's bytes decode to.
proof fn lemma_add_mem_r13_bl(pos: nat, rel: int, b: Seq<u8>)
    ensures
        right(AsmInst::AddMemR13Bl, pos, rel, b),
{
    reveal(right);
    reveal(inst_head);
    let l = inst_bytes(AsmInst::AddMemR13Bl, pos, rel);
    if holds(b, 0, l) {
        assert(b[0int + 0] == l[0]);
        assert(b[0int + 1] == l[1]);
        assert(b[0int + 2] == l[2]);
        assert(b[0int + 3] == l[3]);
    }
}

/// What the instruction's bytes decode to.
proof fn lemma_sub_mem_r13_bl(pos: nat, rel: int, b: Seq<u8>)
    ensures
        right(AsmInst::SubMemR13Bl, pos, rel, b),
{
    reveal(right);
    reveal(inst_head);
    let l = inst_bytes(AsmInst::SubMemR13Bl, pos, rel);
    if holds(b, 0, l) {
        assert(b[0int + 0] == l[0]);
        assert(b[0int + 1] == l[1]);
        assert(b[0int + 2] == l[2]);
        assert(b[0int + 3] == l[3]);
    }
}

/// What the instruction's bytes decode to.
proof fn lemma_mov_al_mem_r13(pos: nat, rel: int, b: Seq<u8>)
    ensures
        right(AsmInst::MovAlMemR13, pos, rel, b),
{
    reveal(right);
    reveal(inst_head);
    let l = inst_bytes(AsmInst::MovAlMemR13, pos, rel);
    if holds(b, 0, l) {
        assert(b[0int + 0] == l[0]);
        assert(b[0int + 1] == l[1]);
        assert(b[0int + 2] == l[2]);
        assert(b[0int + 3] == l[3]);
    }
}

/// What the instruction's bytes decode to.
proof fn lemma_mov_mem_rbx_al(pos: nat, rel: int, b: Seq<u8>)
    ensures
        right(AsmInst::MovMemRbxAl, pos, rel, b),
{
    reveal(right);
    reveal(inst_head);
    let l = inst_bytes(AsmInst::MovMemRbxAl, pos, rel);
    if holds(b, 0, l) {
        assert(b[0int + 0] == l[0]);
        assert(b[0int + 1] == l[1]);
    }
}

/// What the instruction's bytes decode to.
proof fn lemma_add_mem_r13_bl_disp8(pos: nat, rel: int, b: Seq<u8>, disp: i8)
    ensures
        right(AsmInst::AddMemR13BlDisp8(disp), pos, rel, b),
{
    reveal(right);
    reveal(inst_head);
    let l = inst_bytes(AsmInst::AddMemR13BlDisp8(disp), pos, rel);
    if holds(b, 0, l) {
        assert(b[0int + 0] == l[0]);
        assert(b[0int + 1] == l[1]);
        assert(b[0int + 2] == l[2]);
        assert(b[0int + 3] == l[3]);
        lemma_byte(disp);
    }
}

/// What the instruction's bytes decode to.
proof fn lemma_sub_mem_r13_bl_disp8(pos: nat, rel: int, b: Seq<u8>, disp: i8)
    ensures
        right(AsmInst::SubMemR13BlDisp8(disp), pos, rel, b),
{
    reveal(right);
    reveal(inst_head);
    let l = inst_bytes(AsmInst::SubMemR13BlDisp8(disp), pos, rel);
    if holds(b, 0, l) {
        assert(b[0int + 0] == l[0]);
        assert(b[0int + 1] == l[1]);
        assert(b[0int + 2] == l[2]);
        assert(b[0int + 3] == l[3]);
        lemma_byte(disp);
    }
}

/// What the instruction's bytes decode to.
proof fn lemma_add_mem_r13_al_disp8(pos: nat, rel: int, b: Seq<u8>, disp: i8)
    ensures
        right(AsmInst::AddMemR13AlDisp8(disp), pos, rel, b),
{
    reveal(right);
    reveal(inst_head);
    let l = inst_bytes(AsmInst::AddMemR13AlDisp8(disp), pos, rel);
    if holds(b, 0, l) {
        assert(b[0int + 0] == l[0]);
        assert(b[0int + 1] == l[1]);
        assert(b[0int + 2] == l[2]);
        assert(b[0int + 3] == l[3]);
        lemma_byte(disp);
    }
}

/// What the instruction's bytes decode to.
proof fn lemma_mov_ecx(pos: nat, rel: int, b: Seq<u8>, imm: i32)
    ensures
        right(AsmInst::MovEcxImm32(imm), pos, rel, b),
{
    reveal(right);
    reveal(inst_head);
    let l = inst_bytes(AsmInst::MovEcxImm32(imm), pos, rel);
    if holds(b, 0, l) {
        let head = seq![0xB9u8];
        assert(l =~= head + le32(imm as u32));
        lemma_split(b, 0, head, le32(imm as u32));
        assert(b[0int + 0] == l[0]);
        lemma_word(b, 1, imm);
    }
}

/// What the instruction's bytes decode to.
proof fn lemma_imul(pos: nat, rel: int, b: Seq<u8>, imm: i32)
    ensures
        right(AsmInst::ImulEaxEbxImm32(imm), pos, rel, b),
{
    reveal(right);
    reveal(inst_head);
    let l = inst_bytes(AsmInst::ImulEaxEbxImm32(imm), pos, rel);
    if holds(b, 0, l) {
        let head = seq![0x69u8, 0xC3];
        assert(l =~= head + le32(imm as u32));
        lemma_split(b, 0, head, le32(imm as u32));
        assert(b[0int + 0] == l[0]);
        assert(b[0int + 1] == l[1]);
        lemma_word(b, 2, imm);
    }
}

/// Every instruction's bytes decode to what it is to do.
proof fn lemma_right(inst: AsmInst, pos: nat, rel: int, b: Seq<u8>)
    requires
        !is_pseudo(inst),
        operands_encodable(inst),
        label_field(inst).fits(rel),
    ensures
        right(inst, pos, rel, b),
{
    match inst {
        AsmInst::MovRegImm64(reg, imm) => {
            lemma_mov_imm(pos, rel, b, reg, imm);
        },
        AsmInst::MovRegReg(dst, src) => {
            lemma_mov_reg(pos, rel, b, dst, src);
        },
        AsmInst::AddRegReg(dst, src) => {
            lemma_add_reg(pos, rel, b, dst, src);
        },
        AsmInst::SubRegReg(dst, src) => {
            lemma_sub_reg(pos, rel, b, dst, src);
        },
        AsmInst::CmpRegReg(dst, src) => {
            lemma_compare_reg(pos, rel, b, dst, src);
        },
        AsmInst::AddRegImm32(reg, imm) => {
            lemma_add_imm(pos, rel, b, reg, imm);
        },
        AsmInst::AndRegImm32(reg, imm) => {
            lemma_and_imm(pos, rel, b, reg, imm);
        },
        AsmInst::CmpRegImm32(reg, imm) => {
            lemma_compare_imm(pos, rel, b, reg, imm);
        },
        AsmInst::ShrRegImm8(reg, imm) => {
            lemma_shr(pos, rel, b, reg, imm);
        },
        AsmInst::LeaRegMem(dst, base, disp) => {
            lemma_lea(pos, rel, b, dst, base, disp);
        },
        AsmInst::MovMemReg64(base, disp, src) => {
            lemma_store(pos, rel, b, base, disp, src);
        },
        AsmInst::MovRegMem64(dst, base, disp) => {
            lemma_load(pos, rel, b, dst, base, disp);
        },
        AsmInst::Push(reg) => {
            lemma_push(pos, rel, b, reg);
        },
        AsmInst::Pop(reg) => {
            lemma_pop(pos, rel, b, reg);
        },
        AsmInst::AddMem8Imm8(reg, imm) => {
            lemma_add_byte(pos, rel, b, reg, imm);
        },
        AsmInst::IncMem8(reg) => {
            lemma_inc_byte(pos, rel, b, reg);
        },
        AsmInst::DecMem8(reg) => {
            lemma_dec_byte(pos, rel, b, reg);
        },
        AsmInst::MovMem8Imm8(reg, imm) => {
            lemma_set_byte(pos, rel, b, reg, imm);
        },
        AsmInst::CmpMem8Imm8(reg, imm) => {
            lemma_compare_byte(pos, rel, b, reg, imm);
        },
        AsmInst::AddMem8ImmDisp8(reg, disp, imm) => {
            lemma_add_near(pos, rel, b, reg, disp, imm);
        },
        AsmInst::MovMem8ImmDisp8(reg, disp, imm) => {
            lemma_set_near(pos, rel, b, reg, disp, imm);
        },
        AsmInst::AddMem8ImmDisp32(reg, disp, imm) => {
            lemma_add_far(pos, rel, b, reg, disp, imm);
        },
        AsmInst::MovMem8ImmDisp32(reg, disp, imm) => {
            lemma_set_far(pos, rel, b, reg, disp, imm);
        },
        AsmInst::Jz(to) => {
            lemma_jz(pos, rel, b, to);
        },
        AsmInst::Jnz(to) => {
            lemma_jnz(pos, rel, b, to);
        },
        AsmInst::Jb(to) => {
            lemma_jb(pos, rel, b, to);
        },
        AsmInst::Jae(to) => {
            lemma_jae(pos, rel, b, to);
        },
        AsmInst::Jl(to) => {
            lemma_jl(pos, rel, b, to);
        },
        AsmInst::Jge(to) => {
            lemma_jge(pos, rel, b, to);
        },
        AsmInst::Jmp(to) => {
            lemma_jmp(pos, rel, b, to);
        },
        AsmInst::Call(to) => {
            lemma_call(pos, rel, b, to);
        },
        AsmInst::JzShort(to) => {
            lemma_jz_short(pos, rel, b, to);
        },
        AsmInst::JnzShort(to) => {
            lemma_jnz_short(pos, rel, b, to);
        },
        AsmInst::JbShort(to) => {
            lemma_jb_short(pos, rel, b, to);
        },
        AsmInst::JaeShort(to) => {
            lemma_jae_short(pos, rel, b, to);
        },
        AsmInst::JlShort(to) => {
            lemma_jl_short(pos, rel, b, to);
        },
        AsmInst::JgeShort(to) => {
            lemma_jge_short(pos, rel, b, to);
        },
        AsmInst::JmpShort(to) => {
            lemma_jmp_short(pos, rel, b, to);
        },
        AsmInst::CallMemLabel(to) => {
            lemma_call_place(pos, rel, b, to);
        },
        AsmInst::LeaRegLabel(dst, to) => {
            lemma_lea_label(pos, rel, b, dst, to);
        },
        AsmInst::Ret => {
            lemma_ret(pos, rel, b);
        },
        AsmInst::Cld => {
            lemma_cld(pos, rel, b);
        },
        AsmInst::Std => {
            lemma_std(pos, rel, b);
        },
        AsmInst::RepMovsb => {
            lemma_rep_movsb(pos, rel, b);
        },
        AsmInst::RepneScasb => {
            lemma_repne_scasb(pos, rel, b);
        },
        AsmInst::RepStosb => {
            lemma_rep_stosb(pos, rel, b);
        },
        AsmInst::XorEaxEax => {
            lemma_xor_eax_eax(pos, rel, b);
        },
        AsmInst::Syscall => {
            lemma_syscall(pos, rel, b);
        },
        AsmInst::MovzxEbxFromMemR13 => {
            lemma_movzx_ebx_from_mem_r13(pos, rel, b);
        },
        AsmInst::MovEaxEbx => {
            lemma_mov_eax_ebx(pos, rel, b);
        },
        AsmInst::AddMemR13Al => {
            lemma_add_mem_r13_al(pos, rel, b);
        },
        AsmInst::AddMemR13Bl => {
            lemma_add_mem_r13_bl(pos, rel, b);
        },
        AsmInst::SubMemR13Bl => {
            lemma_sub_mem_r13_bl(pos, rel, b);
        },
        AsmInst::MovAlMemR13 => {
            lemma_mov_al_mem_r13(pos, rel, b);
        },
        AsmInst::MovMemRbxAl => {
            lemma_mov_mem_rbx_al(pos, rel, b);
        },
        AsmInst::AddMemR13BlDisp8(disp) => {
            lemma_add_mem_r13_bl_disp8(pos, rel, b, disp);
        },
        AsmInst::SubMemR13BlDisp8(disp) => {
            lemma_sub_mem_r13_bl_disp8(pos, rel, b, disp);
        },
        AsmInst::AddMemR13AlDisp8(disp) => {
            lemma_add_mem_r13_al_disp8(pos, rel, b, disp);
        },
        AsmInst::MovEcxImm32(imm) => {
            lemma_mov_ecx(pos, rel, b, imm);
        },
        AsmInst::ImulEaxEbxImm32(imm) => {
            lemma_imul(pos, rel, b, imm);
        },
        AsmInst::Label(_) | AsmInst::Align16 | AsmInst::RawBytes(_) => {},
    }
}

/// What is encoded is decoded: bytes that begin with those of an instruction, its label
/// `rel` bytes away, decode to what the instruction is to do, and to as many bytes.
pub proof fn law_decoding_undoes_encoding(inst: AsmInst, pos: nat, rel: int, b: Seq<u8>)
    requires
        !is_pseudo(inst),
        operands_encodable(inst),
        label_field(inst).fits(rel),
        inst_bytes(inst, pos, rel).len() <= b.len(),
        b.take(inst_bytes(inst, pos, rel).len() as int) == inst_bytes(inst, pos, rel),
    ensures
        decoded(b) == Some((meant(inst, rel), inst_len(inst, pos) as int)),
{
    let l = inst_bytes(inst, pos, rel);
    assert forall|k: int| 0 <= k < l.len() implies #[trigger] b[0int + k] == l[k] by {
        assert(b.take(l.len() as int)[k] == l[k]);
    }
    lemma_right(inst, pos, rel, b);
    reveal(right);
}

/// Where the machine code of a program holds an instruction, the instruction is decoded,
/// with the distance to its label.
pub proof fn law_machine_code_decodes_to_the_program(insts: Seq<AsmInst>, text: Seq<u8>, i: int)
    requires
        encodable(insts),
        encodes(insts, text),
        0 <= i < insts.len(),
        !is_pseudo(insts[i]),
    ensures
        decoded(text.skip(offset_of(insts, i) as int)) == Some(
            (
                meant(insts[i], displacement(insts, i)),
                offset_of(insts, i + 1) - offset_of(insts, i),
            ),
        ),
{
    let from = offset_of(insts, i) as int;
    let to = offset_of(insts, i + 1) as int;
    lemma_offsets_rise(insts, i + 1, insts.len() as int);
    assert(encoded_at(insts, text, i));
    let rel = displacement(insts, i);
    if label_field(insts[i]) is Absent {
        assert(label_field(insts[i]).fits(rel));
    }
    let l = inst_bytes(insts[i], offset_of(insts, i), rel);
    assert(l.len() == to - from);
    let b = text.skip(from);
    assert(b.take(l.len() as int) =~= text.subrange(from, to));
    law_decoding_undoes_encoding(insts[i], offset_of(insts, i), rel, b);
}

/// Offsets rise.
proof fn lemma_offsets_rise(insts: Seq<AsmInst>, i: int, j: int)
    requires
        i <= j,
    ensures
        offset_of(insts, i) <= offset_of(insts, j),
    decreases j - i,
{
    if i < j {
        lemma_offsets_rise(insts, i, j - 1);
    }
}

} // verus!
