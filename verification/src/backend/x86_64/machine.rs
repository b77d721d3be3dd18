//! What machine instructions do: registers, flags, bytes of memory, and the calls into
//! the operating system that a program makes.

use vstd::prelude::*;

use crate::backend::asm_ir::{AsmInst, AsmLabel, Reg64};
use crate::backend::x86_64::decode::{is_pseudo, meant, Alu, Ins, Operand, Place, Shift, When};
use crate::backend::x86_64::encode::{label_field, labels_unique};
use crate::backend::x86_64::windows::Kernel32Import;

verus! {

/// Two to the power of 64.
pub open spec fn word() -> int {
    0x1_0000_0000_0000_0000
}

/// How many values an operand of a size has.
pub open spec fn span(size: int) -> int {
    if size == 1 {
        256
    } else if size == 4 {
        0x1_0000_0000
    } else {
        word()
    }
}

/// An unsigned value as a signed one.
pub open spec fn signed(v: int, size: int) -> int {
    if v < span(size) / 2 {
        v
    } else {
        v - span(size)
    }
}

/// Registers, flags and memory.
#[verifier::ext_equal]
pub struct Cpu {
    /// The values of the registers.
    pub regs: Map<Reg64, int>,
    /// The bytes of memory.
    pub mem: Map<int, int>,
    /// The zero flag.
    pub zero: bool,
    /// The carry flag.
    pub below: bool,
    /// Whether sign and overflow flag differ.
    pub less: bool,
    /// Whether string operations go down.
    pub down: bool,
}

/// The eight bytes at an address, least significant first.
#[verifier::opaque]
pub open spec fn load64(mem: Map<int, int>, a: int) -> int {
    mem[a] + 0x100 * mem[a + 1] + 0x1_0000 * mem[a + 2] + 0x100_0000 * mem[a + 3] + 0x1_0000_0000
        * mem[a + 4] + 0x100_0000_0000 * mem[a + 5] + 0x1_0000_0000_0000 * mem[a + 6]
        + 0x100_0000_0000_0000 * mem[a + 7]
}

/// Memory after a value has been stored in eight bytes.
#[verifier::opaque]
pub open spec fn store64(mem: Map<int, int>, a: int, v: int) -> Map<int, int> {
    mem.insert(a, v % 0x100).insert(a + 1, (v / 0x100) % 0x100).insert(
        a + 2,
        (v / 0x1_0000) % 0x100,
    ).insert(a + 3, (v / 0x100_0000) % 0x100).insert(a + 4, (v / 0x1_0000_0000) % 0x100).insert(
        a + 5,
        (v / 0x100_0000_0000) % 0x100,
    ).insert(a + 6, (v / 0x1_0000_0000_0000) % 0x100).insert(
        a + 7,
        (v / 0x100_0000_0000_0000) % 0x100,
    )
}

impl Cpu {
    /// The address of a memory operand.
    pub open spec fn at(self, base: Reg64, disp: int) -> int {
        (self.regs[base] + disp) % word()
    }

    /// What a place holds.
    pub open spec fn held(self, place: Place, size: int) -> int {
        match place {
            Place::Reg(r) => if size == 8 {
                self.regs[r]
            } else {
                self.regs[r] % span(size)
            },
            Place::Mem(base, disp) => if size == 8 {
                load64(self.mem, self.at(base, disp))
            } else {
                self.mem[self.at(base, disp)]
            },
            Place::Rip(_) => 0,
        }
    }

    /// The value of an operand.
    pub open spec fn given(self, operand: Operand, size: int) -> int {
        match operand {
            Operand::Reg(r) => self.held(Place::Reg(r), size),
            Operand::Imm(v) => v % span(size),
        }
    }

    /// With a register set.
    pub open spec fn with(self, r: Reg64, v: int) -> Cpu {
        Cpu { regs: self.regs.insert(r, v), ..self }
    }

    /// With a value put into a place. Four bytes clear the upper half of a register,
    /// one byte leaves the rest of it.
    pub open spec fn put(self, place: Place, size: int, v: int) -> Cpu {
        match place {
            Place::Reg(r) => if size == 1 {
                self.with(r, self.regs[r] - self.regs[r] % 256 + v)
            } else {
                self.with(r, v)
            },
            Place::Mem(base, disp) => if size == 8 {
                Cpu { mem: store64(self.mem, self.at(base, disp), v), ..self }
            } else {
                Cpu { mem: self.mem.insert(self.at(base, disp), v), ..self }
            },
            Place::Rip(_) => self,
        }
    }

    /// With the flags of a result.
    pub open spec fn flagged(self, zero: bool, below: bool, less: bool) -> Cpu {
        Cpu { zero, below, less, ..self }
    }

    /// With a value pushed.
    pub open spec fn pushed(self, v: int) -> Cpu {
        let sp = (self.regs[Reg64::Rsp] - 8) % word();
        Cpu {
            regs: self.regs.insert(Reg64::Rsp, sp),
            mem: store64(self.mem, sp, v),
            ..self
        }
    }

    /// The value on top of the stack.
    pub open spec fn top(self) -> int {
        load64(self.mem, self.regs[Reg64::Rsp])
    }

    /// With the top of the stack dropped.
    pub open spec fn popped(self) -> Cpu {
        self.with(Reg64::Rsp, (self.regs[Reg64::Rsp] + 8) % word())
    }
}

/// Memory after `n` bytes have been copied one by one.
pub open spec fn copied(mem: Map<int, int>, from: int, to: int, n: nat, d: int) -> Map<int, int>
    decreases n,
{
    if n == 0 {
        mem
    } else {
        copied(mem.insert(to, mem[from]), from + d, to + d, (n - 1) as nat, d)
    }
}

/// Memory after `n` bytes have been set one by one.
pub open spec fn filled(mem: Map<int, int>, to: int, v: int, n: nat, d: int) -> Map<int, int>
    decreases n,
{
    if n == 0 {
        mem
    } else {
        filled(mem.insert(to, v), to + d, v, (n - 1) as nat, d)
    }
}

/// Where a search of at most `n` bytes for a value ends, how many bytes are left, and
/// whether it was found.
pub open spec fn searched(mem: Map<int, int>, at: int, v: int, n: nat, d: int) -> (int, nat, bool)
    decreases n,
{
    if n == 0 {
        (at, 0, false)
    } else if mem[at] == v {
        (at + d, (n - 1) as nat, true)
    } else {
        searched(mem, at + d, v, (n - 1) as nat, d)
    }
}

/// The result of an operation on two values of a size, before it is cut to the size.
pub open spec fn combined(op: Alu, a: int, b: int, carry: bool) -> int {
    let c = if carry {
        1int
    } else {
        0int
    };
    match op {
        Alu::Add => a + b,
        Alu::Adc => a + b + c,
        Alu::Sbb => a - b - c,
        Alu::Sub => a - b,
        Alu::Cmp => a - b,
        Alu::Or => (a as u64 | b as u64) as int,
        Alu::And => (a as u64 & b as u64) as int,
        Alu::Xor => (a as u64 ^ b as u64) as int,
    }
}

/// What an instruction that only computes does.
pub open spec fn effect(ins: Ins, cpu: Cpu) -> Cpu {
    match ins {
        Ins::Alu(op, size, place, operand) => {
            let a = cpu.held(place, size);
            let b = cpu.given(operand, size);
            let all = combined(op, a, b, cpu.below);
            let r = all % span(size);
            let less = match op {
                Alu::Add | Alu::Adc => signed(a, size) + signed(b, size) + all - a - b < 0,
                Alu::Sub | Alu::Cmp | Alu::Sbb => signed(a, size) - signed(b, size) + all - a + b
                    < 0,
                _ => signed(r, size) < 0,
            };
            let next = cpu.flagged(r == 0, r != all, less);
            if op is Cmp {
                next
            } else {
                next.put(place, size, r)
            }
        },
        Ins::Store(size, place, operand) => cpu.put(place, size, cpu.given(operand, size)),
        Ins::Load(size, r, place) => cpu.put(Place::Reg(r), size, cpu.held(place, size)),
        Ins::LoadByte(r, place) => cpu.with(r, cpu.held(place, 1)),
        Ins::Address(r, place) => match place {
            Place::Mem(base, disp) => cpu.with(r, cpu.at(base, disp)),
            _ => cpu,
        },
        Ins::Shift(shift, size, place, n) => {
            let a = cpu.held(place, size);
            let r = match shift {
                Shift::Left => (a * vstd::arithmetic::power2::pow2(n as nat)) % span(size),
                Shift::Right => a / (vstd::arithmetic::power2::pow2(n as nat) as int),
                Shift::Signed => (signed(a, size) / (vstd::arithmetic::power2::pow2(n as nat)
                    as int)) % span(size),
            };
            cpu.flagged(r == 0, cpu.below, cpu.less).put(place, size, r)
        },
        Ins::Inc(size, place) => {
            let a = cpu.held(place, size);
            let r = (a + 1) % span(size);
            cpu.flagged(r == 0, cpu.below, signed(a, size) + 1 < 0).put(place, size, r)
        },
        Ins::Dec(size, place) => {
            let a = cpu.held(place, size);
            let r = (a - 1) % span(size);
            cpu.flagged(r == 0, cpu.below, signed(a, size) - 1 < 0).put(place, size, r)
        },
        Ins::Multiply(size, r, place, n) => cpu.put(
            Place::Reg(r),
            size,
            (cpu.held(place, size) * n) % span(size),
        ),
        Ins::Push(r) => cpu.pushed(cpu.regs[r]),
        Ins::Pop(r) => cpu.popped().with(r, cpu.top()),
        Ins::Up => Cpu { down: false, ..cpu },
        Ins::Down => Cpu { down: true, ..cpu },
        Ins::CopyBytes => {
            let n = cpu.regs[Reg64::Rcx];
            let d = if cpu.down {
                -1int
            } else {
                1int
            };
            let from = cpu.regs[Reg64::Rsi];
            let to = cpu.regs[Reg64::Rdi];
            let moved = cpu.with(Reg64::Rcx, 0).with(Reg64::Rsi, (from + d * n) % word()).with(
                Reg64::Rdi,
                (to + d * n) % word(),
            );
            Cpu { mem: copied(cpu.mem, from, to, n as nat, d), ..moved }
        },
        Ins::FillBytes => {
            let n = cpu.regs[Reg64::Rcx];
            let d = if cpu.down {
                -1int
            } else {
                1int
            };
            let to = cpu.regs[Reg64::Rdi];
            let moved = cpu.with(Reg64::Rcx, 0).with(Reg64::Rdi, (to + d * n) % word());
            Cpu { mem: filled(cpu.mem, to, cpu.regs[Reg64::Rax] % 256, n as nat, d), ..moved }
        },
        Ins::FindByte => {
            let n = cpu.regs[Reg64::Rcx];
            let d = if cpu.down {
                -1int
            } else {
                1int
            };
            let (at, left, hit) = searched(
                cpu.mem,
                cpu.regs[Reg64::Rdi],
                cpu.regs[Reg64::Rax] % 256,
                n as nat,
                d,
            );
            let moved = cpu.with(Reg64::Rcx, left as int).with(Reg64::Rdi, at % word());
            if n == 0 {
                cpu
            } else {
                Cpu { zero: hit, ..moved }
            }
        },
        _ => cpu,
    }
}

/// Whether a condition holds.
pub open spec fn holds_now(when: When, cpu: Cpu) -> bool {
    match when {
        When::Below => cpu.below,
        When::NotBelow => !cpu.below,
        When::Zero => cpu.zero,
        When::NotZero => !cpu.zero,
        When::Less => cpu.less,
        When::NotLess => !cpu.less,
    }
}

/// What lies outside a program.
pub struct World {
    /// What each read of one byte gives; nothing at the end of the input.
    pub input: spec_fn(nat) -> Option<int>,
    /// Where a mapping of a size goes when others are there, if it is granted.
    pub grant: spec_fn(Set<(int, int)>, int) -> Option<int>,
    /// What is left in a register that a call does not keep.
    pub junk: spec_fn(nat, Reg64) -> int,
    /// What is left in memory that a call may use.
    pub scratch: spec_fn(nat, int) -> int,
    /// The handles of the standard streams, by number.
    pub handle: spec_fn(int) -> int,
    /// The error with which a read at the end of the input fails, where it fails.
    pub end_error: Option<int>,
    /// The imported functions, by the labels of their address slots.
    pub imports: spec_fn(AsmLabel) -> Option<Kernel32Import>,
}

/// A running program.
#[verifier::ext_equal]
pub struct Run {
    /// The number of the next instruction; code addresses are such numbers.
    pub pc: int,
    /// Registers, flags and memory.
    pub cpu: Cpu,
    /// The bytes written to standard output.
    pub out: Seq<int>,
    /// How many bytes have been read from standard input.
    pub reads: nat,
    /// The mappings that exist.
    pub live: Set<(int, int)>,
    /// Whether a mapping has been refused.
    pub refused: bool,
    /// How many calls into the system have been made.
    pub calls: nat,
    /// The status, once the program has left.
    pub over: Option<int>,
}

/// The bytes from an address on.
pub open spec fn bytes_at(mem: Map<int, int>, a: int, n: int) -> Seq<int> {
    Seq::new(
        if n < 0 {
            0
        } else {
            n as nat
        },
        |i: int| mem[a + i],
    )
}

/// Memory with a range cleared.
pub open spec fn cleared(mem: Map<int, int>, a: int, n: int) -> Map<int, int> {
    Map::new(
        |x: int| true,
        |x: int|
            if a <= x < a + n {
                0
            } else {
                mem[x]
            },
    )
}

/// A run behind a Linux system call, with its result.
pub open spec fn returned(w: World, r: Run, cpu: Cpu, v: int) -> Run {
    Run {
        pc: r.pc + 1,
        cpu: cpu.with(Reg64::Rcx, (w.junk)(r.calls, Reg64::Rcx) % word()).with(
            Reg64::R11,
            (w.junk)(r.calls, Reg64::R11) % word(),
        ).with(Reg64::Rax, v),
        calls: r.calls + 1,
        ..r
    }
}

/// A Linux system call: number in RAX, arguments in RDI, RSI, RDX, R10, R8 and R9; RCX and
/// R11 are lost. 0 reads, 1 writes, 9 maps memory, 11 unmaps it and 60 leaves.
pub open spec fn linux_call(w: World, r: Run) -> Run {
    let c = r.cpu;
    let n = c.regs[Reg64::Rax];
    let a = c.regs[Reg64::Rdi];
    let b = c.regs[Reg64::Rsi];
    let d = c.regs[Reg64::Rdx];
    let fault = word() - 1;
    if n == 0 && a == 0 && d == 1 {
        match (w.input)(r.reads) {
            Some(v) => Run {
                reads: r.reads + 1,
                ..returned(w, r, Cpu { mem: c.mem.insert(b, v % 256), ..c }, 1)
            },
            None => Run { reads: r.reads + 1, ..returned(w, r, c, 0) },
        }
    } else if n == 1 && a == 1 {
        Run { out: r.out + bytes_at(c.mem, b, d), ..returned(w, r, c, d) }
    } else if n == 9 && a == 0 && d == 3 && c.regs[Reg64::R10] == 0x22 && c.regs[Reg64::R8] == word()
        - 1 && c.regs[Reg64::R9] == 0 {
        match (w.grant)(r.live, b) {
            Some(g) => Run {
                live: r.live.insert((g, g + b)),
                ..returned(w, r, Cpu { mem: cleared(c.mem, g, b), ..c }, g)
            },
            None => Run { refused: true, ..returned(w, r, c, fault) },
        }
    } else if n == 11 {
        Run { live: r.live.remove((a, a + b)), ..returned(w, r, c, 0) }
    } else if n == 60 {
        Run { over: Some(a), ..r }
    } else {
        returned(w, r, c, fault)
    }
}

/// Registers that a Windows function does not keep.
pub open spec fn is_volatile(r: Reg64) -> bool {
    r is Rax || r is Rcx || r is Rdx || r is R8 || r is R9 || r is R10 || r is R11
}

/// A run behind the call of a Windows function, with its result: volatile registers are
/// lost, and so are the 32 bytes that the caller leaves to the function.
pub open spec fn answered(w: World, r: Run, mem: Map<int, int>, v: int) -> Run {
    let sp = r.cpu.regs[Reg64::Rsp];
    let regs = Map::new(
        |x: Reg64| true,
        |x: Reg64|
            if x is Rax {
                v
            } else if is_volatile(x) {
                (w.junk)(r.calls, x) % word()
            } else {
                r.cpu.regs[x]
            },
    );
    let after = Map::new(
        |a: int| true,
        |a: int|
            if sp <= a < sp + 32 {
                (w.scratch)(r.calls, a) % 256
            } else {
                mem[a]
            },
    );
    Run { pc: r.pc + 1, cpu: Cpu { regs, mem: after, ..r.cpu }, calls: r.calls + 1, ..r }
}

/// Memory after four bytes have been stored that hold a small number.
pub open spec fn counted(mem: Map<int, int>, a: int, n: int) -> Map<int, int> {
    mem.insert(a, n % 256).insert(a + 1, (n / 256) % 256).insert(a + 2, (n / 65536) % 256).insert(
        a + 3,
        (n / 16777216) % 256,
    )
}

/// The call of a Windows function: arguments in RCX, RDX, R8 and R9, and a fifth one on
/// the stack. Files are read and written at once where that is zero.
pub open spec fn windows_call(w: World, r: Run, kind: Kernel32Import) -> Run {
    let c = r.cpu;
    let a = c.regs[Reg64::Rcx];
    let b = c.regs[Reg64::Rdx];
    let n = c.regs[Reg64::R8];
    let slot = c.regs[Reg64::R9];
    let fifth = load64(c.mem, c.regs[Reg64::Rsp] + 32);
    match kind {
        Kernel32Import::ExitProcess => Run { over: Some(a), ..r },
        Kernel32Import::GetLastError => answered(
            w,
            r,
            c.mem,
            match w.end_error {
                Some(e) => e % word(),
                None => 0,
            },
        ),
        Kernel32Import::GetStdHandle => answered(w, r, c.mem, (w.handle)(signed(a, 8))),
        Kernel32Import::ReadFile => if a == (w.handle)(-10) && n == 1 && fifth == 0 {
            match (w.input)(r.reads) {
                Some(v) => Run {
                    reads: r.reads + 1,
                    ..answered(w, r, counted(c.mem.insert(b, v % 256), slot, 1), 1)
                },
                None => Run {
                    reads: r.reads + 1,
                    ..answered(
                        w,
                        r,
                        counted(c.mem, slot, 0),
                        if w.end_error is Some {
                            0
                        } else {
                            1
                        },
                    )
                },
            }
        } else {
            answered(w, r, c.mem, 0)
        },
        Kernel32Import::WriteFile => if a == (w.handle)(-11) && fifth == 0 {
            Run {
                out: r.out + bytes_at(c.mem, b, n),
                ..answered(w, r, counted(c.mem, slot, n), 1)
            }
        } else {
            answered(w, r, c.mem, 0)
        },
        Kernel32Import::VirtualAlloc => if a == 0 && n == 0x3000 && slot == 4 {
            match (w.grant)(r.live, b) {
                Some(g) => Run {
                    live: r.live.insert((g, g + b)),
                    ..answered(w, r, cleared(c.mem, g, b), g)
                },
                None => Run { refused: true, ..answered(w, r, c.mem, 0) },
            }
        } else {
            answered(w, r, c.mem, 0)
        },
        Kernel32Import::VirtualFree => if b == 0 && n == 0x8000 {
            Run {
                live: Set::new(|m: (int, int)| r.live.contains(m) && m.0 != a),
                ..answered(w, r, c.mem, 1)
            }
        } else {
            answered(w, r, c.mem, 0)
        },
    }
}

/// Where a label stands.
pub open spec fn spot(code: Seq<AsmInst>, l: AsmLabel) -> int {
    choose|j: int| 0 <= j < code.len() && #[trigger] code[j] == AsmInst::Label(l)
}

/// One step of a running program.
#[verifier::opaque]
pub open spec fn step(code: Seq<AsmInst>, w: World, r: Run) -> Run {
    if r.over is Some || r.pc < 0 || r.pc >= code.len() || code[r.pc] is RawBytes {
        r
    } else {
        let inst = code[r.pc];
        let to = spot(code, label_field(inst).label());
        if is_pseudo(inst) {
            Run { pc: r.pc + 1, ..r }
        } else {
            match meant(inst, 0) {
                Ins::JumpIf(when, _) => Run {
                    pc: if holds_now(when, r.cpu) {
                        to
                    } else {
                        r.pc + 1
                    },
                    ..r
                },
                Ins::Jump(_) => Run { pc: to, ..r },
                Ins::Call(_) => Run { pc: to, cpu: r.cpu.pushed(r.pc + 1), ..r },
                Ins::CallPlace(_) => match (w.imports)(label_field(inst).label()) {
                    Some(kind) => windows_call(w, r, kind),
                    None => r,
                },
                Ins::Ret => Run { pc: r.cpu.top(), cpu: r.cpu.popped(), ..r },
                Ins::Syscall => linux_call(w, r),
                ins => Run { pc: r.pc + 1, cpu: effect(ins, r.cpu), ..r },
            }
        }
    }
}

/// Where a running program is after `n` steps.
pub open spec fn ran(code: Seq<AsmInst>, w: World, r: Run, n: nat) -> Run
    decreases n,
{
    if n == 0 {
        r
    } else {
        ran(code, w, step(code, w, r), (n - 1) as nat)
    }
}

/// A running program comes to a state.
pub open spec fn reaches(code: Seq<AsmInst>, w: World, a: Run, b: Run) -> bool {
    exists|n: nat| #[trigger] ran(code, w, a, n) == b
}

proof fn lemma_ran_add(code: Seq<AsmInst>, w: World, r: Run, a: nat, b: nat)
    ensures
        ran(code, w, r, a + b) == ran(code, w, ran(code, w, r, a), b),
    decreases a,
{
    if a > 0 {
        lemma_ran_add(code, w, step(code, w, r), (a - 1) as nat, b);
        assert((a + b - 1) as nat == (a - 1) as nat + b);
    }
}

/// A state is reached from itself.
pub proof fn lemma_here(code: Seq<AsmInst>, w: World, r: Run)
    ensures
        reaches(code, w, r, r),
{
    assert(ran(code, w, r, 0) == r);
}

/// One step and what is reached behind it.
pub proof fn lemma_then(code: Seq<AsmInst>, w: World, a: Run, b: Run, c: Run)
    requires
        reaches(code, w, a, b),
        reaches(code, w, b, c),
    ensures
        reaches(code, w, a, c),
{
    let n = choose|n: nat| #[trigger] ran(code, w, a, n) == b;
    let m = choose|m: nat| #[trigger] ran(code, w, b, m) == c;
    lemma_ran_add(code, w, a, n, m);
}

proof fn lemma_step(code: Seq<AsmInst>, w: World, r: Run)
    ensures
        reaches(code, w, r, step(code, w, r)),
{
    reveal_with_fuel(ran, 2);
    assert(ran(code, w, r, 1) == step(code, w, r));
}

/// An instruction that only computes.
pub open spec fn is_plain(inst: AsmInst) -> bool {
    !is_pseudo(inst) && match meant(inst, 0) {
        Ins::JumpIf(_, _) => false,
        Ins::Jump(_) => false,
        Ins::Call(_) => false,
        Ins::CallPlace(_) => false,
        Ins::Ret => false,
        Ins::Syscall => false,
        _ => true,
    }
}

/// The run behind an instruction that only computes.
#[verifier::opaque]
pub open spec fn after(r: Run, inst: AsmInst) -> Run {
    Run { pc: r.pc + 1, cpu: effect(meant(inst, 0), r.cpu), ..r }
}

/// An instruction that only computes is done.
pub proof fn lemma_plain(code: Seq<AsmInst>, w: World, r: Run, inst: AsmInst)
    requires
        0 <= r.pc < code.len(),
        code[r.pc] == inst,
        is_plain(inst),
        r.over is None,
    ensures
        reaches(code, w, r, after(r, inst)),
{
    reveal(step);
    reveal(after);
    lemma_step(code, w, r);
}

/// A label or a gap is passed.
pub proof fn lemma_pass(code: Seq<AsmInst>, w: World, r: Run)
    requires
        0 <= r.pc < code.len(),
        code[r.pc] is Label || code[r.pc] is Align16,
        r.over is None,
    ensures
        reaches(code, w, r, (Run { pc: r.pc + 1, ..r })),
{
    reveal(step);
    lemma_step(code, w, r);
}

/// A label stands in one place.
pub proof fn lemma_spot(code: Seq<AsmInst>, l: AsmLabel, j: int)
    requires
        labels_unique(code),
        0 <= j < code.len(),
        code[j] == AsmInst::Label(l),
    ensures
        spot(code, l) == j,
{
    let k = spot(code, l);
    assert(0 <= k < code.len() && code[k] == AsmInst::Label(l));
    if k < j {
        assert(code[k] is Label && code[j] is Label);
    } else if j < k {
        assert(code[j] is Label && code[k] is Label);
    }
}

/// Whether a jump is taken.
pub open spec fn taken(ins: Ins, cpu: Cpu) -> bool {
    match ins {
        Ins::JumpIf(c, _) => holds_now(c, cpu),
        _ => true,
    }
}

/// A jump is taken where its condition holds.
pub proof fn lemma_jump(code: Seq<AsmInst>, w: World, r: Run, j: int)
    requires
        labels_unique(code),
        0 <= r.pc < code.len(),
        !is_pseudo(code[r.pc]),
        meant(code[r.pc], 0) is JumpIf || meant(code[r.pc], 0) is Jump,
        0 <= j < code.len(),
        code[j] == AsmInst::Label(label_field(code[r.pc]).label()),
        r.over is None,
    ensures
        reaches(
            code,
            w,
            r,
            (Run {
                pc: if taken(meant(code[r.pc], 0), r.cpu) {
                    j
                } else {
                    r.pc + 1
                },
                ..r
            }),
        ),
{
    reveal(step);
    lemma_spot(code, label_field(code[r.pc]).label(), j);
    lemma_step(code, w, r);
}

/// A call goes to its label, with the way back on the stack.
pub proof fn lemma_call(code: Seq<AsmInst>, w: World, r: Run, l: AsmLabel, j: int)
    requires
        labels_unique(code),
        0 <= r.pc < code.len(),
        code[r.pc] == AsmInst::Call(l),
        0 <= j < code.len(),
        code[j] == AsmInst::Label(l),
        r.over is None,
    ensures
        reaches(code, w, r, (Run { pc: j, cpu: r.cpu.pushed(r.pc + 1), ..r })),
{
    reveal(step);
    lemma_spot(code, l, j);
    lemma_step(code, w, r);
}

/// A return takes the way back.
pub proof fn lemma_return(code: Seq<AsmInst>, w: World, r: Run)
    requires
        0 <= r.pc < code.len(),
        code[r.pc] is Ret,
        r.over is None,
    ensures
        reaches(code, w, r, (Run { pc: r.cpu.top(), cpu: r.cpu.popped(), ..r })),
{
    reveal(step);
    lemma_step(code, w, r);
}

/// A system call is made.
pub proof fn lemma_syscall(code: Seq<AsmInst>, w: World, r: Run)
    requires
        0 <= r.pc < code.len(),
        code[r.pc] is Syscall,
        r.over is None,
    ensures
        reaches(code, w, r, linux_call(w, r)),
{
    reveal(step);
    lemma_step(code, w, r);
}

/// An imported function is called.
pub proof fn lemma_import(code: Seq<AsmInst>, w: World, r: Run, l: AsmLabel, kind: Kernel32Import)
    requires
        0 <= r.pc < code.len(),
        code[r.pc] == AsmInst::CallMemLabel(l),
        (w.imports)(l) == Some(kind),
        r.over is None,
    ensures
        reaches(code, w, r, windows_call(w, r, kind)),
{
    reveal(step);
    lemma_step(code, w, r);
}

/// What has been stored in eight bytes is loaded, and the rest of memory stays.
pub proof fn lemma_stored(mem: Map<int, int>, a: int, v: int)
    requires
        0 <= v < word(),
    ensures
        load64(store64(mem, a, v), a) == v,
        forall|x: int| x < a || a + 8 <= x ==> #[trigger] store64(mem, a, v)[x] == mem[x],
        forall|x: int| a <= x < a + 8 ==> 0 <= #[trigger] store64(mem, a, v)[x] < 256,
{
    reveal(load64);
    reveal(store64);
    lemma_eight(v);
}

proof fn lemma_eight(v: int)
    requires
        0 <= v < word(),
    ensures
        v == v % 0x100 + 0x100 * ((v / 0x100) % 0x100) + 0x1_0000 * ((v / 0x1_0000) % 0x100)
            + 0x100_0000 * ((v / 0x100_0000) % 0x100) + 0x1_0000_0000 * ((v / 0x1_0000_0000)
            % 0x100) + 0x100_0000_0000 * ((v / 0x100_0000_0000) % 0x100) + 0x1_0000_0000_0000 * ((v
            / 0x1_0000_0000_0000) % 0x100) + 0x100_0000_0000_0000 * ((v / 0x100_0000_0000_0000)
            % 0x100),
{
    let q1 = v / 0x100;
    let q2 = v / 0x1_0000;
    let q3 = v / 0x100_0000;
    let q4 = v / 0x1_0000_0000;
    let q5 = v / 0x100_0000_0000;
    let q6 = v / 0x1_0000_0000_0000;
    let q7 = v / 0x100_0000_0000_0000;
    assert(q2 == q1 / 0x100);
    assert(q3 == q2 / 0x100);
    assert(q4 == q3 / 0x100);
    assert(q5 == q4 / 0x100);
    assert(q6 == q5 / 0x100);
    assert(q7 == q6 / 0x100);
    assert(q7 < 0x100);
}

/// Loading does not depend on other memory.
pub proof fn lemma_same_load(m1: Map<int, int>, m2: Map<int, int>, a: int)
    requires
        forall|x: int| a <= x < a + 8 ==> #[trigger] m1[x] == m2[x],
    ensures
        load64(m1, a) == load64(m2, a),
{
    reveal(load64);
}

} // verus!
