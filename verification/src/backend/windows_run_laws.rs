//! Running a whole Windows program.

use vstd::prelude::*;

use crate::backend::asm_ir::{AsmInst, AsmLabel, Reg64};
use crate::backend::codegen_common::{internal, lir_body, PlatformEmitter};
use crate::backend::codegen_laws::binds;
use crate::backend::grow_laws::{honest, lemma_imm, lemma_mov};
use crate::backend::io_laws::{feeds, flushes, lemma_flush, tracks};
use crate::backend::linux_run_laws::{ended, fresh, lemma_blank};
use crate::backend::program_laws::{
    law_running_the_code_runs_the_program, may_get, modest, obtains, stands_well, takes,
    Program,
};
use crate::backend::run_laws::{
    apart, bytewise, ceiling, floor, grows, lemma_add_imm, lemma_compare_imm, lemma_parts, sits,
    starved, Site,
};
use crate::backend::windows_grow_laws::{
    lemma_save, lemma_windows_exit, lemma_windows_grows, linked, GrowImports,
};
use crate::backend::windows_io_laws::{ends_plainly, lemma_windows_flushes, lemma_windows_get_byte};
use crate::backend::x86_64::encode::labels_unique;
use crate::backend::x86_64::machine::{
    after, lemma_import, lemma_jump, lemma_pass, lemma_plain, lemma_same_load, lemma_then,
    load64, reaches, windows_call, word, Run, World,
};
use crate::backend::x86_64::windows::{
    body_next, ensure_tape_insts, entry_insts, epilogue_insts, exit_process_insts,
    flush_output_insts, full_imports, full_table_next, iat_label_of, import_table_insts,
    init_output_insts, init_tape_insts, setup_insts, std_handle_insts, windows_body,
    windows_emitter, windows_insts, windows_ok, windows_routines, zero_slot_insts,
    Kernel32Import, LABEL_BASE, STD_INPUT_HANDLE, STD_OUTPUT_HANDLE,
};
use crate::backend::x86_64::windows_laws::windows_labels_ok;
use crate::interp::machine::{blank, Source, St};
use crate::ir::lir::{lirs_view, LirInst, LirProgram};
use crate::ir::lir_meaning::lir_run;

verus! {

/// What a Windows function leaves as it was.
pub open spec fn is_stable(q: Reg64) -> bool {
    q is Rbx || q is Rbp || q is Rsi || q is Rdi || q is Rsp || q is R12 || q is R13 || q is R14
}

/// A handle that is one.
pub open spec fn is_handle(h: int) -> bool {
    0 <= h < word() - 1
}

/// The set-up asks for a standard handle and keeps it in a register.
proof fn lemma_std_handle(
    code: Seq<AsmInst>,
    w: World,
    r: Run,
    get: AsmLabel,
    which: i64,
    dst: Reg64,
    exit: AsmLabel,
    je: int,
) -> (b: Run)
    requires
        labels_unique(code),
        sits(code, r.pc, std_handle_insts(get, which, dst, exit)),
        0 <= je < code.len(),
        code[je] == AsmInst::Label(exit),
        (w.imports)(get) == Some(Kernel32Import::GetStdHandle),
        is_handle((w.handle)(which as int)),
        which == -10 || which == -11,
        r.over is None,
        bytewise(r.cpu.mem),
    ensures
        reaches(code, w, r, b),
        b.pc == r.pc + 5,
        b.cpu.regs[dst] == (w.handle)(which as int),
        forall|q: Reg64|
            is_stable(q) && q != dst ==> #[trigger] b.cpu.regs[q] == r.cpu.regs[q],
        forall|y: int|
            y < r.cpu.regs[Reg64::Rsp] || r.cpu.regs[Reg64::Rsp] + 32 <= y
                ==> #[trigger] b.cpu.mem[y] == r.cpu.mem[y],
        bytewise(b.cpu.mem),
        b.cpu.down == r.cpu.down,
        b == (Run { pc: b.pc, cpu: b.cpu, calls: b.calls, ..r }),
{
    let piece = std_handle_insts(get, which, dst, exit);
    let p = r.pc;
    assert(code[p + 0] == piece[0] && code[p + 1] == piece[1] && code[p + 2] == piece[2]);
    assert(code[p + 3] == piece[3] && code[p + 4] == piece[4]);
    let r1 = lemma_imm(code, w, r, Reg64::Rcx, which);
    assert(which as int % word() == which + word());
    lemma_import(code, w, r1, get, Kernel32Import::GetStdHandle);
    let r2 = windows_call(w, r1, Kernel32Import::GetStdHandle);
    lemma_then(code, w, r, r1, r2);
    let h = (w.handle)(which as int);
    assert(r2.cpu.regs[Reg64::Rax] == h);
    lemma_compare_imm(r2, Reg64::Rax, (-1) as i32);
    assert((-1int) % word() == word() - 1);
    let r3 = after(r2, piece[2]);
    lemma_plain(code, w, r2, piece[2]);
    lemma_then(code, w, r, r2, r3);
    lemma_jump(code, w, r3, je);
    let r4 = Run { pc: p + 4, ..r3 };
    lemma_then(code, w, r, r3, r4);
    let b = lemma_mov(code, w, r4, dst, Reg64::Rax);
    lemma_then(code, w, r, r4, b);
    assert(bytewise(b.cpu.mem)) by {
        assert forall|y: int| 0 <= #[trigger] b.cpu.mem[y] < 256 by {
            assert(0 <= r.cpu.mem[y] < 256);
        }
    }
    b
}

/// The instructions that map memory of 4096 bytes or leave.
spec fn page_insts(alloc: AsmLabel, exit: AsmLabel) -> Seq<AsmInst> {
    seq![
        AsmInst::MovRegImm64(Reg64::Rcx, 0),
        AsmInst::MovRegImm64(Reg64::Rdx, 4096),
        AsmInst::MovRegImm64(Reg64::R8, 0x3000),
        AsmInst::MovRegImm64(Reg64::R9, 0x04),
        AsmInst::CallMemLabel(alloc),
        AsmInst::CmpRegImm32(Reg64::Rax, 0),
        AsmInst::Jz(exit),
    ]
}

/// Memory is mapped, or the program leaves.
proof fn lemma_page(
    code: Seq<AsmInst>,
    w: World,
    r: Run,
    i: GrowImports,
    exit: AsmLabel,
    je: int,
) -> (b: Run)
    requires
        labels_unique(code),
        sits(code, r.pc, page_insts(i.alloc, exit)),
        0 <= je < code.len(),
        code[je] == AsmInst::Label(exit),
        sits(code, je + 1, exit_process_insts(i.leave, 1)),
        linked(w, i),
        honest(w),
        r.over is None,
        !r.refused,
        bytewise(r.cpu.mem),
    ensures
        reaches(code, w, r, b),
        (w.grant)(r.live, 4096) is None ==> starved(b),
        (w.grant)(r.live, 4096) matches Some(g) ==> {
            &&& b.pc == r.pc + 7
            &&& b.cpu.regs[Reg64::Rax] == g
            &&& b.live == r.live.insert((g, g + 4096))
            &&& forall|q: Reg64| is_stable(q) ==> #[trigger] b.cpu.regs[q] == r.cpu.regs[q]
            &&& forall|y: int|
                y < r.cpu.regs[Reg64::Rsp] || r.cpu.regs[Reg64::Rsp] + 32 <= y
                    ==> #[trigger] b.cpu.mem[y] == (if g <= y < g + 4096 {
                    0
                } else {
                    r.cpu.mem[y]
                })
            &&& bytewise(b.cpu.mem)
            &&& b.cpu.down == r.cpu.down
            &&& b.out == r.out
            &&& b.reads == r.reads
            &&& b.over is None
            &&& !b.refused
        },
{
    let piece = page_insts(i.alloc, exit);
    let p = r.pc;
    assert(code[p + 0] == piece[0] && code[p + 1] == piece[1] && code[p + 2] == piece[2]);
    assert(code[p + 3] == piece[3] && code[p + 4] == piece[4] && code[p + 5] == piece[5]);
    assert(code[p + 6] == piece[6]);
    let r1 = lemma_imm(code, w, r, Reg64::Rcx, 0);
    let r2 = lemma_imm(code, w, r1, Reg64::Rdx, 4096);
    lemma_then(code, w, r, r1, r2);
    let r3 = lemma_imm(code, w, r2, Reg64::R8, 0x3000);
    lemma_then(code, w, r, r2, r3);
    let r4 = lemma_imm(code, w, r3, Reg64::R9, 4);
    lemma_then(code, w, r, r3, r4);
    assert(r4.cpu.regs[Reg64::Rcx] == 0 && r4.cpu.regs[Reg64::Rdx] == 4096);
    assert(r4.cpu.regs[Reg64::R8] == 0x3000 && r4.cpu.regs[Reg64::R9] == 4);
    lemma_import(code, w, r4, i.alloc, Kernel32Import::VirtualAlloc);
    let r5 = windows_call(w, r4, Kernel32Import::VirtualAlloc);
    lemma_then(code, w, r, r4, r5);
    lemma_compare_imm(r5, Reg64::Rax, 0);
    let r6 = after(r5, piece[5]);
    lemma_plain(code, w, r5, piece[5]);
    lemma_then(code, w, r, r5, r6);
    lemma_jump(code, w, r6, je);
    match (w.grant)(r.live, 4096) {
        Some(g) => {
            let b = Run { pc: p + 7, ..r6 };
            lemma_then(code, w, r, r6, b);
            assert(bytewise(b.cpu.mem)) by {
                assert forall|y: int| 0 <= #[trigger] b.cpu.mem[y] < 256 by {
                    assert(0 <= r.cpu.mem[y] < 256);
                }
            }
            b
        },
        None => {
            let c = Run { pc: je, ..r6 };
            lemma_then(code, w, r, r6, c);
            let d = Run { pc: je + 1, ..c };
            lemma_pass(code, w, c);
            lemma_then(code, w, r, c, d);
            let b = lemma_windows_exit(code, w, d, i.leave, 1);
            lemma_then(code, w, r, d, b);
            b
        },
    }
}

/// The stack pointer is aligned.
proof fn lemma_align(r: Run)
    requires
        16 <= r.cpu.regs[Reg64::Rsp] < ceiling(),
    ensures
        ({
            let b = after(r, AsmInst::AndRegImm32(Reg64::Rsp, (-16) as i32));
            let sp = b.cpu.regs[Reg64::Rsp];
            &&& r.cpu.regs[Reg64::Rsp] - 16 < sp <= r.cpu.regs[Reg64::Rsp]
            &&& b.cpu.regs == r.cpu.regs.insert(Reg64::Rsp, sp)
            &&& b.cpu.mem == r.cpu.mem
            &&& b.cpu.down == r.cpu.down
            &&& b == (Run { pc: r.pc + 1, cpu: b.cpu, ..r })
        }),
{
    reveal(after);
    let a = r.cpu.regs[Reg64::Rsp] as u64;
    assert((-16int) % word() == word() - 16);
    assert((word() - 16) as u64 == 0xFFFF_FFFF_FFFF_FFF0u64);
    let c = a & 0xFFFF_FFFF_FFFF_FFF0u64;
    assert(c <= a && a - c < 16) by (bit_vector)
        requires
            c == a & 0xFFFF_FFFF_FFFF_FFF0u64,
    ;
    assert(c as int % word() == c);
}

/// The front of the set-up: the stack is made ready and both handles are fetched.
#[verifier::rlimit(30)]
proof fn lemma_front(
    code: Seq<AsmInst>,
    w: World,
    r: Run,
    sp0: int,
    zone: (int, int),
    je: int,
) -> (b: Run)
    requires
        labels_unique(code),
        sits(code, 0, setup_insts()),
        0 <= je < code.len(),
        code[je] == AsmInst::Label(windows_routines().exit_one),
        fresh(r, sp0, zone),
        (w.imports)(iat_label_of(full_table_next(), 2)) == Some(Kernel32Import::GetStdHandle),
        is_handle((w.handle)(-10)),
        is_handle((w.handle)(-11)),
    ensures
        reaches(code, w, r, b),
        b.pc == 15,
        b.cpu.regs[Reg64::Rdi] == (w.handle)(-11),
        b.cpu.regs[Reg64::Rsi] == (w.handle)(-10),
        ({
            let sp = b.cpu.regs[Reg64::Rsp];
            &&& sp0 - 64 < sp <= sp0 - 48
            &&& load64(b.cpu.mem, sp + 32) == 0
        }),
        bytewise(b.cpu.mem),
        b.cpu.down == r.cpu.down,
        b == (Run { pc: b.pc, cpu: b.cpu, calls: b.calls, ..r }),
{
    let t = full_table_next();
    let exit = windows_routines().exit_one;
    let a0 = entry_insts(internal(LABEL_BASE as int, 0));
    let a1 = zero_slot_insts(32);
    let a2 = std_handle_insts(iat_label_of(t, 2), STD_INPUT_HANDLE, Reg64::Rsi, exit);
    let a3 = std_handle_insts(iat_label_of(t, 2), STD_OUTPUT_HANDLE, Reg64::Rdi, exit);
    let rest = init_tape_insts(iat_label_of(t, 5), exit) + init_output_insts(
        iat_label_of(t, 5),
        exit,
    );
    let t3 = a3 + rest;
    let t2 = a2 + t3;
    let t1 = a1 + t2;
    assert(setup_insts() =~= a0 + t1);
    lemma_parts(code, 0, a0, t1);
    lemma_parts(code, 3, a1, t2);
    lemma_parts(code, 5, a2, t3);
    lemma_parts(code, 10, a3, rest);
    assert(code[0int + 0] == a0[0] && code[0int + 1] == a0[1] && code[0int + 2] == a0[2]);
    assert(code[3int + 0] == a1[0] && code[3int + 1] == a1[1]);
    let r1 = Run { pc: 1, ..r };
    lemma_pass(code, w, r);
    lemma_align(r1);
    let r2 = after(r1, a0[1]);
    lemma_plain(code, w, r1, a0[1]);
    lemma_then(code, w, r, r1, r2);
    lemma_add_imm(r2, Reg64::Rsp, (-48) as i32);
    let r3 = after(r2, a0[2]);
    lemma_plain(code, w, r2, a0[2]);
    lemma_then(code, w, r, r2, r3);
    let sp = r3.cpu.regs[Reg64::Rsp];
    assert(sp0 - 64 < sp <= sp0 - 48);
    let r4 = lemma_imm(code, w, r3, Reg64::Rax, 0);
    lemma_then(code, w, r, r3, r4);
    let r5 = lemma_save(code, w, r4, 32, Reg64::Rax);
    lemma_then(code, w, r, r4, r5);
    let r6 = lemma_std_handle(code, w, r5, iat_label_of(t, 2), STD_INPUT_HANDLE, Reg64::Rsi, exit, je);
    lemma_then(code, w, r, r5, r6);
    let b = lemma_std_handle(code, w, r6, iat_label_of(t, 2), STD_OUTPUT_HANDLE, Reg64::Rdi, exit, je);
    lemma_then(code, w, r, r6, b);
    assert forall|y: int| sp + 32 <= y < sp + 40 implies #[trigger] b.cpu.mem[y]
        == r5.cpu.mem[y] by {
        assert(r6.cpu.mem[y] == r5.cpu.mem[y]);
    }
    lemma_same_load(b.cpu.mem, r5.cpu.mem, sp + 32);
    b
}

/// The set-up keeps what `GetStdHandle` gave for standard output in RDI and for standard
/// input in RSI, and maps the tape and the output buffer.
#[verifier::rlimit(30)]
proof fn lemma_windows_setup(
    code: Seq<AsmInst>,
    w: World,
    r: Run,
    sp0: int,
    zone: (int, int),
    i: GrowImports,
    je: int,
) -> (res: (Run, Site))
    requires
        labels_unique(code),
        sits(code, 0, setup_insts()),
        0 <= je < code.len(),
        code[je] == AsmInst::Label(windows_routines().exit_one),
        sits(code, je + 1, exit_process_insts(i.leave, 1)),
        i.alloc == iat_label_of(full_table_next(), 5),
        linked(w, i),
        honest(w),
        fresh(r, sp0, zone),
        (w.imports)(iat_label_of(full_table_next(), 2)) == Some(Kernel32Import::GetStdHandle),
        is_handle((w.handle)(-10)),
        is_handle((w.handle)(-11)),
    ensures
        reaches(code, w, r, res.0),
        starved(res.0) || res.0.pc == 37 && tracks(w, res.0, blank(), res.1, true),
{
    let exit = windows_routines().exit_one;
    let f = lemma_front(code, w, r, sp0, zone, je);
    let a = init_tape_insts(i.alloc, exit);
    let c = init_output_insts(i.alloc, exit);
    let head = setup_insts().take(15);
    assert(setup_insts() =~= head + (a + c));
    lemma_parts(code, 0, head, a + c);
    lemma_parts(code, 15, a, c);
    let ta = a.skip(7);
    let tc = c.skip(7);
    assert(a =~= page_insts(i.alloc, exit) + ta);
    assert(c =~= page_insts(i.alloc, exit) + tc);
    lemma_parts(code, 15, page_insts(i.alloc, exit), ta);
    lemma_parts(code, 27, page_insts(i.alloc, exit), tc);
    assert(code[22int + 0] == ta[0] && code[22int + 1] == ta[1] && code[22int + 2] == ta[2]);
    assert(code[22int + 3] == ta[3] && code[22int + 4] == ta[4]);
    assert(code[34int + 0] == tc[0] && code[34int + 1] == tc[1] && code[34int + 2] == tc[2]);
    let sp = f.cpu.regs[Reg64::Rsp];
    let none = Site { base: 0, sp, zone };
    assert(f.live.contains(zone));
    let r1 = lemma_page(code, w, f, i, exit, je);
    lemma_then(code, w, r, f, r1);
    if (w.grant)(f.live, 4096) is None {
        (r1, none)
    } else {
        let g = (w.grant)(f.live, 4096)->Some_0;
        assert(floor() <= g && g + 4096 <= ceiling() && apart(zone, (g, g + 4096)));
        let r2 = lemma_mov(code, w, r1, Reg64::R12, Reg64::Rax);
        lemma_then(code, w, r, r1, r2);
        let r3 = lemma_mov(code, w, r2, Reg64::R13, Reg64::Rax);
        lemma_then(code, w, r, r2, r3);
        lemma_add_imm(r3, Reg64::R13, 2048);
        let r4 = after(r3, ta[2]);
        lemma_plain(code, w, r3, ta[2]);
        lemma_then(code, w, r, r3, r4);
        let r5 = lemma_mov(code, w, r4, Reg64::R14, Reg64::Rax);
        lemma_then(code, w, r, r4, r5);
        lemma_add_imm(r5, Reg64::R14, 4096);
        let r6 = after(r5, ta[4]);
        lemma_plain(code, w, r5, ta[4]);
        lemma_then(code, w, r, r5, r6);
        assert(r6.cpu.regs[Reg64::R12] == g && r6.cpu.regs[Reg64::R13] == g + 2048
            && r6.cpu.regs[Reg64::R14] == g + 4096);
        let r7 = lemma_page(code, w, r6, i, exit, je);
        lemma_then(code, w, r, r6, r7);
        if (w.grant)(r6.live, 4096) is None {
            (r7, none)
        } else {
            let h = (w.grant)(r6.live, 4096)->Some_0;
            assert(r6.live.contains(zone) && r6.live.contains((g, g + 4096)));
            assert(floor() <= h && h + 4096 <= ceiling());
            assert(apart(zone, (h, h + 4096)) && apart((g, g + 4096), (h, h + 4096)));
            let r8 = lemma_mov(code, w, r7, Reg64::Rbx, Reg64::Rax);
            lemma_then(code, w, r, r7, r8);
            let r9 = lemma_mov(code, w, r8, Reg64::Rbp, Reg64::Rax);
            lemma_then(code, w, r, r8, r9);
            lemma_add_imm(r9, Reg64::Rbp, 4096);
            let b = after(r9, tc[2]);
            lemma_plain(code, w, r9, tc[2]);
            lemma_then(code, w, r, r9, b);
            assert(b.cpu.regs[Reg64::Rbp] == h + 4096 && b.cpu.regs[Reg64::Rbx] == h);
            let x = Site { base: g + 2048, sp, zone };
            assert forall|y: int| sp + 32 <= y < sp + 40 implies #[trigger] b.cpu.mem[y]
                == f.cpu.mem[y] by {
                assert(r7.cpu.mem[y] == r6.cpu.mem[y]);
                assert(r1.cpu.mem[y] == f.cpu.mem[y]);
            }
            lemma_same_load(b.cpu.mem, f.cpu.mem, sp + 32);
            assert forall|y: int| g <= y < g + 4096 implies #[trigger] b.cpu.mem[y] == 0 by {
                assert(r1.cpu.mem[y] == 0);
                assert(r7.cpu.mem[y] == r6.cpu.mem[y]);
            }
            lemma_blank(w, b, x, true);
            (b, x)
        }
    }
}

/// The imports are what the table of a translated program names.
pub open spec fn links(w: World) -> bool {
    forall|i: int|
        0 <= i < 7 ==> (w.imports)(#[trigger] iat_label_of(full_table_next(), i)) == Some(
            full_imports()[i],
        )
}

/// Whether the instructions of a LIR program stay within what Windows code is made for.
pub open spec fn windows_modest(lir: LirProgram) -> bool {
    forall|k: int|
        0 <= k < lir.insts@.len() ==> modest(
            #[trigger] lir.insts@[k],
            lir_body(windows_emitter(), lir.insts@, windows_routines(), body_next(), k).window,
            true,
        )
}

/// The imports that growth needs.
pub open spec fn windows_grow_imports() -> GrowImports {
    let t = full_table_next();
    GrowImports {
        leave: iat_label_of(t, 0),
        alloc: iat_label_of(t, 5),
        free: iat_label_of(t, 6),
    }
}

/// Where the parts of a Windows program are.
pub open spec fn windows_program(lir: LirProgram) -> Program {
    let start = 37int;
    let flush = start + windows_body(lir).len() + 3;
    let ensure = flush + 15;
    Program {
        code: windows_insts(lir),
        start,
        ensure,
        flush,
        routines: windows_routines(),
        next: body_next(),
        lir: lir.insts@,
    }
}

/// The parts of a Windows program stand where they should.
#[verifier::opaque]
spec fn laid_out(p: Program, lir: LirProgram) -> bool {
    let i = windows_grow_imports();
    let q = windows_routines();
    let je = p.ensure + 67;
    &&& p.routines == q
    &&& p.next == body_next()
    &&& p.lir == lir.insts@
    &&& p.start == 37
    &&& p.flush == 37 + windows_body(lir).len() + 3
    &&& sits(p.code, 0, setup_insts())
    &&& sits(p.code, p.start, windows_body(lir))
    &&& 0 <= p.flush - 3
    &&& p.code[p.flush - 3] == AsmInst::Call(q.flush_output)
    &&& sits(p.code, p.flush - 2, exit_process_insts(i.leave, 0))
    &&& sits(
        p.code,
        p.flush,
        flush_output_insts(q.flush_output, iat_label_of(full_table_next(), 4)),
    )
    &&& sits(
        p.code,
        p.ensure,
        ensure_tape_insts(
            q.ensure_tape,
            internal(LABEL_BASE as int, 3),
            q.exit_one,
            i.alloc,
            i.free,
        ),
    )
    &&& 0 <= je < p.code.len()
    &&& p.code[je] == AsmInst::Label(q.exit_one)
    &&& sits(p.code, je + 1, exit_process_insts(i.leave, 1))
    &&& p.code[p.flush] == AsmInst::Label(q.flush_output)
    &&& p.code[p.ensure] == AsmInst::Label(q.ensure_tape)
    &&& 0 <= p.flush < p.code.len()
    &&& 0 <= p.ensure < p.code.len()
}

/// They do.
proof fn lemma_windows_parts(lir: LirProgram)
    ensures
        laid_out(windows_program(lir), lir),
{
    reveal(laid_out);
    let code = windows_insts(lir);
    let i = windows_grow_imports();
    let q = windows_routines();
    let t = full_table_next();
    let a0 = setup_insts();
    let a1 = windows_body(lir);
    let a2 = seq![AsmInst::Call(q.flush_output)];
    let a3 = exit_process_insts(i.leave, 0);
    let a4 = flush_output_insts(q.flush_output, iat_label_of(t, 4));
    let a5 = ensure_tape_insts(
        q.ensure_tape,
        internal(LABEL_BASE as int, 3),
        q.exit_one,
        i.alloc,
        i.free,
    );
    let a6 = seq![AsmInst::Label(q.exit_one)];
    let a7 = exit_process_insts(i.leave, 1);
    let a8 = import_table_insts(t, full_imports());
    let t7 = a7 + a8;
    let t6 = a6 + t7;
    let t5 = a5 + t6;
    let t4 = a4 + t5;
    let t3 = a3 + t4;
    let t2 = a2 + t3;
    let t1 = a1 + t2;
    assert(epilogue_insts() =~= a2 + a3 + a4 + a5 + a6 + a7);
    assert(code =~= a0 + t1);
    assert(sits(code, 0, a0 + t1));
    assert(a0.len() == 37);
    assert(a5.len() == 67);
    lemma_parts(code, 0, a0, t1);
    lemma_parts(code, 37, a1, t2);
    let p2 = 37int + a1.len();
    lemma_parts(code, p2, a2, t3);
    lemma_parts(code, p2 + 1, a3, t4);
    lemma_parts(code, p2 + 3, a4, t5);
    lemma_parts(code, p2 + 18, a5, t6);
    lemma_parts(code, p2 + 85, a6, t7);
    lemma_parts(code, p2 + 86, a7, a8);
    assert(code[p2 + 0] == a2[0]);
    assert(code[p2 + 3 + 0] == a4[0]);
    assert(a5[0] == AsmInst::Label(q.ensure_tape));
    assert(code[p2 + 18 + 0] == a5[0]);
    assert(code[p2 + 85 + 0] == a6[0]);
}

/// The Windows instructions for reading a byte do what they are for.
proof fn lemma_windows_obtains(
    code: Seq<AsmInst>,
    w: World,
    source: Source,
    jf: int,
    je: int,
)
    requires
        labels_unique(code),
        code.len() < word(),
        feeds(w, source),
        ends_plainly(w),
        links(w),
        flushes(code, w, windows_routines().flush_output, true),
        0 <= jf < code.len(),
        code[jf] == AsmInst::Label(windows_routines().flush_output),
        0 <= je < code.len(),
        code[je] == AsmInst::Label(windows_routines().exit_one),
    ensures
        obtains(code, w, windows_emitter(), windows_routines(), source, true),
{
    let e = windows_emitter();
    let q = windows_routines();
    assert((w.imports)(iat_label_of(full_table_next(), 3)) == Some(full_imports()[3]));
    assert((w.imports)(iat_label_of(full_table_next(), 1)) == Some(full_imports()[1]));
    assert forall|r: Run, s: St, x: Site, next: int|
        #![trigger may_get(code, w, e, q, r, s, x, next, true)]
        may_get(code, w, e, q, r, s, x, next, true) implies exists|b: Run|
        reaches(code, w, r, b) && #[trigger] stands_well(
            w,
            b,
            s.read(source(s.reads)),
            x,
            r.pc + e.get_byte_insts(next, q.exit_one, q.flush_output).len(),
            true,
        ) by {
        let b = lemma_windows_get_byte(
            code,
            w,
            r,
            s,
            x,
            e,
            next,
            q.exit_one,
            je,
            q.flush_output,
            jf,
            source,
        );
        assert(stands_well(w, b, s.read(source(s.reads)), x, r.pc + 23, true));
    }
}

/// The routines of a Windows program do what they are for.
proof fn lemma_windows_routines(p: Program, lir: LirProgram, w: World, source: Source)
    requires
        laid_out(p, lir),
        labels_unique(p.code),
        p.code.len() < word(),
        honest(w),
        feeds(w, source),
        ends_plainly(w),
        links(w),
    ensures
        grows(p.code, w, windows_routines().ensure_tape, true),
        flushes(p.code, w, windows_routines().flush_output, true),
        obtains(p.code, w, windows_emitter(), windows_routines(), source, true),
{
    reveal(laid_out);
    let q = windows_routines();
    let i = windows_grow_imports();
    let t = full_table_next();
    assert((w.imports)(iat_label_of(t, 0)) == Some(full_imports()[0]));
    assert((w.imports)(iat_label_of(t, 4)) == Some(full_imports()[4]));
    assert((w.imports)(iat_label_of(t, 5)) == Some(full_imports()[5]));
    assert((w.imports)(iat_label_of(t, 6)) == Some(full_imports()[6]));
    lemma_windows_grows(
        p.code,
        w,
        q.ensure_tape,
        internal(LABEL_BASE as int, 3),
        q.exit_one,
        i,
        p.ensure,
        p.ensure + 67,
    );
    lemma_windows_flushes(p.code, w, q.flush_output, iat_label_of(t, 4), p.flush);
    lemma_windows_obtains(p.code, w, source, p.flush, p.ensure + 67);
}

/// A Windows program is as it should be.
proof fn lemma_windows_sound(p: Program, lir: LirProgram, w: World, source: Source)
    requires
        windows_ok(lir),
        windows_labels_ok(lir),
        windows_modest(lir),
        laid_out(p, lir),
        labels_unique(p.code),
        p.code.len() < word(),
        grows(p.code, w, windows_routines().ensure_tape, true),
        flushes(p.code, w, windows_routines().flush_output, true),
        obtains(p.code, w, windows_emitter(), windows_routines(), source, true),
    ensures
        p.sound(w, windows_emitter(), source, true),
{
    reveal(laid_out);
    let len = lir.insts@.len() as int;
    reveal(Program::body);
    assert forall|k: int| 0 <= k < len implies (#[trigger] p.lir[k] matches LirInst::JumpIfZero(id)
        ==> exists|j: int| 0 <= j < len && #[trigger] p.lir[j] == LirInst::Label(id)) by {
        if let LirInst::JumpIfZero(id) = p.lir[k] {
            assert(binds(p.lir, id));
        }
    }
    assert forall|k: int| 0 <= k < len implies (
    #[trigger] p.lir[k] matches LirInst::JumpIfNonZero(id) ==> exists|j: int|
        0 <= j < len && #[trigger] p.lir[j] == LirInst::Label(id)) by {
        if let LirInst::JumpIfNonZero(id) = p.lir[k] {
            assert(binds(p.lir, id));
        }
    }
}

/// The body of a Windows program and its exit.
proof fn lemma_windows_body(
    p: Program,
    lir: LirProgram,
    w: World,
    source: Source,
    r: Run,
    x: Site,
    n: nat,
) -> (b: Run)
    requires
        laid_out(p, lir),
        p.sound(w, windows_emitter(), source, true),
        links(w),
        r.pc == 37,
        tracks(w, r, blank(), x, true),
        lir_run(lirs_view(lir.insts@), 0, blank(), source, n).0 == lir.insts@.len(),
    ensures
        reaches(p.code, w, r, b),
        starved(b) || ended(b, lir_run(lirs_view(lir.insts@), 0, blank(), source, n).1),
{
    reveal(laid_out);
    let e = windows_emitter();
    let len = lir.insts@.len() as int;
    let t = lir_run(lirs_view(lir.insts@), 0, blank(), source, n).1;
    assert((w.imports)(iat_label_of(full_table_next(), 0)) == Some(full_imports()[0]));
    assert(p.at(e, r, 0) && p.place(e, len) == p.flush - 3) by {
        reveal(Program::body);
    }
    law_running_the_code_runs_the_program(p, w, e, r, blank(), x, 0, source, n, true);
    let (r2, base2) = choose|c: Run, base2: int| #[trigger]
        takes(p, w, e, r, x, t, len, true, c, base2);
    if starved(r2) {
        r2
    } else {
        let y = Site { base: base2, ..x };
        let q = windows_routines();
        let r3 = lemma_flush(p.code, w, r2, t, y, q.flush_output, p.flush, true);
        lemma_then(p.code, w, r, r2, r3);
        let b = lemma_windows_exit(p.code, w, r3, windows_grow_imports().leave, 0);
        lemma_then(p.code, w, r, r3, b);
        b
    }
}

/// The set-up of a Windows program, and the rest.
proof fn lemma_windows_run(
    p: Program,
    lir: LirProgram,
    w: World,
    source: Source,
    r: Run,
    sp: int,
    zone: (int, int),
    n: nat,
) -> (b: Run)
    requires
        laid_out(p, lir),
        p.sound(w, windows_emitter(), source, true),
        honest(w),
        links(w),
        is_handle((w.handle)(-10)),
        is_handle((w.handle)(-11)),
        fresh(r, sp, zone),
        lir_run(lirs_view(lir.insts@), 0, blank(), source, n).0 == lir.insts@.len(),
    ensures
        reaches(p.code, w, r, b),
        starved(b) || ended(b, lir_run(lirs_view(lir.insts@), 0, blank(), source, n).1),
{
    let i = windows_grow_imports();
    let t = full_table_next();
    assert((w.imports)(iat_label_of(t, 0)) == Some(full_imports()[0]));
    assert((w.imports)(iat_label_of(t, 2)) == Some(full_imports()[2]));
    assert((w.imports)(iat_label_of(t, 5)) == Some(full_imports()[5]));
    assert((w.imports)(iat_label_of(t, 6)) == Some(full_imports()[6]));
    assert(sits(p.code, 0, setup_insts()) && 0 <= p.ensure + 67 < p.code.len()
        && p.code[p.ensure + 67] == AsmInst::Label(windows_routines().exit_one) && sits(
        p.code,
        p.ensure + 67 + 1,
        exit_process_insts(i.leave, 1),
    )) by {
        reveal(laid_out);
    }
    let (r1, x) = lemma_windows_setup(p.code, w, r, sp, zone, i, p.ensure + 67);
    if starved(r1) {
        r1
    } else {
        let b = lemma_windows_body(p, lir, w, source, r1, x, n);
        lemma_then(p.code, w, r, r1, b);
        b
    }
}

/// A Windows program does what its LIR does: loaded into memory and run, it leaves with
/// status 0 once the LIR program ends, having written the program's output to the handle
/// that `GetStdHandle` gave for standard output and read as many bytes from the one for
/// standard input, unless the system refused it memory.
pub proof fn law_windows_programs_do_what_their_lir_does(
    lir: LirProgram,
    w: World,
    source: Source,
    r: Run,
    sp: int,
    zone: (int, int),
    n: nat,
) -> (b: Run)
    requires
        windows_ok(lir),
        windows_labels_ok(lir),
        windows_modest(lir),
        labels_unique(windows_insts(lir)),
        windows_insts(lir).len() < word(),
        honest(w),
        feeds(w, source),
        ends_plainly(w),
        links(w),
        is_handle((w.handle)(-10)),
        is_handle((w.handle)(-11)),
        fresh(r, sp, zone),
        lir_run(lirs_view(lir.insts@), 0, blank(), source, n).0 == lir.insts@.len(),
    ensures
        reaches(windows_insts(lir), w, r, b),
        starved(b) || ended(b, lir_run(lirs_view(lir.insts@), 0, blank(), source, n).1),
{
    lemma_windows_parts(lir);
    let p = windows_program(lir);
    lemma_windows_routines(p, lir, w, source);
    lemma_windows_sound(p, lir, w, source);
    lemma_windows_run(p, lir, w, source, r, sp, zone, n)
}

} // verus!
