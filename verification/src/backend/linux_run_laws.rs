//! Running a whole Linux program.

use vstd::prelude::*;

use crate::backend::asm_ir::{AsmInst, AsmLabel, Reg64};
use crate::backend::codegen::{
    ensure_tape_insts, exit_one_insts, flush_output_insts, init_output_insts, init_tape_insts,
    linux_body, linux_insts, linux_ok, linux_routines, normal_exit_insts, LinuxEmitter,
    ENSURE_TAPE_ID, EXIT_ONE_ID, FLUSH_OUTPUT_ID, INTERNAL_LABEL_BASE,
};
use crate::backend::codegen_common::{lir_body, PlatformEmitter};
use crate::backend::codegen_laws::binds;
use crate::backend::grow_laws::{honest, lemma_imm, lemma_linux_exit, lemma_linux_grows, lemma_mov};
use crate::backend::io_laws::{
    feeds, lemma_flush, lemma_linux_flushes, lemma_linux_get_byte, pending, tracks,
};
use crate::backend::linux_laws::{law_linux_program_is_encodable, linux_labels_ok};
use crate::backend::program_laws::{
    law_running_the_code_runs_the_program, may_get, modest, obtains, stands_well, takes,
    Program,
};
use crate::backend::run_laws::{
    apart, buffer, bytewise, ceiling, floor, lemma_add_imm, lemma_compare_imm, lemma_parts,
    mirrors, sits, starved, tape, Site,
};
use crate::backend::x86_64::encode::{labels_unique, offset_of};
use crate::backend::x86_64::machine::{
    after, cleared, lemma_jump, lemma_plain, lemma_syscall, lemma_then, linux_call, reaches,
    word, Run, World,
};
use crate::interp::machine::{blank, written_bytes, Source, St};
use crate::ir::lir::{lirs_view, LirInst, LirProgram};
use crate::ir::lir_meaning::lir_run;

verus! {

/// The instructions that map a piece of memory of 4096 bytes or leave.
pub open spec fn map_page_insts(exit: AsmLabel) -> Seq<AsmInst> {
    seq![
        AsmInst::MovRegImm64(Reg64::Rax, 9),
        AsmInst::MovRegImm64(Reg64::Rdi, 0),
        AsmInst::MovRegImm64(Reg64::Rsi, 4096),
        AsmInst::MovRegImm64(Reg64::Rdx, 0x3),
        AsmInst::MovRegImm64(Reg64::R10, 0x22),
        AsmInst::MovRegImm64(Reg64::R8, (-1) as i64),
        AsmInst::MovRegImm64(Reg64::R9, 0),
        AsmInst::Syscall,
        AsmInst::CmpRegImm32(Reg64::Rax, 0),
        AsmInst::Jl(exit),
    ]
}

/// Registers that the set-up does not use as scratch.
pub open spec fn is_kept(q: Reg64) -> bool {
    q is Rbx || q is Rbp || q is Rsp || q is R12 || q is R13 || q is R14
}

/// Memory is mapped, or the program leaves.
#[verifier::rlimit(40)]
proof fn lemma_map_page(code: Seq<AsmInst>, w: World, r: Run, exit: AsmLabel, je: int) -> (b: Run)
    requires
        labels_unique(code),
        sits(code, r.pc, map_page_insts(exit)),
        sits(code, je, exit_one_insts(exit)),
        honest(w),
        r.over is None,
        !r.refused,
    ensures
        reaches(code, w, r, b),
        (w.grant)(r.live, 4096) is None ==> starved(b),
        (w.grant)(r.live, 4096) matches Some(g) ==> {
            &&& b.pc == r.pc + 10
            &&& b.cpu.regs[Reg64::Rax] == g
            &&& b.cpu.regs[Reg64::Rdi] == 0
            &&& b.cpu.regs[Reg64::Rsi] == 4096
            &&& b.cpu.mem == cleared(r.cpu.mem, g, 4096)
            &&& b.cpu.down == r.cpu.down
            &&& b.live == r.live.insert((g, g + 4096))
            &&& forall|q: Reg64| is_kept(q) ==> #[trigger] b.cpu.regs[q] == r.cpu.regs[q]
            &&& b.out == r.out
            &&& b.reads == r.reads
            &&& b.over is None
            &&& !b.refused
        },
{
    let piece = map_page_insts(exit);
    let p = r.pc;
    assert(code[p + 0] == piece[0] && code[p + 1] == piece[1] && code[p + 2] == piece[2]);
    assert(code[p + 3] == piece[3] && code[p + 4] == piece[4] && code[p + 5] == piece[5]);
    assert(code[p + 6] == piece[6] && code[p + 7] == piece[7] && code[p + 8] == piece[8]);
    assert(code[p + 9] == piece[9]);
    assert(code[je + 0] == exit_one_insts(exit)[0]);
    let r1 = lemma_imm(code, w, r, Reg64::Rax, 9);
    let r2 = lemma_imm(code, w, r1, Reg64::Rdi, 0);
    lemma_then(code, w, r, r1, r2);
    let r3 = lemma_imm(code, w, r2, Reg64::Rsi, 4096);
    lemma_then(code, w, r, r2, r3);
    let r4 = lemma_imm(code, w, r3, Reg64::Rdx, 3);
    lemma_then(code, w, r, r3, r4);
    let r5 = lemma_imm(code, w, r4, Reg64::R10, 0x22);
    lemma_then(code, w, r, r4, r5);
    let r6 = lemma_imm(code, w, r5, Reg64::R8, (-1) as i64);
    lemma_then(code, w, r, r5, r6);
    let r7 = lemma_imm(code, w, r6, Reg64::R9, 0);
    lemma_then(code, w, r, r6, r7);
    assert((-1int) % word() == word() - 1);
    assert(r7.cpu.regs[Reg64::Rax] == 9 && r7.cpu.regs[Reg64::Rdi] == 0);
    assert(r7.cpu.regs[Reg64::Rdx] == 3 && r7.cpu.regs[Reg64::R10] == 0x22);
    assert(r7.cpu.regs[Reg64::R8] == word() - 1 && r7.cpu.regs[Reg64::R9] == 0);
    assert(r7.cpu.regs[Reg64::Rsi] == 4096);
    let r8 = linux_call(w, r7);
    lemma_syscall(code, w, r7);
    lemma_then(code, w, r, r7, r8);
    lemma_compare_imm(r8, Reg64::Rax, 0);
    let r9 = after(r8, piece[8]);
    lemma_plain(code, w, r8, piece[8]);
    lemma_then(code, w, r, r8, r9);
    lemma_jump(code, w, r9, je);
    match (w.grant)(r.live, 4096) {
        Some(g) => {
            let b = Run { pc: p + 10, ..r9 };
            lemma_then(code, w, r, r9, b);
            b
        },
        None => {
            let q = Run { pc: je, ..r9 };
            lemma_then(code, w, r, r9, q);
            let b = lemma_linux_exit(code, w, q, exit);
            lemma_then(code, w, r, q, b);
            b
        },
    }
}

/// A program that has been loaded: a stack, and nothing else.
pub open spec fn fresh(r: Run, sp: int, zone: (int, int)) -> bool {
    &&& r.pc == 0
    &&& r.out == Seq::<int>::empty()
    &&& r.reads == 0
    &&& r.live == set![zone]
    &&& !r.refused
    &&& r.over is None
    &&& !r.cpu.down
    &&& bytewise(r.cpu.mem)
    &&& r.cpu.regs[Reg64::Rsp] == sp
    &&& 0 < zone.0
    &&& zone.0 + 512 <= sp
    &&& sp + 64 <= zone.1 <= ceiling()
}

/// The state in front of the body.
pub open spec fn begins(
    w: World,
    b: Run,
    base: int,
    x: Site,
    at: int,
    win: bool,
) -> bool {
    b.pc == at && tracks(w, b, blank(), (Site { base, ..x }), win)
}

/// A fresh tape has zero cells, and a fresh buffer nothing to write.
pub proof fn lemma_blank(w: World, b: Run, x: Site, win: bool)
    requires
        tape(b).1 == tape(b).0 + 4096,
        floor() <= tape(b).0,
        tape(b).1 <= ceiling(),
        b.cpu.regs[Reg64::R13] == tape(b).0 + 2048,
        x.base == tape(b).0 + 2048,
        forall|y: int| tape(b).0 <= y < tape(b).1 ==> #[trigger] b.cpu.mem[y] == 0,
        bytewise(b.cpu.mem),
        0 <= b.cpu.regs[Reg64::Rdi] < word(),
        0 <= b.cpu.regs[Reg64::Rsi] < word(),
        b.cpu.regs[Reg64::Rsp] == x.sp,
        0 < x.zone.0,
        x.zone.0 + 256 <= x.sp,
        x.sp + 64 <= x.zone.1 <= ceiling(),
        0 < buffer(b).0,
        buffer(b).1 <= ceiling(),
        apart(tape(b), x.zone),
        apart(tape(b), buffer(b)),
        apart(buffer(b), x.zone),
        b.live.contains(tape(b)),
        b.live.contains(buffer(b)),
        b.live.contains(x.zone),
        b.over is None,
        !b.refused,
        !b.cpu.down,
        b.cpu.regs[Reg64::Rbx] == buffer(b).0,
        b.out == Seq::<int>::empty(),
        b.reads == 0,
        win ==> crate::backend::io_laws::handled(w, b, x),
    ensures
        tracks(w, b, blank(), x, win),
{
    let s = blank();
    assert(mirrors(b.cpu.mem, s, x.base, tape(b).0, tape(b).1)) by {
        assert forall|i: int|
            #[trigger] s.cells[i] == (if tape(b).0 <= x.base + i < tape(b).1 {
                b.cpu.mem[x.base + i]
            } else {
                0
            }) by {}
    }
    assert(pending(b) =~= Seq::<int>::empty());
    assert(b.out + pending(b) =~= written_bytes(s.trace));
}

/// The set-up maps the tape and the output buffer.
#[verifier::rlimit(40)]
proof fn lemma_linux_setup(
    code: Seq<AsmInst>,
    w: World,
    r: Run,
    exit: AsmLabel,
    je: int,
    sp: int,
    zone: (int, int),
) -> (res: (Run, int))
    requires
        labels_unique(code),
        sits(code, 0, init_tape_insts(exit) + init_output_insts(exit)),
        sits(code, je, exit_one_insts(exit)),
        honest(w),
        fresh(r, sp, zone),
    ensures
        reaches(code, w, r, res.0),
        starved(res.0) || begins(w, res.0, res.1, (Site { base: 0, sp, zone }), 28, false),
{
    let a = init_tape_insts(exit);
    let c = init_output_insts(exit);
    lemma_parts(code, 0, a, c);
    let ta = a.skip(10);
    let tc = c.skip(10);
    assert(a =~= map_page_insts(exit) + ta);
    assert(c =~= map_page_insts(exit) + tc);
    lemma_parts(code, 0, map_page_insts(exit), ta);
    lemma_parts(code, 15, map_page_insts(exit), tc);
    assert(code[10int + 0] == ta[0] && code[10int + 1] == ta[1] && code[10int + 2] == ta[2]);
    assert(code[10int + 3] == ta[3] && code[10int + 4] == ta[4]);
    assert(code[25int + 0] == tc[0] && code[25int + 1] == tc[1] && code[25int + 2] == tc[2]);
    let r1 = lemma_map_page(code, w, r, exit, je);
    if (w.grant)(r.live, 4096) is None {
        (r1, 0)
    } else {
        let g = (w.grant)(r.live, 4096)->Some_0;
        assert(r.live.contains(zone));
        assert(floor() <= g && g + 4096 <= ceiling() && apart(zone, (g, g + 4096)));
        let r2 = lemma_mov(code, w, r1, Reg64::R12, Reg64::Rax);
        lemma_then(code, w, r, r1, r2);
        let r3 = lemma_mov(code, w, r2, Reg64::R13, Reg64::Rax);
        lemma_then(code, w, r, r2, r3);
        let r4 = after(r3, ta[2]);
        lemma_add_imm(r3, Reg64::R13, 2048);
        lemma_plain(code, w, r3, ta[2]);
        lemma_then(code, w, r, r3, r4);
        let r5 = lemma_mov(code, w, r4, Reg64::R14, Reg64::Rax);
        lemma_then(code, w, r, r4, r5);
        let r6 = after(r5, ta[4]);
        lemma_add_imm(r5, Reg64::R14, 4096);
        lemma_plain(code, w, r5, ta[4]);
        lemma_then(code, w, r, r5, r6);
        assert(r6.cpu.regs[Reg64::R12] == g && r6.cpu.regs[Reg64::R13] == g + 2048
            && r6.cpu.regs[Reg64::R14] == g + 4096);
        let r7 = lemma_map_page(code, w, r6, exit, je);
        lemma_then(code, w, r, r6, r7);
        if (w.grant)(r6.live, 4096) is None {
            (r7, 0)
        } else {
            let h = (w.grant)(r6.live, 4096)->Some_0;
            assert(r6.live.contains(zone) && r6.live.contains((g, g + 4096)));
            assert(floor() <= h && h + 4096 <= ceiling());
            assert(apart(zone, (h, h + 4096)) && apart((g, g + 4096), (h, h + 4096)));
            let r8 = lemma_mov(code, w, r7, Reg64::Rbx, Reg64::Rax);
            lemma_then(code, w, r, r7, r8);
            let r9 = lemma_mov(code, w, r8, Reg64::Rbp, Reg64::Rax);
            lemma_then(code, w, r, r8, r9);
            let b = after(r9, tc[2]);
            lemma_add_imm(r9, Reg64::Rbp, 4096);
            lemma_plain(code, w, r9, tc[2]);
            lemma_then(code, w, r, r9, b);
            assert(b.cpu.regs[Reg64::Rbp] == h + 4096 && b.cpu.regs[Reg64::Rbx] == h);
            assert(bytewise(b.cpu.mem)) by {
                assert forall|y: int| 0 <= #[trigger] b.cpu.mem[y] < 256 by {
                    assert(0 <= r.cpu.mem[y] < 256);
                }
            }
            let x = Site { base: g + 2048, sp, zone };
            lemma_blank(w, b, x, false);
            (b, g + 2048)
        }
    }
}

/// The Linux routine for reading a byte does what it is for.
proof fn lemma_linux_obtains(
    code: Seq<AsmInst>,
    w: World,
    source: Source,
    jf: int,
    je: int,
)
    requires
        labels_unique(code),
        code.len() < word(),
        feeds(w, source),
        crate::backend::io_laws::flushes(code, w, AsmLabel(FLUSH_OUTPUT_ID), false),
        0 <= jf < code.len(),
        code[jf] == AsmInst::Label(AsmLabel(FLUSH_OUTPUT_ID)),
        0 <= je < code.len(),
        code[je] == AsmInst::Label(AsmLabel(EXIT_ONE_ID)),
    ensures
        obtains(code, w, LinuxEmitter, linux_routines(), source, false),
{
    assert forall|r: Run, s: St, x: Site, next: int|
        #![trigger may_get(code, w, LinuxEmitter, linux_routines(), r, s, x, next, false)]
        may_get(code, w, LinuxEmitter, linux_routines(), r, s, x, next, false) implies exists|b:
        Run|
        reaches(code, w, r, b) && #[trigger] stands_well(
            w,
            b,
            s.read(source(s.reads)),
            x,
            r.pc + LinuxEmitter.get_byte_insts(
                next,
                linux_routines().exit_one,
                linux_routines().flush_output,
            ).len(),
            false,
        ) by {
        let b = lemma_linux_get_byte(
            code,
            w,
            r,
            s,
            x,
            next,
            AsmLabel(EXIT_ONE_ID),
            je,
            AsmLabel(FLUSH_OUTPUT_ID),
            jf,
            source,
        );
        assert(stands_well(w, b, s.read(source(s.reads)), x, r.pc + 11, false));
    }
}

/// Whether the instructions of a LIR program stay within what Linux code is made for.
pub open spec fn linux_modest(lir: LirProgram) -> bool {
    forall|k: int|
        0 <= k < lir.insts@.len() ==> modest(
            #[trigger] lir.insts@[k],
            lir_body(
                LinuxEmitter,
                lir.insts@,
                linux_routines(),
                INTERNAL_LABEL_BASE as int,
                k,
            ).window,
            false,
        )
}

/// A program has left with status 0, having written and read what it should.
pub open spec fn ended(b: Run, t: St) -> bool {
    &&& b.over == Some(0int)
    &&& b.out == written_bytes(t.trace)
    &&& b.reads == t.reads
}

/// The normal exit writes out what waits, and leaves with status 0.
proof fn lemma_linux_leave(
    code: Seq<AsmInst>,
    w: World,
    r: Run,
    t: St,
    x: Site,
    jf: int,
) -> (b: Run)
    requires
        labels_unique(code),
        code.len() < word(),
        crate::backend::io_laws::flushes(code, w, AsmLabel(FLUSH_OUTPUT_ID), false),
        0 <= jf < code.len(),
        code[jf] == AsmInst::Label(AsmLabel(FLUSH_OUTPUT_ID)),
        tracks(w, r, t, x, false),
        sits(code, r.pc, normal_exit_insts()),
    ensures
        reaches(code, w, r, b),
        ended(b, t),
{
    let piece = normal_exit_insts();
    let p = r.pc;
    assert(code[p + 0] == piece[0] && code[p + 1] == piece[1]);
    assert(code[p + 2] == piece[2] && code[p + 3] == piece[3]);
    let r1 = lemma_flush(code, w, r, t, x, AsmLabel(FLUSH_OUTPUT_ID), jf, false);
    let r2 = lemma_imm(code, w, r1, Reg64::Rax, 60);
    lemma_then(code, w, r, r1, r2);
    let r3 = lemma_imm(code, w, r2, Reg64::Rdi, 0);
    lemma_then(code, w, r, r2, r3);
    let b = linux_call(w, r3);
    lemma_syscall(code, w, r3);
    lemma_then(code, w, r, r3, b);
    b
}

/// Where the parts of a Linux program are.
pub open spec fn linux_program(lir: LirProgram) -> Program {
    let start = 28int;
    let exit = start + linux_body(lir).len();
    let ensure = exit + 4;
    let flush = ensure + 55;
    Program {
        code: linux_insts(lir),
        start,
        ensure,
        flush,
        routines: linux_routines(),
        next: INTERNAL_LABEL_BASE as int,
        lir: lir.insts@,
    }
}

/// The parts stand where they should.
proof fn lemma_linux_parts(lir: LirProgram)
    ensures
        ({
            let p = linux_program(lir);
            let exit = AsmLabel(EXIT_ONE_ID);
            &&& sits(p.code, 0, init_tape_insts(exit) + init_output_insts(exit))
            &&& sits(p.code, p.start, linux_body(lir))
            &&& sits(p.code, p.ensure - 4, normal_exit_insts())
            &&& sits(p.code, p.ensure, ensure_tape_insts(AsmLabel(ENSURE_TAPE_ID), exit))
            &&& sits(p.code, p.flush, flush_output_insts(AsmLabel(FLUSH_OUTPUT_ID)))
            &&& sits(p.code, p.flush + 9, exit_one_insts(exit))
            &&& p.code[p.ensure] == AsmInst::Label(AsmLabel(ENSURE_TAPE_ID))
            &&& p.code[p.flush] == AsmInst::Label(AsmLabel(FLUSH_OUTPUT_ID))
            &&& p.code[p.flush + 9] == AsmInst::Label(exit)
            &&& 0 <= p.ensure < p.code.len()
            &&& 0 <= p.flush
            &&& p.flush + 9 < p.code.len()
        }),
{
    let code = linux_insts(lir);
    let exit = AsmLabel(EXIT_ONE_ID);
    let a0 = init_tape_insts(exit) + init_output_insts(exit);
    let a1 = linux_body(lir);
    let a2 = normal_exit_insts();
    let a3 = ensure_tape_insts(AsmLabel(ENSURE_TAPE_ID), exit);
    let a4 = flush_output_insts(AsmLabel(FLUSH_OUTPUT_ID));
    let a5 = exit_one_insts(exit);
    let t4 = a4 + a5;
    let t3 = a3 + t4;
    let t2 = a2 + t3;
    let t1 = a1 + t2;
    assert(code =~= a0 + t1);
    assert(sits(code, 0, a0 + t1));
    lemma_parts(code, 0, a0, t1);
    let p1 = a0.len() as int;
    lemma_parts(code, p1, a1, t2);
    let p2 = p1 + a1.len();
    lemma_parts(code, p2, a2, t3);
    let p3 = p2 + a2.len();
    lemma_parts(code, p3, a3, t4);
    let p4 = p3 + a3.len();
    lemma_parts(code, p4, a4, a5);
    let p5 = p4 + a4.len();
    assert(a3.len() == 55);
    assert(a3[0] == AsmInst::Label(AsmLabel(ENSURE_TAPE_ID)));
    assert(code[p3 + 0] == a3[0]);
    assert(code[p4 + 0] == a4[0]);
    assert(code[p5 + 0] == a5[0]);
}

/// A Linux program is as it should be.
proof fn lemma_linux_sound(lir: LirProgram, w: World, source: Source)
    requires
        linux_ok(lir),
        linux_labels_ok(lir),
        linux_modest(lir),
        labels_unique(linux_insts(lir)),
        linux_insts(lir).len() < word(),
        honest(w),
        feeds(w, source),
    ensures
        linux_program(lir).sound(w, LinuxEmitter, source, false),
{
    let p = linux_program(lir);
    let code = p.code;
    let exit = AsmLabel(EXIT_ONE_ID);
    lemma_linux_parts(lir);
    lemma_linux_grows(code, w, AsmLabel(ENSURE_TAPE_ID), exit, p.ensure, p.flush + 9);
    lemma_linux_flushes(code, w, AsmLabel(FLUSH_OUTPUT_ID), p.flush);
    lemma_linux_obtains(code, w, source, p.flush, p.flush + 9);
    let len = lir.insts@.len() as int;
    reveal(Program::body);
    assert forall|k: int| 0 <= k < len implies (#[trigger] p.lir[k] matches LirInst::JumpIfZero(id)
        ==> exists|j: int| 0 <= j < len && #[trigger] p.lir[j] == LirInst::Label(id)) by {
        if let LirInst::JumpIfZero(id) = p.lir[k] {
            assert(binds(p.lir, id));
        }
    }
    assert forall|k: int| 0 <= k < len implies (
    #[trigger] p.lir[k] matches LirInst::JumpIfNonZero(id) ==> exists|j: int|
        0 <= j < len && #[trigger] p.lir[j] == LirInst::Label(id)) by {
        if let LirInst::JumpIfNonZero(id) = p.lir[k] {
            assert(binds(p.lir, id));
        }
    }
}

/// A Linux program does what its LIR does: loaded into memory and run, it leaves with
/// status 0 once the LIR program ends, having written the program's output to standard
/// output and read as many bytes, unless the system refused it memory.
pub proof fn law_linux_programs_do_what_their_lir_does(
    lir: LirProgram,
    w: World,
    source: Source,
    r: Run,
    sp: int,
    zone: (int, int),
    n: nat,
) -> (b: Run)
    requires
        linux_ok(lir),
        linux_labels_ok(lir),
        linux_modest(lir),
        offset_of(linux_insts(lir), linux_insts(lir).len() as int) <= i32::MAX,
        linux_insts(lir).len() < word(),
        honest(w),
        feeds(w, source),
        fresh(r, sp, zone),
        lir_run(lirs_view(lir.insts@), 0, blank(), source, n).0 == lir.insts@.len(),
    ensures
        reaches(linux_insts(lir), w, r, b),
        starved(b) || ended(b, lir_run(lirs_view(lir.insts@), 0, blank(), source, n).1),
{
    law_linux_program_is_encodable(lir);
    lemma_linux_parts(lir);
    lemma_linux_sound(lir, w, source);
    let p = linux_program(lir);
    let code = p.code;
    let exit = AsmLabel(EXIT_ONE_ID);
    let len = lir.insts@.len() as int;
    let (r1, base) = lemma_linux_setup(code, w, r, exit, p.flush + 9, sp, zone);
    let t = lir_run(lirs_view(lir.insts@), 0, blank(), source, n).1;
    if starved(r1) {
        r1
    } else {
        let x = Site { base, sp, zone };
        assert((Site { base, ..(Site { base: 0, sp, zone }) }) == x);
        assert(p.at(LinuxEmitter, r1, 0)) by {
            reveal(Program::body);
        }
        law_running_the_code_runs_the_program(
            p,
            w,
            LinuxEmitter,
            r1,
            blank(),
            x,
            0,
            source,
            n,
            false,
        );
        let (r2, base2) = choose|c: Run, base2: int| #[trigger]
            takes(p, w, LinuxEmitter, r1, x, t, len, false, c, base2);
        lemma_then(code, w, r, r1, r2);
        if starved(r2) {
            r2
        } else {
            assert(p.place(LinuxEmitter, len) == p.ensure - 4) by {
                reveal(Program::body);
            }
            let b = lemma_linux_leave(code, w, r2, t, (Site { base: base2, ..x }), p.flush);
            lemma_then(code, w, r, r2, b);
            b
        }
    }
}

} // verus!
