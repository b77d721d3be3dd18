//! Compiling a program to an executable with its listings.

use vstd::prelude::*;

use crate::backend::asm_ir::same_insts;
use crate::backend::asm_ir::{AsmInst, AsmProgram};
use crate::backend::codegen::{
    compile_lir_to_asm, compile_precomputed_stdout_asm, compile_trivial_exit_asm,
};
use crate::backend::codegen::{linux_insts, linux_ok, precomputed_code, trivial_exit_insts};
use crate::backend::codegen_common::internal;
use crate::backend::x86_64::debug::{asm_listing, hex_listing};
use crate::backend::x86_64::debug::{dump_asm_listing, dump_hex_listing};
use crate::backend::x86_64::elf::elf_image;
use crate::backend::x86_64::encode::layout_program;
use crate::backend::labels::plain;
use crate::backend::x86_64::encode::{
    encodable, label_field, labels_bound, labels_of, machine_code, offset_of,
};
use crate::backend::x86_64::pe::pe_image;
use crate::backend::x86_64::pe::DataDirectory;
use crate::backend::x86_64::ready::all_operands_encodable;
use crate::backend::x86_64::ready::{is_encodable, is_packageable, is_relaxable};
use crate::backend::x86_64::relax::relax_jumps;
use crate::backend::x86_64::relax::{
    law_relaxation_keeps_encodable, law_relaxation_only_narrows, relaxed, unaligned,
};
use crate::backend::x86_64::windows::{
    compile_lir_to_windows_program, compile_precomputed_stdout_program,
    compile_trivial_exit_program, Kernel32Import, WindowsProgram,
};
use crate::backend::x86_64::windows::{
    describes_table, full_imports, full_table_next, precomputed_insts, same_tables, stdout_imports,
    trivial_exit_insts as windows_exit_insts, windows_insts, windows_ok, LABEL_BASE,
};
use crate::backend::x86_64::windows_laws::{
    law_exit_program_is_packageable, law_precomputed_program_is_packageable,
    law_windows_program_is_packageable, packs,
};
use crate::backend::x86_64::{compile_asm_to_elf, compile_windows_program_to_pe};
use crate::backend::x86_64::{label_rva, packageable, pe_section};
use crate::driver::config::OptLevel;
use crate::driver::native::{weigh, MAX_NATIVE_INSTRUCTIONS};
use crate::driver::native::{
    law_ordinary_sources_are_encodable, law_ordinary_sources_compile,
    law_ordinary_sources_have_labels, lemma_sources_weigh_little,
};
use crate::driver::pipeline::build_frontend;
use crate::driver::pipeline::program_of;
use crate::error::Error;
use crate::frontend::lexer::lex;
use crate::frontend::lexer::tokens_of;
use crate::frontend::lexer::Token;
use crate::frontend::parser::{
    balanced, first_surplus, lemma_short_runs_fit, never_negative, tree_of, ParseError,
};
use crate::interp::bounds::weight;
use crate::interp::machine::{run, run_one, scanned, written_bytes, Source, St};
use crate::ir::hir::HirProgram;
use crate::ir::hir::{hirs_view, one_reads, one_writes, reads, writes, Hir};
use crate::ir::lir::lirs_view;
use crate::ir::lir::LirProgram;
use crate::ir::lower::hirs_of;
use crate::ir::lower_lir::lirs_of;
use crate::ir::lower_lir::lower_to_lir;
use crate::text::owned;

verus! {

/// How a program is compiled.
#[derive(Debug, Clone, Copy, PartialEq, Eq)]
pub enum Fold {
    /// To nothing but the end of the process.
    TrivialExit,
    /// To the writing of what the interpreter wrote.
    Precomputed,
    /// As it stands.
    Whole,
}

/// At the highest tier a program that cannot write comes to nothing, and one
/// that cannot read to its output.
pub open spec fn fold_of(insts: Seq<Hir>, level: OptLevel) -> Fold {
    if level == OptLevel::O3 && !writes(insts) {
        Fold::TrivialExit
    } else if level == OptLevel::O3 && !reads(insts) {
        Fold::Precomputed
    } else {
        Fold::Whole
    }
}

/// How to compile a program.
pub fn choose_fold(hir: &HirProgram, level: OptLevel) -> (f: Fold)
    ensures
        f == fold_of(hirs_view(hir.insts@), level),
{
    match level {
        OptLevel::O3 => {
            if !hir.has_put_byte() {
                Fold::TrivialExit
            } else if !hir.has_get_byte() {
                Fold::Precomputed
            } else {
                Fold::Whole
            }
        },
        _ => Fold::Whole,
    }
}

/// A program without output instructions writes nothing: compiling it to the
/// end of the process is right.
pub proof fn law_silent_programs_write_nothing(
    insts: Seq<Hir>,
    s: St,
    source: Source,
    fuel: nat,
)
    requires
        !writes(insts),
        run(insts, s, source, fuel) is Some,
    ensures
        written_bytes(run(insts, s, source, fuel)->Some_0.trace) == written_bytes(s.trace),
    decreases fuel, insts, 1int,
{
    if insts.len() > 0 {
        let front = insts.drop_last();
        assert(!writes(front)) by {
            assert forall|i: int| 0 <= i < front.len() implies !one_writes(#[trigger] front[i]) by {
                assert(front[i] == insts[i]);
            }
        }
        assert(!one_writes(insts[insts.len() - 1]));
        law_silent_programs_write_nothing(front, s, source, fuel);
        lemma_silent_one(insts.last(), run(front, s, source, fuel)->Some_0, source, fuel);
    }
}

proof fn lemma_silent_one(inst: Hir, s: St, source: Source, fuel: nat)
    requires
        !one_writes(inst),
        run_one(inst, s, source, fuel) is Some,
    ensures
        written_bytes(run_one(inst, s, source, fuel)->Some_0.trace) == written_bytes(s.trace),
    decreases fuel, inst, 0int,
{
    match inst {
        Hir::GetByte => {
            let t = s.read(source(s.reads));
            assert(t.trace.drop_last() =~= s.trace);
        },
        Hir::LinearMul(factors) => {
            crate::interp::engine::lemma_spread_keeps_ptr(
                s.set_at(0, 0),
                factors,
                s.cell(),
                factors.len() as int,
            );
        },
        Hir::LinearMulWithSets(factors, sets) => {
            crate::interp::engine::lemma_spread_keeps_ptr(
                s.set_at(0, 0),
                factors,
                s.cell(),
                factors.len() as int,
            );
            lemma_cleared_keeps_trace(s.multiplied(factors), sets, sets.len() as int);
        },
        Hir::Scan(dir) => {
            lemma_scan_keeps_trace(s, dir, fuel);
        },
        Hir::Loop(body) => {
            if s.cell() != 0 && fuel > 0 {
                let less = (fuel - 1) as nat;
                law_silent_programs_write_nothing(body, s, source, less);
                lemma_silent_one(inst, run(body, s, source, less)->Some_0, source, less);
            }
        },
        _ => {},
    }
}

proof fn lemma_cleared_keeps_trace(s: St, sets: Seq<int>, n: int)
    ensures
        s.cleared(sets, n).trace == s.trace,
    decreases n,
{
    if n > 0 {
        lemma_cleared_keeps_trace(s, sets, n - 1);
    }
}

proof fn lemma_scan_keeps_trace(s: St, dir: int, fuel: nat)
    ensures
        scanned(s, dir, fuel) is Some ==> scanned(s, dir, fuel)->Some_0.trace == s.trace,
    decreases fuel,
{
    if s.cell() != 0 && fuel > 0 {
        lemma_scan_keeps_trace(s.moved(crate::interp::lower::sign(dir)), dir, (fuel - 1) as nat);
    }
}

/// A program without input instructions does the same whatever there is to
/// read: compiling it to what it wrote once is right.
pub proof fn law_closed_programs_ignore_the_input(
    insts: Seq<Hir>,
    s: St,
    one: Source,
    other: Source,
    fuel: nat,
)
    requires
        !reads(insts),
    ensures
        run(insts, s, one, fuel) == run(insts, s, other, fuel),
    decreases fuel, insts, 1int,
{
    if insts.len() > 0 {
        let front = insts.drop_last();
        assert(!reads(front)) by {
            assert forall|i: int| 0 <= i < front.len() implies !one_reads(#[trigger] front[i]) by {
                assert(front[i] == insts[i]);
            }
        }
        assert(!one_reads(insts[insts.len() - 1]));
        law_closed_programs_ignore_the_input(front, s, one, other, fuel);
        if let Some(t) = run(front, s, one, fuel) {
            lemma_closed_one(insts.last(), t, one, other, fuel);
        }
    }
}

proof fn lemma_closed_one(inst: Hir, s: St, one: Source, other: Source, fuel: nat)
    requires
        !one_reads(inst),
    ensures
        run_one(inst, s, one, fuel) == run_one(inst, s, other, fuel),
    decreases fuel, inst, 0int,
{
    if let Hir::Loop(body) = inst {
        if s.cell() != 0 && fuel > 0 {
            let less = (fuel - 1) as nat;
            law_closed_programs_ignore_the_input(body, s, one, other, less);
            if let Some(t) = run(body, s, one, less) {
                lemma_closed_one(inst, t, one, other, less);
            }
        }
    }
}

/// The code of a program for Linux.
pub open spec fn linux_code(fold: Fold, lir: LirProgram, stdout: Seq<u8>, r: Seq<AsmInst>) -> bool {
    match fold {
        Fold::TrivialExit => r == trivial_exit_insts(),
        Fold::Precomputed => if stdout.len() == 0 {
            r == trivial_exit_insts()
        } else {
            r.len() == 1 && r[0] is RawBytes && r[0]->RawBytes_0@ == precomputed_code(stdout)
        },
        Fold::Whole => r == linux_insts(lir),
    }
}

/// Compile a program for Linux. `lir` is the program lowered, `stdout` what the
/// interpreter wrote where the program folds to that.
pub fn compile_linux_asm(fold: Fold, lir: &LirProgram, stdout: &Vec<u8>) -> (r: AsmProgram)
    requires
        fold == Fold::Whole ==> linux_ok(*lir),
        fold == Fold::Precomputed ==> stdout@.len() + 15 <= i32::MAX,
    ensures
        linux_code(fold, *lir, stdout@, r.insts@),
{
    match fold {
        Fold::TrivialExit => compile_trivial_exit_asm(),
        Fold::Precomputed => compile_precomputed_stdout_asm(stdout.as_slice()),
        Fold::Whole => compile_lir_to_asm(lir),
    }
}

/// The code and the tables of a program for Windows.
pub open spec fn windows_code(
    fold: Fold,
    lir: LirProgram,
    stdout: Seq<u8>,
    r: WindowsProgram,
) -> bool {
    &&& r.entry_label == internal(LABEL_BASE as int, 0)
    &&& fold == Fold::TrivialExit || (fold == Fold::Precomputed && stdout.len() == 0)
        ==> same_insts(r.code.insts@, windows_exit_insts(0)) && describes_table(
        r,
        LABEL_BASE - 1,
        seq![Kernel32Import::ExitProcess],
    )
    &&& fold == Fold::Precomputed && stdout.len() > 0 ==> same_insts(
        r.code.insts@,
        precomputed_insts(stdout),
    ) && describes_table(r, LABEL_BASE - 3, stdout_imports())
    &&& fold == Fold::Whole ==> same_insts(r.code.insts@, windows_insts(lir)) && describes_table(
        r,
        full_table_next(),
        full_imports(),
    )
}

/// Compile a program for Windows.
pub fn compile_windows_program(fold: Fold, lir: &LirProgram, stdout: &Vec<u8>) -> (r:
    WindowsProgram)
    requires
        fold == Fold::Whole ==> windows_ok(*lir),
        fold == Fold::Precomputed ==> stdout@.len() <= i64::MAX,
    ensures
        windows_code(fold, *lir, stdout@, r),
{
    match fold {
        Fold::TrivialExit => compile_trivial_exit_program(0),
        Fold::Precomputed => compile_precomputed_stdout_program(stdout.as_slice()),
        Fold::Whole => compile_lir_to_windows_program(lir),
    }
}

/// What a compilation writes.
#[derive(Debug)]
pub struct NativeImage {
    /// The executable file.
    pub executable: Vec<u8>,
    /// The assembly listing.
    pub asm_listing: String,
    /// The hexadecimal listing.
    pub hex_listing: String,
    /// Number of instructions.
    pub asm_insts: usize,
}

/// Whether relaxed code has an ELF image.
pub open spec fn elf_ready(insts: Seq<AsmInst>) -> bool {
    &&& labels_bound(insts)
    &&& all_operands_encodable(insts)
    &&& encodable(relaxed(insts))
    &&& offset_of(relaxed(insts), relaxed(insts).len() as int) + 120 <= u64::MAX
}

/// Code without labels that fits has an ELF image.
proof fn lemma_unlabelled_is_ready(insts: Seq<AsmInst>)
    requires
        plain(insts),
        forall|i: int| 0 <= i < insts.len() ==> #[trigger] insts[i] !is Label,
        forall|i: int| 0 <= i < insts.len() ==> label_field(#[trigger] insts[i]) is Absent,
        offset_of(insts, insts.len() as int) <= i32::MAX,
    ensures
        elf_ready(insts),
{
    assert(encodable(insts));
    assert(unaligned(insts));
    law_relaxation_keeps_encodable(insts);
    law_relaxation_only_narrows(insts);
}

/// The Linux code of a source of not too many instructions has an image, if it takes
/// less than two gibibytes.
pub proof fn law_ordinary_sources_have_images(
    tokens: Seq<Token>,
    lir: LirProgram,
    fold: Fold,
    stdout: Seq<u8>,
    code: Seq<AsmInst>,
)
    requires
        balanced(tokens),
        tokens.len() <= usize::MAX,
        weight(hirs_of(tree_of(tokens))) <= MAX_NATIVE_INSTRUCTIONS,
        lirs_view(lir.insts@) == lirs_of(hirs_of(tree_of(tokens)), 0).0,
        linux_code(fold, lir, stdout, code),
        offset_of(code, code.len() as int) <= i32::MAX,
    ensures
        elf_ready(code),
{
    if fold == Fold::Whole {
        law_ordinary_sources_are_encodable(tokens, lir);
        law_relaxation_only_narrows(code);
    } else {
        lemma_unlabelled_is_ready(code);
    }
}

/// The Windows code of a source of not too many instructions is packaged, once
/// relaxed, if it takes less than two gibibytes then and its short jumps reach their
/// targets. Where no loop is padded the first of the two, of the code before it is
/// relaxed, implies both.
pub proof fn law_ordinary_sources_have_windows_images(
    tokens: Seq<Token>,
    lir: LirProgram,
    fold: Fold,
    stdout: Seq<u8>,
    program: WindowsProgram,
    ready: WindowsProgram,
)
    requires
        balanced(tokens),
        tokens.len() <= usize::MAX,
        weight(hirs_of(tree_of(tokens))) <= MAX_NATIVE_INSTRUCTIONS,
        lirs_view(lir.insts@) == lirs_of(hirs_of(tree_of(tokens)), 0).0,
        windows_code(fold, lir, stdout, program),
    ensures
        labels_bound(program.code.insts@),
        all_operands_encodable(program.code.insts@),
        ready.code.insts@ == relaxed(program.code.insts@) && same_tables(ready, program) && packs(
            program.code.insts@,
        ) ==> packageable(ready),
        (fold != Fold::Whole || unaligned(program.code.insts@)) && offset_of(
            program.code.insts@,
            program.code.insts@.len() as int,
        ) <= i32::MAX ==> packs(program.code.insts@),
{
    if fold == Fold::Whole {
        law_ordinary_sources_compile(tokens, lir);
        law_windows_program_is_packageable(lir, program, ready);
    } else if fold == Fold::Precomputed && stdout.len() > 0 {
        law_precomputed_program_is_packageable(stdout, program, ready);
    } else {
        law_exit_program_is_packageable(0, program, ready);
    }
}

/// The listings of a program.
pub open spec fn lists(image: NativeImage, insts: Seq<AsmInst>) -> bool {
    &&& image.asm_listing@ == asm_listing(insts)
    &&& image.hex_listing@ == hex_listing(insts)
    &&& image.asm_insts == insts.len()
}

/// The length of a program's code.
fn code_len(program: &AsmProgram) -> (n: usize)
    requires
        all_operands_encodable(program.insts@),
    ensures
        n == offset_of(program.insts@, program.insts@.len() as int),
{
    let (_, places) = layout_program(program);
    let n = program.insts.len();
    if n == 0 {
        0
    } else {
        assert(places@[n - 1].offset + places@[n - 1].len == offset_of(program.insts@, n as int));
        places[n - 1].offset + places[n - 1].len
    }
}

/// Relax a program for Linux and make its executable and listings. There are
/// none where the program has labels without a place, or where its code does
/// not fit.
pub fn build_linux(program: AsmProgram) -> (r: Option<NativeImage>)
    ensures
        r is Some <==> elf_ready(program.insts@),
        r is Some ==> r->Some_0.executable@ == elf_image(machine_code(relaxed(program.insts@)))
            && lists(r->Some_0, relaxed(program.insts@)),
{
    if !is_relaxable(&program) {
        return None;
    }
    let code = relax_jumps(program);
    if !is_encodable(&code) {
        return None;
    }
    if code_len(&code) as u64 > u64::MAX - 120 {
        return None;
    }
    Some(
        NativeImage {
            executable: compile_asm_to_elf(&code),
            asm_listing: dump_asm_listing(&code),
            hex_listing: dump_hex_listing(&code),
            asm_insts: code.insts.len(),
        },
    )
}

/// What packaging a Windows program comes to: the image of the program with
/// its code relaxed, or none where that cannot be packaged.
pub open spec fn windows_image(program: WindowsProgram, r: Option<NativeImage>) -> bool {
    let insts = program.code.insts@;
    match r {
        Some(image) => {
            &&& labels_bound(insts)
            &&& all_operands_encodable(insts)
            &&& lists(image, relaxed(insts))
            &&& exists|p: WindowsProgram|
                {
                    let labels = labels_of(p.code.insts@);
                    &&& p.code.insts@ == relaxed(insts)
                    &&& same_tables(p, program)
                    &&& #[trigger] packageable(p)
                    &&& image.executable@ == pe_image(
                        pe_section(p),
                        labels[p.entry_label.0] as u32,
                        DataDirectory {
                            rva: label_rva(labels, p.import_desc_label),
                            size: p.import_dir_size,
                        },
                        DataDirectory { rva: label_rva(labels, p.iat_label), size: p.iat_size },
                    )
                }
        },
        None => !labels_bound(insts) || !all_operands_encodable(insts) || exists|p: WindowsProgram|
            p.code.insts@ == relaxed(insts) && same_tables(p, program) && !#[trigger] packageable(
                p,
            ),
    }
}

/// Relax a Windows program and make its executable and listings. There are
/// none where the program has labels without a place, or where its code or
/// its tables do not fit.
pub fn build_windows(program: WindowsProgram) -> (r: Option<NativeImage>)
    ensures
        windows_image(program, r),
{
    if !is_relaxable(&program.code) {
        return None;
    }
    let WindowsProgram {
        code,
        entry_label,
        import_desc_label,
        import_dir_size,
        iat_label,
        iat_size,
        dll_name_label,
        imports,
    } = program;
    let ready = WindowsProgram {
        code: relax_jumps(code),
        entry_label,
        import_desc_label,
        import_dir_size,
        iat_label,
        iat_size,
        dll_name_label,
        imports,
    };
    assert(same_tables(ready, program));
    if !is_packageable(&ready) {
        return None;
    }
    Some(
        NativeImage {
            executable: compile_windows_program_to_pe(&ready),
            asm_listing: dump_asm_listing(&ready.code),
            hex_listing: dump_hex_listing(&ready.code),
            asm_insts: ready.code.insts.len(),
        },
    )
}

/// What a Linux compilation of a program comes to: its image, or none where
/// the code is not ready for one, which takes two gibibytes of it.
pub open spec fn linux_result(
    insts: Seq<Hir>,
    level: OptLevel,
    stdout: Seq<u8>,
    r: Option<NativeImage>,
) -> bool {
    exists|lir: LirProgram, code: Seq<AsmInst>|
        {
            &&& lirs_view(lir.insts@) == lirs_of(insts, 0).0
            &&& #[trigger] linux_code(fold_of(insts, level), lir, stdout, code)
            &&& r is Some <==> elf_ready(code)
            &&& offset_of(code, code.len() as int) <= i32::MAX ==> r is Some
            &&& r is Some ==> r->Some_0.executable@ == elf_image(machine_code(relaxed(code)))
                && lists(r->Some_0, relaxed(code))
        }
}

/// Compile a source for Linux. `stdout` is what the interpreter writes where
/// the program folds to that. A source with too many operators, and a program
/// with too many instructions, is refused; `None` stands for code that has no
/// image.
pub fn compile_source_for_linux(source: &str, level: OptLevel, stdout: &Vec<u8>) -> (r: Result<
    Option<NativeImage>,
    Error,
>)
    requires
        stdout@.len() + 15 <= i32::MAX,
    ensures
        r is Ok <==> tokens_of(source@).len() <= i32::MAX && balanced(tokens_of(source@)) && weight(
            program_of(source@),
        ) <= MAX_NATIVE_INSTRUCTIONS,
        r is Ok ==> linux_result(program_of(source@), level, stdout@, r->Ok_0),
        r is Err ==> (r->Err_0 is Parse <==> tokens_of(source@).len() <= i32::MAX && !balanced(
            tokens_of(source@),
        )),
        r is Err && !(r->Err_0 is Parse) ==> r->Err_0 is Other,
        r matches Err(Error::Parse(ParseError::UnexpectedLoopEnd { pos })) ==> first_surplus(
            tokens_of(source@),
            pos as int,
        ),
        r matches Err(Error::Parse(ParseError::UnclosedLoop { pos })) ==> never_negative(
            tokens_of(source@),
        ) && pos == tokens_of(source@).len(),
{
    let tokens = lex(source);
    if tokens.len() > i32::MAX as usize {
        return Err(Error::Other(owned("the source has too many operators")));
    }
    proof {
        lemma_short_runs_fit(tokens@);
    }
    let front = match build_frontend(source) {
        Ok(f) => f,
        Err(e) => {
            return Err(e);
        },
    };
    let ghost insts = program_of(source@);
    proof {
        lemma_sources_weigh_little(tokens@);
    }
    if weigh(&front.hir.insts) > MAX_NATIVE_INSTRUCTIONS {
        return Err(Error::Other(owned("the program has too many instructions")));
    }
    let fold = choose_fold(&front.hir, level);
    proof {
        law_ordinary_sources_have_labels(tokens@);
    }
    let lir = lower_to_lir(&front.hir);
    proof {
        law_ordinary_sources_compile(tokens@, lir);
    }
    let code = compile_linux_asm(fold, &lir, stdout);
    let ghost out = code.insts@;
    let image = build_linux(code);
    assert(linux_code(fold, lir, stdout@, out));
    proof {
        if offset_of(out, out.len() as int) <= i32::MAX {
            law_ordinary_sources_have_images(tokens@, lir, fold, stdout@, out);
        }
    }
    Ok(image)
}

/// What a Windows compilation of a program comes to: its image, or none where the
/// relaxed code takes two gibibytes or a short jump of it is out of reach.
pub open spec fn windows_result(
    insts: Seq<Hir>,
    level: OptLevel,
    stdout: Seq<u8>,
    r: Option<NativeImage>,
) -> bool {
    exists|lir: LirProgram, program: WindowsProgram|
        {
            &&& lirs_view(lir.insts@) == lirs_of(insts, 0).0
            &&& #[trigger] windows_code(fold_of(insts, level), lir, stdout, program)
            &&& windows_image(program, r)
            &&& packs(program.code.insts@) ==> r is Some
            &&& (fold_of(insts, level) != Fold::Whole || unaligned(program.code.insts@))
                && offset_of(program.code.insts@, program.code.insts@.len() as int) <= i32::MAX
                ==> r is Some
        }
}

proof fn lemma_windows_image(
    tokens: Seq<Token>,
    lir: LirProgram,
    fold: Fold,
    stdout: Seq<u8>,
    program: WindowsProgram,
    r: Option<NativeImage>,
)
    requires
        balanced(tokens),
        tokens.len() <= usize::MAX,
        weight(hirs_of(tree_of(tokens))) <= MAX_NATIVE_INSTRUCTIONS,
        lirs_view(lir.insts@) == lirs_of(hirs_of(tree_of(tokens)), 0).0,
        windows_code(fold, lir, stdout, program),
        windows_image(program, r),
    ensures
        packs(program.code.insts@) ==> r is Some,
        (fold != Fold::Whole || unaligned(program.code.insts@)) && offset_of(
            program.code.insts@,
            program.code.insts@.len() as int,
        ) <= i32::MAX ==> r is Some,
{
    let insts = program.code.insts@;
    if r is None {
        let p = choose|p: WindowsProgram|
            p.code.insts@ == relaxed(insts) && same_tables(p, program) && !#[trigger] packageable(
                p,
            );
        law_ordinary_sources_have_windows_images(tokens, lir, fold, stdout, program, p);
    }
}

/// Compile a source for Windows, in the same way.
pub fn compile_source_for_windows(source: &str, level: OptLevel, stdout: &Vec<u8>) -> (r: Result<
    Option<NativeImage>,
    Error,
>)
    requires
        stdout@.len() <= i64::MAX,
    ensures
        r is Ok <==> tokens_of(source@).len() <= i32::MAX && balanced(tokens_of(source@)) && weight(
            program_of(source@),
        ) <= MAX_NATIVE_INSTRUCTIONS,
        r is Ok ==> windows_result(program_of(source@), level, stdout@, r->Ok_0),
        r is Err ==> (r->Err_0 is Parse <==> tokens_of(source@).len() <= i32::MAX && !balanced(
            tokens_of(source@),
        )),
        r is Err && !(r->Err_0 is Parse) ==> r->Err_0 is Other,
        r matches Err(Error::Parse(ParseError::UnexpectedLoopEnd { pos })) ==> first_surplus(
            tokens_of(source@),
            pos as int,
        ),
        r matches Err(Error::Parse(ParseError::UnclosedLoop { pos })) ==> never_negative(
            tokens_of(source@),
        ) && pos == tokens_of(source@).len(),
{
    let tokens = lex(source);
    if tokens.len() > i32::MAX as usize {
        return Err(Error::Other(owned("the source has too many operators")));
    }
    proof {
        lemma_short_runs_fit(tokens@);
    }
    let front = match build_frontend(source) {
        Ok(f) => f,
        Err(e) => {
            return Err(e);
        },
    };
    proof {
        lemma_sources_weigh_little(tokens@);
    }
    if weigh(&front.hir.insts) > MAX_NATIVE_INSTRUCTIONS {
        return Err(Error::Other(owned("the program has too many instructions")));
    }
    let fold = choose_fold(&front.hir, level);
    proof {
        law_ordinary_sources_have_labels(tokens@);
    }
    let lir = lower_to_lir(&front.hir);
    proof {
        law_ordinary_sources_compile(tokens@, lir);
    }
    let program = compile_windows_program(fold, &lir, stdout);
    let ghost made = program;
    let image = build_windows(program);
    assert(windows_code(fold, lir, stdout@, made));
    proof {
        lemma_windows_image(tokens@, lir, fold, stdout@, made, image);
    }
    Ok(image)
}

} // verus!
