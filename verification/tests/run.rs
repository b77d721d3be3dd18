use amazingbf::backend::asm_ir::{AsmInst, AsmLabel, AsmProgram, Reg64};
use amazingbf::backend::codegen::{
    compile_lir_to_asm, compile_precomputed_stdout_asm, compile_trivial_exit_asm,
};
use amazingbf::backend::x86_64::debug::{dump_asm_listing, dump_hex_listing};
use amazingbf::backend::x86_64::encode::encode_program;
use amazingbf::backend::x86_64::ready::{is_encodable, is_packageable, is_relaxable};
use amazingbf::backend::x86_64::relax::relax_jumps;
use amazingbf::backend::x86_64::windows::compile_trivial_exit_program;
use amazingbf::backend::x86_64::{compile_asm_to_elf, compile_windows_program_to_pe};
use amazingbf::driver::config::OptLevel;
use amazingbf::driver::native::weigh;
use amazingbf::driver::output::{folded_output, output_of};
use amazingbf::driver::pipeline::build_frontend;
use amazingbf::driver::run::{
    build_linux, build_windows, choose_fold, compile_source_for_linux,
    compile_source_for_windows, Fold,
};
use amazingbf::error::Error;
use amazingbf::frontend::parser::ParseError;
use amazingbf::ir::lir::{LabelId, LirInst};
use amazingbf::ir::lower_lir::lower_to_lir;

fn fold(source: &str, level: OptLevel) -> Fold {
    choose_fold(&build_frontend(source).unwrap().hir, level)
}

#[test]
fn only_the_highest_tier_folds() {
    for level in [OptLevel::O0, OptLevel::O1, OptLevel::O2] {
        assert_eq!(fold("+[-]", level), Fold::Whole);
        assert_eq!(fold("+.", level), Fold::Whole);
        assert_eq!(fold(",.", level), Fold::Whole);
    }
    assert_eq!(fold("+[-]", OptLevel::O3), Fold::TrivialExit);
    assert_eq!(fold(",[-]", OptLevel::O3), Fold::TrivialExit);
    assert_eq!(fold("+[.-]", OptLevel::O3), Fold::Precomputed);
    assert_eq!(fold("+[,[.-]]", OptLevel::O3), Fold::Whole);
}

#[test]
fn programs_are_lowered_one_to_one() {
    let front = build_frontend("+>[-.[<],]").unwrap();
    assert_eq!(
        lower_to_lir(&front.hir).insts,
        vec![
            LirInst::CellAdd(1),
            LirInst::PtrAdd(1),
            LirInst::Label(LabelId(0)),
            LirInst::JumpIfZero(LabelId(1)),
            LirInst::CellAdd(-1),
            LirInst::PutByte,
            LirInst::Label(LabelId(2)),
            LirInst::JumpIfZero(LabelId(3)),
            LirInst::PtrAdd(-1),
            LirInst::JumpIfNonZero(LabelId(2)),
            LirInst::Label(LabelId(3)),
            LirInst::GetByte,
            LirInst::JumpIfNonZero(LabelId(0)),
            LirInst::Label(LabelId(1)),
        ]
    );
}

#[test]
fn a_silent_program_comes_to_its_end() {
    let image = compile_source_for_linux("+[-]", OptLevel::O3, &vec![]).unwrap().unwrap();
    let code = relax_jumps(compile_trivial_exit_asm());
    assert_eq!(image.executable, compile_asm_to_elf(&code));
    assert_eq!(image.asm_insts, code.insts.len());
    assert_eq!(image.asm_listing, dump_asm_listing(&code));
    assert_eq!(image.hex_listing, dump_hex_listing(&code));
    assert_eq!(&image.executable[0..4], b"\x7FELF");
}

#[test]
fn a_closed_program_comes_to_its_output() {
    let stdout = b"done".to_vec();
    let image = compile_source_for_linux("+.", OptLevel::O3, &stdout).unwrap().unwrap();
    let code = relax_jumps(compile_precomputed_stdout_asm(&stdout));
    assert_eq!(image.executable, compile_asm_to_elf(&code));
}

#[test]
fn other_programs_are_compiled_as_they_stand() {
    let source = ",[.,]";
    let front = build_frontend(source).unwrap();
    let code = relax_jumps(compile_lir_to_asm(&lower_to_lir(&front.hir)));
    for level in [OptLevel::O0, OptLevel::O1, OptLevel::O2, OptLevel::O3] {
        let image = compile_source_for_linux(source, level, &vec![]).unwrap().unwrap();
        assert_eq!(image.executable, compile_asm_to_elf(&code));
        assert_eq!(image.asm_insts, code.insts.len());
    }
    assert!(encode_program(&code).text.len() > 0);
}

#[test]
fn windows_programs_are_packaged() {
    let image = compile_source_for_windows("+[-]", OptLevel::O3, &vec![]).unwrap().unwrap();
    let mut program = compile_trivial_exit_program(0);
    program.code = relax_jumps(program.code);
    assert!(is_packageable(&program));
    assert_eq!(image.executable, compile_windows_program_to_pe(&program));
    assert_eq!(&image.executable[0..2], b"MZ");
    for source in ["+.", ",[.,]", "+[>+<-]>."] {
        for level in [OptLevel::O1, OptLevel::O3] {
            let image = compile_source_for_windows(source, level, &b"x".to_vec()).unwrap().unwrap();
            assert_eq!(&image.executable[0..2], b"MZ");
        }
    }
    assert!(build_windows(compile_trivial_exit_program(7)).is_some());
}

#[test]
fn unmatched_brackets_are_not_compiled() {
    for level in [OptLevel::O0, OptLevel::O3] {
        let r = compile_source_for_linux("+[", level, &vec![]);
        assert!(matches!(r, Err(Error::Parse(ParseError::UnclosedLoop { pos: 2 }))));
        let r = compile_source_for_windows("+]", level, &vec![]);
        assert!(matches!(r, Err(Error::Parse(ParseError::UnexpectedLoopEnd { pos: 1 }))));
    }
}

#[test]
fn labels_without_a_place_have_no_image() {
    let loose = AsmProgram { insts: vec![AsmInst::Jmp(AsmLabel(1)), AsmInst::Ret] };
    assert!(!is_relaxable(&loose));
    assert!(!is_encodable(&loose));
    assert!(build_linux(loose).is_none());
    let bound = AsmProgram {
        insts: vec![AsmInst::Jmp(AsmLabel(1)), AsmInst::Label(AsmLabel(1)), AsmInst::Ret],
    };
    assert!(is_relaxable(&bound));
    assert!(is_encodable(&bound));
    assert!(build_linux(bound).is_some());
    let twice = AsmProgram {
        insts: vec![
            AsmInst::Label(AsmLabel(1)),
            AsmInst::MovRegImm64(Reg64::Rax, 0),
            AsmInst::Label(AsmLabel(1)),
        ],
    };
    assert!(is_relaxable(&twice));
    assert!(!is_encodable(&twice));
}

#[test]
fn a_source_of_many_loops_has_an_image() {
    let source = "[->+<]".repeat(60) + &"[>[-]<]".repeat(60) + ".";
    let image = compile_source_for_linux(&source, OptLevel::O0, &Vec::new()).unwrap();
    assert!(image.is_some());
}

#[test]
fn a_program_without_input_is_run_for_its_output() {
    let of = |source: &str, steps: u64| output_of(&build_frontend(source).unwrap().hir, 16, steps);
    assert_eq!(of("++++++++[>++++++++<-]>+.+.", u64::MAX), Some(b"AB".to_vec()));
    assert_eq!(of("", 1), Some(Vec::new()));
    assert_eq!(of("+[]", 1000), None);
    assert_eq!(of(",.", 10), Some(vec![255]));
}

#[test]
fn a_source_is_run_where_it_folds_to_its_output() {
    let of = |source: &str, level: OptLevel| folded_output(source, level, 16, 1000);
    assert_eq!(of("+++.>++.", OptLevel::O3).unwrap(), [3, 2]);
    assert!(of("+++.>++.", OptLevel::O2).unwrap().is_empty());
    assert!(of("+++.,", OptLevel::O3).unwrap().is_empty());
    assert!(matches!(of("+.[]", OptLevel::O3), Err(Error::Other(_))));
    assert!(matches!(of("+.]", OptLevel::O3), Err(Error::Parse(_))));
    let stdout = of("+++.>++.", OptLevel::O3).unwrap();
    let image = compile_source_for_linux("+++.>++.", OptLevel::O3, &stdout).unwrap().unwrap();
    assert_eq!(image.asm_insts, 1);
}

#[test]
fn a_run_of_operators_is_one_instruction() {
    let front = build_frontend("+++++>>>[-.]").unwrap();
    assert_eq!(weigh(&front.hir.insts), 6);
}
