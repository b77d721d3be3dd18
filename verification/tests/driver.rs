use amazingbf::driver::artifacts::{artifact_path, compile_executable_output_path};
use amazingbf::driver::config::{parse_opt_level, CompileTarget, OptLevel, RunMode};
use amazingbf::driver::logging::{
    default_targets, filter_of_word, json_logs_enabled, log_targets, Level, LogFilter,
};
use amazingbf::driver::pipeline::build_frontend;
use amazingbf::error::{io_err, Error};
use amazingbf::frontend::parser::ParseError;
use amazingbf::interp::engine::RuntimeError;

#[test]
fn compile_executable_output_path_windows_adds_exe_when_missing_extension() {
    let p = "out/hello_bf";
    assert_eq!(
        compile_executable_output_path(CompileTarget::X86_64Windows, p),
        "out/hello_bf.exe"
    );
}

#[test]
fn compile_executable_output_path_windows_respects_existing_extension() {
    let p = "out/cross_target.bin";
    assert_eq!(
        compile_executable_output_path(CompileTarget::X86_64Windows, p),
        "out/cross_target.bin"
    );
}

#[test]
fn compile_executable_output_path_linux_is_unchanged() {
    let p = "out/hello_bf";
    assert_eq!(
        compile_executable_output_path(CompileTarget::X86_64Linux, p),
        "out/hello_bf"
    );
}

#[test]
fn artifact_path_reuses_output_basename() {
    let output = "build/hello_bf";

    assert_eq!(
        artifact_path(output, "asm"),
        "build/hello_bf.asm"
    );
    assert_eq!(
        artifact_path(output, "lst"),
        "build/hello_bf.lst"
    );
}

#[test]
fn artifact_path_replaces_existing_extension() {
    let output = "build/hello_bf.bin";

    assert_eq!(
        artifact_path(output, "asm"),
        "build/hello_bf.asm"
    );
}

#[test]
fn artifact_path_for_default_a_out_is_a_asm() {
    let output = "build/a.out";

    assert_eq!(artifact_path(output, "asm"), "build/a.asm");
    assert_eq!(artifact_path(output, "lst"), "build/a.lst");
}

#[test]
fn compile_target_default_output_names_match_platform_convention() {
    assert_eq!(CompileTarget::X86_64Linux.default_output_name(), "a.out");
    assert_eq!(CompileTarget::X86_64Windows.default_output_name(), "a.exe");
}

#[test]
fn build_default_tracks_compile_time_target() {
    assert_eq!(CompileTarget::build_default(), CompileTarget::X86_64Linux);
}

#[test]
fn extensions_follow_the_last_component() {
    assert_eq!(artifact_path("dir.d/name", "asm"), "dir.d/name.asm");
    assert_eq!(artifact_path(".profile", "asm"), ".profile.asm");
    assert_eq!(artifact_path("a.b.c", "lst"), "a.b.lst");
    assert_eq!(artifact_path("name.", "lst"), "name.lst");
    assert_eq!(artifact_path("dir/name/", "asm"), "dir/name.asm");
    assert_eq!(artifact_path("dir/name.x/.", "asm"), "dir/name.asm");
    assert_eq!(artifact_path("dir/name.x", ""), "dir/name");
}

#[test]
fn paths_without_a_file_name_stay() {
    assert_eq!(artifact_path("", "asm"), "");
    assert_eq!(artifact_path("/", "asm"), "/");
    assert_eq!(artifact_path("..", "asm"), "..");
    assert_eq!(artifact_path("a/..", "asm"), "a/..");
    assert_eq!(artifact_path("./", "asm"), "./");
}

#[test]
fn names_read_back() {
    for mode in [
        RunMode::Dump,
        RunMode::Interpret,
        RunMode::Compile,
        RunMode::Jit,
        RunMode::Tiered,
    ] {
        assert_eq!(RunMode::parse(mode.as_str()), Some(mode));
    }
    for target in [CompileTarget::X86_64Linux, CompileTarget::X86_64Windows] {
        assert_eq!(CompileTarget::parse(target.as_str()), Some(target));
    }
    for level in [OptLevel::O0, OptLevel::O1, OptLevel::O2, OptLevel::O3] {
        assert_eq!(OptLevel::parse(level.as_str()), Some(level));
    }
    assert_eq!(RunMode::parse("Dump"), None);
    assert_eq!(CompileTarget::parse("x86_64"), None);
    assert_eq!(OptLevel::parse("4"), None);
    assert_eq!(OptLevel::default(), OptLevel::O0);
}

#[test]
fn graphical_sessions_take_the_word_behind_the_first_flag() {
    let words = |ws: &[&str]| ws.iter().map(|w| w.to_string()).collect::<Vec<String>>();
    assert_eq!(parse_opt_level(&words(&["bf-gui", "a.bf"])), OptLevel::O1);
    assert_eq!(parse_opt_level(&words(&["bf-gui", "a.bf", "-O", "3"])), OptLevel::O3);
    assert_eq!(parse_opt_level(&words(&["bf-gui", "-O", "x", "-O", "2"])), OptLevel::O1);
    assert_eq!(parse_opt_level(&words(&["bf-gui", "a.bf", "-O"])), OptLevel::O1);
}

#[test]
fn verbosity_selects_a_filter() {
    assert_eq!(
        default_targets(0).unwrap(),
        LogFilter { default: Level::Off, own: None }
    );
    assert_eq!(
        default_targets(1).unwrap(),
        LogFilter { default: Level::Warn, own: Some(Level::Info) }
    );
    assert_eq!(
        default_targets(3).unwrap(),
        LogFilter { default: Level::Info, own: Some(Level::Debug) }
    );
    let e = default_targets(5).unwrap_err();
    assert_eq!(e.describe(), "log level must be between 0 and 4, got 5");
}

#[test]
fn environment_word_overrides_the_verbosity() {
    let debug = LogFilter { default: Level::Debug, own: None };
    assert_eq!(log_targets(Some("  DeBug\t"), 0).unwrap(), debug);
    assert_eq!(log_targets(Some("\u{3000}debug\u{a0}"), 0).unwrap(), debug);
    assert_eq!(log_targets(Some("a=debug"), 4).unwrap(), debug);
    assert_eq!(
        log_targets(None, 2).unwrap(),
        LogFilter { default: Level::Warn, own: Some(Level::Debug) }
    );
    assert_eq!(filter_of_word(" debug"), None);
    assert_eq!(filter_of_word("OFF"), Some(LogFilter { default: Level::Off, own: None }));
    assert_eq!(filter_of_word(""), None);
}

#[test]
fn json_follows_the_format_and_then_the_flag() {
    assert!(json_logs_enabled(Some("JSON"), None));
    assert!(!json_logs_enabled(Some("text"), Some("1")));
    assert!(json_logs_enabled(None, Some("YES")));
    assert!(!json_logs_enabled(None, Some("Yes")));
    assert!(!json_logs_enabled(None, None));
}

#[test]
fn errors_have_their_messages() {
    let e = io_err("out/a", "write executable to", "denied".to_string());
    assert_eq!(e.describe(), "failed to write executable to out/a");
    assert_eq!(
        Error::Runtime(RuntimeError::Io("closed".to_string())).describe(),
        "io error: closed"
    );
    assert_eq!(RuntimeError::Host("x".to_string()).describe(), "host error: x");
    assert_eq!(RuntimeError::Jit("x".to_string()).describe(), "jit error: x");
    assert_eq!(Error::Jit("no page".to_string()).describe(), "no page");
    assert_eq!(Error::Other("bfsc: x".to_string()).describe(), "bfsc: x");
    let e = Error::Parse(ParseError::UnexpectedLoopEnd { pos: 3 });
    assert_eq!(e.describe(), ParseError::UnexpectedLoopEnd { pos: 3 }.describe());
}

#[test]
fn front_end_counts_operators_and_nodes() {
    let f = build_frontend("+ + a comment [->+<] .").unwrap();
    assert_eq!(f.token_count, 9);
    assert_eq!(f.ast_nodes, 3);
    assert_eq!(f.hir.insts.len(), 3);
    assert!(matches!(
        build_frontend("+]"),
        Err(Error::Parse(ParseError::UnexpectedLoopEnd { pos: 1 }))
    ));
    assert!(matches!(
        build_frontend("[+"),
        Err(Error::Parse(ParseError::UnclosedLoop { pos: 2 }))
    ));
}
