use amazingbf::cli::{
    parse_cli, parse_compiler_cli, parse_interpreter_cli, parse_number, AppConfig, Argument,
    BinKind, CliError, PathArg,
};
use amazingbf::driver::config::{CompileTarget, OptLevel, RunMode};

const HOST: CompileTarget = CompileTarget::X86_64Linux;

fn line(words: &[&str]) -> Vec<Argument> {
    let mut args = vec![Argument { text: "program".to_string(), utf8: true }];
    for w in words {
        args.push(Argument { text: w.to_string(), utf8: true });
    }
    args
}

fn full(words: &[&str]) -> Result<AppConfig, CliError> {
    parse_cli(HOST, &line(words))
}

fn path(p: &PathArg) -> &str {
    match p {
        PathArg::Text(s) => s.as_str(),
        PathArg::Raw(_) => panic!("expected a text"),
    }
}

fn refusal(r: Result<AppConfig, CliError>) -> (String, i32, bool) {
    match r {
        Ok(_) => panic!("expected a refusal"),
        Err(e) => (e.describe(), e.exit_code(), e.is_told()),
    }
}

#[test]
fn defaults_interpret_at_the_highest_tier() {
    let c = full(&["a.bf"]).ok().unwrap();
    assert_eq!(path(&c.input), "a.bf");
    assert_eq!(path(&c.output), "a.out");
    assert_eq!((c.mode, c.target), (RunMode::Interpret, HOST));
    assert_eq!(c.opt_level, OptLevel::O3);
    assert_eq!((c.interp_debug, c.jit_threshold, c.log_level), (false, None, 1));
}

#[test]
fn options_can_be_clustered_and_separate() {
    let c = full(&["-vvO1", "-mcompile", "-o", "x", "--target=x86_64-windows", "a.bf"])
        .ok()
        .unwrap();
    assert_eq!((c.mode, c.opt_level, c.log_level), (RunMode::Compile, OptLevel::O1, 3));
    assert_eq!((path(&c.output), c.target), ("x", CompileTarget::X86_64Windows));
    let c = full(&["--mode", "tiered", "--jit-threshold", "+42", "-O", "0", "-"]).ok().unwrap();
    assert_eq!((c.mode, c.jit_threshold, c.opt_level), (RunMode::Tiered, Some(42), OptLevel::O0));
    assert_eq!(path(&c.input), "-");
    let c = full(&["--target", "x86_64-windows", "--interp-debug", "--output=", "--", "-x"])
        .ok()
        .unwrap();
    assert_eq!((path(&c.input), path(&c.output), c.interp_debug), ("-x", "", true));
    assert!(!full(&["--interp-debug=false", "a"]).ok().unwrap().interp_debug);
    let c = full(&["--target", "x86_64-windows", "a"]).ok().unwrap();
    assert_eq!(path(&c.output), "a.exe");
}

#[test]
fn specialised_programs_fix_their_mode() {
    let c = parse_interpreter_cli(HOST, &line(&["a.bf"])).ok().unwrap();
    assert_eq!((c.mode, c.log_level), (RunMode::Interpret, 0));
    let c = parse_interpreter_cli(HOST, &line(&["-v", "a.bf"])).ok().unwrap();
    assert_eq!(c.log_level, 2);
    let c = parse_compiler_cli(HOST, &line(&["a.bf", "-q"])).ok().unwrap();
    assert_eq!((c.mode, c.log_level), (RunMode::Compile, 0));
    assert_eq!(
        refusal(parse_interpreter_cli(HOST, &line(&["-m", "dump"]))).0,
        "错误: 此入口不支持 `-m`"
    );
    assert_eq!(
        refusal(parse_compiler_cli(HOST, &line(&["--mode", "dump"]))).0,
        "错误: 此入口不支持 `--mode`"
    );
    assert_eq!(
        refusal(parse_interpreter_cli(HOST, &line(&["--target", "x86_64-linux"]))).0,
        "错误: `bf-interpreter` 不支持 `--target`"
    );
    assert_eq!(
        refusal(parse_compiler_cli(HOST, &line(&["--interp-debug"]))).0,
        "错误: `bf-compiler` 不支持 `--interp-debug`"
    );
    assert_eq!(
        refusal(parse_compiler_cli(HOST, &line(&["--jit-threshold", "3"]))).0,
        "错误: 未知选项 `--jit-threshold`"
    );
}

#[test]
fn help_and_version_come_first() {
    assert!(matches!(full(&["-vh"]), Err(CliError::Help(BinKind::AmazingBF))));
    assert!(matches!(full(&["--version"]), Err(CliError::Version(BinKind::AmazingBF))));
    assert_eq!(refusal(full(&["-V"])), ("version".to_string(), 0, true));
    assert_eq!(BinKind::Compiler.title(), "bf-compiler");
}

#[test]
fn wrong_command_lines_are_refused() {
    let told = |words: &[&str]| {
        let (m, code, told) = refusal(full(words));
        assert_eq!((code, told), (2, true));
        m
    };
    assert_eq!(told(&[]), "错误: 缺少输入文件（或使用 `-` 表示标准输入）");
    assert_eq!(told(&["a", "b"]), "错误: 多余的输入路径（只接受一个 FILE）");
    assert_eq!(told(&["-o"]), "错误: `-o` 需要参数");
    assert_eq!(told(&["--mode"]), "错误: `--mode` 需要参数");
    assert_eq!(told(&["-mrun", "a"]), "错误: 无效的运行模式 `run`");
    assert_eq!(told(&["-O9", "a"]), "错误: 无效的优化级别 `9`（应为 0、1、2 或 3）");
    assert_eq!(told(&["--target=arm", "a"]), "错误: 无效的编译目标 `arm`");
    assert_eq!(
        told(&["--jit-threshold=-1", "a"]),
        "错误: 无效的 `--jit-threshold` 值 `-1`（须为非负整数）"
    );
    assert_eq!(told(&["-x"]), "错误: 未知短选项 `-x`");
    assert_eq!(told(&["--nope=1"]), "错误: 未知选项 `--nope`");
}

#[test]
fn silence_is_kept() {
    assert_eq!(refusal(full(&["-x", "-q"])), ("错误: 未知短选项 `-x`".to_string(), 2, false));
    assert_eq!(
        refusal(full(&["-q", "-v", "a"])),
        ("错误: 不能同时使用 `-q` 与 `-v`".to_string(), 2, false)
    );
    assert_eq!(
        refusal(full(&["-vvvv", "a"])),
        ("错误: 详细级别最多为 3（即 -vvv）".to_string(), 1, true)
    );
}

#[test]
fn words_that_are_not_text_are_paths() {
    let mut args = line(&["-o"]);
    args.push(Argument { text: "out\u{fffd}".to_string(), utf8: false });
    args.push(Argument { text: "-\u{fffd}".to_string(), utf8: false });
    let c = parse_cli(HOST, &args).ok().unwrap();
    assert!(matches!(c.output, PathArg::Raw(2)));
    assert!(matches!(c.input, PathArg::Raw(3)));
    let mut args = line(&["--output"]);
    args.push(Argument { text: "out\u{fffd}".to_string(), utf8: false });
    assert_eq!(refusal(parse_cli(HOST, &args)).0, "错误: `--output` 路径须为有效 UTF-8");
}

#[test]
fn unreadable_sources_are_told() {
    let e = CliError::Io { path: "a.bf".to_string(), source: "gone".to_string() };
    assert_eq!(e.describe(), "错误: 无法读取源 `a.bf`: gone");
    assert_eq!((e.exit_code(), e.is_told()), (1, true));
}

#[test]
fn numbers_are_digits_with_an_optional_plus() {
    assert_eq!(parse_number("0"), Some(0));
    assert_eq!(parse_number("+18446744073709551615"), Some(u64::MAX));
    assert_eq!(parse_number("18446744073709551616"), None);
    assert_eq!(parse_number("99999999999999999999999"), None);
    assert_eq!(parse_number(""), None);
    assert_eq!(parse_number("+"), None);
    assert_eq!(parse_number("1_0"), None);
}

#[test]
fn the_threshold_is_an_option_of_linux_alone() {
    let words = line(&["--jit-threshold=42", "a.bf"]);
    assert_eq!(parse_cli(HOST, &words).ok().unwrap().jit_threshold, Some(42));
    assert_eq!(
        refusal(parse_cli(CompileTarget::X86_64Windows, &words)),
        ("错误: 未知选项 `--jit-threshold`".to_string(), 2, true)
    );
}
