//! The command line of the toolchain's programs.
//!
//! The programs share one grammar. The full program takes every option; the
//! interpreter and the compiler have their mode fixed and refuse the options
//! that make no sense for them.

use vstd::prelude::*;

use crate::driver::config::{level_of, mode_of, output_name, target_of};
use crate::driver::config::{CompileTarget, OptLevel, RunMode};
use crate::text::begins_with;
use crate::text::{chars_of, joined, owned, same_text, string_of};

verus! {

/// Which program reads its command line.
#[derive(Clone, Copy, Debug, PartialEq, Eq)]
pub enum BinKind {
    /// The full driver.
    AmazingBF,
    /// The interpreter.
    Interpreter,
    /// The compiler.
    Compiler,
}

/// The program's name.
pub open spec fn title_of(k: BinKind) -> Seq<char> {
    match k {
        BinKind::AmazingBF => "AmazingBF"@,
        BinKind::Interpreter => "bf-interpreter"@,
        BinKind::Compiler => "bf-compiler"@,
    }
}

impl BinKind {
    /// The program's name.
    pub fn title(self) -> (s: &'static str)
        ensures
            s@ == title_of(self),
    {
        match self {
            BinKind::AmazingBF => "AmazingBF",
            BinKind::Interpreter => "bf-interpreter",
            BinKind::Compiler => "bf-compiler",
        }
    }
}

/// One word of a command line. A word that is not UTF-8 has its faulty parts
/// replaced in `text`.
pub struct Argument {
    /// The characters.
    pub text: String,
    /// Whether the word is UTF-8, so that `text` is all of it.
    pub utf8: bool,
}

/// The model of [`Argument`].
pub struct Word {
    /// The characters.
    pub text: Seq<char>,
    /// Whether the word is UTF-8.
    pub utf8: bool,
}

/// A path from the command line.
pub enum PathArg {
    /// This text.
    Text(String),
    /// The word at this index, as it stands.
    Raw(usize),
}

/// The model of [`PathArg`].
pub enum Place {
    /// This text.
    Text(Seq<char>),
    /// The word at this index, as it stands.
    Raw(int),
}

impl View for PathArg {
    type V = Place;

    open spec fn view(&self) -> Place {
        match self {
            PathArg::Text(s) => Place::Text(s@),
            PathArg::Raw(i) => Place::Raw(*i as int),
        }
    }
}

/// The model of an optional path.
pub open spec fn place_view(p: Option<PathArg>) -> Option<Place> {
    match p {
        Some(path) => Some(path@),
        None => None,
    }
}

/// The model of a whole command line.
pub open spec fn line_view(args: Seq<Argument>) -> Seq<Word> {
    args.map_values(|a: Argument| Word { text: a.text@, utf8: a.utf8 })
}

/// Why a command line starts no run.
#[derive(Debug)]
pub enum CliError {
    /// The help text is asked for.
    Help(BinKind),
    /// The version is asked for.
    Version(BinKind),
    /// The command line is wrong.
    Usage {
        /// What is wrong with it.
        message: String,
        /// Whether to keep silent about it.
        quiet: bool,
    },
    /// A value is out of range.
    Message {
        /// What is wrong.
        message: String,
        /// Whether to keep silent about it.
        quiet: bool,
        /// The exit code of the program.
        exit_code: i32,
    },
    /// The source could not be read.
    Io {
        /// Its path.
        path: String,
        /// What the system said.
        source: String,
    },
}

/// The model of [`CliError`].
pub enum Refusal {
    /// The help text is asked for.
    Help(BinKind),
    /// The version is asked for.
    Version(BinKind),
    /// The command line is wrong.
    Usage(Seq<char>, bool),
    /// A value is out of range.
    Message(Seq<char>, bool, int),
    /// The source could not be read.
    Io(Seq<char>, Seq<char>),
}

impl View for CliError {
    type V = Refusal;

    open spec fn view(&self) -> Refusal {
        match self {
            CliError::Help(k) => Refusal::Help(*k),
            CliError::Version(k) => Refusal::Version(*k),
            CliError::Usage { message, quiet } => Refusal::Usage(message@, *quiet),
            CliError::Message { message, quiet, exit_code } => Refusal::Message(
                message@,
                *quiet,
                *exit_code as int,
            ),
            CliError::Io { path, source } => Refusal::Io(path@, source@),
        }
    }
}

impl Refusal {
    /// The text of the refusal.
    pub open spec fn message(self) -> Seq<char> {
        match self {
            Refusal::Help(_) => "help"@,
            Refusal::Version(_) => "version"@,
            Refusal::Usage(m, _) => m,
            Refusal::Message(m, _, _) => m,
            Refusal::Io(path, source) => "错误: 无法读取源 `"@ + path + "`: "@ + source,
        }
    }

    /// The exit code of a program that is refused its run.
    pub open spec fn exit_code(self) -> int {
        match self {
            Refusal::Help(_) => 0,
            Refusal::Version(_) => 0,
            Refusal::Usage(_, _) => 2,
            Refusal::Message(_, _, code) => code,
            Refusal::Io(_, _) => 1,
        }
    }

    /// Whether the refusal is told to the user.
    pub open spec fn is_told(self) -> bool {
        match self {
            Refusal::Usage(_, quiet) => !quiet,
            Refusal::Message(_, quiet, _) => !quiet,
            _ => true,
        }
    }
}

impl CliError {
    /// The text of the refusal.
    pub fn describe(&self) -> (s: String)
        ensures
            s@ == self@.message(),
    {
        match self {
            CliError::Help(_) => owned("help"),
            CliError::Version(_) => owned("version"),
            CliError::Usage { message, quiet } => owned(message.as_str()),
            CliError::Message { message, quiet, exit_code } => owned(message.as_str()),
            CliError::Io { path, source } => {
                let mut s = joined("错误: 无法读取源 `", path.as_str(), "`: ");
                s.append(source.as_str());
                s
            },
        }
    }

    /// The exit code of the program.
    pub fn exit_code(&self) -> (n: i32)
        ensures
            n == self@.exit_code(),
    {
        match self {
            CliError::Help(_) => 0,
            CliError::Version(_) => 0,
            CliError::Usage { message, quiet } => 2,
            CliError::Message { message, quiet, exit_code } => *exit_code,
            CliError::Io { path, source } => 1,
        }
    }

    /// Whether the refusal is told to the user.
    pub fn is_told(&self) -> (r: bool)
        ensures
            r == self@.is_told(),
    {
        match self {
            CliError::Usage { message, quiet } => !*quiet,
            CliError::Message { message, quiet, exit_code } => !*quiet,
            _ => true,
        }
    }
}

/// What the options of a command line have set.
pub struct PartialCore {
    /// Path of the source.
    pub input: Option<PathArg>,
    /// Path of the executable.
    pub output: Option<PathArg>,
    /// How often more detail was asked for.
    pub verbose: u8,
    /// Whether no log was asked for.
    pub quiet: bool,
    /// Optimisation tier.
    pub opt_level: OptLevel,
    /// What to do.
    pub mode: RunMode,
    /// Platform of the executable.
    pub target: CompileTarget,
    /// Whether to report on the tape.
    pub interp_debug: bool,
    /// Trip count of a hot loop.
    pub jit_threshold: Option<u64>,
}

/// The model of [`PartialCore`].
pub struct Core {
    /// Path of the source.
    pub input: Option<Place>,
    /// Path of the executable.
    pub output: Option<Place>,
    /// How often more detail was asked for.
    pub verbose: u8,
    /// Whether no log was asked for.
    pub quiet: bool,
    /// Optimisation tier.
    pub opt_level: OptLevel,
    /// What to do.
    pub mode: RunMode,
    /// Platform of the executable.
    pub target: CompileTarget,
    /// Whether to report on the tape.
    pub interp_debug: bool,
    /// Trip count of a hot loop.
    pub jit_threshold: Option<u64>,
}

impl View for PartialCore {
    type V = Core;

    open spec fn view(&self) -> Core {
        Core {
            input: place_view(self.input),
            output: place_view(self.output),
            verbose: self.verbose,
            quiet: self.quiet,
            opt_level: self.opt_level,
            mode: self.mode,
            target: self.target,
            interp_debug: self.interp_debug,
            jit_threshold: self.jit_threshold,
        }
    }
}

/// The settings of a run that a command line asks for.
pub struct AppConfig {
    /// Where the source is; `-` is the standard input.
    pub input: PathArg,
    /// What to do.
    pub mode: RunMode,
    /// Platform of the executable.
    pub target: CompileTarget,
    /// Where the executable goes.
    pub output: PathArg,
    /// Whether to report on the tape.
    pub interp_debug: bool,
    /// Optimisation tier.
    pub opt_level: OptLevel,
    /// Trip count of a hot loop.
    pub jit_threshold: Option<u64>,
    /// Verbosity, from nothing at 0 to everything at 4.
    pub log_level: u8,
}

/// The model of [`AppConfig`].
pub struct Plan {
    /// Where the source is.
    pub input: Place,
    /// What to do.
    pub mode: RunMode,
    /// Platform of the executable.
    pub target: CompileTarget,
    /// Where the executable goes.
    pub output: Place,
    /// Whether to report on the tape.
    pub interp_debug: bool,
    /// Optimisation tier.
    pub opt_level: OptLevel,
    /// Trip count of a hot loop.
    pub jit_threshold: Option<u64>,
    /// Verbosity.
    pub log_level: int,
}

impl View for AppConfig {
    type V = Plan;

    open spec fn view(&self) -> Plan {
        Plan {
            input: self.input@,
            mode: self.mode,
            target: self.target,
            output: self.output@,
            interp_debug: self.interp_debug,
            opt_level: self.opt_level,
            jit_threshold: self.jit_threshold,
            log_level: self.log_level as int,
        }
    }
}

/// Whether a word is a path: `-`, what is not UTF-8, and what does not begin
/// with a dash.
pub open spec fn is_path(w: Word) -> bool {
    w.text == "-"@ || !w.utf8 || !(w.text.len() > 0 && w.text[0] == '-')
}

/// Whether a command line asks for silence, wherever it says so.
pub open spec fn asks_quiet(line: Seq<Word>) -> bool {
    exists|i: int|
        0 <= i < line.len() && (#[trigger] line[i].text == "-q"@ || line[i].text == "--quiet"@)
}

/// The path that the word at `i` gives.
pub open spec fn place_at(line: Seq<Word>, i: int) -> Place {
    if line[i].utf8 {
        Place::Text(line[i].text)
    } else {
        Place::Raw(i)
    }
}

/// A complaint about a command line.
pub open spec fn complaint(line: Seq<Word>, message: Seq<char>) -> Refusal {
    Refusal::Usage(message, asks_quiet(line))
}

/// The complaint about an option that lacks its value.
pub open spec fn lacks_value(line: Seq<Word>, flag: Seq<char>) -> Refusal {
    complaint(line, "错误: `"@ + flag + "` 需要参数"@)
}

/// What a word that is no tier is answered.
pub open spec fn no_level(raw: Seq<char>) -> Seq<char> {
    "错误: 无效的优化级别 `"@ + raw + "`（应为 0、1、2 或 3）"@
}

/// What a word that is no mode is answered.
pub open spec fn no_mode(raw: Seq<char>) -> Seq<char> {
    "错误: 无效的运行模式 `"@ + raw + "`"@
}

/// What a word that is no target is answered.
pub open spec fn no_target(raw: Seq<char>) -> Seq<char> {
    "错误: 无效的编译目标 `"@ + raw + "`"@
}

/// What a word that is no threshold is answered.
pub open spec fn no_threshold(raw: Seq<char>) -> Seq<char> {
    "错误: 无效的 `--jit-threshold` 值 `"@ + raw + "`（须为非负整数）"@
}

/// `n` more than `v`, without passing the greatest byte.
pub open spec fn saturated(v: u8) -> u8 {
    if v == 255 {
        v
    } else {
        (v + 1) as u8
    }
}

/// Whether every character of `s` is a decimal digit.
pub open spec fn all_digits(s: Seq<char>) -> bool {
    forall|i: int| 0 <= i < s.len() ==> '0' <= #[trigger] s[i] <= '9'
}

/// The number that the first `n` digits of `s` write.
pub open spec fn digits_value(s: Seq<char>, n: int) -> int
    decreases n,
{
    if n <= 0 {
        0
    } else {
        digits_value(s, n - 1) * 10 + (s[n - 1] as int - '0' as int)
    }
}

/// The number that `s` writes: digits, with an optional plus sign in front,
/// that come to at most `u64::MAX`.
pub open spec fn number_of(s: Seq<char>) -> Option<u64> {
    let d = if s.len() > 0 && s[0] == '+' {
        s.skip(1)
    } else {
        s
    };
    if d.len() > 0 && all_digits(d) && digits_value(d, d.len() as int) <= u64::MAX {
        Some(digits_value(d, d.len() as int) as u64)
    } else {
        None
    }
}

/// What a value of a short option is: the rest of its cluster, or the next
/// word, which is then used up.
pub open spec fn short_value(
    line: Seq<Word>,
    i: int,
    tail: Seq<char>,
    flag: Seq<char>,
) -> Result<(Seq<char>, nat), Refusal> {
    if tail.len() > 0 {
        Ok((tail, 0))
    } else if i + 1 < line.len() {
        Ok((line[i + 1].text, 1))
    } else {
        Err(lacks_value(line, flag))
    }
}

/// What the short options `cluster[k..]`, which stand in word `i`, make of
/// `core`, with the number of further words that they use up.
pub open spec fn short_options(
    k: BinKind,
    line: Seq<Word>,
    i: int,
    cluster: Seq<char>,
    at: int,
    core: Core,
) -> Result<(Core, nat), Refusal>
    decreases cluster.len() - at,
{
    if at < 0 || at >= cluster.len() {
        Ok((core, 0))
    } else {
        let c = cluster[at];
        let tail = cluster.skip(at + 1);
        if c == 'h' {
            Err(Refusal::Help(k))
        } else if c == 'V' {
            Err(Refusal::Version(k))
        } else if c == 'v' {
            short_options(
                k,
                line,
                i,
                cluster,
                at + 1,
                Core { verbose: saturated(core.verbose), ..core },
            )
        } else if c == 'q' {
            short_options(k, line, i, cluster, at + 1, Core { quiet: true, ..core })
        } else if c == 'm' {
            if k != BinKind::AmazingBF {
                Err(complaint(line, "错误: 此入口不支持 `-m`"@))
            } else {
                match short_value(line, i, tail, "-m"@) {
                    Ok((raw, n)) => match mode_of(raw) {
                        Some(m) => Ok((Core { mode: m, ..core }, n)),
                        None => Err(complaint(line, no_mode(raw))),
                    },
                    Err(e) => Err(e),
                }
            }
        } else if c == 'o' {
            if tail.len() > 0 {
                Ok((Core { output: Some(Place::Text(tail)), ..core }, 0))
            } else if i + 1 < line.len() {
                Ok((Core { output: Some(place_at(line, i + 1)), ..core }, 1))
            } else {
                Err(lacks_value(line, "-o"@))
            }
        } else if c == 'O' {
            match short_value(line, i, tail, "-O"@) {
                Ok((raw, n)) => match level_of(raw) {
                    Some(l) => Ok((Core { opt_level: l, ..core }, n)),
                    None => Err(complaint(line, no_level(raw))),
                },
                Err(e) => Err(e),
            }
        } else {
            Err(complaint(line, "错误: 未知短选项 `-"@ + seq![c] + "`"@))
        }
    }
}

/// What the short options `cluster[k..]` leave of `core` where one of them is
/// refused: those in front of it have been taken.
pub open spec fn short_left_over(cluster: Seq<char>, at: int, core: Core) -> Core
    decreases cluster.len() - at,
{
    if at < 0 || at >= cluster.len() {
        core
    } else if cluster[at] == 'v' {
        short_left_over(cluster, at + 1, Core { verbose: saturated(core.verbose), ..core })
    } else if cluster[at] == 'q' {
        short_left_over(cluster, at + 1, Core { quiet: true, ..core })
    } else {
        core
    }
}

/// What the options of a word leave of `core` where one of them is refused.
pub open spec fn left_over(text: Seq<char>, core: Core) -> Core {
    if begins_with(text, "--"@) {
        core
    } else {
        short_left_over(text.skip(1), 0, core)
    }
}

/// What a value of a long option is: the text behind `=`, or the next word,
/// which must be UTF-8 and is then used up.
pub open spec fn long_value(
    line: Seq<Word>,
    i: int,
    value: Option<Seq<char>>,
    flag: Seq<char>,
    not_utf8: Seq<char>,
) -> Result<(Seq<char>, nat), Refusal> {
    match value {
        Some(v) => Ok((v, 0)),
        None => if i + 1 >= line.len() {
            Err(lacks_value(line, flag))
        } else if !line[i + 1].utf8 {
            Err(complaint(line, not_utf8))
        } else {
            Ok((line[i + 1].text, 1))
        },
    }
}

/// The long options that a program refuses in words of their own.
pub open spec fn refused(k: BinKind, name: Seq<char>) -> Option<Seq<char>> {
    if name == "mode"@ && k != BinKind::AmazingBF {
        Some("错误: 此入口不支持 `--mode`"@)
    } else if name == "target"@ && k == BinKind::Interpreter {
        Some("错误: `bf-interpreter` 不支持 `--target`"@)
    } else if name == "interp-debug"@ && k == BinKind::Compiler {
        Some("错误: `bf-compiler` 不支持 `--interp-debug`"@)
    } else {
        None
    }
}

/// What the long option `name`, which stands in word `i` and is not refused,
/// makes of `core`, with the number of further words that it uses up.
pub open spec fn long_option(
    k: BinKind,
    host: CompileTarget,
    line: Seq<Word>,
    i: int,
    name: Seq<char>,
    value: Option<Seq<char>>,
    core: Core,
) -> Result<(Core, nat), Refusal> {
    if name == "help"@ {
        Err(Refusal::Help(k))
    } else if name == "version"@ {
        Err(Refusal::Version(k))
    } else if name == "verbose"@ {
        Ok((Core { verbose: saturated(core.verbose), ..core }, 0))
    } else if name == "quiet"@ {
        Ok((Core { quiet: true, ..core }, 0))
    } else if name == "output"@ {
        match long_value(line, i, value, "--output"@, "错误: `--output` 路径须为有效 UTF-8"@) {
            Ok((raw, n)) => Ok((Core { output: Some(Place::Text(raw)), ..core }, n)),
            Err(e) => Err(e),
        }
    } else if name == "opt-level"@ {
        match long_value(line, i, value, "--opt-level"@, "错误: `--opt-level` 参数须为有效 UTF-8"@) {
            Ok((raw, n)) => match level_of(raw) {
                Some(l) => Ok((Core { opt_level: l, ..core }, n)),
                None => Err(complaint(line, no_level(raw))),
            },
            Err(e) => Err(e),
        }
    } else if name == "mode"@ && k == BinKind::AmazingBF {
        match long_value(line, i, value, "--mode"@, "错误: `--mode` 参数须为有效 UTF-8"@) {
            Ok((raw, n)) => match mode_of(raw) {
                Some(m) => Ok((Core { mode: m, ..core }, n)),
                None => Err(complaint(line, no_mode(raw))),
            },
            Err(e) => Err(e),
        }
    } else if name == "target"@ && k != BinKind::Interpreter {
        match long_value(line, i, value, "--target"@, "错误: `--target` 参数须为有效 UTF-8"@) {
            Ok((raw, n)) => match target_of(raw) {
                Some(t) => Ok((Core { target: t, ..core }, n)),
                None => Err(complaint(line, no_target(raw))),
            },
            Err(e) => Err(e),
        }
    } else if name == "interp-debug"@ && k != BinKind::Compiler {
        Ok((Core { interp_debug: value != Some("false"@), ..core }, 0))
    } else if name == "jit-threshold"@ && k == BinKind::AmazingBF && host == CompileTarget::X86_64Linux {
        match long_value(
            line,
            i,
            value,
            "--jit-threshold"@,
            "错误: `--jit-threshold` 参数须为有效 UTF-8"@,
        ) {
            Ok((raw, n)) => match number_of(raw) {
                Some(v) => Ok((Core { jit_threshold: Some(v), ..core }, n)),
                None => Err(complaint(line, no_threshold(raw))),
            },
            Err(e) => Err(e),
        }
    } else {
        Err(complaint(line, "错误: 未知选项 `--"@ + name + "`"@))
    }
}

/// Position of the first `=` of `s[at..]`; the length where there is none.
pub open spec fn equals_at(s: Seq<char>, at: int) -> int
    decreases s.len() - at,
{
    if at < 0 || at >= s.len() {
        s.len() as int
    } else if s[at] == '=' {
        at
    } else {
        equals_at(s, at + 1)
    }
}

/// The name in a long option without its dashes.
pub open spec fn option_name(s: Seq<char>) -> Seq<char> {
    s.take(equals_at(s, 0))
}

/// The value in a long option without its dashes.
pub open spec fn option_value(s: Seq<char>) -> Option<Seq<char>> {
    if equals_at(s, 0) < s.len() {
        Some(s.skip(equals_at(s, 0) + 1))
    } else {
        None
    }
}

/// What the options in word `i` make of `core`, with the number of further
/// words that they use up.
pub open spec fn options(
    k: BinKind,
    host: CompileTarget,
    line: Seq<Word>,
    i: int,
    core: Core,
) -> Result<(Core, nat), Refusal> {
    let text = line[i].text;
    if begins_with(text, "--"@) {
        let rest = text.skip(2);
        match refused(k, option_name(rest)) {
            Some(m) => Err(complaint(line, m)),
            None => long_option(k, host, line, i, option_name(rest), option_value(rest), core),
        }
    } else {
        short_options(k, line, i, text.skip(1), 0, core)
    }
}

/// What the words from `i` on make of `core`. Behind a lone `--` every word
/// is a path.
pub open spec fn walked(
    k: BinKind,
    host: CompileTarget,
    line: Seq<Word>,
    i: int,
    paths_only: bool,
    core: Core,
) -> Result<
    Core,
    Refusal,
>
    decreases
            if i < line.len() {
                line.len() - i
            } else {
                0
            },
{
    if i < 0 || i >= line.len() {
        Ok(core)
    } else if paths_only || is_path(line[i]) {
        if core.input is Some {
            Err(complaint(line, "错误: 多余的输入路径（只接受一个 FILE）"@))
        } else {
            walked(k, host, line, i + 1, paths_only, Core { input: Some(place_at(line, i)), ..core })
        }
    } else if line[i].text == "--"@ {
        walked(k, host, line, i + 1, true, core)
    } else {
        match options(k, host, line, i, core) {
            Ok((c, n)) => walked(k, host, line, i + 1 + n, paths_only, c),
            Err(e) => Err(e),
        }
    }
}

/// What holds before any option: interpret with the highest tier.
pub open spec fn no_options(host: CompileTarget) -> Core {
    Core {
        input: None,
        output: None,
        verbose: 0,
        quiet: false,
        opt_level: OptLevel::O3,
        mode: RunMode::Interpret,
        target: host,
        interp_debug: false,
        jit_threshold: None,
    }
}

/// The settings that a program makes of its options.
pub open spec fn settled(k: BinKind, host: CompileTarget, core: Core) -> Result<Plan, Refusal> {
    let target = if k == BinKind::Interpreter {
        host
    } else {
        core.target
    };
    if core.verbose > 3 {
        Err(Refusal::Message("错误: 详细级别最多为 3（即 -vvv）"@, core.quiet, 1))
    } else {
        match core.input {
            None => Err(
                Refusal::Usage("错误: 缺少输入文件（或使用 `-` 表示标准输入）"@, core.quiet),
            ),
            Some(input) => Ok(
                Plan {
                    input,
                    mode: match k {
                        BinKind::AmazingBF => core.mode,
                        BinKind::Interpreter => RunMode::Interpret,
                        BinKind::Compiler => RunMode::Compile,
                    },
                    target,
                    output: match core.output {
                        Some(p) => p,
                        None => Place::Text(output_name(target)),
                    },
                    interp_debug: if k == BinKind::Compiler {
                        false
                    } else {
                        core.interp_debug
                    },
                    opt_level: core.opt_level,
                    jit_threshold: core.jit_threshold,
                    log_level: if core.quiet {
                        0
                    } else {
                        core.verbose + 1
                    },
                },
            ),
        }
    }
}

/// What a command line, whose first word is the program's own name, comes to.
/// The interpreter is silent unless it is asked for detail.
pub open spec fn parsed(k: BinKind, host: CompileTarget, line: Seq<Word>) -> Result<Plan, Refusal> {
    match walked(k, host, line, 1, false, no_options(host)) {
        Err(e) => Err(e),
        Ok(core) => if core.quiet && core.verbose > 0 {
            Err(Refusal::Usage("错误: 不能同时使用 `-q` 与 `-v`"@, true))
        } else if k == BinKind::Interpreter && core.verbose == 0 {
            settled(k, host, Core { quiet: true, ..core })
        } else {
            settled(k, host, core)
        },
    }
}

/// The number that `text` writes.
pub fn parse_number(text: &str) -> (r: Option<u64>)
    ensures
        r == number_of(text@),
{
    let s = chars_of(text);
    let from: usize = if s.len() > 0 && s[0] == '+' {
        1
    } else {
        0
    };
    let ghost d = s@.skip(from as int);
    assert(from == 0 ==> d =~= s@);
    if from == s.len() {
        return None;
    }
    let mut i: usize = from;
    let mut v: u64 = 0;
    let mut over: bool = false;
    while i < s.len()
        invariant
            from <= i <= s.len(),
            s@ == text@,
            d == s@.skip(from as int),
            d == if s@.len() > 0 && s@[0] == '+' {
                s@.skip(1)
            } else {
                s@
            },
            forall|j: int| 0 <= j < i - from ==> '0' <= #[trigger] d[j] <= '9',
            over ==> digits_value(d, i - from) > u64::MAX,
            !over ==> v == digits_value(d, i - from),
        decreases s.len() - i,
    {
        let c = s[i];
        assert(d[i - from] == c);
        if c < '0' || c > '9' {
            assert(!all_digits(d));
            return None;
        }
        let digit: u64 = (c as u32 - '0' as u32) as u64;
        assert(digits_value(d, i + 1 - from) == digits_value(d, i - from) * 10 + digit);
        if !over {
            let next: u128 = v as u128 * 10 + digit as u128;
            if next > u64::MAX as u128 {
                over = true;
            } else {
                v = next as u64;
            }
        }
        i += 1;
    }
    assert(all_digits(d));
    if over {
        None
    } else {
        Some(v)
    }
}

/// Whether a word is a path.
fn is_positional(a: &Argument) -> (r: bool)
    ensures
        r == is_path(Word { text: a.text@, utf8: a.utf8 }),
{
    if same_text(a.text.as_str(), "-") || !a.utf8 {
        return true;
    }
    let c = chars_of(a.text.as_str());
    !(c.len() > 0 && c[0] == '-')
}

/// Whether a command line asks for silence, wherever it says so.
fn quiet_requested(args: &Vec<Argument>) -> (r: bool)
    ensures
        r == asks_quiet(line_view(args@)),
{
    let ghost line = line_view(args@);
    let mut i: usize = 0;
    while i < args.len()
        invariant
            i <= args.len(),
            line == line_view(args@),
            forall|j: int|
                0 <= j < i ==> #[trigger] line[j].text != "-q"@ && line[j].text != "--quiet"@,
        decreases args.len() - i,
    {
        assert(line[i as int].text == args@[i as int].text@);
        if same_text(args[i].text.as_str(), "-q") || same_text(args[i].text.as_str(), "--quiet") {
            return true;
        }
        i += 1;
    }
    false
}

/// A complaint about a command line.
fn usage(args: &Vec<Argument>, message: String) -> (e: CliError)
    ensures
        e@ == complaint(line_view(args@), message@),
{
    CliError::Usage { message, quiet: quiet_requested(args) }
}

/// The complaint about an option that lacks its value.
fn no_value(args: &Vec<Argument>, flag: &str) -> (e: CliError)
    ensures
        e@ == lacks_value(line_view(args@), flag@),
{
    usage(args, joined("错误: `", flag, "` 需要参数"))
}

/// The path that the word at `i` gives.
fn path_at(args: &Vec<Argument>, i: usize) -> (p: PathArg)
    requires
        i < args.len(),
    ensures
        p@ == place_at(line_view(args@), i as int),
{
    assert(line_view(args@)[i as int].text == args@[i as int].text@);
    if args[i].utf8 {
        PathArg::Text(owned(args[i].text.as_str()))
    } else {
        PathArg::Raw(i)
    }
}

/// The value of a short option.
fn take_short(
    args: &Vec<Argument>,
    i: usize,
    cluster: &Vec<char>,
    from: usize,
    flag: &str,
) -> (r: Result<(String, usize), CliError>)
    requires
        i < args.len(),
        from <= cluster.len(),
    ensures
        match short_value(line_view(args@), i as int, cluster@.skip(from as int), flag@) {
            Ok((raw, n)) => r is Ok && r->Ok_0.0@ == raw && r->Ok_0.1 == n,
            Err(e) => r is Err && r->Err_0@ == e,
        },
        r is Ok ==> i + r->Ok_0.1 < args.len(),
{
    if from < cluster.len() {
        assert(cluster@.skip(from as int) =~= cluster@.subrange(from as int, cluster.len() as int));
        return Ok((string_of(cluster, from, cluster.len()), 0));
    }
    if args.len() - i < 2 {
        return Err(no_value(args, flag));
    }
    assert(line_view(args@)[i + 1].text == args@[i + 1].text@);
    Ok((owned(args[i + 1].text.as_str()), 1))
}

/// Take the tier `raw`.
fn take_level(args: &Vec<Argument>, raw: &str, core: &mut PartialCore) -> (r: Result<(), CliError>)
    ensures
        match level_of(raw@) {
            Some(l) => r is Ok && final(core)@ == (Core { opt_level: l, ..old(core)@ }),
            None => r is Err && r->Err_0@ == complaint(line_view(args@), no_level(raw@))
                && final(core)@ == old(core)@,
        },
{
    match OptLevel::parse(raw) {
        Some(l) => {
            core.opt_level = l;
            Ok(())
        },
        None => Err(
            usage(args, joined("错误: 无效的优化级别 `", raw, "`（应为 0、1、2 或 3）")),
        ),
    }
}

/// Take the mode `raw`.
fn take_mode(args: &Vec<Argument>, raw: &str, core: &mut PartialCore) -> (r: Result<(), CliError>)
    ensures
        match mode_of(raw@) {
            Some(m) => r is Ok && final(core)@ == (Core { mode: m, ..old(core)@ }),
            None => r is Err && r->Err_0@ == complaint(line_view(args@), no_mode(raw@))
                && final(core)@ == old(core)@,
        },
{
    match RunMode::parse(raw) {
        Some(m) => {
            core.mode = m;
            Ok(())
        },
        None => Err(usage(args, joined("错误: 无效的运行模式 `", raw, "`"))),
    }
}

/// One more than `v`, without passing the greatest byte.
fn saturating_next(v: u8) -> (r: u8)
    ensures
        r == saturated(v),
{
    if v == 255 {
        v
    } else {
        v + 1
    }
}

/// Take the short options of word `i`, and tell how many further words they
/// use up.
fn parse_short_cluster(
    kind: BinKind,
    args: &Vec<Argument>,
    i: usize,
    cluster: &Vec<char>,
    core: &mut PartialCore,
) -> (r: Result<usize, CliError>)
    requires
        i < args.len(),
    ensures
        match short_options(kind, line_view(args@), i as int, cluster@, 0, old(core)@) {
            Ok((c, n)) => r is Ok && r->Ok_0 == n && final(core)@ == c,
            Err(e) => r is Err && r->Err_0@ == e && final(core)@ == short_left_over(
                cluster@,
                0,
                old(core)@,
            ),
        },
        r is Ok ==> i + r->Ok_0 < args.len(),
{
    let ghost line = line_view(args@);
    let ghost goal = short_options(kind, line, i as int, cluster@, 0, core@);
    let mut at: usize = 0;
    while at < cluster.len()
        invariant
            at <= cluster.len(),
            i < args.len(),
            line == line_view(args@),
            goal == short_options(kind, line, i as int, cluster@, 0, old(core)@),
            goal == short_options(kind, line, i as int, cluster@, at as int, core@),
            short_left_over(cluster@, 0, old(core)@) == short_left_over(
                cluster@,
                at as int,
                core@,
            ),
        decreases cluster.len() - at,
    {
        let c = cluster[at];
        match c {
            'h' => {
                return Err(CliError::Help(kind));
            },
            'V' => {
                return Err(CliError::Version(kind));
            },
            'v' => {
                core.verbose = saturating_next(core.verbose);
            },
            'q' => {
                core.quiet = true;
            },
            'm' => {
                match kind {
                    BinKind::AmazingBF => {},
                    _ => {
                        return Err(usage(args, owned("错误: 此入口不支持 `-m`")));
                    },
                }
                let (raw, n) = match take_short(args, i, cluster, at + 1, "-m") {
                    Ok(v) => v,
                    Err(e) => {
                        return Err(e);
                    },
                };
                return match take_mode(args, raw.as_str(), core) {
                    Ok(_) => Ok(n),
                    Err(e) => Err(e),
                };
            },
            'o' => {
                if at + 1 < cluster.len() {
                    assert(cluster@.skip(at + 1) =~= cluster@.subrange(
                        at + 1,
                        cluster.len() as int,
                    ));
                    core.output = Some(PathArg::Text(string_of(cluster, at + 1, cluster.len())));
                    return Ok(0);
                }
                if args.len() - i < 2 {
                    return Err(no_value(args, "-o"));
                }
                core.output = Some(path_at(args, i + 1));
                return Ok(1);
            },
            'O' => {
                let (raw, n) = match take_short(args, i, cluster, at + 1, "-O") {
                    Ok(v) => v,
                    Err(e) => {
                        return Err(e);
                    },
                };
                return match take_level(args, raw.as_str(), core) {
                    Ok(_) => Ok(n),
                    Err(e) => Err(e),
                };
            },
            _ => {
                let mut m = owned("错误: 未知短选项 `-");
                m.push(c);
                m.append("`");
                assert(m@ =~= "错误: 未知短选项 `-"@ + seq![c] + "`"@);
                return Err(usage(args, m));
            },
        }
        at += 1;
    }
    Ok(0)
}

/// The value of a long option.
fn take_long(
    args: &Vec<Argument>,
    i: usize,
    value: &Option<String>,
    flag: &str,
    not_utf8: &str,
) -> (r: Result<(String, usize), CliError>)
    requires
        i < args.len(),
    ensures
        match long_value(line_view(args@), i as int, value_view(*value), flag@, not_utf8@) {
            Ok((raw, n)) => r is Ok && r->Ok_0.0@ == raw && r->Ok_0.1 == n,
            Err(e) => r is Err && r->Err_0@ == e,
        },
        r is Ok ==> i + r->Ok_0.1 < args.len(),
{
    match value {
        Some(v) => Ok((owned(v.as_str()), 0)),
        None => {
            if args.len() - i < 2 {
                return Err(no_value(args, flag));
            }
            assert(line_view(args@)[i + 1].text == args@[i + 1].text@);
            if !args[i + 1].utf8 {
                return Err(usage(args, owned(not_utf8)));
            }
            Ok((owned(args[i + 1].text.as_str()), 1))
        },
    }
}

/// The text of an optional value.
pub open spec fn value_view(v: Option<String>) -> Option<Seq<char>> {
    match v {
        Some(s) => Some(s@),
        None => None,
    }
}

/// Take the long option `name` of word `i`, and tell how many further words it
/// uses up.
fn parse_long(
    kind: BinKind,
    host: CompileTarget,
    args: &Vec<Argument>,
    i: usize,
    name: &str,
    value: &Option<String>,
    core: &mut PartialCore,
) -> (r: Result<usize, CliError>)
    requires
        i < args.len(),
    ensures
        match long_option(
            kind,
            host,
            line_view(args@),
            i as int,
            name@,
            value_view(*value),
            old(core)@,
        ) {
            Ok((c, n)) => r is Ok && r->Ok_0 == n && final(core)@ == c,
            Err(e) => r is Err && r->Err_0@ == e && final(core)@ == old(core)@,
        },
        r is Ok ==> i + r->Ok_0 < args.len(),
{
    let full = matches!(kind, BinKind::AmazingBF);
    let interpreter = matches!(kind, BinKind::Interpreter);
    let compiler = matches!(kind, BinKind::Compiler);
    if same_text(name, "help") {
        return Err(CliError::Help(kind));
    }
    if same_text(name, "version") {
        return Err(CliError::Version(kind));
    }
    if same_text(name, "verbose") {
        core.verbose = saturating_next(core.verbose);
        return Ok(0);
    }
    if same_text(name, "quiet") {
        core.quiet = true;
        return Ok(0);
    }
    if same_text(name, "output") {
        return match take_long(args, i, value, "--output", "错误: `--output` 路径须为有效 UTF-8") {
            Ok((raw, n)) => {
                core.output = Some(PathArg::Text(raw));
                Ok(n)
            },
            Err(e) => Err(e),
        };
    }
    if same_text(name, "opt-level") {
        return match take_long(
            args,
            i,
            value,
            "--opt-level",
            "错误: `--opt-level` 参数须为有效 UTF-8",
        ) {
            Ok((raw, n)) => match take_level(args, raw.as_str(), core) {
                Ok(_) => Ok(n),
                Err(e) => Err(e),
            },
            Err(e) => Err(e),
        };
    }
    if full && same_text(name, "mode") {
        return match take_long(args, i, value, "--mode", "错误: `--mode` 参数须为有效 UTF-8") {
            Ok((raw, n)) => match take_mode(args, raw.as_str(), core) {
                Ok(_) => Ok(n),
                Err(e) => Err(e),
            },
            Err(e) => Err(e),
        };
    }
    if !interpreter && same_text(name, "target") {
        let (raw, n) = match take_long(
            args,
            i,
            value,
            "--target",
            "错误: `--target` 参数须为有效 UTF-8",
        ) {
            Ok(v) => v,
            Err(e) => {
                return Err(e);
            },
        };
        return match CompileTarget::parse(raw.as_str()) {
            Some(t) => {
                core.target = t;
                Ok(n)
            },
            None => Err(usage(args, joined("错误: 无效的编译目标 `", raw.as_str(), "`"))),
        };
    }
    if !compiler && same_text(name, "interp-debug") {
        core.interp_debug = match value {
            Some(v) => !same_text(v.as_str(), "false"),
            None => true,
        };
        return Ok(0);
    }
    if full && matches!(host, CompileTarget::X86_64Linux) && same_text(name, "jit-threshold") {
        let (raw, n) = match take_long(
            args,
            i,
            value,
            "--jit-threshold",
            "错误: `--jit-threshold` 参数须为有效 UTF-8",
        ) {
            Ok(v) => v,
            Err(e) => {
                return Err(e);
            },
        };
        return match parse_number(raw.as_str()) {
            Some(v) => {
                core.jit_threshold = Some(v);
                Ok(n)
            },
            None => Err(
                usage(
                    args,
                    joined(
                        "错误: 无效的 `--jit-threshold` 值 `",
                        raw.as_str(),
                        "`（须为非负整数）",
                    ),
                ),
            ),
        };
    }
    Err(usage(args, joined("错误: 未知选项 `--", name, "`")))
}

/// The words with which a program refuses a long option of its own accord.
fn refusal(kind: BinKind, name: &str) -> (r: Option<&'static str>)
    ensures
        match refused(kind, name@) {
            Some(m) => r is Some && r->Some_0@ == m,
            None => r is None,
        },
{
    match kind {
        BinKind::AmazingBF => None,
        BinKind::Interpreter => {
            if same_text(name, "mode") {
                Some("错误: 此入口不支持 `--mode`")
            } else if same_text(name, "target") {
                Some("错误: `bf-interpreter` 不支持 `--target`")
            } else {
                None
            }
        },
        BinKind::Compiler => {
            if same_text(name, "mode") {
                Some("错误: 此入口不支持 `--mode`")
            } else if same_text(name, "interp-debug") {
                Some("错误: `bf-compiler` 不支持 `--interp-debug`")
            } else {
                None
            }
        },
    }
}

/// Take the options of word `i`.
fn parse_options(
    kind: BinKind,
    host: CompileTarget,
    args: &Vec<Argument>,
    i: usize,
    core: &mut PartialCore,
) -> (r: Result<usize, CliError>)
    requires
        i < args.len(),
        !is_path(line_view(args@)[i as int]),
    ensures
        match options(kind, host, line_view(args@), i as int, old(core)@) {
            Ok((c, n)) => r is Ok && r->Ok_0 == n && final(core)@ == c,
            Err(e) => r is Err && r->Err_0@ == e && final(core)@ == left_over(
                line_view(args@)[i as int].text,
                old(core)@,
            ),
        },
        r is Ok ==> i + r->Ok_0 < args.len(),
{
    assert(line_view(args@)[i as int].text == args@[i as int].text@);
    let chars = chars_of(args[i].text.as_str());
    let ghost text = chars@;
    proof {
        reveal_strlit("--");
    }
    if chars.len() >= 2 && chars[1] == '-' {
        assert(text.take(2) =~= "--"@);
        let ghost rest = text.skip(2);
        let mut eq: usize = 2;
        while eq < chars.len() && chars[eq] != '='
            invariant
                2 <= eq <= chars.len(),
                text == chars@,
                rest == text.skip(2),
                equals_at(rest, 0) == equals_at(rest, eq - 2),
            decreases chars.len() - eq,
        {
            assert(rest[eq - 2] == chars@[eq as int]);
            eq += 1;
        }
        assert(eq < chars.len() ==> rest[eq - 2] == chars@[eq as int]);
        assert(rest.take(eq - 2) =~= text.subrange(2, eq as int));
        let name = string_of(&chars, 2, eq);
        let value = if eq < chars.len() {
            assert(rest.skip(eq - 1) =~= text.subrange(eq + 1, chars.len() as int));
            Some(string_of(&chars, eq + 1, chars.len()))
        } else {
            None
        };
        match refusal(kind, name.as_str()) {
            Some(m) => Err(usage(args, owned(m))),
            None => parse_long(kind, host, args, i, name.as_str(), &value, core),
        }
    } else {
        assert(!begins_with(text, "--"@)) by {
            if begins_with(text, "--"@) {
                assert(text.take(2)[1] == '-');
            }
        }
        let mut cluster: Vec<char> = Vec::new();
        let mut k: usize = 1;
        while k < chars.len()
            invariant
                1 <= k <= chars.len(),
                text == chars@,
                cluster@ == text.subrange(1, k as int),
            decreases chars.len() - k,
        {
            cluster.push(chars[k]);
            k += 1;
            assert(cluster@ =~= text.subrange(1, k as int));
        }
        assert(cluster@ =~= text.skip(1));
        parse_short_cluster(kind, args, i, &cluster, core)
    }
}

/// Make the settings of a run out of a program's options.
fn finish_from_partial(kind: BinKind, host: CompileTarget, core: PartialCore) -> (r: Result<
    AppConfig,
    CliError,
>)
    ensures
        match settled(kind, host, core@) {
            Ok(p) => r is Ok && r->Ok_0@ == p,
            Err(e) => r is Err && r->Err_0@ == e,
        },
{
    let (mode, target, interp_debug) = match kind {
        BinKind::AmazingBF => (core.mode, core.target, core.interp_debug),
        BinKind::Interpreter => (RunMode::Interpret, host, core.interp_debug),
        BinKind::Compiler => (RunMode::Compile, core.target, false),
    };
    if core.verbose > 3 {
        return Err(
            CliError::Message {
                message: owned("错误: 详细级别最多为 3（即 -vvv）"),
                quiet: core.quiet,
                exit_code: 1,
            },
        );
    }
    let input = match core.input {
        Some(p) => p,
        None => {
            return Err(
                CliError::Usage {
                    message: owned("错误: 缺少输入文件（或使用 `-` 表示标准输入）"),
                    quiet: core.quiet,
                },
            );
        },
    };
    let output = match core.output {
        Some(p) => p,
        None => PathArg::Text(owned(target.default_output_name())),
    };
    Ok(
        AppConfig {
            input,
            mode,
            target,
            output,
            interp_debug,
            opt_level: core.opt_level,
            jit_threshold: core.jit_threshold,
            log_level: if core.quiet {
                0
            } else {
                core.verbose + 1
            },
        },
    )
}

/// Read the command line of the program `kind`. The first word is the
/// program's own name; `host` is the platform where no target is given.
pub fn parse_args(kind: BinKind, host: CompileTarget, args: &Vec<Argument>) -> (r: Result<
    AppConfig,
    CliError,
>)
    ensures
        match parsed(kind, host, line_view(args@)) {
            Ok(p) => r is Ok && r->Ok_0@ == p,
            Err(e) => r is Err && r->Err_0@ == e,
        },
{
    let mut core = PartialCore {
        input: None,
        output: None,
        verbose: 0,
        quiet: false,
        opt_level: OptLevel::O3,
        mode: RunMode::Interpret,
        target: host,
        interp_debug: false,
        jit_threshold: None,
    };
    let ghost line = line_view(args@);
    let ghost goal = walked(kind, host, line, 1, false, core@);
    let mut i: usize = 1;
    let mut paths_only: bool = false;
    while i < args.len()
        invariant
            1 <= i,
            line == line_view(args@),
            goal == walked(kind, host, line, 1, false, no_options(host)),
            goal == walked(kind, host, line, i as int, paths_only, core@),
        decreases args.len() - i,
    {
        assert(line[i as int] == (Word { text: args@[i as int].text@, utf8: args@[i as int].utf8 }));
        if paths_only || is_positional(&args[i]) {
            if core.input.is_some() {
                return Err(usage(args, owned("错误: 多余的输入路径（只接受一个 FILE）")));
            }
            core.input = Some(path_at(args, i));
            i += 1;
        } else if same_text(args[i].text.as_str(), "--") {
            paths_only = true;
            i += 1;
        } else {
            match parse_options(kind, host, args, i, &mut core) {
                Ok(n) => {
                    i += 1 + n;
                },
                Err(e) => {
                    return Err(e);
                },
            }
        }
    }
    if core.quiet && core.verbose > 0 {
        return Err(
            CliError::Usage { message: owned("错误: 不能同时使用 `-q` 与 `-v`"), quiet: true },
        );
    }
    if matches!(kind, BinKind::Interpreter) && core.verbose == 0 {
        core.quiet = true;
    }
    finish_from_partial(kind, host, core)
}

/// Read the command line of the full program.
pub fn parse_cli(host: CompileTarget, args: &Vec<Argument>) -> (r: Result<AppConfig, CliError>)
    ensures
        match parsed(BinKind::AmazingBF, host, line_view(args@)) {
            Ok(p) => r is Ok && r->Ok_0@ == p,
            Err(e) => r is Err && r->Err_0@ == e,
        },
{
    parse_args(BinKind::AmazingBF, host, args)
}

/// Read the command line of the interpreter.
pub fn parse_interpreter_cli(host: CompileTarget, args: &Vec<Argument>) -> (r: Result<
    AppConfig,
    CliError,
>)
    ensures
        match parsed(BinKind::Interpreter, host, line_view(args@)) {
            Ok(p) => r is Ok && r->Ok_0@ == p,
            Err(e) => r is Err && r->Err_0@ == e,
        },
{
    parse_args(BinKind::Interpreter, host, args)
}

/// Read the command line of the compiler.
pub fn parse_compiler_cli(host: CompileTarget, args: &Vec<Argument>) -> (r: Result<
    AppConfig,
    CliError,
>)
    ensures
        match parsed(BinKind::Compiler, host, line_view(args@)) {
            Ok(p) => r is Ok && r->Ok_0@ == p,
            Err(e) => r is Err && r->Err_0@ == e,
        },
{
    parse_args(BinKind::Compiler, host, args)
}

/// The interpreter always interprets and the compiler always compiles,
/// whatever their command lines say; neither ever takes a trip count for hot
/// loops. Every run has a verbosity from 0 to 4.
pub proof fn law_programs_keep_their_mode(k: BinKind, host: CompileTarget, line: Seq<Word>)
    requires
        parsed(k, host, line) is Ok,
    ensures
        k == BinKind::Interpreter ==> parsed(k, host, line)->Ok_0.mode == RunMode::Interpret
            && parsed(k, host, line)->Ok_0.target == host,
        k == BinKind::Compiler ==> parsed(k, host, line)->Ok_0.mode == RunMode::Compile && !parsed(
            k,
            host,
            line,
        )->Ok_0.interp_debug,
        k != BinKind::AmazingBF ==> parsed(k, host, line)->Ok_0.jit_threshold is None,
        0 <= parsed(k, host, line)->Ok_0.log_level <= 4,
{
    lemma_walk_keeps_threshold(k, host, line, 1, false, no_options(host));
}

/// Only the full program takes a trip count.
proof fn lemma_walk_keeps_threshold(
    k: BinKind,
    host: CompileTarget,
    line: Seq<Word>,
    i: int,
    paths_only: bool,
    core: Core,
)
    ensures
        k != BinKind::AmazingBF && walked(k, host, line, i, paths_only, core) is Ok ==> walked(
            k,
            host,
            line,
            i,
            paths_only,
            core,
        )->Ok_0.jit_threshold == core.jit_threshold,
    decreases
            if i < line.len() {
                line.len() - i
            } else {
                0
            },
{
    if i < 0 || i >= line.len() {
    } else if paths_only || is_path(line[i]) {
        if core.input is None {
            lemma_walk_keeps_threshold(
                k,
                host,
                line,
                i + 1,
                paths_only,
                Core { input: Some(place_at(line, i)), ..core },
            );
        }
    } else if line[i].text == "--"@ {
        lemma_walk_keeps_threshold(k, host, line, i + 1, true, core);
    } else {
        lemma_short_keeps_threshold(k, line, i, line[i].text.skip(1), 0, core);
        if let Ok((c, n)) = options(k, host, line, i, core) {
            lemma_walk_keeps_threshold(k, host, line, i + 1 + n, paths_only, c);
        }
    }
}

/// No short option takes a trip count.
proof fn lemma_short_keeps_threshold(
    k: BinKind,
    line: Seq<Word>,
    i: int,
    cluster: Seq<char>,
    at: int,
    core: Core,
)
    ensures
        short_options(k, line, i, cluster, at, core) is Ok ==> short_options(
            k,
            line,
            i,
            cluster,
            at,
            core,
        )->Ok_0.0.jit_threshold == core.jit_threshold,
    decreases cluster.len() - at,
{
    if 0 <= at < cluster.len() {
        if cluster[at] == 'v' {
            lemma_short_keeps_threshold(
                k,
                line,
                i,
                cluster,
                at + 1,
                Core { verbose: saturated(core.verbose), ..core },
            );
        } else if cluster[at] == 'q' {
            lemma_short_keeps_threshold(
                k,
                line,
                i,
                cluster,
                at + 1,
                Core { quiet: true, ..core },
            );
        }
    }
}

} // verus!
