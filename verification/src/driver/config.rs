//! The settings of one run: mode, target and optimisation tier.

use vstd::prelude::*;

use crate::text::same_text;

verus! {

/// Tape length of the interpreter.
pub const DEFAULT_INTERPRETER_TAPE_LEN: usize = 30_000;

/// Trip count from which a loop is hot when no threshold is given.
pub const DEFAULT_JIT_THRESHOLD: u64 = 10_000;

/// What to do with a program.
#[derive(Debug, Clone, Copy, PartialEq, Eq)]
pub enum RunMode {
    /// Run the whole pipeline and report sizes; write nothing.
    Dump,
    /// Interpret the program.
    Interpret,
    /// Emit a native executable with its listings.
    Compile,
    /// Compile in memory and execute.
    Jit,
    /// Interpret, and compile hot loops in memory.
    Tiered,
}

/// Platform of a native executable.
#[derive(Debug, Clone, Copy, PartialEq, Eq)]
pub enum CompileTarget {
    /// x86_64 Linux, an ELF file.
    X86_64Linux,
    /// x86_64 Windows, a PE file.
    X86_64Windows,
}

/// Optimisation tier.
#[derive(Debug, Clone, Copy, PartialEq, Eq)]
pub enum OptLevel {
    /// Fuse runs only.
    O0,
    /// One pass of local rewriting.
    O1,
    /// Local rewriting until nothing changes.
    O2,
    /// As `O2`, with folding of whole programs when compiling.
    O3,
}

/// The name of a mode on the command line.
pub open spec fn mode_name(m: RunMode) -> Seq<char> {
    match m {
        RunMode::Dump => "dump"@,
        RunMode::Interpret => "interpret"@,
        RunMode::Compile => "compile"@,
        RunMode::Jit => "jit"@,
        RunMode::Tiered => "tiered"@,
    }
}

/// The mode of that name.
pub open spec fn mode_of(s: Seq<char>) -> Option<RunMode> {
    if s == "dump"@ {
        Some(RunMode::Dump)
    } else if s == "interpret"@ {
        Some(RunMode::Interpret)
    } else if s == "compile"@ {
        Some(RunMode::Compile)
    } else if s == "jit"@ {
        Some(RunMode::Jit)
    } else if s == "tiered"@ {
        Some(RunMode::Tiered)
    } else {
        None
    }
}

/// The name of a target on the command line.
pub open spec fn target_name(t: CompileTarget) -> Seq<char> {
    match t {
        CompileTarget::X86_64Linux => "x86_64-linux"@,
        CompileTarget::X86_64Windows => "x86_64-windows"@,
    }
}

/// The target of that name.
pub open spec fn target_of(s: Seq<char>) -> Option<CompileTarget> {
    if s == "x86_64-linux"@ {
        Some(CompileTarget::X86_64Linux)
    } else if s == "x86_64-windows"@ {
        Some(CompileTarget::X86_64Windows)
    } else {
        None
    }
}

/// The file name of an executable for `t` when none is given.
pub open spec fn output_name(t: CompileTarget) -> Seq<char> {
    match t {
        CompileTarget::X86_64Linux => "a.out"@,
        CompileTarget::X86_64Windows => "a.exe"@,
    }
}

/// The digit of a tier on the command line.
pub open spec fn level_name(l: OptLevel) -> Seq<char> {
    match l {
        OptLevel::O0 => "0"@,
        OptLevel::O1 => "1"@,
        OptLevel::O2 => "2"@,
        OptLevel::O3 => "3"@,
    }
}

/// The tier of that digit.
pub open spec fn level_of(s: Seq<char>) -> Option<OptLevel> {
    if s == "0"@ {
        Some(OptLevel::O0)
    } else if s == "1"@ {
        Some(OptLevel::O1)
    } else if s == "2"@ {
        Some(OptLevel::O2)
    } else if s == "3"@ {
        Some(OptLevel::O3)
    } else {
        None
    }
}

impl RunMode {
    /// The mode called `s`; `None` for any other word.
    pub fn parse(s: &str) -> (r: Option<Self>)
        ensures
            r == mode_of(s@),
    {
        if same_text(s, "dump") {
            Some(RunMode::Dump)
        } else if same_text(s, "interpret") {
            Some(RunMode::Interpret)
        } else if same_text(s, "compile") {
            Some(RunMode::Compile)
        } else if same_text(s, "jit") {
            Some(RunMode::Jit)
        } else if same_text(s, "tiered") {
            Some(RunMode::Tiered)
        } else {
            None
        }
    }

    /// The name of this mode.
    pub fn as_str(self) -> (s: &'static str)
        ensures
            s@ == mode_name(self),
    {
        match self {
            RunMode::Dump => "dump",
            RunMode::Interpret => "interpret",
            RunMode::Compile => "compile",
            RunMode::Jit => "jit",
            RunMode::Tiered => "tiered",
        }
    }
}

impl CompileTarget {
    /// The target called `s`; `None` for any other word.
    pub fn parse(s: &str) -> (r: Option<Self>)
        ensures
            r == target_of(s@),
    {
        if same_text(s, "x86_64-linux") {
            Some(CompileTarget::X86_64Linux)
        } else if same_text(s, "x86_64-windows") {
            Some(CompileTarget::X86_64Windows)
        } else {
            None
        }
    }

    /// The target of a toolchain that is itself built for Linux. A program
    /// built for Windows hands `X86_64Windows` to the command line instead.
    pub fn build_default() -> (t: Self)
        ensures
            t == CompileTarget::X86_64Linux,
    {
        CompileTarget::X86_64Linux
    }

    /// The name of this target.
    pub fn as_str(self) -> (s: &'static str)
        ensures
            s@ == target_name(self),
    {
        match self {
            CompileTarget::X86_64Linux => "x86_64-linux",
            CompileTarget::X86_64Windows => "x86_64-windows",
        }
    }

    /// The file name of an executable when none is given.
    pub fn default_output_name(self) -> (s: &'static str)
        ensures
            s@ == output_name(self),
    {
        match self {
            CompileTarget::X86_64Linux => "a.out",
            CompileTarget::X86_64Windows => "a.exe",
        }
    }
}

impl OptLevel {
    /// The tier of the digit `s`; `None` for any other word.
    pub fn parse(s: &str) -> (r: Option<Self>)
        ensures
            r == level_of(s@),
    {
        if same_text(s, "0") {
            Some(OptLevel::O0)
        } else if same_text(s, "1") {
            Some(OptLevel::O1)
        } else if same_text(s, "2") {
            Some(OptLevel::O2)
        } else if same_text(s, "3") {
            Some(OptLevel::O3)
        } else {
            None
        }
    }

    /// The digit of this tier.
    pub fn as_str(self) -> (s: &'static str)
        ensures
            s@ == level_name(self),
    {
        match self {
            OptLevel::O0 => "0",
            OptLevel::O1 => "1",
            OptLevel::O2 => "2",
            OptLevel::O3 => "3",
        }
    }
}

impl Default for OptLevel {
    fn default() -> (l: Self)
        ensures
            l == OptLevel::O0,
    {
        OptLevel::O0
    }
}

/// The tier that follows the first `-O` of `words`; `O1` where there is no
/// such word, where nothing follows it, or where no tier has that name.
pub open spec fn level_after_flag(words: Seq<Seq<char>>, i: int) -> OptLevel
    decreases words.len() - i,
{
    if i < 0 || i + 1 >= words.len() {
        OptLevel::O1
    } else if words[i] == "-O"@ {
        match level_of(words[i + 1]) {
            Some(l) => l,
            None => OptLevel::O1,
        }
    } else {
        level_after_flag(words, i + 1)
    }
}

/// The characters of each word.
pub open spec fn words_view(words: Seq<String>) -> Seq<Seq<char>> {
    words.map_values(|w: String| w@)
}

/// The optimisation tier of a graphical session, from its arguments.
pub fn parse_opt_level(args: &Vec<String>) -> (l: OptLevel)
    ensures
        l == level_after_flag(words_view(args@), 0),
{
    let ghost words = words_view(args@);
    let mut i: usize = 0;
    while i < args.len() && args.len() - i >= 2
        invariant
            i <= args.len(),
            words == words_view(args@),
            level_after_flag(words, i as int) == level_after_flag(words, 0),
        decreases args.len() - i,
    {
        assert(words[i as int] == args@[i as int]@);
        assert(words[i + 1] == args@[i + 1]@);
        if same_text(args[i].as_str(), "-O") {
            return match OptLevel::parse(args[i + 1].as_str()) {
                Some(l) => l,
                None => OptLevel::O1,
            };
        }
        i += 1;
    }
    OptLevel::O1
}

/// Every mode, target and tier is read back from its own name, and the
/// executables of the two platforms have different default names.
pub proof fn law_names_read_back(m: RunMode, t: CompileTarget, l: OptLevel)
    ensures
        mode_of(mode_name(m)) == Some(m),
        target_of(target_name(t)) == Some(t),
        level_of(level_name(l)) == Some(l),
        output_name(CompileTarget::X86_64Linux) != output_name(CompileTarget::X86_64Windows),
{
    reveal_strlit("dump");
    reveal_strlit("interpret");
    reveal_strlit("compile");
    reveal_strlit("jit");
    reveal_strlit("tiered");
    reveal_strlit("x86_64-linux");
    reveal_strlit("x86_64-windows");
    reveal_strlit("0");
    reveal_strlit("1");
    reveal_strlit("2");
    reveal_strlit("3");
    reveal_strlit("a.out");
    reveal_strlit("a.exe");
    assert("dump"@.len() == 4);
    assert("interpret"@.len() == 9);
    assert("compile"@.len() == 7);
    assert("jit"@.len() == 3);
    assert("tiered"@.len() == 6);
    assert("x86_64-linux"@.len() == 12);
    assert("x86_64-windows"@.len() == 14);
    assert("0"@[0] == '0');
    assert("1"@[0] == '1');
    assert("2"@[0] == '2');
    assert("3"@[0] == '3');
    assert("a.out"@[2] == 'o');
    assert("a.exe"@[2] == 'e');
}

} // verus!
