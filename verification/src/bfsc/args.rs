//! The command line of the BFS compiler.

use vstd::prelude::*;

use crate::bfsc::error::BfscError;
use crate::bfsc::error::Failure;
use crate::driver::config::words_view;
use crate::driver::config::{level_of, output_name, target_of};
use crate::driver::config::{CompileTarget, OptLevel};
use crate::text::begins_with;
use crate::text::{chars_of, joined, owned, prefixed, same_text, strip_prefix};

verus! {

/// What a command line asks for.
pub struct ParsedArgs {
    /// Path of the source; the standard input where there is none.
    pub input_path: Option<String>,
    /// Path of the result; the standard output where there is none.
    pub output_path: Option<String>,
    /// Whether to go on to a native executable.
    pub compile: bool,
    /// Platform of the executable.
    pub target: CompileTarget,
    /// Optimisation tier of the executable.
    pub opt_level: OptLevel,
    /// Whether to log nothing.
    pub quiet: bool,
}

/// The outcome of reading a command line.
pub enum Request {
    /// Print the help text.
    Help,
    /// Print the version.
    Version,
    /// Compile.
    Run(ParsedArgs),
}

/// The model of [`ParsedArgs`].
pub struct Wish {
    /// Path of the source.
    pub input: Option<Seq<char>>,
    /// Path of the result.
    pub output: Option<Seq<char>>,
    /// Whether to go on to a native executable.
    pub compile: bool,
    /// Platform of the executable.
    pub target: CompileTarget,
    /// Optimisation tier.
    pub level: OptLevel,
    /// Whether to log nothing.
    pub quiet: bool,
}

/// The model of a command line's outcome.
pub enum Asked {
    /// Print the help text.
    Help,
    /// Print the version.
    Version,
    /// Compile.
    Run(Wish),
    /// The command line is wrong, with a message.
    Fault(Seq<char>),
}

/// The text of an optional string.
pub open spec fn text_view(s: Option<String>) -> Option<Seq<char>> {
    match s {
        Some(t) => Some(t@),
        None => None,
    }
}

impl View for ParsedArgs {
    type V = Wish;

    open spec fn view(&self) -> Wish {
        Wish {
            input: text_view(self.input_path),
            output: text_view(self.output_path),
            compile: self.compile,
            target: self.target,
            level: self.opt_level,
            quiet: self.quiet,
        }
    }
}

/// A command line that asks for nothing special: compile for the given
/// platform with the highest tier.
pub open spec fn plain_wish(target: CompileTarget) -> Wish {
    Wish {
        input: None,
        output: None,
        compile: false,
        target,
        level: OptLevel::O3,
        quiet: false,
    }
}

/// What a word that names no platform is answered.
pub open spec fn bad_target(raw: Seq<char>) -> Seq<char> {
    "invalid compile target `"@ + raw + "` (expected x86_64-linux or x86_64-windows)"@
}

/// What a word that names no tier is answered.
pub open spec fn bad_level(raw: Seq<char>) -> Seq<char> {
    "invalid opt level `"@ + raw + "` (expected 0, 1, 2, or 3)"@
}

/// The next two steps of reading: `w` with the target `raw`, or a fault.
pub open spec fn choose_target(w: Wish, raw: Seq<char>) -> Result<Wish, Seq<char>> {
    match target_of(raw) {
        Some(t) => Ok(Wish { target: t, ..w }),
        None => Err(bad_target(raw)),
    }
}

/// `w` with the tier `raw`, or a fault.
pub open spec fn choose_level(w: Wish, raw: Seq<char>) -> Result<Wish, Seq<char>> {
    match level_of(raw) {
        Some(l) => Ok(Wish { level: l, ..w }),
        None => Err(bad_level(raw)),
    }
}

/// What the option `arg`, which takes the following word, makes of `w`.
pub open spec fn with_word(w: Wish, arg: Seq<char>, raw: Seq<char>) -> Result<Wish, Seq<char>> {
    if arg == "-o"@ || arg == "--output"@ {
        Ok(Wish { output: Some(raw), ..w })
    } else if arg == "--target"@ {
        choose_target(w, raw)
    } else {
        choose_level(w, raw)
    }
}

/// Whether `arg` is an option that takes the following word.
pub open spec fn takes_word(arg: Seq<char>) -> bool {
    arg == "-o"@ || arg == "--output"@ || arg == "--target"@ || arg == "-O"@ || arg
        == "--opt-level"@
}

/// What the word `arg`, which stands on its own, makes of `w`.
pub open spec fn with_single(w: Wish, arg: Seq<char>) -> Result<Wish, Seq<char>> {
    if arg == "-c"@ || arg == "--compile"@ {
        Ok(Wish { compile: true, ..w })
    } else if arg == "-q"@ || arg == "--quiet"@ {
        Ok(Wish { quiet: true, ..w })
    } else if begins_with(arg, "--output="@) {
        Ok(Wish { output: Some(arg.skip("--output="@.len() as int)), ..w })
    } else if begins_with(arg, "--target="@) {
        choose_target(w, arg.skip("--target="@.len() as int))
    } else if begins_with(arg, "--opt-level="@) {
        choose_level(w, arg.skip("--opt-level="@.len() as int))
    } else if begins_with(arg, "-O"@) && arg.len() == 3 && (arg[2] as u32) < 128 {
        choose_level(w, arg.skip("-O"@.len() as int))
    } else if arg == "-"@ {
        Ok(Wish { input: Some("-"@), ..w })
    } else if !(arg.len() > 0 && arg[0] == '-') {
        if w.input is Some {
            Err("too many input files"@)
        } else {
            Ok(Wish { input: Some(arg), ..w })
        }
    } else {
        Err("unknown flag: "@ + arg)
    }
}

/// What the words from index `i` on ask for, beyond `w`.
pub open spec fn asked(words: Seq<Seq<char>>, i: int, w: Wish) -> Asked
    decreases words.len() - i,
{
    if i < 0 || i >= words.len() {
        Asked::Run(w)
    } else if words[i] == "-h"@ || words[i] == "--help"@ {
        Asked::Help
    } else if words[i] == "-V"@ || words[i] == "--version"@ {
        Asked::Version
    } else if takes_word(words[i]) {
        if i + 1 >= words.len() {
            Asked::Fault("missing argument for "@ + words[i])
        } else {
            match with_word(w, words[i], words[i + 1]) {
                Ok(v) => asked(words, i + 2, v),
                Err(m) => Asked::Fault(m),
            }
        }
    } else {
        match with_single(w, words[i]) {
            Ok(v) => asked(words, i + 1, v),
            Err(m) => Asked::Fault(m),
        }
    }
}

/// Set the target that `raw` names.
fn set_target(a: &mut ParsedArgs, raw: &str) -> (r: Result<(), BfscError>)
    ensures
        match choose_target(old(a)@, raw@) {
            Ok(w) => r is Ok && final(a)@ == w,
            Err(m) => r is Err && r->Err_0@ == Failure::Parse(m),
        },
{
    match CompileTarget::parse(raw) {
        Some(t) => {
            a.target = t;
            Ok(())
        },
        None => Err(
            BfscError::Parse(
                joined(
                    "invalid compile target `",
                    raw,
                    "` (expected x86_64-linux or x86_64-windows)",
                ),
            ),
        ),
    }
}

/// Set the tier that `raw` names.
fn set_level(a: &mut ParsedArgs, raw: &str) -> (r: Result<(), BfscError>)
    ensures
        match choose_level(old(a)@, raw@) {
            Ok(w) => r is Ok && final(a)@ == w,
            Err(m) => r is Err && r->Err_0@ == Failure::Parse(m),
        },
{
    match OptLevel::parse(raw) {
        Some(l) => {
            a.opt_level = l;
            Ok(())
        },
        None => Err(
            BfscError::Parse(
                joined("invalid opt level `", raw, "` (expected 0, 1, 2, or 3)"),
            ),
        ),
    }
}

/// Take a word that stands on its own.
fn single(a: &mut ParsedArgs, arg: &str) -> (r: Result<(), BfscError>)
    ensures
        match with_single(old(a)@, arg@) {
            Ok(w) => r is Ok && final(a)@ == w,
            Err(m) => r is Err && r->Err_0@ == Failure::Parse(m),
        },
{
    if same_text(arg, "-c") || same_text(arg, "--compile") {
        a.compile = true;
        return Ok(());
    }
    if same_text(arg, "-q") || same_text(arg, "--quiet") {
        a.quiet = true;
        return Ok(());
    }
    if let Some(path) = strip_prefix(arg, "--output=") {
        a.output_path = Some(path);
        return Ok(());
    }
    if let Some(raw) = strip_prefix(arg, "--target=") {
        return set_target(a, raw.as_str());
    }
    if let Some(raw) = strip_prefix(arg, "--opt-level=") {
        return set_level(a, raw.as_str());
    }
    let chars = chars_of(arg);
    if let Some(raw) = strip_prefix(arg, "-O") {
        if chars.len() == 3 && (chars[2] as u32) < 128 {
            return set_level(a, raw.as_str());
        }
    }
    if same_text(arg, "-") {
        a.input_path = Some(owned("-"));
        return Ok(());
    }
    if chars.len() > 0 && chars[0] == '-' {
        return Err(BfscError::Parse(prefixed("unknown flag: ", arg)));
    }
    if a.input_path.is_some() {
        return Err(BfscError::Parse(owned("too many input files")));
    }
    a.input_path = Some(owned(arg));
    Ok(())
}

/// Read a command line, whose first word is the program's own name. `target`
/// is the platform where the command line names none.
pub fn parse_args(args: &Vec<String>, target: CompileTarget) -> (r: Result<Request, BfscError>)
    ensures
        match asked(words_view(args@), 1, plain_wish(target)) {
            Asked::Help => r matches Ok(Request::Help),
            Asked::Version => r matches Ok(Request::Version),
            Asked::Run(w) => r matches Ok(Request::Run(a)) && a@ == w,
            Asked::Fault(m) => r is Err && r->Err_0@ == Failure::Parse(m),
        },
{
    let mut a = ParsedArgs {
        input_path: None,
        output_path: None,
        compile: false,
        target,
        opt_level: OptLevel::O3,
        quiet: false,
    };
    let ghost words = words_view(args@);
    let ghost goal = asked(words, 1, plain_wish(target));
    let mut i: usize = 1;
    while i < args.len()
        invariant
            1 <= i,
            words == words_view(args@),
            goal == asked(words, 1, plain_wish(target)),
            goal == asked(words, i as int, a@),
        decreases args.len() - i,
    {
        assert(words[i as int] == args@[i as int]@);
        let arg = args[i].as_str();
        if same_text(arg, "-h") || same_text(arg, "--help") {
            return Ok(Request::Help);
        }
        if same_text(arg, "-V") || same_text(arg, "--version") {
            return Ok(Request::Version);
        }
        let output = same_text(arg, "-o") || same_text(arg, "--output");
        let platform = same_text(arg, "--target");
        if output || platform || same_text(arg, "-O") || same_text(arg, "--opt-level") {
            if args.len() - i < 2 {
                return Err(BfscError::Parse(prefixed("missing argument for ", arg)));
            }
            assert(words[i + 1] == args@[i + 1]@);
            let raw = args[i + 1].as_str();
            if output {
                a.output_path = Some(owned(raw));
            } else if platform {
                match set_target(&mut a, raw) {
                    Ok(_) => {},
                    Err(e) => {
                        return Err(e);
                    },
                }
            } else {
                match set_level(&mut a, raw) {
                    Ok(_) => {},
                    Err(e) => {
                        return Err(e);
                    },
                }
            }
            i += 2;
        } else {
            match single(&mut a, arg) {
                Ok(_) => {},
                Err(e) => {
                    return Err(e);
                },
            }
            i += 1;
        }
    }
    Ok(Request::Run(a))
}

impl ParsedArgs {
    /// Whether the source comes from the standard input.
    pub fn reads_stdin(&self) -> (r: bool)
        ensures
            r == (self@.input is None || self@.input == Some("-"@)),
    {
        match &self.input_path {
            Some(path) => same_text(path.as_str(), "-"),
            None => true,
        }
    }

    /// Where the executable goes.
    pub fn executable(&self) -> (s: String)
        ensures
            s@ == match self@.output {
                Some(path) => path,
                None => output_name(self.target),
            },
    {
        match &self.output_path {
            Some(path) => owned(path.as_str()),
            None => owned(self.target.default_output_name()),
        }
    }

    /// The verbosity of a compilation to an executable.
    pub fn log_level(&self) -> (n: u8)
        ensures
            n == if self.quiet {
                0u8
            } else {
                1u8
            },
    {
        if self.quiet {
            0
        } else {
            1
        }
    }
}

} // verus!
