//! Which log lines a run shows.

use vstd::prelude::*;

use crate::error::Error;
use crate::text::{chars_of, same_text};

verus! {

/// How much is shown.
#[derive(Debug, Clone, Copy, PartialEq, Eq)]
pub enum Level {
    /// Nothing.
    Off,
    /// Errors.
    Error,
    /// Warnings, too.
    Warn,
    /// Progress, too.
    Info,
    /// Details, too.
    Debug,
    /// Everything.
    Trace,
}

/// A filter for log lines.
#[derive(Debug, Clone, Copy, PartialEq, Eq)]
pub struct LogFilter {
    /// What is shown of any part of the program.
    pub default: Level,
    /// What is shown of this crate, where that differs.
    pub own: Option<Level>,
}

/// The filter of a verbosity; there is none above four.
pub open spec fn filter_of(log_level: u8) -> Option<LogFilter> {
    if log_level == 0 {
        Some(LogFilter { default: Level::Off, own: None })
    } else if log_level == 1 {
        Some(LogFilter { default: Level::Warn, own: Some(Level::Info) })
    } else if log_level == 2 {
        Some(LogFilter { default: Level::Warn, own: Some(Level::Debug) })
    } else if log_level == 3 {
        Some(LogFilter { default: Level::Info, own: Some(Level::Debug) })
    } else if log_level == 4 {
        Some(LogFilter { default: Level::Debug, own: None })
    } else {
        None
    }
}

/// The filter of a verbosity.
pub fn default_targets(log_level: u8) -> (r: Result<LogFilter, Error>)
    ensures
        match filter_of(log_level) {
            Some(f) => r is Ok && r->Ok_0 == f,
            None => r is Err && r->Err_0 == Error::InvalidLogLevel(log_level),
        },
{
    match log_level {
        0 => Ok(LogFilter { default: Level::Off, own: None }),
        1 => Ok(LogFilter { default: Level::Warn, own: Some(Level::Info) }),
        2 => Ok(LogFilter { default: Level::Warn, own: Some(Level::Debug) }),
        3 => Ok(LogFilter { default: Level::Info, own: Some(Level::Debug) }),
        4 => Ok(LogFilter { default: Level::Debug, own: None }),
        _ => Err(Error::InvalidLogLevel(log_level)),
    }
}

/// The character with an ASCII capital made small.
pub open spec fn small(c: char) -> char {
    if 'A' <= c <= 'Z' {
        ((c as u32) + 32) as char
    } else {
        c
    }
}

/// The text with its ASCII capitals made small.
pub open spec fn small_text(s: Seq<char>) -> Seq<char> {
    s.map_values(|c: char| small(c))
}

/// The level that a single word, in any case, names.
pub open spec fn level_of_word(s: Seq<char>) -> Option<Level> {
    if s == "error"@ {
        Some(Level::Error)
    } else if s == "warn"@ {
        Some(Level::Warn)
    } else if s == "info"@ {
        Some(Level::Info)
    } else if s == "debug"@ {
        Some(Level::Debug)
    } else if s == "trace"@ {
        Some(Level::Trace)
    } else if s == "off"@ {
        Some(Level::Off)
    } else {
        None
    }
}

/// The small form of one character.
fn make_small(c: char) -> (r: char)
    ensures
        r == small(c),
{
    match c {
        'A' => 'a',
        'B' => 'b',
        'C' => 'c',
        'D' => 'd',
        'E' => 'e',
        'F' => 'f',
        'G' => 'g',
        'H' => 'h',
        'I' => 'i',
        'J' => 'j',
        'K' => 'k',
        'L' => 'l',
        'M' => 'm',
        'N' => 'n',
        'O' => 'o',
        'P' => 'p',
        'Q' => 'q',
        'R' => 'r',
        'S' => 's',
        'T' => 't',
        'U' => 'u',
        'V' => 'v',
        'W' => 'w',
        'X' => 'x',
        'Y' => 'y',
        'Z' => 'z',
        _ => c,
    }
}

/// The text with its ASCII capitals made small.
fn make_small_text(text: &str) -> (r: String)
    ensures
        r@ == small_text(text@),
{
    let chars = chars_of(text);
    let mut r = String::new();
    let mut i: usize = 0;
    while i < chars.len()
        invariant
            i <= chars.len(),
            chars@ == text@,
            r@ == small_text(text@.take(i as int)),
        decreases chars.len() - i,
    {
        r.push(make_small(chars[i]));
        i += 1;
        assert(r@ =~= small_text(text@.take(i as int)));
    }
    assert(text@.take(chars.len() as int) =~= text@);
    r
}

/// Whether a character is whitespace: has the Unicode property `White_Space`.
pub open spec fn is_white(c: char) -> bool {
    ||| '\u{9}' <= c <= '\u{d}'
    ||| c == ' '
    ||| c == '\u{85}'
    ||| c == '\u{a0}'
    ||| c == '\u{1680}'
    ||| '\u{2000}' <= c <= '\u{200a}'
    ||| c == '\u{2028}'
    ||| c == '\u{2029}'
    ||| c == '\u{202f}'
    ||| c == '\u{205f}'
    ||| c == '\u{3000}'
}

/// The text from its first character on that is no whitespace.
pub open spec fn without_leading(s: Seq<char>) -> Seq<char>
    decreases s.len(),
{
    if s.len() > 0 && is_white(s[0]) {
        without_leading(s.drop_first())
    } else {
        s
    }
}

/// The text up to its last character that is no whitespace.
pub open spec fn without_trailing(s: Seq<char>) -> Seq<char>
    decreases s.len(),
{
    if s.len() > 0 && is_white(s.last()) {
        without_trailing(s.drop_last())
    } else {
        s
    }
}

/// The text without the whitespace at both ends.
pub open spec fn trimmed_text(s: Seq<char>) -> Seq<char> {
    without_trailing(without_leading(s))
}

/// `str::trim`: the text without the whitespace at its ends, by the Unicode
/// property `White_Space`.
#[verifier::external_body]
fn trim(text: &str) -> (r: &str)
    ensures
        r@ == trimmed_text(text@),
{
    text.trim()
}

/// The filter that the trimmed word of the environment asks for: a level for
/// all parts of the program. A word with `=` or `,` asks for nothing here.
pub open spec fn word_filter(s: Seq<char>) -> Option<LogFilter> {
    if s.contains('=') || s.contains(',') {
        None
    } else {
        match level_of_word(small_text(s)) {
            Some(l) => Some(LogFilter { default: l, own: None }),
            None => None,
        }
    }
}

/// The filter that a trimmed word asks for.
pub fn filter_of_word(word: &str) -> (r: Option<LogFilter>)
    ensures
        r == word_filter(word@),
{
    let chars = chars_of(word);
    let mut i: usize = 0;
    while i < chars.len()
        invariant
            i <= chars.len(),
            chars@ == word@,
            forall|j: int| 0 <= j < i ==> chars@[j] != '=' && chars@[j] != ',',
        decreases chars.len() - i,
    {
        if chars[i] == '=' || chars[i] == ',' {
            assert(word@.contains(chars@[i as int]));
            return None;
        }
        i += 1;
    }
    let s = make_small_text(word);
    let level = if same_text(s.as_str(), "error") {
        Level::Error
    } else if same_text(s.as_str(), "warn") {
        Level::Warn
    } else if same_text(s.as_str(), "info") {
        Level::Info
    } else if same_text(s.as_str(), "debug") {
        Level::Debug
    } else if same_text(s.as_str(), "trace") {
        Level::Trace
    } else if same_text(s.as_str(), "off") {
        Level::Off
    } else {
        return None;
    };
    Some(LogFilter { default: level, own: None })
}

/// The filter of a run: what the environment's word asks for, and without one
/// what the verbosity says.
pub fn log_targets(word: Option<&str>, log_level: u8) -> (r: Result<LogFilter, Error>)
    ensures
        match word {
            Some(w) if word_filter(trimmed_text(w@)) is Some => r is Ok && Some(r->Ok_0)
                == word_filter(trimmed_text(w@)),
            _ => match filter_of(log_level) {
                Some(f) => r is Ok && r->Ok_0 == f,
                None => r is Err && r->Err_0 == Error::InvalidLogLevel(log_level),
            },
        },
{
    if let Some(w) = word {
        if let Some(f) = filter_of_word(trim(w)) {
            return Ok(f);
        }
    }
    default_targets(log_level)
}

/// Whether an environment flag is set: `1`, or `true`, `yes` or `on` all in
/// small or all in capital letters.
pub open spec fn flag_is_set(v: Seq<char>) -> bool {
    v == "1"@ || v == "true"@ || v == "TRUE"@ || v == "yes"@ || v == "YES"@ || v == "on"@ || v
        == "ON"@
}

/// Whether log lines are JSON: a format that is given decides, and without one
/// the flag.
pub fn json_logs_enabled(format: Option<&str>, flag: Option<&str>) -> (r: bool)
    ensures
        r == match format {
            Some(v) => small_text(v@) == "json"@,
            None => flag is Some && flag_is_set(flag->Some_0@),
        },
{
    match format {
        Some(v) => same_text(make_small_text(v).as_str(), "json"),
        None => match flag {
            Some(v) => env_flag(v),
            None => false,
        },
    }
}

/// Whether an environment flag is set.
fn env_flag(v: &str) -> (r: bool)
    ensures
        r == flag_is_set(v@),
{
    same_text(v, "1") || same_text(v, "true") || same_text(v, "TRUE") || same_text(v, "yes")
        || same_text(v, "YES") || same_text(v, "on") || same_text(v, "ON")
}

} // verus!
