//! File names of what a compilation writes. Paths are texts with `/` between
//! their components.

use vstd::prelude::*;

use crate::driver::config::CompileTarget;
use crate::text::{chars_of, owned, string_of};

verus! {

/// Extension of the assembly listing.
pub const ASM_LISTING_EXT: &'static str = "asm";

/// Extension of the hexadecimal listing.
pub const HEX_LISTING_EXT: &'static str = "lst";

/// `p` without the separators and `.` components at its end, which name
/// nothing.
pub open spec fn trimmed(p: Seq<char>) -> Seq<char>
    decreases p.len(),
{
    if p.len() > 0 && p.last() == '/' {
        trimmed(p.drop_last())
    } else if p.len() > 1 && p.last() == '.' && p[p.len() - 2] == '/' {
        trimmed(p.take(p.len() - 2))
    } else {
        p
    }
}

/// Position behind the last `c` of `p[..i]`; zero where there is none.
pub open spec fn behind_last(p: Seq<char>, c: char, i: int) -> int
    decreases i,
{
    if i <= 0 || i > p.len() {
        0
    } else if p[i - 1] == c {
        i
    } else {
        behind_last(p, c, i - 1)
    }
}

/// Position of the last component of `p`, which has been trimmed.
pub open spec fn name_start(p: Seq<char>) -> int {
    behind_last(p, '/', p.len() as int)
}

/// Whether `p`, which has been trimmed, ends in a file name: neither nothing,
/// nor `.`, nor `..`.
pub open spec fn names_file(p: Seq<char>) -> bool {
    let name = p.skip(name_start(p));
    name.len() > 0 && name != seq!['.'] && name != seq!['.', '.']
}

/// Position of the dot before the extension of `p`, which ends in a file
/// name: the last dot of the name, unless the name begins with it. `None`
/// where the name has no extension.
pub open spec fn extension_dot(p: Seq<char>) -> Option<int> {
    let start = name_start(p);
    let dot = behind_last(p, '.', p.len() as int) - 1;
    if dot > start {
        Some(dot)
    } else {
        None
    }
}

/// Whether the file that `path` names has an extension.
pub open spec fn has_extension(path: Seq<char>) -> bool {
    names_file(trimmed(path)) && extension_dot(trimmed(path)) is Some
}

/// `path` with `extension` in place of the one it has, or behind it where it
/// has none; a path that names no file stays as it is.
pub open spec fn with_extension(path: Seq<char>, extension: Seq<char>) -> Seq<char> {
    let p = trimmed(path);
    if !names_file(p) {
        path
    } else {
        let stem = match extension_dot(p) {
            Some(dot) => p.take(dot),
            None => p,
        };
        if extension.len() == 0 {
            stem
        } else {
            stem.push('.') + extension
        }
    }
}

/// Where the executable for `target` goes.
pub open spec fn executable_path(target: CompileTarget, output: Seq<char>) -> Seq<char> {
    match target {
        CompileTarget::X86_64Linux => output,
        CompileTarget::X86_64Windows => if has_extension(output) {
            output
        } else {
            with_extension(output, "exe"@)
        },
    }
}

/// What a path comes to: the length of its trimmed form, whether that ends in
/// a file name, and where the dot before the extension is.
struct Shape {
    len: usize,
    file: bool,
    dot: Option<usize>,
}

/// The position behind the last `c` of `p[..end]`.
fn find_behind_last(p: &Vec<char>, c: char, end: usize) -> (r: usize)
    requires
        end <= p.len(),
    ensures
        r == behind_last(p@.take(end as int), c, end as int),
        r <= end,
{
    let ghost q = p@.take(end as int);
    let mut i: usize = end;
    while i > 0
        invariant
            i <= end <= p.len(),
            q == p@.take(end as int),
            behind_last(q, c, i as int) == behind_last(q, c, end as int),
        decreases i,
    {
        assert(q[i - 1] == p@[i - 1]);
        if p[i - 1] == c {
            return i;
        }
        i -= 1;
    }
    0
}

/// Find the parts of a path.
fn shape(p: &Vec<char>) -> (s: Shape)
    ensures
        s.len <= p.len(),
        p@.take(s.len as int) == trimmed(p@),
        s.file == names_file(trimmed(p@)),
        s.file ==> match s.dot {
            Some(dot) => extension_dot(trimmed(p@)) == Some(dot as int) && dot < s.len,
            None => extension_dot(trimmed(p@)) is None,
        },
{
    let mut len: usize = p.len();
    assert(p@.take(len as int) =~= p@);
    while len > 0 && (p[len - 1] == '/' || (len > 1 && p[len - 1] == '.' && p[len - 2] == '/'))
        invariant
            len <= p.len(),
            trimmed(p@.take(len as int)) == trimmed(p@),
        decreases len,
    {
        let ghost q = p@.take(len as int);
        assert(q.last() == p@[len - 1]);
        if p[len - 1] == '/' {
            assert(q.drop_last() =~= p@.take(len - 1));
            len -= 1;
        } else {
            assert(q.take(q.len() - 2) =~= p@.take(len - 2));
            len -= 2;
        }
    }
    let ghost q = p@.take(len as int);
    assert(len > 0 ==> q.last() == p@[len - 1]);
    assert(len > 1 ==> q[len - 2] == p@[len - 2]);
    assert(trimmed(q) == q);
    let start = find_behind_last(p, '/', len);
    let ghost name = q.skip(start as int);
    let file = if start == len {
        false
    } else if len - start == 1 && p[start] == '.' {
        assert(name =~= seq!['.']);
        false
    } else if len - start == 2 && p[start] == '.' && p[start + 1] == '.' {
        assert(name =~= seq!['.', '.']);
        false
    } else {
        assert(name[0] == p@[start as int]);
        assert(name.len() > 1 ==> name[1] == p@[start + 1]);
        true
    };
    let behind = find_behind_last(p, '.', len);
    let dot = if behind > 0 && behind - 1 > start {
        Some(behind - 1)
    } else {
        None
    };
    Shape { len, file, dot }
}

/// The path beside `output` that has the given extension.
pub fn artifact_path(output: &str, extension: &str) -> (r: String)
    ensures
        r@ == with_extension(output@, extension@),
{
    let p = chars_of(output);
    let s = shape(&p);
    if !s.file {
        return owned(output);
    }
    let mut r = match s.dot {
        Some(dot) => {
            assert(p@.subrange(0, dot as int) =~= trimmed(p@).take(dot as int));
            string_of(&p, 0, dot)
        },
        None => {
            assert(p@.subrange(0, s.len as int) =~= trimmed(p@));
            string_of(&p, 0, s.len)
        },
    };
    if chars_of(extension).len() > 0 {
        r.push('.');
        r.append(extension);
    }
    r
}

/// Where the executable for `target` goes: a Windows executable gets `.exe`
/// unless `output` already has an extension.
pub fn compile_executable_output_path(target: CompileTarget, output: &str) -> (r: String)
    ensures
        r@ == executable_path(target, output@),
{
    match target {
        CompileTarget::X86_64Linux => owned(output),
        CompileTarget::X86_64Windows => {
            let p = chars_of(output);
            let s = shape(&p);
            if s.file && s.dot.is_some() {
                owned(output)
            } else {
                artifact_path(output, "exe")
            }
        },
    }
}

} // verus!
