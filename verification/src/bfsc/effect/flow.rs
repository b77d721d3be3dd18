//! What emitted text with input and output does.

use vstd::prelude::*;

use crate::bfsc::effect::steps::{
    bytes, lemma_sound_then, lemma_works_start, since, with, works, works_goto, Cells,
};
use crate::bfsc::effect::text::{lemma_takes_loop, lemma_takes_one, lemma_takes_then, takes};
use crate::bfsc::emitter::Bf;
use crate::bfsc::sound::steps::{
    lemma_sound_tokens, sound, sound_close, sound_comma, sound_dot, sound_open,
};
use crate::interp::machine::{written_bytes, Io, Source, St};
use crate::interp::preserve::gives_bytes;

verus! {

/// What has been emitted between two states of the emitter takes one state of
/// the tape to another.
#[verifier::opaque]
pub open spec fn goes(b: Bf, c: Bf, s: St, t: St, source: Source) -> bool {
    &&& sound(b.out, c.out, 0)
    &&& s.ptr == b.ptr
    &&& t.ptr == c.ptr
    &&& bytes(s.cells)
    &&& bytes(t.cells)
    &&& takes(since(b, c), s, t, source)
}

/// What holds of both ends.
pub proof fn lemma_goes_ends(b: Bf, c: Bf, s: St, t: St, source: Source)
    requires
        goes(b, c, s, t, source),
    ensures
        s.ptr == b.ptr,
        t.ptr == c.ptr,
        bytes(s.cells),
        bytes(t.cells),
{
    reveal(goes);
}

/// What changes cells alone.
pub proof fn lemma_goes_works(b: Bf, c: Bf, s: St, y: Cells, source: Source)
    requires
        works(b, c, s.cells, y),
        s.ptr == b.ptr,
    ensures
        goes(b, c, s, with(s, y, c.ptr), source),
{
    reveal(goes);
    reveal(works);
    assert(takes(since(b, c), s, with(s, y, c.ptr), source));
}

/// A step that emits nothing.
pub proof fn lemma_goes_quiet(b: Bf, c: Bf, d: Bf, s: St, t: St, source: Source)
    requires
        goes(b, c, s, t, source),
        d.out == c.out,
        d.ptr == c.ptr,
    ensures
        goes(b, d, s, t, source),
{
    reveal(goes);
    assert(since(b, c) == since(b, d));
}

/// One stretch behind another.
pub proof fn lemma_goes_then(b: Bf, c: Bf, d: Bf, s: St, m: St, t: St, source: Source)
    requires
        goes(b, c, s, m, source),
        goes(c, d, m, t, source),
    ensures
        goes(b, d, s, t, source),
{
    reveal(goes);
    lemma_sound_then(b.out, c.out, d.out, 0, 0);
    lemma_sound_tokens(b.out, c.out, 0);
    lemma_sound_tokens(c.out, d.out, 0);
    assert(since(b, d) =~= since(b, c) + since(c, d));
    lemma_takes_then(since(b, c), since(c, d), s, m, t, source);
}

/// A loop around what was emitted between `a.raw("[")` and `z`.
pub proof fn lemma_goes_loop(a: Bf, z: Bf, s: St, m: St, u: St, source: Source)
    requires
        bytes(s.cells),
        s.ptr == a.ptr,
        z.ptr == a.ptr,
        sound(a.raw("["@).out, z.out, 0),
        s.cell() == 0 ==> u == s,
        s.cell() != 0 ==> goes(a.raw("["@), z, s, m, source) && goes(a, z.raw("]"@), m, u, source),
    ensures
        goes(a, z.raw("]"@), s, u, source),
{
    broadcast use {sound_open, sound_close};

    reveal(goes);
    let a1 = a.raw("["@);
    let z1 = z.raw("]"@);
    assert(sound(a.out, a.out, 0)) by {
        reveal(sound);
    }
    assert(sound(a.out, a1.out, 1));
    lemma_sound_then(a.out, a1.out, z.out, 1, 0);
    assert(sound(a.out, z.out, 1));
    assert(sound(a.out, z1.out, 0));
    lemma_sound_tokens(a1.out, z.out, 0);
    let body = since(a1, z);
    reveal_strlit("[");
    reveal_strlit("]");
    assert(since(a, z1) =~= "["@ + body + "]"@);
    lemma_takes_loop(body, s, m, u, source);
}

/// A loop whose body clears its cell is done at most once.
pub proof fn lemma_goes_once(a: Bf, z: Bf, s: St, m: St, source: Source)
    requires
        bytes(s.cells),
        s.ptr == a.ptr,
        z.ptr == a.ptr,
        sound(a.raw("["@).out, z.out, 0),
        s.cell() != 0 ==> goes(a.raw("["@), z, s, m, source) && m.cell() == 0,
        s.cell() == 0 ==> m == s,
    ensures
        goes(a, z.raw("]"@), s, m, source),
{
    if s.cell() != 0 {
        lemma_goes_ends(a.raw("["@), z, s, m, source);
        lemma_goes_loop(a, z, m, m, m, source);
    }
    lemma_goes_loop(a, z, s, m, m, source);
}

/// `out_cell` writes a cell.
pub proof fn lemma_goes_out(b: Bf, c: int, s: St, source: Source)
    requires
        bytes(s.cells),
        s.ptr == b.ptr,
    ensures
        goes(b, b.out_cell(c), s, with(s, s.cells, c).wrote(), source),
{
    broadcast use {works_goto, sound_dot};

    lemma_works_start(b, s.cells);
    let a = b.goto(c);
    assert(works(b, a, s.cells, s.cells));
    lemma_goes_works(b, a, s, s.cells, source);
    let m = with(s, s.cells, c);
    let z = a.raw("."@);
    assert(goes(a, z, m, m.wrote(), source)) by {
        reveal(goes);
        assert(sound(a.out, a.out, 0)) by {
            reveal(sound);
        }
        reveal_strlit(".");
        assert(since(a, z) =~= seq!['.']);
        lemma_takes_one('.', m, source);
    }
    lemma_goes_then(b, a, z, s, m, m.wrote(), source);
}

/// `inp` reads into a cell.
pub proof fn lemma_goes_in(b: Bf, c: int, s: St, source: Source)
    requires
        bytes(s.cells),
        s.ptr == b.ptr,
        gives_bytes(source),
    ensures
        goes(b, b.inp(c), s, with(s, s.cells, c).read(source(s.reads)), source),
{
    broadcast use {works_goto, sound_comma};

    lemma_works_start(b, s.cells);
    let a = b.goto(c);
    assert(works(b, a, s.cells, s.cells));
    lemma_goes_works(b, a, s, s.cells, source);
    let m = with(s, s.cells, c);
    let z = a.raw(","@);
    let t = m.read(source(s.reads));
    assert(goes(a, z, m, t, source)) by {
        reveal(goes);
        assert(sound(a.out, a.out, 0)) by {
            reveal(sound);
        }
        reveal_strlit(",");
        assert(since(a, z) =~= seq![',']);
        lemma_takes_one(',', m, source);
        assert(0 <= source(s.reads) < 256);
        assert forall|i: int| #[trigger] t.cells.dom().contains(i) && 0 <= t.cells[i] < 256 by {
            assert(s.cells.dom().contains(i));
        }
    }
    lemma_goes_then(b, a, z, s, m, t, source);
}

/// A move of the data pointer at the end.
pub proof fn lemma_goes_goto(b: Bf, c: Bf, s: St, t: St, source: Source, cell: int)
    requires
        goes(b, c, s, t, source),
    ensures
        goes(b, c.goto(cell), s, with(t, t.cells, cell), source),
{
    broadcast use works_goto;

    lemma_goes_ends(b, c, s, t, source);
    lemma_works_start(c, t.cells);
    assert(works(c, c.goto(cell), t.cells, t.cells));
    lemma_goes_works(c, c.goto(cell), t, t.cells, source);
    lemma_goes_then(b, c, c.goto(cell), s, t, with(t, t.cells, cell), source);
}

/// A byte more in the output.
pub proof fn lemma_one_more(trace: Seq<Io>, at: int, b: int)
    ensures
        written_bytes(trace.push(Io::Put(at, b))) == written_bytes(trace).push(b),
{
    assert(trace.push(Io::Put(at, b)).drop_last() =~= trace);
}

/// A cell is written and given back.
pub proof fn lemma_put(b: Bf, c: Bf, cell: int, s: St, m: St, source: Source) -> (t: St)
    requires
        goes(b, c, s, m, source),
    ensures
        goes(b, c.out_cell(cell).tfree(cell), s, t, source),
        t.cells == m.cells,
        t.reads == m.reads,
        written_bytes(t.trace) == written_bytes(m.trace).push(m.cells[cell]),
{
    lemma_goes_ends(b, c, s, m, source);
    lemma_goes_out(c, cell, m, source);
    let t = with(m, m.cells, cell).wrote();
    lemma_goes_then(b, c, c.out_cell(cell), s, m, t, source);
    lemma_goes_quiet(b, c.out_cell(cell), c.out_cell(cell).tfree(cell), s, t, source);
    lemma_one_more(m.trace, cell, m.cells[cell]);
    t
}

/// A byte is read into a cell.
pub proof fn lemma_get(b: Bf, c: Bf, cell: int, s: St, m: St, source: Source) -> (t: St)
    requires
        goes(b, c, s, m, source),
        gives_bytes(source),
    ensures
        goes(b, c.inp(cell), s, t, source),
        t.cells == m.cells.insert(cell, source(m.reads)),
        t.reads == m.reads + 1,
        written_bytes(t.trace) == written_bytes(m.trace),
{
    lemma_goes_ends(b, c, s, m, source);
    lemma_goes_in(c, cell, m, source);
    let t = with(m, m.cells, cell).read(source(m.reads));
    lemma_goes_then(b, c, c.inp(cell), s, m, t, source);
    assert(t.trace.drop_last() =~= m.trace);
    t
}

} // verus!
