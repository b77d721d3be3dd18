//! What the basic steps of the emitter do to the cells.

use vstd::prelude::*;

use crate::bfsc::effect::text::{
    lemma_takes_loop, lemma_takes_nothing, lemma_takes_one, lemma_takes_then, straight, takes,
};
use crate::bfsc::emitter::Bf;
use crate::bfsc::sound::steps::{
    lemma_sound_tokens, lift, sound, sound_close, sound_goto, sound_minus, sound_minuses,
    sound_open, sound_plus, sound_pluses,
};
use crate::frontend::lexer::token_of;
use crate::interp::machine::{Source, St};
use crate::text::repeat;

verus! {

/// The cells of a tape.
pub type Cells = Map<int, int>;

/// Every place has a cell that holds a byte.
pub open spec fn bytes(x: Cells) -> bool {
    forall|i: int| #[trigger] x.dom().contains(i) && 0 <= x[i] < 256
}

/// The text that an emitter has added since an earlier state.
pub open spec fn since(o: Bf, b: Bf) -> Seq<char> {
    b.out.skip(o.out.len() as int)
}

/// The state with other cells and another data pointer.
pub open spec fn with(s: St, x: Cells, p: int) -> St {
    St { cells: x, ptr: p, ..s }
}

/// What has been emitted since `o` turns the cells `x0` into `x`, with the data
/// pointer where the emitter says that it is, and without input and output.
#[verifier::opaque]
pub open spec fn works(o: Bf, b: Bf, x0: Cells, x: Cells) -> bool {
    &&& bytes(x0)
    &&& bytes(x)
    &&& sound(o.out, b.out, 0)
    &&& forall|s: St, source: Source|
        s.cells == x0 && s.ptr == o.ptr ==> #[trigger] takes(
            since(o, b),
            s,
            with(s, x, b.ptr),
            source,
        )
}

/// The cells of a tape hold bytes.
pub broadcast proof fn lemma_works_bytes(o: Bf, b: Bf, x0: Cells, x: Cells)
    requires
        #[trigger] works(o, b, x0, x),
    ensures
        bytes(x),
        bytes(x0),
{
    reveal(works);
}

/// An emitter that has added nothing.
pub proof fn lemma_works_start(o: Bf, x: Cells)
    requires
        bytes(x),
    ensures
        works(o, o, x, x),
{
    reveal(works);
    reveal(sound);
    assert(since(o, o) =~= Seq::<char>::empty());
    assert forall|s: St, source: Source| s.cells == x && s.ptr == o.ptr implies #[trigger] takes(
        since(o, o),
        s,
        with(s, x, o.ptr),
        source,
    ) by {
        lemma_takes_nothing(s, source);
        assert(with(s, x, o.ptr) == s);
    }
}

/// A step that emits nothing.
pub proof fn lemma_works_quiet(o: Bf, b: Bf, c: Bf, x0: Cells, x: Cells)
    requires
        works(o, b, x0, x),
        c.out == b.out,
        c.ptr == b.ptr,
    ensures
        works(o, c, x0, x),
{
    reveal(works);
    assert(since(o, b) == since(o, c));
    assert forall|s: St, source: Source|
        s.cells == x0 && s.ptr == o.ptr implies #[trigger] takes(
        since(o, c),
        s,
        with(s, x, c.ptr),
        source,
    ) by {
        assert(takes(since(o, b), s, with(s, x, b.ptr), source));
    }
}

/// A sound text that goes on from a sound text.
pub proof fn lemma_sound_then(a: Seq<char>, b: Seq<char>, c: Seq<char>, d: int, e: int)
    requires
        sound(a, b, d),
        sound(b, c, e),
        d >= 0,
    ensures
        sound(a, c, d + e),
    decreases c.len(),
{
    reveal(sound);
    lemma_sound_tokens(a, b, d);
    lemma_sound_tokens(b, c, e);
    if c.len() > b.len() {
        lemma_sound_then(a, b, c.drop_last(), d, e - lift(c.last()));
    } else {
        assert(c == b);
    }
}

/// One stretch behind another.
pub proof fn lemma_works_then(o: Bf, b: Bf, c: Bf, x0: Cells, x: Cells, y: Cells)
    requires
        works(o, b, x0, x),
        works(b, c, x, y),
    ensures
        works(o, c, x0, y),
{
    reveal(works);
    lemma_sound_then(o.out, b.out, c.out, 0, 0);
    lemma_sound_tokens(o.out, b.out, 0);
    lemma_sound_tokens(b.out, c.out, 0);
    assert(since(o, c) =~= since(o, b) + since(b, c));
    assert forall|s: St, source: Source|
        s.cells == x0 && s.ptr == o.ptr implies #[trigger] takes(
        since(o, c),
        s,
        with(s, y, c.ptr),
        source,
    ) by {
        let m = with(s, x, b.ptr);
        assert(takes(since(o, b), s, m, source));
        assert(takes(since(b, c), m, with(m, y, c.ptr), source));
        assert(with(m, y, c.ptr) == with(s, y, c.ptr));
        lemma_takes_then(since(o, b), since(b, c), s, m, with(s, y, c.ptr), source);
    }
}

/// A loop around what was emitted between `a.raw("[")` and `z`: it does nothing
/// where the cell is 0; else it does that and is then at its start again.
pub proof fn lemma_works_loop(a: Bf, z: Bf, x: Cells, m: Cells, y: Cells)
    requires
        bytes(x),
        z.ptr == a.ptr,
        sound(a.raw("["@).out, z.out, 0),
        x[a.ptr] == 0 ==> y == x,
        x[a.ptr] != 0 ==> works(a.raw("["@), z, x, m) && works(a, z.raw("]"@), m, y),
    ensures
        works(a, z.raw("]"@), x, y),
{
    broadcast use {sound_open, sound_close};

    reveal(works);
    let a1 = a.raw("["@);
    let z1 = z.raw("]"@);
    assert(sound(a.out, a.out, 0)) by {
        reveal(sound);
    }
    assert(sound(a.out, a1.out, 1));
    lemma_sound_then(a.out, a1.out, z.out, 1, 0);
    assert(sound(a.out, z.out, 1));
    assert(sound(a.out, z1.out, 0));
    lemma_sound_tokens(a1.out, z.out, 0);
    let body = since(a1, z);
    reveal_strlit("[");
    reveal_strlit("]");
    assert(since(a, z1) =~= "["@ + body + "]"@);
    assert forall|s: St, source: Source| s.cells == x && s.ptr == a.ptr implies #[trigger] takes(
        since(a, z1),
        s,
        with(s, y, z1.ptr),
        source,
    ) by {
        let u = with(s, y, z1.ptr);
        let k = with(s, m, z.ptr);
        if s.cell() != 0 {
            assert(takes(since(a1, z), s, with(s, m, z.ptr), source));
            assert(takes(since(a, z1), k, with(k, y, z1.ptr), source));
            assert(with(k, y, z1.ptr) == u);
        } else {
            assert(u == s);
        }
        lemma_takes_loop(body, s, k, u, source);
    }
}

/// A move of the data pointer, some operators to the right or to the left.
proof fn lemma_takes_moves(right: bool, n: nat, s: St, source: Source)
    ensures
        right ==> takes(repeat('>', n), s, s.moved(n as int), source),
        !right ==> takes(repeat('<', n), s, s.moved(-(n as int)), source),
    decreases n,
{
    let c = if right {
        '>'
    } else {
        '<'
    };
    if n == 0 {
        lemma_takes_nothing(s, source);
        assert(repeat(c, n) =~= Seq::<char>::empty());
        assert(s.moved(0) == s);
    } else {
        let m = (n - 1) as nat;
        lemma_takes_moves(right, m, s, source);
        let t = if right {
            s.moved(m as int)
        } else {
            s.moved(-(m as int))
        };
        lemma_takes_one(c, t, source);
        let u = straight(token_of(c)->Some_0, t, source);
        lemma_takes_then(repeat(c, m), seq![c], s, t, u, source);
        assert(repeat(c, n) =~= repeat(c, m) + seq![c]);
    }
}

/// The state with the current cell changed by an amount.
pub open spec fn bumped(s: St, k: int) -> St {
    with(s, s.cells.insert(s.ptr, (s.cells[s.ptr] + k) % 256), s.ptr)
}

/// A change of a cell, some operators up or down.
proof fn lemma_takes_bumps(up: bool, n: nat, s: St, source: Source)
    requires
        bytes(s.cells),
    ensures
        up ==> takes(repeat('+', n), s, bumped(s, n as int), source),
        !up ==> takes(repeat('-', n), s, bumped(s, -(n as int)), source),
    decreases n,
{
    let c = if up {
        '+'
    } else {
        '-'
    };
    let e: int = if up {
        1
    } else {
        -1
    };
    assert(s.cells.dom().contains(s.ptr));
    if n == 0 {
        lemma_takes_nothing(s, source);
        assert(repeat(c, n) =~= Seq::<char>::empty());
        assert(bumped(s, 0).cells =~= s.cells);
        assert(bumped(s, 0) == s);
    } else {
        let m = (n - 1) as nat;
        lemma_takes_bumps(up, m, s, source);
        let k = e * m;
        assert(k == if up {
            m as int
        } else {
            -(m as int)
        });
        let t = bumped(s, k);
        lemma_takes_one(c, t, source);
        let u = straight(token_of(c)->Some_0, t, source);
        lemma_takes_then(repeat(c, m), seq![c], s, t, u, source);
        assert(repeat(c, n) =~= repeat(c, m) + seq![c]);
        let v = s.cells[s.ptr];
        assert(((v + k) % 256 + e) % 256 == (v + (k + e)) % 256) by {
            vstd::arithmetic::div_mod::lemma_add_mod_noop_right(e, v + k, 256);
            assert(e + (v + k) == v + (k + e));
        }
        assert(u.cells =~= bumped(s, k + e).cells);
        assert(u == bumped(s, k + e));
        assert(k + e == if up {
            n as int
        } else {
            -(n as int)
        });
    }
}

/// Moving the data pointer changes no cell.
pub broadcast proof fn works_goto(o: Bf, b: Bf, x0: Cells, x: Cells, c: int)
    requires
        #[trigger] works(o, b, x0, x),
    ensures
        works(o, #[trigger] b.goto(c), x0, x),
{
    broadcast use sound_goto;

    lemma_works_bytes(o, b, x0, x);
    let z = b.goto(c);
    assert(works(b, z, x, x)) by {
        reveal(works);
        assert(sound(b.out, b.out, 0)) by {
            reveal(sound);
        }
        let right = c > b.ptr;
        let n = if right {
            (c - b.ptr) as nat
        } else {
            (b.ptr - c) as nat
        };
        assert(since(b, z) =~= repeat(
            if right {
                '>'
            } else {
                '<'
            },
            n,
        ));
        assert forall|s: St, source: Source|
            s.cells == x && s.ptr == b.ptr implies #[trigger] takes(
            since(b, z),
            s,
            with(s, x, z.ptr),
            source,
        ) by {
            lemma_takes_moves(right, n, s, source);
            assert(with(s, x, z.ptr) == s.moved(
                if right {
                    n as int
                } else {
                    -(n as int)
                },
            ));
        }
    }
    lemma_works_then(o, b, z, x0, x, x);
}

/// The cells with one of them changed by an amount.
pub open spec fn plus(x: Cells, c: int, k: int) -> Cells {
    x.insert(c, (x[c] + k) % 256)
}

/// Changing the current cell.
proof fn lemma_works_bump(b: Bf, z: Bf, x: Cells, up: bool, n: nat)
    requires
        bytes(x),
        sound(b.out, z.out, 0),
        z.ptr == b.ptr,
        z.out == b.out + repeat(
            if up {
                '+'
            } else {
                '-'
            },
            n,
        ),
    ensures
        works(
            b,
            z,
            x,
            plus(
                x,
                b.ptr,
                if up {
                    n as int
                } else {
                    -(n as int)
                },
            ),
        ),
{
    reveal(works);
    let k = if up {
        n as int
    } else {
        -(n as int)
    };
    let y = plus(x, b.ptr, k);
    assert(since(b, z) =~= repeat(
        if up {
            '+'
        } else {
            '-'
        },
        n,
    ));
    assert forall|s: St, source: Source| s.cells == x && s.ptr == b.ptr implies #[trigger] takes(
        since(b, z),
        s,
        with(s, y, z.ptr),
        source,
    ) by {
        lemma_takes_bumps(up, n, s, source);
        assert(with(s, y, z.ptr) == bumped(s, k));
    }
}

/// `+` adds 1 to the current cell.
pub broadcast proof fn works_plus(o: Bf, b: Bf, x0: Cells, x: Cells)
    requires
        #[trigger] works(o, b, x0, x),
    ensures
        works(o, #[trigger] b.raw("+"@), x0, plus(x, b.ptr, 1)),
{
    broadcast use sound_plus;

    lemma_works_bytes(o, b, x0, x);
    assert(sound(b.out, b.out, 0)) by {
        reveal(sound);
    }
    reveal_strlit("+");
    let z = b.raw("+"@);
    assert("+"@ =~= repeat('+', 1));
    lemma_works_bump(b, z, x, true, 1);
    lemma_works_then(o, b, z, x0, x, plus(x, b.ptr, 1));
}

/// `-` subtracts 1 from the current cell.
pub broadcast proof fn works_minus(o: Bf, b: Bf, x0: Cells, x: Cells)
    requires
        #[trigger] works(o, b, x0, x),
    ensures
        works(o, #[trigger] b.raw("-"@), x0, plus(x, b.ptr, -1)),
{
    broadcast use sound_minus;

    lemma_works_bytes(o, b, x0, x);
    assert(sound(b.out, b.out, 0)) by {
        reveal(sound);
    }
    reveal_strlit("-");
    let z = b.raw("-"@);
    assert("-"@ =~= repeat('-', 1));
    lemma_works_bump(b, z, x, false, 1);
    lemma_works_then(o, b, z, x0, x, plus(x, b.ptr, -1));
}

/// `inc` adds to a cell.
pub broadcast proof fn works_inc(o: Bf, b: Bf, x0: Cells, x: Cells, c: int, n: int)
    requires
        #[trigger] works(o, b, x0, x),
        n >= 0,
    ensures
        works(o, #[trigger] b.inc(c, n), x0, plus(x, c, n)),
{
    broadcast use {works_goto, sound_pluses};

    lemma_works_bytes(o, b, x0, x);
    if n > 0 {
        let a = b.goto(c);
        let z = a.many('+', n);
        assert(sound(a.out, a.out, 0)) by {
            reveal(sound);
        }
        lemma_works_bump(a, z, x, true, n as nat);
        lemma_works_then(o, a, z, x0, x, plus(x, c, n));
    } else {
        assert(x.dom().contains(c));
        assert(plus(x, c, 0) =~= x);
    }
}

/// `dec` subtracts from a cell.
pub broadcast proof fn works_dec(o: Bf, b: Bf, x0: Cells, x: Cells, c: int, n: int)
    requires
        #[trigger] works(o, b, x0, x),
        n >= 0,
    ensures
        works(o, #[trigger] b.dec(c, n), x0, plus(x, c, -n)),
{
    broadcast use {works_goto, sound_minuses};

    lemma_works_bytes(o, b, x0, x);
    if n > 0 {
        let a = b.goto(c);
        let z = a.many('-', n);
        assert(sound(a.out, a.out, 0)) by {
            reveal(sound);
        }
        lemma_works_bump(a, z, x, false, n as nat);
        lemma_works_then(o, a, z, x0, x, plus(x, c, -n));
    } else {
        assert(x.dom().contains(c));
        assert(plus(x, c, 0) =~= x);
    }
}

/// `[-]` clears the current cell.
proof fn lemma_works_wipe(a: Bf, x: Cells)
    requires
        bytes(x),
    ensures
        works(a, a.raw("["@).raw("-"@).raw("]"@), x, x.insert(a.ptr, 0)),
    decreases x[a.ptr],
{
    broadcast use {works_minus, sound_minus};

    let a1 = a.raw("["@);
    let z = a1.raw("-"@);
    let y = x.insert(a.ptr, 0);
    assert(sound(a1.out, a1.out, 0)) by {
        reveal(sound);
    }
    assert(x.dom().contains(a.ptr));
    let m = plus(x, a.ptr, -1);
    if x[a.ptr] != 0 {
        lemma_works_start(a1, x);
        assert(works(a1, z, x, m));
        lemma_works_bytes(a1, z, x, m);
        lemma_works_wipe(a, m);
        assert(m.insert(a.ptr, 0) =~= y);
    } else {
        assert(y =~= x);
    }
    lemma_works_loop(a, z, x, m, y);
}

/// `clear` clears a cell.
pub broadcast proof fn works_clear(o: Bf, b: Bf, x0: Cells, x: Cells, c: int)
    requires
        #[trigger] works(o, b, x0, x),
    ensures
        works(o, #[trigger] b.clear(c), x0, x.insert(c, 0)),
{
    broadcast use works_goto;

    lemma_works_bytes(o, b, x0, x);
    let a = b.goto(c);
    lemma_works_wipe(a, x);
    reveal_strlit("[");
    reveal_strlit("-");
    reveal_strlit("]");
    reveal_strlit("[-]");
    assert(a.raw("["@).raw("-"@).raw("]"@).out =~= b.clear(c).out);
    lemma_works_then(o, a, a.raw("["@).raw("-"@).raw("]"@), x0, x, x.insert(c, 0));
    lemma_works_quiet(o, a.raw("["@).raw("-"@).raw("]"@), b.clear(c), x0, x.insert(c, 0));
}

/// `setv` sets a cell.
pub broadcast proof fn works_setv(o: Bf, b: Bf, x0: Cells, x: Cells, c: int, v: int)
    requires
        #[trigger] works(o, b, x0, x),
        0 <= v < 256,
    ensures
        works(o, #[trigger] b.setv(c, v), x0, x.insert(c, v)),
{
    broadcast use {works_clear, works_inc};

    assert(works(o, b.setv(c, v), x0, plus(x.insert(c, 0), c, v)));
    assert(plus(x.insert(c, 0), c, v) =~= x.insert(c, v));
}

/// Taking temporary cells emits nothing.
pub broadcast proof fn works_talloc_n(o: Bf, b: Bf, x0: Cells, x: Cells, n: int)
    requires
        #[trigger] works(o, b, x0, x),
    ensures
        works(o, (#[trigger] b.talloc_n(n)).0, x0, x),
{
    lemma_works_quiet(o, b, b.talloc_n(n).0, x0, x);
}

/// Taking a temporary cell emits nothing.
pub broadcast proof fn works_talloc(o: Bf, b: Bf, x0: Cells, x: Cells)
    requires
        #[trigger] works(o, b, x0, x),
    ensures
        works(o, (#[trigger] b.talloc()).0, x0, x),
{
    lemma_works_quiet(o, b, b.talloc().0, x0, x);
}

/// Giving temporary cells back emits nothing.
pub broadcast proof fn works_tfree_n(o: Bf, b: Bf, x0: Cells, x: Cells, base: int, n: int)
    requires
        #[trigger] works(o, b, x0, x),
    ensures
        works(o, #[trigger] b.tfree_n(base, n), x0, x),
{
    lemma_works_quiet(o, b, b.tfree_n(base, n), x0, x);
}

/// Giving a temporary cell back emits nothing.
pub broadcast proof fn works_tfree(o: Bf, b: Bf, x0: Cells, x: Cells, cell: int)
    requires
        #[trigger] works(o, b, x0, x),
    ensures
        works(o, #[trigger] b.tfree(cell), x0, x),
{
    lemma_works_quiet(o, b, b.tfree(cell), x0, x);
}

} // verus!
