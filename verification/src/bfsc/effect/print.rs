//! What the printing of a number does.

use vstd::prelude::*;

use crate::bfsc::effect::arith::{
    lemma_bytes_val, lemma_copied_val, lemma_held_val, lemma_low_val, lemma_same_val, operands,
    size, val,
};
use crate::bfsc::effect::blocks::{
    held_n, lemma_clear_range, lemma_copy_n, lemma_freed_n, lemma_took_n, took_n,
};
use crate::bfsc::effect::cells::{
    agree, bit, flagged, held, roomy, settled, took, works_copy, works_flag_if, works_is_nz,
};
use crate::bfsc::effect::compare::{grown, lemma_freed, lemma_took, lent};
use crate::bfsc::effect::digits::{lemma_shared, shared};
use crate::bfsc::effect::flow::{
    goes, lemma_goes_ends, lemma_goes_once, lemma_goes_quiet, lemma_goes_then, lemma_goes_works,
    lemma_put,
};
use crate::bfsc::effect::product::lemma_beside;
use crate::bfsc::effect::steps::{
    bytes, lemma_works_bytes, lemma_works_start, plus, with, works, works_clear, works_goto,
    works_inc, works_setv, works_talloc, works_talloc_n, works_tfree, works_tfree_n, Cells,
};
use crate::bfsc::emitter::Bf;
use crate::bfsc::meaning::decimal;
use crate::bfsc::numbers::divisors_of;
use crate::bfsc::sound::arith::sound_copy;
use crate::bfsc::sound::steps::{
    sound, sound_clear, sound_goto, sound_inc, sound_out_cell, sound_setv, sound_talloc,
    sound_tfree,
};
use crate::interp::machine::{written_bytes, Source, St};
use crate::text::{dec, digit_char};

verus! {

/// The digits from `i` on as they are written: without leading zeros, but with
/// the last digit.
spec fn shown(vs: Seq<int>, i: int, seen: bool) -> Seq<int>
    decreases vs.len() - i,
{
    if i < 0 || i >= vs.len() {
        Seq::empty()
    } else if i == vs.len() - 1 || vs[i] != 0 || seen {
        seq![vs[i] + 48] + shown(vs, i + 1, true)
    } else {
        shown(vs, i + 1, false)
    }
}

/// What is written where a digit is due.
spec fn digit_body(e1: Bf, flag: int, d: int, seen: Option<int>) -> Bf {
    let bf = match seen {
        Some(c) => e1.setv(c, 1),
        None => e1,
    };
    let (bf, dc) = bf.talloc();
    bf.copy(d, dc).inc(dc, 48).out_cell(dc).tfree(dc).clear(flag).goto(flag)
}

/// A digit is written where its flag is set.
spec fn digit_if(bf: Bf, flag: int, d: int, seen: Option<int>) -> Bf {
    digit_body(bf.goto(flag).raw("["@), flag, d, seen).raw("]"@).tfree(flag)
}

/// The cells that a digit is written from.
spec fn due(bf: Bf, flag: int, d: int, seen: Option<int>) -> bool {
    &&& roomy(bf)
    &&& lent(bf, flag)
    &&& held(bf, d)
    &&& d != flag
    &&& match seen {
        Some(c) => held(bf, c) && c != flag && c != d,
        None => true,
    }
}

proof fn lemma_digit_body(
    e1: Bf,
    flag: int,
    d: int,
    seen: Option<int>,
    s: St,
    source: Source,
) -> (t:
    St)
    requires
        due(e1, flag, d, seen),
        s.ptr == e1.ptr,
        bytes(s.cells),
        0 <= s.cells[d] < 10,
    ensures
        goes(e1, digit_body(e1, flag, d, seen), s, t, source),
        settled(e1, digit_body(e1, flag, d, seen)),
        t.ptr == flag,
        t.reads == s.reads,
        written_bytes(t.trace) == written_bytes(s.trace).push(s.cells[d] + 48),
        t.cells[flag] == 0,
        seen is Some ==> t.cells[seen->Some_0] == 1,
        forall|k: int|
            held(e1, k) && k != flag && seen != Some(k) ==> #[trigger] t.cells[k] == s.cells[k],
{
    broadcast use {
        works_setv,
        works_talloc,
        works_copy,
        works_inc,
        works_clear,
        works_goto,
        lemma_took,
    };

    let x = s.cells;
    lemma_works_start(e1, x);
    let b1 = match seen {
        Some(c) => e1.setv(c, 1),
        None => e1,
    };
    let x1 = match seen {
        Some(c) => x.insert(c, 1),
        None => x,
    };
    assert(works(e1, b1, x, x1));
    assert(settled(e1, b1));
    assert(held(b1, d) && held(b1, flag));
    assert(took(b1, b1.talloc().0, b1.talloc().1));
    let (b2, dc) = b1.talloc();
    assert(held(b2, d) && held(b2, dc) && dc != d);
    let x3 = choose|y: Cells| #[trigger]
        works(e1, b2.copy(d, dc), x, y) && agree(b2, x1.insert(dc, x1[d]), y);
    let b3 = b2.copy(d, dc);
    assert(x3[dc] == x[d]);
    lemma_works_bytes(e1, b3, x, x3);
    assert(x3.dom().contains(dc));
    let b4 = b3.inc(dc, 48);
    let x4 = plus(x3, dc, 48);
    assert(works(e1, b4, x, x4));
    assert(x4[dc] == x[d] + 48);
    lemma_goes_works(e1, b4, s, x4, source);
    let m = with(s, x4, b4.ptr);
    let u = lemma_put(e1, b4, dc, s, m, source);
    let b5 = b4.out_cell(dc).tfree(dc);
    lemma_goes_ends(e1, b5, s, u, source);
    lemma_works_start(b5, u.cells);
    let z = b5.clear(flag).goto(flag);
    let y = u.cells.insert(flag, 0);
    assert(works(b5, z, u.cells, y));
    lemma_goes_works(b5, z, u, y, source);
    let t = with(u, y, flag);
    lemma_goes_then(e1, b5, z, s, u, t, source);
    assert(settled(e1, z)) by {
        assert(!held(b1, dc));
        assert(z.used =~= e1.used);
    }
    assert forall|k: int| held(e1, k) && k != flag && seen != Some(k) implies #[trigger] t.cells[k]
        == s.cells[k] by {
        assert(held(b1, k));
        assert(held(b2, k) && k != dc);
        assert(x3[k] == x1.insert(dc, x1[d])[k]);
    }
    if seen is Some {
        let c = seen->Some_0;
        assert(held(b1, c));
        assert(held(b2, c) && c != dc);
        assert(x3[c] == x1.insert(dc, x1[d])[c]);
    }
    t
}

/// A digit is written where its flag is set, and the flag is given back.
proof fn lemma_digit_if(bf: Bf, flag: int, d: int, seen: Option<int>, s: St, source: Source) -> (t:
    St)
    requires
        due(bf, flag, d, seen),
        s.ptr == bf.ptr,
        bytes(s.cells),
        0 <= s.cells[d] < 10,
    ensures
        goes(bf, digit_if(bf, flag, d, seen), s, t, source),
        roomy(digit_if(bf, flag, d, seen)),
        digit_if(bf, flag, d, seen).temp_base == bf.temp_base,
        forall|k: int| #[trigger]
            held(digit_if(bf, flag, d, seen), k) <==> held(bf, k) && k != flag,
        t.reads == s.reads,
        s.cells[flag] != 0 ==> written_bytes(t.trace) == written_bytes(s.trace).push(
            s.cells[d] + 48,
        ),
        s.cells[flag] == 0 ==> written_bytes(t.trace) == written_bytes(s.trace),
        seen is Some ==> t.cells[seen->Some_0] == if s.cells[flag] != 0 {
            1
        } else {
            s.cells[seen->Some_0]
        },
        forall|k: int|
            held(bf, k) && k != flag && seen != Some(k) ==> #[trigger] t.cells[k] == s.cells[k],
{
    broadcast use {
        works_goto,
        sound_setv,
        sound_talloc,
        sound_copy,
        sound_inc,
        sound_out_cell,
        sound_tfree,
        sound_clear,
        sound_goto,
    };

    lemma_works_start(bf, s.cells);
    let a = bf.goto(flag);
    assert(works(bf, a, s.cells, s.cells));
    lemma_goes_works(bf, a, s, s.cells, source);
    let m = with(s, s.cells, flag);
    let e1 = a.raw("["@);
    assert(settled(bf, e1));
    assert(held(e1, flag) && held(e1, d));
    assert(seen is Some ==> held(e1, seen->Some_0));
    let z = digit_body(e1, flag, d, seen);
    assert(sound(e1.out, e1.out, 0)) by {
        reveal(sound);
    }
    assert(sound(e1.out, z.out, 0));
    let u = lemma_digit_body(e1, flag, d, seen, m, source);
    let t = if s.cells[flag] != 0 {
        u
    } else {
        m
    };
    lemma_goes_once(a, z, m, t, source);
    let e2 = z.raw("]"@);
    lemma_goes_then(bf, a, e2, s, m, t, source);
    let c = e2.tfree(flag);
    lemma_goes_quiet(bf, e2, c, s, t, source);
    assert(settled(bf, e2));
    lemma_freed(e2, flag);
    assert forall|k: int| #[trigger] held(c, k) <==> held(bf, k) && k != flag by {
        assert(held(e2, k) == held(bf, k));
    }
    assert forall|k: int| held(bf, k) && k != flag && seen != Some(k) implies #[trigger] t.cells[k]
        == s.cells[k] by {
        assert(held(e1, k));
    }
    t
}

/// Whether a digit is due: it or one before it is not 0.
spec fn digit_flag(bf: Bf, d: int, seen_nz: int) -> (Bf, int) {
    let (bf, d_nz) = bf.is_nz(d);
    let (bf, flag) = bf.talloc();
    let bf = bf.clear(flag);
    let (bf, copy) = bf.talloc();
    let bf = bf.copy(seen_nz, copy).flag_if(copy, flag).tfree(copy);
    (bf.flag_if(d_nz, flag).tfree(d_nz), flag)
}

proof fn lemma_digit_flag(bf: Bf, d: int, seen_nz: int, x: Cells) -> (y: Cells)
    requires
        roomy(bf),
        held(bf, d),
        held(bf, seen_nz),
        d != seen_nz,
        bytes(x),
    ensures
        works(bf, digit_flag(bf, d, seen_nz).0, x, y),
        grown(bf, digit_flag(bf, d, seen_nz).0),
        lent(digit_flag(bf, d, seen_nz).0, digit_flag(bf, d, seen_nz).1),
        !held(bf, digit_flag(bf, d, seen_nz).1),
        forall|k: int| #[trigger]
            held(digit_flag(bf, d, seen_nz).0, k) <==> held(bf, k) || k == digit_flag(
                bf,
                d,
                seen_nz,
            ).1,
        y[digit_flag(bf, d, seen_nz).1] == bit(x[d] != 0 || x[seen_nz] != 0),
        agree(bf, x, y),
{
    broadcast use {
        works_is_nz,
        works_talloc,
        works_tfree,
        works_clear,
        works_copy,
        works_flag_if,
        lemma_took,
    };

    lemma_works_start(bf, x);
    let (b1, d_nz) = bf.is_nz(d);
    assert(took(bf, b1, d_nz));
    let x1 = choose|y: Cells| #[trigger]
        works(bf, b1, x, y) && agree(bf.talloc().0, x.insert(bf.talloc().1, bit(x[d] != 0)), y);
    assert(held(bf.talloc().0, d_nz)) by {
        assert(held(b1, d_nz));
    }
    assert(x1[d_nz] == bit(x[d] != 0));
    assert forall|k: int| held(bf, k) implies #[trigger] x1[k] == x[k] by {
        assert(held(b1, k) && k != d_nz);
        assert(held(bf.talloc().0, k));
    }
    assert(took(b1, b1.talloc().0, b1.talloc().1));
    let (b2, flag) = b1.talloc();
    let b3 = b2.clear(flag);
    let x3 = x1.insert(flag, 0);
    assert(works(bf, b3, x, x3));
    assert(settled(b2, b3));
    assert(held(b1, d_nz) && held(b1, seen_nz));
    assert(held(b2, d_nz) && held(b2, seen_nz) && held(b2, flag));
    assert(held(b3, d_nz) && held(b3, seen_nz) && held(b3, flag));
    assert(took(b3, b3.talloc().0, b3.talloc().1));
    let (b4, copy) = b3.talloc();
    assert(works(bf, b4, x, x3));
    assert(held(b4, copy) && held(b4, seen_nz) && held(b4, flag) && held(b4, d_nz));
    let b5 = b4.copy(seen_nz, copy);
    let x5 = choose|y: Cells| #[trigger]
        works(bf, b5, x, y) && agree(b4, x3.insert(copy, x3[seen_nz]), y);
    assert(x5[copy] == x[seen_nz]);
    assert(x5[flag] == 0);
    assert(x5[d_nz] == bit(x[d] != 0));
    let b6 = b5.flag_if(copy, flag);
    let x6 = flagged(x5, copy, flag);
    assert(works(bf, b6, x, x6));
    lemma_freed(b6, copy);
    let b7 = b6.tfree(copy);
    assert(works(bf, b7, x, x6));
    let b8 = b7.flag_if(d_nz, flag);
    let y = flagged(x6, d_nz, flag);
    assert(works(bf, b8, x, y));
    lemma_freed(b8, d_nz);
    let c = b8.tfree(d_nz);
    assert(works(bf, c, x, y));
    assert forall|k: int| #[trigger] held(c, k) <==> held(bf, k) || k == flag by {
        assert(held(b1, k) <==> held(bf, k) || k == d_nz);
        assert(held(b2, k) <==> held(b1, k) || k == flag);
        assert(held(b3, k) == held(b2, k));
        assert(held(b4, k) <==> held(b3, k) || k == copy);
        assert(held(b6, k) == held(b4, k));
        assert(held(b7, k) <==> held(b6, k) && k != copy);
        assert(held(b8, k) == held(b7, k));
    }
    assert forall|k: int| held(bf, k) implies #[trigger] y[k] == x[k] by {
        assert(held(b1, k) && k != d_nz);
        assert(held(b2, k) && k != flag);
        assert(held(b3, k));
        assert(held(b4, k) && k != copy);
        assert(x5[k] == x3.insert(copy, x3[seen_nz])[k]);
    }
    y
}

/// A digit that is not the last.
proof fn lemma_print_digit(bf: Bf, d: int, seen_nz: int, s: St, source: Source) -> (t: St)
    requires
        roomy(bf),
        lent(bf, d),
        held(bf, seen_nz),
        d != seen_nz,
        s.ptr == bf.ptr,
        bytes(s.cells),
        0 <= s.cells[d] < 10,
        s.cells[seen_nz] == 0 || s.cells[seen_nz] == 1,
    ensures
        goes(bf, bf.print_digit(d, seen_nz), s, t, source),
        roomy(bf.print_digit(d, seen_nz)),
        bf.print_digit(d, seen_nz).temp_base == bf.temp_base,
        forall|k: int| #[trigger]
            held(bf.print_digit(d, seen_nz), k) <==> held(bf, k) && k != d,
        t.reads == s.reads,
        s.cells[d] != 0 || s.cells[seen_nz] != 0 ==> {
            &&& written_bytes(t.trace) == written_bytes(s.trace).push(s.cells[d] + 48)
            &&& t.cells[seen_nz] == 1
        },
        s.cells[d] == 0 && s.cells[seen_nz] == 0 ==> {
            &&& written_bytes(t.trace) == written_bytes(s.trace)
            &&& t.cells[seen_nz] == 0
        },
        forall|k: int| held(bf, k) && k != seen_nz ==> #[trigger] t.cells[k] == s.cells[k],
{
    reveal(Bf::print_digit);
    let y = lemma_digit_flag(bf, d, seen_nz, s.cells);
    let (b1, flag) = digit_flag(bf, d, seen_nz);
    lemma_goes_works(bf, b1, s, y, source);
    let m = with(s, y, b1.ptr);
    lemma_goes_ends(bf, b1, s, m, source);
    assert(held(b1, d) && held(b1, seen_nz));
    let t = lemma_digit_if(b1, flag, d, Some(seen_nz), m, source);
    let b2 = digit_if(b1, flag, d, Some(seen_nz));
    lemma_goes_then(bf, b1, b2, s, m, t, source);
    let c = b2.tfree(d);
    lemma_goes_quiet(bf, b2, c, s, t, source);
    assert(c == bf.print_digit(d, seen_nz));
    lemma_freed(b2, d);
    assert forall|k: int| #[trigger] held(c, k) <==> held(bf, k) && k != d by {
        assert(held(b1, k) <==> held(bf, k) || k == flag);
        assert(held(b2, k) <==> held(b1, k) && k != flag);
    }
    assert forall|k: int| held(bf, k) && k != seen_nz implies #[trigger] t.cells[k]
        == s.cells[k] by {
        assert(held(b1, k));
    }
    t
}

/// The last digit.
proof fn lemma_print_last(bf: Bf, d: int, s: St, source: Source) -> (t: St)
    requires
        roomy(bf),
        lent(bf, d),
        s.ptr == bf.ptr,
        bytes(s.cells),
        0 <= s.cells[d] < 10,
    ensures
        goes(bf, bf.print_last_digit(d), s, t, source),
        roomy(bf.print_last_digit(d)),
        bf.print_last_digit(d).temp_base == bf.temp_base,
        forall|k: int| #[trigger] held(bf.print_last_digit(d), k) <==> held(bf, k) && k != d,
        t.reads == s.reads,
        written_bytes(t.trace) == written_bytes(s.trace).push(s.cells[d] + 48),
        forall|k: int| k != d ==> #[trigger] t.cells[k] == s.cells[k],
{
    broadcast use works_inc;

    reveal(Bf::print_last_digit);
    lemma_works_start(bf, s.cells);
    let b1 = bf.inc(d, 48);
    let y = plus(s.cells, d, 48);
    assert(works(bf, b1, s.cells, y));
    assert(s.cells.dom().contains(d));
    lemma_goes_works(bf, b1, s, y, source);
    let m = with(s, y, b1.ptr);
    let t = lemma_put(bf, b1, d, s, m, source);
    lemma_freed(b1.out_cell(d), d);
    assert forall|k: int| #[trigger]
        held(bf.print_last_digit(d), k) <==> held(bf, k) && k != d by {
        assert(held(b1.out_cell(d), k) == held(bf, k));
    }
    t
}

/// Whether a cell is one of those from `i` on.
spec fn among(ds: Seq<int>, i: int, k: int) -> bool {
    exists|j: int| i <= j < ds.len() && #[trigger] ds[j] == k
}

/// Cells of their own hold the digits from `i` on.
spec fn spelt(b: Bf, x: Cells, ds: Seq<int>, vs: Seq<int>, i: int) -> bool {
    &&& 0 <= i
    &&& ds.len() == vs.len()
    &&& forall|j: int|
        i <= j < ds.len() ==> lent(b, #[trigger] ds[j]) && x[ds[j]] == vs[j] && 0 <= vs[j] < 10
    &&& forall|j: int, l: int|
        i <= j < l < ds.len() ==> #[trigger] ds[j] != #[trigger] ds[l]
}

/// The digits from `i` on.
proof fn lemma_print_digits(
    bf: Bf,
    ds: Seq<int>,
    vs: Seq<int>,
    seen_nz: int,
    i: int,
    s: St,
    source: Source,
) -> (t: St)
    requires
        roomy(bf),
        i < ds.len(),
        spelt(bf, s.cells, ds, vs, i),
        lent(bf, seen_nz),
        !among(ds, i, seen_nz),
        s.ptr == bf.ptr,
        bytes(s.cells),
        s.cells[seen_nz] == 0 || s.cells[seen_nz] == 1,
    ensures
        goes(bf, bf.print_digits(ds, seen_nz, i), s, t, source),
        roomy(bf.print_digits(ds, seen_nz, i)),
        bf.print_digits(ds, seen_nz, i).temp_base == bf.temp_base,
        forall|k: int| #[trigger]
            held(bf, k) && !among(ds, i, k) ==> held(bf.print_digits(ds, seen_nz, i), k),
        t.reads == s.reads,
        written_bytes(t.trace) == written_bytes(s.trace) + shown(vs, i, s.cells[seen_nz] != 0),
        forall|k: int|
            held(bf, k) && k != seen_nz && !among(ds, i, k) ==> #[trigger] t.cells[k]
                == s.cells[k],
    decreases ds.len() - i,
{
    reveal(Bf::print_digits);
    let d = ds[i];
    assert(among(ds, i, d));
    assert(d != seen_nz);
    if i == ds.len() - 1 {
        let t = lemma_print_last(bf, d, s, source);
        let b1 = bf.print_last_digit(d);
        assert(b1.print_digits(ds, seen_nz, i + 1) == b1);
        assert(shown(vs, i + 1, true) =~= Seq::<int>::empty());
        assert(written_bytes(t.trace) =~= written_bytes(s.trace) + shown(
            vs,
            i,
            s.cells[seen_nz] != 0,
        ));
        t
    } else {
        let m = lemma_print_digit(bf, d, seen_nz, s, source);
        let b1 = bf.print_digit(d, seen_nz);
        lemma_goes_ends(bf, b1, s, m, source);
        assert forall|j: int| i + 1 <= j < ds.len() implies lent(b1, #[trigger] ds[j])
            && m.cells[ds[j]] == vs[j] && 0 <= vs[j] < 10 by {
            assert(ds[i] != ds[j]);
            assert(held(bf, ds[j]));
            assert(among(ds, i, ds[j]));
        }
        assert(spelt(b1, m.cells, ds, vs, i + 1));
        assert(held(b1, seen_nz));
        assert(!among(ds, i + 1, seen_nz)) by {
            if among(ds, i + 1, seen_nz) {
                assert(among(ds, i, seen_nz));
            }
        }
        let t = lemma_print_digits(b1, ds, vs, seen_nz, i + 1, m, source);
        let c = b1.print_digits(ds, seen_nz, i + 1);
        lemma_goes_then(bf, b1, c, s, m, t, source);
        assert forall|k: int| #[trigger] held(bf, k) && !among(ds, i, k) implies held(c, k) by {
            assert(k != d);
            assert(held(b1, k));
            assert(!among(ds, i + 1, k));
        }
        assert forall|k: int|
            held(bf, k) && k != seen_nz && !among(ds, i, k) implies #[trigger] t.cells[k]
            == s.cells[k] by {
            assert(k != d);
            assert(held(b1, k));
            assert(!among(ds, i + 1, k));
        }
        assert(written_bytes(t.trace) =~= written_bytes(s.trace) + shown(
            vs,
            i,
            s.cells[seen_nz] != 0,
        ));
        t
    }
}

/// One digit more.
proof fn lemma_decimal_step(q: int, r: int)
    requires
        0 <= q,
        0 <= r < 10,
    ensures
        decimal(10 * q + r) == if q == 0 {
            seq![r + 48]
        } else {
            decimal(q).push(r + 48)
        },
{
    let n = (10 * q + r) as nat;
    assert(digit_char(r) as int == r + 48);
    if q == 0 {
        assert(dec(n) =~= seq![digit_char(r)]);
        assert(decimal(10 * q + r) =~= seq![r + 48]);
    } else {
        assert(n / 10 == q && n % 10 == r);
        assert(dec(n) =~= dec(q as nat).push(digit_char(r)));
        assert(decimal(10 * q + r) =~= decimal(q).push(r + 48));
    }
}

/// Three digits.
proof fn lemma_three_digits(a: int, b: int, c: int)
    requires
        0 <= a < 10,
        0 <= b < 10,
        0 <= c < 10,
    ensures
        shown(seq![a, b, c], 0, false) =~= decimal(100 * a + 10 * b + c),
{
    reveal_with_fuel(shown, 4);
    lemma_decimal_step(0, a);
    lemma_decimal_step(a, b);
    lemma_decimal_step(10 * a + b, c);
}

/// The digits of a byte in cells of their own: the last one, the first one and
/// the one between.
spec fn byte_digits(bf: Bf, cell: int) -> (Bf, int, int, int) {
    let (bf, v) = bf.talloc();
    let bf = bf.copy(cell, v);
    let (bf, h) = bf.talloc();
    let bf = bf.clear(h);
    let (bf, t) = bf.talloc();
    let bf = bf.clear(t);
    (bf.divconst(v, 100, h).divconst(v, 10, t), v, h, t)
}

proof fn lemma_byte_digits(bf: Bf, cell: int, x: Cells) -> (y: Cells)
    requires
        roomy(bf),
        held(bf, cell),
        bytes(x),
    ensures
        ({
            let (c, v, h, t) = byte_digits(bf, cell);
            &&& works(bf, c, x, y)
            &&& grown(bf, c)
            &&& lent(c, v) && lent(c, h) && lent(c, t)
            &&& !held(bf, v) && !held(bf, h) && !held(bf, t)
            &&& v != h && v != t && h != t
            &&& y[v] == x[cell] % 10
            &&& y[h] == x[cell] / 100
            &&& y[t] == x[cell] / 10 % 10
        }),
        agree(bf, x, y),
{
    broadcast use {works_talloc, works_clear, works_copy, lemma_took};

    lemma_works_start(bf, x);
    assert(took(bf, bf.talloc().0, bf.talloc().1));
    let (b1, v) = bf.talloc();
    assert(works(bf, b1, x, x));
    assert(held(b1, v) && held(b1, cell));
    let b2 = b1.copy(cell, v);
    let x2 = choose|y: Cells| #[trigger] works(bf, b2, x, y) && agree(b1, x.insert(v, x[cell]), y);
    assert(held(b2, v));
    assert(took(b2, b2.talloc().0, b2.talloc().1));
    let (b3, h) = b2.talloc();
    let b4 = b3.clear(h);
    let x4 = x2.insert(h, 0);
    assert(works(bf, b4, x, x4));
    assert(held(b3, v) && held(b3, h));
    assert(held(b4, v) && held(b4, h));
    assert(took(b4, b4.talloc().0, b4.talloc().1));
    let (b5, t) = b4.talloc();
    let b6 = b5.clear(t);
    let x6 = x4.insert(t, 0);
    assert(works(bf, b6, x, x6));
    assert(held(b5, v) && held(b5, h) && held(b5, t));
    assert(held(b6, v) && held(b6, h) && held(b6, t));
    assert(x6[v] == x[cell]);
    assert(operands(b6, v, h, 1));
    let x7 = lemma_shared(bf, b6, x, x6, v, 100, h, 1);
    let b7 = b6.divconst(v, 100, h);
    assert(shared(b6, v, 100, h, 1) == b7);
    assert(held(b7, v) && held(b7, h) && held(b7, t));
    assert(operands(b7, v, t, 1));
    let y = lemma_shared(bf, b7, x, x7, v, 10, t, 1);
    let c = b7.divconst(v, 10, t);
    assert(shared(b7, v, 10, t, 1) == c);
    assert(val(x6, v, 1) == x[cell]);
    assert(x7[v] == x[cell] % 100 && x7[h] == x[cell] / 100);
    assert(y[v] == x7[v] % 10 && y[t] == x7[v] / 10);
    assert(y[h] == x7[h]);
    assert(x.dom().contains(cell));
    assert(held(c, v) && held(c, h) && held(c, t));
    assert forall|k: int| #[trigger] held(bf, k) implies held(c, k) by {
        assert(held(b1, k));
        assert(held(b2, k));
        assert(held(b3, k));
        assert(held(b4, k));
        assert(held(b5, k));
        assert(held(b6, k));
        assert(held(b7, k));
    }
    assert forall|k: int| held(bf, k) implies #[trigger] y[k] == x[k] by {
        assert(held(b1, k) && k != v);
        assert(x2[k] == x[k]);
        assert(held(b2, k));
        assert(held(b3, k) && k != h);
        assert(held(b4, k));
        assert(held(b5, k) && k != t);
        assert(held(b6, k));
        assert(x7[k] == x6[k]);
        assert(held(b7, k));
    }
    y
}

/// Whether the middle digit of a byte is due.
spec fn middle_flag(bf: Bf, h: int, t: int) -> (Bf, int) {
    let (bf, flag) = bf.talloc();
    let bf = bf.clear(flag);
    let (bf, ch) = bf.is_nz(h);
    let bf = bf.flag_if(ch, flag).tfree(ch);
    let (bf, ct) = bf.is_nz(t);
    (bf.flag_if(ct, flag).tfree(ct), flag)
}

/// A flag is set where a cell is not 0.
proof fn lemma_raise(o: Bf, bf: Bf, x0: Cells, x: Cells, cell: int, flag: int) -> (y: Cells)
    requires
        works(o, bf, x0, x),
        roomy(bf),
        held(bf, cell),
        held(bf, flag),
        cell != flag,
    ensures
        ({
            let (c, r) = bf.is_nz(cell);
            let d = c.flag_if(r, flag).tfree(r);
            &&& works(o, d, x0, y)
            &&& roomy(d)
            &&& d.temp_base == bf.temp_base
            &&& forall|k: int| #[trigger] held(d, k) <==> held(bf, k)
        }),
        y[flag] == if x[cell] != 0 {
            1
        } else {
            x[flag]
        },
        forall|k: int| held(bf, k) && k != flag ==> #[trigger] y[k] == x[k],
{
    broadcast use {works_is_nz, works_flag_if, works_tfree, lemma_took};

    let (c, r) = bf.is_nz(cell);
    assert(took(bf, c, r));
    let x1 = choose|y: Cells| #[trigger]
        works(o, c, x0, y) && agree(bf.talloc().0, x.insert(bf.talloc().1, bit(x[cell] != 0)), y);
    assert(held(c, r) && held(bf.talloc().0, r));
    assert(held(c, flag) && held(bf.talloc().0, flag));
    assert(x1[r] == bit(x[cell] != 0));
    assert(x1[flag] == x[flag]);
    let e = c.flag_if(r, flag);
    let y = flagged(x1, r, flag);
    assert(works(o, e, x0, y));
    lemma_freed(e, r);
    let d = e.tfree(r);
    assert forall|k: int| #[trigger] held(d, k) <==> held(bf, k) by {
        assert(held(c, k) <==> held(bf, k) || k == r);
        assert(held(e, k) == held(c, k));
    }
    assert forall|k: int| held(bf, k) && k != flag implies #[trigger] y[k] == x[k] by {
        assert(held(c, k) && k != r);
        assert(held(bf.talloc().0, k));
    }
    y
}

proof fn lemma_middle_flag(bf: Bf, h: int, t: int, x: Cells) -> (y: Cells)
    requires
        roomy(bf),
        held(bf, h),
        held(bf, t),
        bytes(x),
    ensures
        ({
            let (c, flag) = middle_flag(bf, h, t);
            &&& works(bf, c, x, y)
            &&& roomy(c)
            &&& c.temp_base == bf.temp_base
            &&& flag >= bf.temp_base
            &&& !held(bf, flag)
            &&& y[flag] == bit(x[h] != 0 || x[t] != 0)
            &&& forall|k: int| #[trigger] held(c, k) <==> held(bf, k) || k == flag
        }),
        agree(bf, x, y),
{
    broadcast use {works_talloc, works_clear, lemma_took};

    lemma_works_start(bf, x);
    assert(took(bf, bf.talloc().0, bf.talloc().1));
    let (b1, flag) = bf.talloc();
    let b2 = b1.clear(flag);
    let x2 = x.insert(flag, 0);
    assert(works(bf, b2, x, x2));
    assert(held(b1, h) && held(b1, t) && held(b1, flag));
    assert(held(b2, h) && held(b2, t) && held(b2, flag));
    let x3 = lemma_raise(bf, b2, x, x2, h, flag);
    let (e, ch) = b2.is_nz(h);
    let b3 = e.flag_if(ch, flag).tfree(ch);
    assert(held(b3, t) && held(b3, flag));
    let y = lemma_raise(bf, b3, x, x3, t, flag);
    let c = middle_flag(bf, h, t).0;
    assert forall|k: int| #[trigger] held(c, k) <==> held(bf, k) || k == flag by {
        assert(held(b1, k) <==> held(bf, k) || k == flag);
        assert(held(b2, k) == held(b1, k));
        assert(held(b3, k) == held(b2, k));
    }
    assert(x3[t] == x[t]);
    assert forall|k: int| held(bf, k) implies #[trigger] y[k] == x[k] by {
        assert(held(b1, k) && k != flag);
        assert(held(b2, k));
        assert(x3[k] == x2[k]);
        assert(held(b3, k));
    }
    y
}

/// The first digit of a byte.
proof fn lemma_first_digit(bf: Bf, h: int, s: St, source: Source) -> (t: St)
    requires
        roomy(bf),
        held(bf, h),
        s.ptr == bf.ptr,
        bytes(s.cells),
        0 <= s.cells[h] < 10,
    ensures
        ({
            let (c, hp) = bf.is_nz(h);
            let d = digit_if(c, hp, h, None);
            &&& goes(bf, d, s, t, source)
            &&& roomy(d)
            &&& d.temp_base == bf.temp_base
            &&& forall|k: int| #[trigger] held(d, k) <==> held(bf, k)
        }),
        t.reads == s.reads,
        written_bytes(t.trace) == if s.cells[h] != 0 {
            written_bytes(s.trace).push(s.cells[h] + 48)
        } else {
            written_bytes(s.trace)
        },
        agree(bf, s.cells, t.cells),
{
    broadcast use {works_is_nz, lemma_took};

    let x = s.cells;
    lemma_works_start(bf, x);
    let (c, hp) = bf.is_nz(h);
    assert(took(bf, c, hp));
    let y = choose|y: Cells| #[trigger]
        works(bf, c, x, y) && agree(bf.talloc().0, x.insert(bf.talloc().1, bit(x[h] != 0)), y);
    assert(held(c, hp) && held(bf.talloc().0, hp));
    assert(y[hp] == bit(x[h] != 0));
    assert forall|k: int| held(bf, k) implies #[trigger] y[k] == x[k] && k != hp by {
        assert(held(c, k));
        assert(held(bf.talloc().0, k));
    }
    lemma_goes_works(bf, c, s, y, source);
    let m = with(s, y, c.ptr);
    lemma_goes_ends(bf, c, s, m, source);
    assert(held(c, h));
    let t = lemma_digit_if(c, hp, h, None, m, source);
    let d = digit_if(c, hp, h, None);
    lemma_goes_then(bf, c, d, s, m, t, source);
    assert forall|k: int| #[trigger] held(d, k) <==> held(bf, k) by {
        assert(held(c, k) <==> held(bf, k) || k == hp);
        assert(held(d, k) <==> held(c, k) && k != hp);
    }
    assert forall|k: int| held(bf, k) implies #[trigger] t.cells[k] == s.cells[k] by {
        assert(held(c, k));
        assert(y[k] == x[k]);
    }
    t
}

/// The middle digit of a byte.
proof fn lemma_middle_digit(bf: Bf, h: int, t: int, s: St, source: Source) -> (u: St)
    requires
        roomy(bf),
        held(bf, h),
        held(bf, t),
        s.ptr == bf.ptr,
        bytes(s.cells),
        0 <= s.cells[t] < 10,
    ensures
        ({
            let (c, flag) = middle_flag(bf, h, t);
            let d = digit_if(c, flag, t, None);
            &&& goes(bf, d, s, u, source)
            &&& roomy(d)
            &&& d.temp_base == bf.temp_base
            &&& forall|k: int| #[trigger] held(d, k) <==> held(bf, k)
        }),
        u.reads == s.reads,
        written_bytes(u.trace) == if s.cells[h] != 0 || s.cells[t] != 0 {
            written_bytes(s.trace).push(s.cells[t] + 48)
        } else {
            written_bytes(s.trace)
        },
        agree(bf, s.cells, u.cells),
{
    let y = lemma_middle_flag(bf, h, t, s.cells);
    let (c, flag) = middle_flag(bf, h, t);
    lemma_goes_works(bf, c, s, y, source);
    let m = with(s, y, c.ptr);
    lemma_goes_ends(bf, c, s, m, source);
    assert(held(c, t) && held(c, flag));
    let u = lemma_digit_if(c, flag, t, None, m, source);
    let d = digit_if(c, flag, t, None);
    lemma_goes_then(bf, c, d, s, m, u, source);
    assert forall|k: int| #[trigger] held(d, k) <==> held(bf, k) by {
        assert(held(c, k) <==> held(bf, k) || k == flag);
        assert(held(d, k) <==> held(c, k) && k != flag);
    }
    assert forall|k: int| held(bf, k) implies #[trigger] u.cells[k] == s.cells[k] by {
        assert(held(c, k) && k != flag);
        assert(y[k] == s.cells[k]);
    }
    u
}

/// `print_num` writes a byte in decimal.
pub proof fn lemma_print_num(bf: Bf, cell: int, s: St, source: Source) -> (t: St)
    requires
        roomy(bf),
        held(bf, cell),
        s.ptr == bf.ptr,
        bytes(s.cells),
    ensures
        goes(bf, bf.print_num(cell), s, t, source),
        grown(bf, bf.print_num(cell)),
        t.reads == s.reads,
        written_bytes(t.trace) == written_bytes(s.trace) + decimal(s.cells[cell]),
        agree(bf, s.cells, t.cells),
{
    reveal(Bf::print_num);
    reveal(Bf::out_digit);
    let n = s.cells[cell];
    assert(s.cells.dom().contains(cell));
    let y = lemma_byte_digits(bf, cell, s.cells);
    let (b1, v, h, d) = byte_digits(bf, cell);
    lemma_goes_works(bf, b1, s, y, source);
    let s1 = with(s, y, b1.ptr);
    lemma_goes_ends(bf, b1, s, s1, source);
    let s2 = lemma_first_digit(b1, h, s1, source);
    let (e, hp) = b1.is_nz(h);
    let b2 = digit_if(e, hp, h, None);
    lemma_goes_ends(b1, b2, s1, s2, source);
    lemma_goes_then(bf, b1, b2, s, s1, s2, source);
    assert(held(b2, h) && held(b2, d) && held(b2, v));
    let s3 = lemma_middle_digit(b2, h, d, s2, source);
    let (f, flag) = middle_flag(b2, h, d);
    let b3 = digit_if(f, flag, d, None);
    lemma_goes_ends(b2, b3, s2, s3, source);
    lemma_goes_then(bf, b2, b3, s, s2, s3, source);
    assert(held(b3, v));
    assert(s3.cells[v] == n % 10);
    reveal(Bf::print_last_digit);
    let t = lemma_print_last(b3, v, s3, source);
    let b4 = b3.inc(v, 48).out_cell(v);
    lemma_goes_then(bf, b3, b4.tfree(v), s, s3, t, source);
    let c = b4.tfree(d).tfree(h).tfree(v);
    lemma_goes_quiet(bf, b4.tfree(v), c, s, t, source);
    assert(bf.print_num(cell) == c);
    lemma_freed(b4, d);
    lemma_freed(b4.tfree(d), h);
    lemma_freed(b4.tfree(d).tfree(h), v);
    assert forall|k: int| #[trigger] held(bf, k) implies held(c, k) by {
        assert(held(b1, k));
        assert(held(b2, k));
        assert(held(b3, k));
        assert(held(b4, k));
        assert(k != v && k != h && k != d);
        assert(held(b4.tfree(d), k));
        assert(held(b4.tfree(d).tfree(h), k));
    }
    assert forall|k: int| held(bf, k) implies #[trigger] t.cells[k] == s.cells[k] by {
        assert(held(b1, k) && k != v);
        assert(held(b2, k));
        assert(y[k] == s.cells[k]);
        assert(s2.cells[k] == y[k]);
        assert(s3.cells[k] == s2.cells[k]);
    }
    lemma_three_digits(n / 100, n / 10 % 10, n % 10);
    reveal_with_fuel(shown, 4);
    assert(written_bytes(t.trace) =~= written_bytes(s.trace) + shown(
        seq![n / 100, n / 10 % 10, n % 10],
        0,
        false,
    ));
    t
}

/// The digits that the divisors from `i` on give.
spec fn heads(v: int, divs: Seq<u32>, i: int) -> Seq<int>
    decreases divs.len() - i,
{
    if i < 0 || i >= divs.len() {
        Seq::empty()
    } else {
        seq![v / (divs[i] as int)] + heads(v % (divs[i] as int), divs, i + 1)
    }
}

/// What the divisors from `i` on leave over.
spec fn rest(v: int, divs: Seq<u32>, i: int) -> int
    decreases divs.len() - i,
{
    if i < 0 || i >= divs.len() {
        v
    } else {
        rest(v % (divs[i] as int), divs, i + 1)
    }
}

/// Whether each divisor from `i` on gives one digit.
spec fn steep(v: int, divs: Seq<u32>, i: int, w: int) -> bool
    decreases divs.len() - i,
{
    if i < 0 || i >= divs.len() {
        true
    } else {
        &&& 0 < divs[i] < size(w)
        &&& 0 <= v / (divs[i] as int) < 10
        &&& steep(v % (divs[i] as int), divs, i + 1, w)
    }
}

/// Some digits of the number at `v` have been taken into cells of their own.
spec fn drawn(
    b0: Bf,
    b: Bf,
    x: Cells,
    y: Cells,
    v: int,
    q: int,
    w: int,
    ds: Seq<int>,
    vs: Seq<int>,
) -> bool {
    &&& spelt(b, y, ds, vs, 0)
    &&& grown(b0, b)
    &&& operands(b0, v, q, w)
    &&& forall|j: int| 0 <= j < ds.len() ==> !held(b0, #[trigger] ds[j])
    &&& forall|k: int|
        held(b0, k) && !(v <= k < v + w) && !(q <= k < q + w) ==> #[trigger] y[k] == x[k]
}

/// One digit more is taken.
proof fn lemma_take_digit(
    o: Bf,
    b0: Bf,
    b: Bf,
    x0: Cells,
    x: Cells,
    y: Cells,
    v: int,
    q: int,
    w: int,
    div: int,
    ds: Seq<int>,
    vs: Seq<int>,
) -> (z: Cells)
    requires
        works(o, b, x0, y),
        drawn(b0, b, x, y, v, q, w, ds, vs),
        w > 1,
        0 < div < size(w),
        0 <= val(y, v, w) / div < 10,
    ensures
        ({
            let (c, dg) = b.take_digit(v, w, div, q);
            &&& works(o, c, x0, z)
            &&& drawn(b0, c, x, z, v, q, w, ds.push(dg), vs.push(val(y, v, w) / div))
            &&& val(z, v, w) == val(y, v, w) % div
        }),
{
    broadcast use {works_talloc, works_copy, lemma_took};

    reveal(Bf::take_digit);
    let n = val(y, v, w);
    assert(held_n(b, v, w)) by {
        assert forall|k: int| v <= k < v + w implies #[trigger] held(b, k) by {
            assert(held(b0, k));
        }
    }
    assert(held_n(b, q, w)) by {
        assert forall|k: int| q <= k < q + w implies #[trigger] held(b, k) by {
            assert(held(b0, k));
        }
    }
    assert(operands(b, v, q, w));
    let x1 = lemma_shared(o, b, x0, y, v, div, q, w);
    let b1 = b.divconst_wide(v, w, div, q);
    assert(shared(b, v, div, q, w) == b1);
    lemma_works_bytes(o, b1, x0, x1);
    lemma_low_val(x1, q, w, 1);
    assert(x1[q] == n / div);
    assert(took(b1, b1.talloc().0, b1.talloc().1));
    let (b2, dg) = b1.talloc();
    assert(works(o, b2, x0, x1));
    assert forall|k: int| v <= k < v + w || q <= k < q + w implies #[trigger] held(b2, k) && k
        != dg by {
        assert(held(b, k));
        assert(held(b1, k));
    }
    assert(held(b2, q) && held(b2, dg));
    let b3 = b2.copy(q, dg);
    let x3 = choose|y: Cells| #[trigger] works(o, b3, x0, y) && agree(b2, x1.insert(dg, x1[q]), y);
    assert(x3[dg] == n / div);
    lemma_held_val(b2, x1, x3, v, w);
    let z = lemma_clear_range(o, b3, x0, x3, q, 0, w);
    lemma_same_val(x3, z, v, w);
    let c = b3.clear_range(q, 0, w);
    assert(settled(b2, c));
    let es = ds.push(dg);
    let ws = vs.push(n / div);
    assert(!held(b0, dg)) by {
        if held(b0, dg) {
            assert(held(b, dg));
            assert(held(b1, dg));
        }
    }
    assert forall|j: int| 0 <= j < es.len() implies lent(c, #[trigger] es[j]) && z[es[j]] == ws[j]
        && 0 <= ws[j] < 10 && !held(b0, es[j]) by {
        if j < ds.len() {
            let d = ds[j];
            assert(lent(b, d) && !held(b0, d));
            assert(!(v <= d < v + w) && !(q <= d < q + w)) by {
                if v <= d < v + w || q <= d < q + w {
                    assert(held(b0, d));
                }
            }
            assert(x1[d] == y[d]);
            assert(held(b1, d));
            assert(held(b2, d) && d != dg);
            assert(x3[d] == x1.insert(dg, x1[q])[d]);
            assert(held(c, d));
        } else {
            assert(held(c, dg));
            assert(!(q <= dg < q + w)) by {
                if q <= dg < q + w {
                    assert(held(b0, dg));
                }
            }
        }
    }
    assert forall|j: int, l: int| 0 <= j < l < es.len() implies #[trigger] es[j]
        != #[trigger] es[l] by {
        if l == ds.len() {
            assert(held(b, ds[j]));
            assert(held(b1, ds[j]));
        }
    }
    assert(grown(b0, c)) by {
        assert forall|k: int| #[trigger] held(b0, k) implies held(c, k) by {
            assert(held(b, k));
            assert(held(b1, k));
            assert(held(b2, k));
        }
    }
    assert forall|k: int|
        held(b0, k) && !(v <= k < v + w) && !(q <= k < q + w) implies #[trigger] z[k] == x[k] by {
        assert(held(b, k));
        assert(x1[k] == y[k]);
        assert(held(b1, k));
        assert(held(b2, k) && k != dg);
        assert(x3[k] == x1.insert(dg, x1[q])[k]);
    }
    z
}

/// The digits that the divisors from `i` on give are taken.
proof fn lemma_take_digits(
    o: Bf,
    b0: Bf,
    b: Bf,
    x0: Cells,
    x: Cells,
    y: Cells,
    v: int,
    q: int,
    w: int,
    divs: Seq<u32>,
    i: int,
    ds: Seq<int>,
    vs: Seq<int>,
) -> (z: Cells)
    requires
        works(o, b, x0, y),
        drawn(b0, b, x, y, v, q, w, ds, vs),
        w > 1,
        0 <= i,
        steep(val(y, v, w), divs, i, w),
    ensures
        ({
            let (c, es) = b.take_digits(v, w, q, divs, i, ds);
            &&& works(o, c, x0, z)
            &&& drawn(b0, c, x, z, v, q, w, es, vs + heads(val(y, v, w), divs, i))
            &&& val(z, v, w) == rest(val(y, v, w), divs, i)
        }),
    decreases divs.len() - i,
{
    reveal(Bf::take_digits);
    let n = val(y, v, w);
    if i < divs.len() {
        let div = divs[i] as int;
        let m = lemma_take_digit(o, b0, b, x0, x, y, v, q, w, div, ds, vs);
        let (c, dg) = b.take_digit(v, w, div, q);
        let z = lemma_take_digits(
            o,
            b0,
            c,
            x0,
            x,
            m,
            v,
            q,
            w,
            divs,
            i + 1,
            ds.push(dg),
            vs.push(n / div),
        );
        assert(vs.push(n / div) + heads(n % div, divs, i + 1) =~= vs + heads(n, divs, i));
        z
    } else {
        assert(vs + heads(n, divs, i) =~= vs);
        y
    }
}

/// The digits of a number in cells of their own, and a cell for whether one has
/// been written.
spec fn word_digits(bf: Bf, cell: int, w: int) -> (Bf, Seq<int>, int) {
    let (bf, v) = bf.talloc_n(w);
    let bf = bf.copy_n(cell, v, w);
    let (bf, quot) = bf.talloc_n(w);
    let (bf, digits) = bf.take_digits(v, w, quot, divisors_of(w), 0, Seq::empty());
    let (bf, last) = bf.talloc();
    let bf = bf.copy(v, last);
    let bf = bf.tfree_n(quot, w).tfree_n(v, w);
    let (bf, seen_nz) = bf.talloc();
    (bf.clear(seen_nz), digits.push(last), seen_nz)
}

/// The digits that divisors from `i` on give, and what they leave over.
spec fn digits_of(n: int, divs: Seq<u32>, i: int) -> Seq<int> {
    heads(n, divs, i).push(rest(n, divs, i))
}

/// Whether divisors are the powers of 10 down to 10.
spec fn powers(divs: Seq<u32>, w: int) -> bool {
    &&& divs.len() > 0
    &&& divs.last() == 10
    &&& forall|j: int|
        0 <= j < divs.len() - 1 ==> (#[trigger] divs[j]) as int == 10 * divs[j + 1] as int
    &&& forall|j: int| 0 <= j < divs.len() ==> 0 < #[trigger] divs[j] < size(w)
}

/// The divisors are powers of 10, and ten times the first one is too much.
proof fn lemma_divisors(w: int)
    requires
        w == 2 || w == 4,
    ensures
        powers(divisors_of(w), w),
        size(w) <= 10 * divisors_of(w)[0],
{
    let d = divisors_of(w);
    assert forall|j: int| 0 <= j < d.len() - 1 implies (#[trigger] d[j]) as int == 10 * d[j
        + 1] as int by {}
}

/// The number that digits from `i` on say, behind those that said `acc`.
spec fn said(vs: Seq<int>, i: int, acc: int) -> int
    decreases vs.len() - i,
{
    if i < 0 || i >= vs.len() {
        acc
    } else {
        said(vs, i + 1, 10 * acc + vs[i])
    }
}

/// The digits are written as the number that they say.
proof fn lemma_shown(vs: Seq<int>, i: int, acc: int)
    requires
        0 <= i <= vs.len(),
        acc >= 0,
        acc == 0 ==> i < vs.len(),
        forall|j: int| 0 <= j < vs.len() ==> 0 <= #[trigger] vs[j] < 10,
    ensures
        acc > 0 ==> decimal(acc) + shown(vs, i, true) =~= decimal(said(vs, i, acc)),
        acc == 0 ==> shown(vs, i, false) =~= decimal(said(vs, i, acc)),
    decreases vs.len() - i,
{
    if i < vs.len() {
        let d = vs[i];
        lemma_decimal_step(acc, d);
        if acc > 0 || d != 0 || i < vs.len() - 1 {
            lemma_shown(vs, i + 1, 10 * acc + d);
        } else {
            assert(shown(vs, i + 1, true) =~= Seq::<int>::empty());
            assert(said(vs, i + 1, 10 * acc + d) == d);
        }
        if acc == 0 && (d != 0 || i == vs.len() - 1) {
            assert(shown(vs, i, false) == seq![d + 48] + shown(vs, i + 1, true));
            assert(said(vs, i, acc) == said(vs, i + 1, d));
        } else if acc == 0 {
            assert(shown(vs, i, false) == shown(vs, i + 1, false));
            assert(said(vs, i, acc) == said(vs, i + 1, 0));
        }
    } else {
        assert(decimal(acc) + shown(vs, i, true) =~= decimal(acc));
    }
}

/// A digit in front of others.
proof fn lemma_said_behind(a: int, vs: Seq<int>, i: int, acc: int)
    requires
        0 <= i <= vs.len(),
    ensures
        said(seq![a] + vs, i + 1, acc) == said(vs, i, acc),
    decreases vs.len() - i,
{
    if i < vs.len() {
        lemma_said_behind(a, vs, i + 1, 10 * acc + vs[i]);
    }
}

/// The digits that powers of 10 give are digits, and say the number.
proof fn lemma_digits_of(n: int, divs: Seq<u32>, i: int, w: int, acc: int)
    requires
        powers(divs, w),
        0 <= i < divs.len(),
        0 <= n < 10 * divs[i],
    ensures
        steep(n, divs, i, w),
        heads(n, divs, i).len() == divs.len() - i,
        forall|j: int|
            0 <= j < digits_of(n, divs, i).len() ==> 0 <= #[trigger] digits_of(n, divs, i)[j] < 10,
        0 <= rest(n, divs, i) < 10,
        said(digits_of(n, divs, i), 0, acc) == acc * (10 * divs[i]) + n,
    decreases divs.len() - i,
{
    let d = divs[i] as int;
    let q = n / d;
    let r = n % d;
    vstd::arithmetic::div_mod::lemma_fundamental_div_mod(n, d);
    assert(0 <= q < 10) by (nonlinear_arith)
        requires
            n == d * q + r,
            0 <= n < 10 * d,
            0 <= r < d,
    ;
    let tail = digits_of(r, divs, i + 1);
    let all = digits_of(n, divs, i);
    assert(all =~= seq![q] + tail);
    let acc1 = 10 * acc + q;
    lemma_said_behind(q, tail, 0, acc1);
    assert(said(all, 0, acc) == said(all, 1, acc1));
    if i < divs.len() - 1 {
        assert(divs[i] as int == 10 * divs[i + 1] as int);
        lemma_digits_of(r, divs, i + 1, w, acc1);
        assert(heads(n, divs, i).len() == 1 + heads(r, divs, i + 1).len());
    } else {
        assert(heads(r, divs, i + 1) =~= Seq::<int>::empty());
        assert(tail =~= seq![r]);
        assert(said(tail, 0, acc1) == said(tail, 1, 10 * acc1 + r));
        assert(steep(r, divs, i + 1, w));
    }
    assert(acc1 * d + r == acc * (10 * d) + n) by (nonlinear_arith)
        requires
            acc1 == 10 * acc + q,
            n == d * q + r,
    ;
    assert forall|j: int| 0 <= j < all.len() implies 0 <= #[trigger] all[j] < 10 by {
        if j > 0 {
            assert(all[j] == tail[j - 1]);
        }
    }
}

/// A block taken for a copy.
proof fn lemma_copied(o: Bf, bf: Bf, x0: Cells, x: Cells, cell: int, w: int) -> (y: Cells)
    requires
        works(o, bf, x0, x),
        roomy(bf),
        w == 2 || w == 4,
        held_n(bf, cell, w),
    ensures
        ({
            let (b1, v) = bf.talloc_n(w);
            let b2 = b1.copy_n(cell, v, w);
            &&& works(o, b2, x0, y)
            &&& took_n(bf, b2, v, w)
            &&& val(y, v, w) == val(x, cell, w)
        }),
        agree(bf, x, y),
{
    broadcast use works_talloc_n;

    lemma_took_n(bf, w);
    let (b1, v) = bf.talloc_n(w);
    assert(works(o, b1, x0, x));
    lemma_beside(bf, b1, cell, w, v, w);
    assert forall|k: int| cell <= k < cell + w implies #[trigger] held(b1, k) by {
        assert(held(bf, k));
    }
    let y = lemma_copy_n(o, b1, x0, x, cell, v, w);
    let b2 = b1.copy_n(cell, v, w);
    assert forall|k: int| v <= k < v + w implies #[trigger] held(b1, k) by {}
    lemma_copied_val(b1, x, y, cell, v, w);
    assert forall|k: int| #[trigger] held(b2, k) <==> held(bf, k) || v <= k < v + w by {
        assert(held(b2, k) == held(b1, k));
    }
    assert forall|k: int| held(bf, k) implies #[trigger] y[k] == x[k] by {
        assert(held(b1, k) && !(v <= k < v + w));
    }
    y
}

/// The digits of a number before the last.
proof fn lemma_first_digits(o: Bf, bf: Bf, x0: Cells, x: Cells, cell: int, w: int) -> (y: Cells)
    requires
        works(o, bf, x0, x),
        roomy(bf),
        w == 2 || w == 4,
        held_n(bf, cell, w),
    ensures
        ({
            let n = val(x, cell, w);
            let (b1, v) = bf.talloc_n(w);
            let b2 = b1.copy_n(cell, v, w);
            let (b3, q) = b2.talloc_n(w);
            let (c, ds) = b3.take_digits(v, w, q, divisors_of(w), 0, Seq::empty());
            &&& works(o, c, x0, y)
            &&& grown(bf, b3)
            &&& drawn(b3, c, x, y, v, q, w, ds, heads(n, divisors_of(w), 0))
            &&& val(y, v, w) == rest(n, divisors_of(w), 0)
            &&& forall|k: int| #[trigger]
                held(bf, k) ==> !(v <= k < v + w) && !(q <= k < q + w)
        }),
        agree(bf, x, y),
{
    broadcast use works_talloc_n;

    lemma_works_bytes(o, bf, x0, x);
    lemma_bytes_val(x, cell, w);
    let n = val(x, cell, w);
    let x2 = lemma_copied(o, bf, x0, x, cell, w);
    let (b1, v) = bf.talloc_n(w);
    let b2 = b1.copy_n(cell, v, w);
    lemma_took_n(b2, w);
    let (b3, q) = b2.talloc_n(w);
    assert(works(o, b3, x0, x2));
    assert(held_n(b2, v, w));
    lemma_beside(b2, b3, v, w, q, w);
    assert forall|k: int| v <= k < v + w implies #[trigger] held(b3, k) by {
        assert(held(b2, k));
    }
    lemma_divisors(w);
    lemma_digits_of(n, divisors_of(w), 0, w, 0);
    let none = Seq::<int>::empty();
    assert(drawn(b3, b3, x2, x2, v, q, w, none, none));
    let y = lemma_take_digits(o, b3, b3, x0, x2, x2, v, q, w, divisors_of(w), 0, none, none);
    let h = heads(n, divisors_of(w), 0);
    assert(none + h =~= h);
    let (c, ds) = b3.take_digits(v, w, q, divisors_of(w), 0, none);
    assert forall|k: int| #[trigger] held(bf, k) implies held(b3, k) && !(v <= k < v + w) && !(q
        <= k < q + w) by {
        assert(held(b2, k));
    }
    assert forall|k: int| held(bf, k) implies #[trigger] y[k] == x[k] by {
        assert(held(b3, k));
        assert(x2[k] == x[k]);
    }
    y
}

/// The digits of a number are taken into cells of their own.
proof fn lemma_word_digits(bf: Bf, cell: int, w: int, x: Cells) -> (y: Cells)
    requires
        roomy(bf),
        w == 2 || w == 4,
        held_n(bf, cell, w),
        bytes(x),
    ensures
        ({
            let (c, ds, seen_nz) = word_digits(bf, cell, w);
            &&& works(bf, c, x, y)
            &&& grown(bf, c)
            &&& spelt(c, y, ds, digits_of(val(x, cell, w), divisors_of(w), 0), 0)
            &&& lent(c, seen_nz)
            &&& !among(ds, 0, seen_nz)
            &&& !held(bf, seen_nz)
            &&& y[seen_nz] == 0
            &&& forall|k: int| #[trigger] held(bf, k) ==> !among(ds, 0, k)
        }),
        agree(bf, x, y),
{
    broadcast use {works_talloc, works_copy, works_tfree_n, works_clear, lemma_took};

    let n = val(x, cell, w);
    lemma_bytes_val(x, cell, w);
    lemma_divisors(w);
    lemma_digits_of(n, divisors_of(w), 0, w, 0);
    lemma_works_start(bf, x);
    let x4 = lemma_first_digits(bf, bf, x, x, cell, w);
    let (b1, v) = bf.talloc_n(w);
    let b2 = b1.copy_n(cell, v, w);
    let (b3, q) = b2.talloc_n(w);
    let (b4, es) = b3.take_digits(v, w, q, divisors_of(w), 0, Seq::empty());
    let hs = heads(n, divisors_of(w), 0);
    let r = rest(n, divisors_of(w), 0);
    lemma_works_bytes(bf, b4, x, x4);
    lemma_low_val(x4, v, w, 1);
    assert(x4[v] == r);
    assert(held(b3, v));
    assert(held(b4, v));
    assert(took(b4, b4.talloc().0, b4.talloc().1));
    let (b5, last) = b4.talloc();
    assert(works(bf, b5, x, x4));
    assert(held(b5, v) && held(b5, last));
    let b6 = b5.copy(v, last);
    let x6 = choose|y: Cells| #[trigger]
        works(bf, b6, x, y) && agree(b5, x4.insert(last, x4[v]), y);
    lemma_freed_n(b6, q, w);
    let b7 = b6.tfree_n(q, w);
    lemma_freed_n(b7, v, w);
    let b8 = b7.tfree_n(v, w);
    assert(works(bf, b8, x, x6));
    assert(took(b8, b8.talloc().0, b8.talloc().1));
    let (b9, seen_nz) = b8.talloc();
    let c = b9.clear(seen_nz);
    let y = x6.insert(seen_nz, 0);
    assert(works(bf, c, x, y));
    let ds = es.push(last);
    let vs = digits_of(n, divisors_of(w), 0);
    assert(vs == hs.push(r));
    assert(!held(b3, last)) by {
        if held(b3, last) {
            assert(held(b4, last));
        }
    }
    assert forall|j: int| 0 <= j < ds.len() implies lent(c, #[trigger] ds[j]) && y[ds[j]] == vs[j]
        && 0 <= vs[j] < 10 && ds[j] != seen_nz && !held(b3, ds[j]) by {
        let d = ds[j];
        if j < es.len() {
            assert(d == es[j]);
            assert(lent(b4, d) && !held(b3, d));
            assert(held(b5, d) && d != last);
            assert(x6[d] == x4[d]);
            assert(vs[j] == hs[j]);
        } else {
            assert(held(b5, last));
            assert(x6[last] == x4[v]);
        }
        assert(!(v <= d < v + w) && !(q <= d < q + w)) by {
            if v <= d < v + w || q <= d < q + w {
                assert(held(b3, d));
            }
        }
        assert(held(b6, d));
        assert(held(b7, d));
        assert(held(b8, d));
        assert(held(b9, d));
        assert(held(c, d));
    }
    assert forall|j: int, l: int| 0 <= j < l < ds.len() implies #[trigger] ds[j]
        != #[trigger] ds[l] by {
        if l == es.len() {
            assert(ds[j] == es[j]);
            assert(held(b4, es[j]));
        } else {
            assert(es[j] != es[l]);
        }
    }
    assert forall|k: int| #[trigger] held(bf, k) implies held(c, k) && k != seen_nz && !among(
        ds,
        0,
        k,
    ) by {
        assert(held(b3, k));
        assert(held(b4, k));
        assert(held(b5, k));
        assert(held(b6, k));
        assert(held(b7, k));
        assert(held(b8, k));
        assert(held(b9, k));
    }
    assert(held(b9, seen_nz));
    assert forall|k: int| held(bf, k) implies #[trigger] y[k] == x[k] by {
        assert(k != seen_nz);
        assert(held(b3, k) && k != last);
        assert(held(b4, k));
        assert(held(b5, k));
        assert(x6[k] == x4.insert(last, x4[v])[k]);
    }
    y
}

/// `print_wide` writes a number of several bytes in decimal.
pub proof fn lemma_print_wide(bf: Bf, cell: int, w: int, s: St, source: Source) -> (t: St)
    requires
        roomy(bf),
        w == 2 || w == 4,
        held_n(bf, cell, w),
        s.ptr == bf.ptr,
        bytes(s.cells),
    ensures
        goes(bf, bf.print_wide(cell, w), s, t, source),
        grown(bf, bf.print_wide(cell, w)),
        t.reads == s.reads,
        written_bytes(t.trace) == written_bytes(s.trace) + decimal(val(s.cells, cell, w)),
        agree(bf, s.cells, t.cells),
{
    reveal(Bf::print_wide);
    let n = val(s.cells, cell, w);
    lemma_bytes_val(s.cells, cell, w);
    lemma_divisors(w);
    let vs = digits_of(n, divisors_of(w), 0);
    lemma_digits_of(n, divisors_of(w), 0, w, 0);
    lemma_shown(vs, 0, 0);
    let y = lemma_word_digits(bf, cell, w, s.cells);
    let (b1, ds, seen_nz) = word_digits(bf, cell, w);
    lemma_goes_works(bf, b1, s, y, source);
    let m = with(s, y, b1.ptr);
    lemma_goes_ends(bf, b1, s, m, source);
    let t = lemma_print_digits(b1, ds, vs, seen_nz, 0, m, source);
    let b2 = b1.print_digits(ds, seen_nz, 0);
    lemma_goes_then(bf, b1, b2, s, m, t, source);
    let c = b2.tfree(seen_nz);
    lemma_goes_quiet(bf, b2, c, s, t, source);
    assert(bf.print_wide(cell, w) == c);
    lemma_freed(b2, seen_nz);
    assert forall|k: int| #[trigger] held(bf, k) implies held(c, k) by {
        assert(held(b1, k) && !among(ds, 0, k) && k != seen_nz);
        assert(held(b2, k));
    }
    assert forall|k: int| held(bf, k) implies #[trigger] t.cells[k] == s.cells[k] by {
        assert(held(b1, k) && !among(ds, 0, k) && k != seen_nz);
        assert(y[k] == s.cells[k]);
    }
    t
}

} // verus!
