//! What the addition and the subtraction of four bytes do.

use vstd::prelude::*;

use crate::bfsc::effect::blocks::{apart, held_n, lemma_freed_n, lent_n};
use crate::bfsc::effect::cells::{
    agree, bit, held, roomy, settled, took, unflagged, works_add_to, works_copy, works_is_nz,
    works_sub_from, works_unflag_if,
};
use crate::bfsc::effect::compare::{grown, lemma_byte_gt, lemma_freed, lemma_took, lent};
use crate::bfsc::effect::steps::{
    lemma_works_bytes, plus, works, works_clear, works_talloc, works_tfree, works_tfree_n, Cells,
};
use crate::bfsc::emitter::Bf;

verus! {

/// Two bytes and a cell for their carry.
spec fn trio(b: Bf, p: int, q: int, pend: int) -> bool {
    &&& roomy(b)
    &&& held(b, p)
    &&& held(b, q)
    &&& held(b, pend)
    &&& p != q
    &&& p != pend
    &&& q != pend
}

/// What adding or subtracting a byte gives to the next one.
spec fn given(x: Cells, d: int, s: int, pend: int, down: bool) -> int {
    bit(
        if down {
            x[d] < x[s]
        } else {
            x[d] + x[s] >= 256
        },
    ) + x[pend]
}

/// A byte after adding or subtracting.
spec fn changed(v: int, by: int, down: bool) -> int {
    if down {
        (v - by) % 256
    } else {
        (v + by) % 256
    }
}

/// A byte is added or subtracted, up to its carry.
spec fn wide_head(bf: Bf, d: int, s: int, pend: int, down: bool) -> (Bf, int) {
    let (bf, orig) = bf.talloc();
    let bf = bf.copy(d, orig);
    let bf = if down {
        bf.sub_from(s, d)
    } else {
        bf.add_to(s, d)
    };
    let (bf, after) = bf.talloc();
    let bf = bf.copy(d, after);
    let (bf, carry) = if down {
        bf.byte_gt(after, orig)
    } else {
        bf.byte_gt(orig, after)
    };
    (bf.add_to(pend, carry), carry)
}

proof fn lemma_wide_head(
    o: Bf,
    bf: Bf,
    x0: Cells,
    x: Cells,
    d: int,
    s: int,
    pend: int,
    down: bool,
) -> (y: Cells)
    requires
        works(o, bf, x0, x),
        trio(bf, d, s, pend),
        0 <= given(x, d, s, pend, down) <= 1,
    ensures
        ({
            let (c, carry) = wide_head(bf, d, s, pend, down);
            &&& works(o, c, x0, y)
            &&& grown(bf, c)
            &&& lent(c, carry)
            &&& !held(bf, carry)
            &&& y[carry] == given(x, d, s, pend, down)
            &&& y[d] == changed(x[d], x[s], down)
        }),
        forall|k: int| held(bf, k) && k != d && k != s && k != pend ==> #[trigger] y[k] == x[k],
{
    broadcast use {
        works_copy,
        works_add_to,
        works_sub_from,
        works_talloc,
        works_tfree,
        lemma_took,
    };

    lemma_works_bytes(o, bf, x0, x);
    assert(x.dom().contains(d) && x.dom().contains(s) && x.dom().contains(pend));
    assert(took(bf, bf.talloc().0, bf.talloc().1));
    let (b1, orig) = bf.talloc();
    assert(works(o, b1, x0, x));
    assert(held(b1, d) && held(b1, orig) && held(b1, s) && held(b1, pend));
    let b2 = b1.copy(d, orig);
    let x2 = choose|y: Cells| #[trigger] works(o, b2, x0, y) && agree(b1, x.insert(orig, x[d]), y);
    assert(x2[d] == x[d] && x2[orig] == x[d] && x2[s] == x[s] && x2[pend] == x[pend]);
    let b3 = if down {
        b2.sub_from(s, d)
    } else {
        b2.add_to(s, d)
    };
    let x3 = plus(
        x2,
        d,
        if down {
            -x2[s]
        } else {
            x2[s]
        },
    ).insert(s, 0);
    assert(works(o, b3, x0, x3));
    assert(settled(b1, b3));
    assert(took(b3, b3.talloc().0, b3.talloc().1));
    let (b4, after) = b3.talloc();
    assert(held(b3, d) && held(b3, orig) && held(b3, pend));
    assert(held(b4, d) && held(b4, after) && held(b4, orig) && held(b4, pend));
    assert(works(o, b4, x0, x3));
    let b5 = b4.copy(d, after);
    let x5 = choose|y: Cells| #[trigger]
        works(o, b5, x0, y) && agree(b4, x3.insert(after, x3[d]), y);
    assert(x5[orig] == x[d] && x5[after] == x3[d] && x5[d] == x3[d] && x5[pend] == x[pend]);
    assert(held(b5, orig) && held(b5, after) && held(b5, d) && held(b5, pend));
    let (p, q) = if down {
        (after, orig)
    } else {
        (orig, after)
    };
    let x6 = lemma_byte_gt(o, b5, x0, x5, p, q);
    let (b6, carry) = b5.byte_gt(p, q);
    assert(x6[carry] == given(x, d, s, pend, down) - x[pend]);
    assert(x6[d] == x5[d] && x6[pend] == x5[pend]);
    let c = b6.add_to(pend, carry);
    assert(carry != pend);
    let y = plus(x6, carry, x6[pend]).insert(pend, 0);
    assert(works(o, c, x0, y));
    assert(held(b6, carry));
    assert forall|k: int| #[trigger] held(bf, k) implies held(c, k) && k != carry by {
        assert(held(b1, k) && k != orig);
        assert(held(b3, k));
        assert(held(b4, k) && k != after);
        assert(held(b5, k));
        assert(held(b6, k) && k != carry);
    }
    assert(!held(bf, carry));
    assert forall|k: int| held(bf, k) && k != d && k != s && k != pend implies #[trigger] y[k]
        == x[k] by {
        assert(held(b1, k) && k != orig);
        assert(x2[k] == x.insert(orig, x[d])[k]);
        assert(held(b3, k));
        assert(held(b4, k) && k != after);
        assert(x5[k] == x3.insert(after, x3[d])[k]);
        assert(held(b5, k));
        assert(x6[k] == x5[k]);
        assert(k != carry);
    }
    y
}

/// One byte.
spec fn wide_byte(bf: Bf, dst: int, src: int, n: int, i: int, pend: int, down: bool) -> Bf {
    if down {
        bf.sub_wide_byte(dst, src, n, i, pend)
    } else {
        bf.add_wide_byte(dst, src, n, i, pend)
    }
}

/// The carry is cleared where the byte it went to is not 0.
proof fn lemma_settle_carry(o: Bf, bf: Bf, x0: Cells, x: Cells, next: int, pend: int) -> (y: Cells)
    requires
        works(o, bf, x0, x),
        roomy(bf),
        held(bf, next),
        held(bf, pend),
        next != pend,
    ensures
        ({
            let (b1, nz) = bf.is_nz(next);
            let c = b1.unflag_if(nz, pend).tfree(nz);
            &&& works(o, c, x0, y)
            &&& grown(bf, c)
        }),
        y[pend] == if x[next] != 0 {
            0
        } else {
            x[pend]
        },
        forall|k: int| held(bf, k) && k != pend ==> #[trigger] y[k] == x[k],
{
    broadcast use {works_is_nz, works_unflag_if, works_tfree, lemma_took};

    let (b1, nz) = bf.is_nz(next);
    assert(took(bf, b1, nz));
    let x1 = choose|y: Cells| #[trigger]
        works(o, b1, x0, y) && agree(bf.talloc().0, x.insert(bf.talloc().1, bit(x[next] != 0)), y);
    assert(held(b1, nz) && held(bf.talloc().0, nz));
    assert(held(b1, pend) && held(bf.talloc().0, pend));
    assert(x1[nz] == bit(x[next] != 0) && x1[pend] == x[pend]);
    let b2 = b1.unflag_if(nz, pend);
    let y = unflagged(x1, nz, pend);
    assert(works(o, b2, x0, y));
    lemma_freed(b2, nz);
    let c = b2.tfree(nz);
    assert(works(o, c, x0, y));
    assert forall|k: int| #[trigger] held(bf, k) implies held(c, k) by {
        assert(held(b1, k) && k != nz);
        assert(held(b2, k));
    }
    assert forall|k: int| held(bf, k) && k != pend implies #[trigger] y[k] == x[k] by {
        assert(held(b1, k) && k != nz);
        assert(held(bf.talloc().0, k));
    }
    y
}

proof fn lemma_wide_byte(
    o: Bf,
    bf: Bf,
    x0: Cells,
    x: Cells,
    dst: int,
    src: int,
    n: int,
    i: int,
    pend: int,
    down: bool,
) -> (y: Cells)
    requires
        works(o, bf, x0, x),
        trio(bf, dst + i, src + i, pend),
        i < n - 1 ==> held(bf, dst + i + 1) && dst + i + 1 != src + i && dst + i + 1 != pend,
        0 <= given(x, dst + i, src + i, pend, down) <= 1,
    ensures
        works(o, wide_byte(bf, dst, src, n, i, pend, down), x0, y),
        grown(bf, wide_byte(bf, dst, src, n, i, pend, down)),
        y[dst + i] == changed(x[dst + i], x[src + i], down),
        ({
            let c = given(x, dst + i, src + i, pend, down);
            let v = x[dst + i + 1];
            i < n - 1 ==> {
                &&& y[dst + i + 1] == changed(v, c, down)
                &&& y[pend] == bit(
                    if down {
                        v < c
                    } else {
                        v + c >= 256
                    },
                )
            }
        }),
        forall|k: int|
            held(bf, k) && k != dst + i && k != src + i && k != pend && (i < n - 1 ==> k != dst + i
                + 1) ==> #[trigger] y[k] == x[k],
{
    broadcast use {works_copy, works_add_to, works_sub_from, works_tfree};

    reveal(Bf::add_wide_byte);
    reveal(Bf::sub_wide_byte);
    lemma_works_bytes(o, bf, x0, x);
    let d = dst + i;
    let s = src + i;
    let next = dst + i + 1;
    let c = given(x, d, s, pend, down);
    let x1 = lemma_wide_head(o, bf, x0, x, d, s, pend, down);
    let (b1, carry) = wide_head(bf, d, s, pend, down);
    assert(held(b1, pend) && held(b1, carry) && held(b1, d));
    if i < n - 1 {
        assert(held(b1, next) && x1[next] == x[next]);
        assert(x.dom().contains(next));
        let b2 = b1.copy(carry, pend);
        let x2 = choose|y: Cells| #[trigger]
            works(o, b2, x0, y) && agree(b1, x1.insert(pend, x1[carry]), y);
        assert(x2[pend] == c && x2[carry] == c && x2[next] == x[next] && x2[d] == x1[d]);
        assert(held(b2, carry) && held(b2, next) && held(b2, pend));
        if down {
            let x3 = lemma_settle_carry(o, b2, x0, x2, next, pend);
            let (e, nz) = b2.is_nz(next);
            let b3 = e.unflag_if(nz, pend).tfree(nz);
            assert(x3[next] == x[next] && x3[carry] == c);
            let b4 = b3.sub_from(carry, next);
            let y = plus(x3, next, -x3[carry]).insert(carry, 0);
            assert(works(o, b4, x0, y));
            assert(held(b3, carry));
            lemma_freed(b4, carry);
            let f = b4.tfree(carry);
            assert(works(o, f, x0, y));
            assert(f == wide_byte(bf, dst, src, n, i, pend, down));
            assert forall|k: int| #[trigger] held(bf, k) implies held(f, k) && k != carry by {
                assert(held(b1, k));
                assert(held(b2, k));
                assert(held(b3, k));
                assert(held(b4, k));
            }
            assert forall|k: int|
                held(bf, k) && k != d && k != s && k != pend && k != next implies #[trigger] y[k]
                == x[k] by {
                assert(held(b1, k) && k != carry);
                assert(x1[k] == x[k]);
                assert(held(b2, k));
                assert(x3[k] == x2[k]);
            }
            assert(x3[d] == x2[d]);
            y
        } else {
            let b3 = b2.add_to(carry, next);
            let x3 = plus(x2, next, x2[carry]).insert(carry, 0);
            assert(works(o, b3, x0, x3));
            assert(held(b3, next) && held(b3, pend) && held(b3, carry) && held(b3, d));
            let y = lemma_settle_carry(o, b3, x0, x3, next, pend);
            let (e, nz) = b3.is_nz(next);
            let b4 = e.unflag_if(nz, pend).tfree(nz);
            assert(held(b4, carry));
            lemma_freed(b4, carry);
            let f = b4.tfree(carry);
            assert(works(o, f, x0, y));
            assert(f == wide_byte(bf, dst, src, n, i, pend, down));
            assert forall|k: int| #[trigger] held(bf, k) implies held(f, k) && k != carry by {
                assert(held(b1, k));
                assert(held(b2, k));
                assert(held(b3, k));
                assert(held(b4, k));
            }
            assert forall|k: int|
                held(bf, k) && k != d && k != s && k != pend && k != next implies #[trigger] y[k]
                == x[k] by {
                assert(held(b1, k) && k != carry);
                assert(x1[k] == x[k]);
                assert(held(b2, k));
                assert(held(b3, k));
            }
            assert(y[d] == x3[d] && y[next] == x3[next]);
            y
        }
    } else {
        lemma_freed(b1, carry);
        let f = b1.tfree(carry);
        assert(works(o, f, x0, x1));
        assert(f == wide_byte(bf, dst, src, n, i, pend, down));
        assert forall|k: int| #[trigger] held(bf, k) implies held(f, k) by {
            assert(held(b1, k) && k != carry);
        }
        x1
    }
}

/// Four bytes as a number.
pub open spec fn four(a: int, b: int, c: int, d: int) -> int {
    a + 256 * b + 65536 * c + 16777216 * d
}

/// Four bytes of a sum, from the carries.
proof fn lemma_four_sum(
    a: (int, int, int, int),
    b: (int, int, int, int),
    r: (int, int, int, int),
    c: (int, int, int, int),
)
    requires
        a.0 + b.0 == r.0 + 256 * c.0,
        a.1 + b.1 + c.0 == r.1 + 256 * c.1,
        a.2 + b.2 + c.1 == r.2 + 256 * c.2,
        a.3 + b.3 + c.2 == r.3 + 256 * c.3,
        0 <= r.0 < 256,
        0 <= r.1 < 256,
        0 <= r.2 < 256,
        0 <= r.3 < 256,
    ensures
        four(r.0, r.1, r.2, r.3) == (four(a.0, a.1, a.2, a.3) + four(b.0, b.1, b.2, b.3))
            % 0x1_0000_0000,
{
    let t = four(a.0, a.1, a.2, a.3) + four(b.0, b.1, b.2, b.3);
    let low = four(r.0, r.1, r.2, r.3);
    assert(t == c.3 * 0x1_0000_0000 + low);
    vstd::arithmetic::div_mod::lemma_fundamental_div_mod_converse(t, 0x1_0000_0000, c.3, low);
}

/// A byte with a carry in, in two steps.
proof fn lemma_two_carries(a: int, b: int, cin: int, down: bool)
    requires
        0 <= a < 256,
        0 <= b < 256,
        0 <= cin <= 1,
    ensures
        ({
            let m = changed(a, cin, down);
            let p = bit(
                if down {
                    a < cin
                } else {
                    a + cin >= 256
                },
            );
            let q = bit(
                if down {
                    m < b
                } else {
                    m + b >= 256
                },
            );
            let r = changed(m, b, down);
            &&& 0 <= p + q <= 1
            &&& 0 <= r < 256
            &&& down ==> a - b - cin == r - 256 * (p + q)
            &&& !down ==> a + b + cin == r + 256 * (p + q)
        }),
{
}

/// Addition or subtraction of four bytes.
spec fn wide_sum(bf: Bf, dst: int, src: int, down: bool) -> Bf {
    if down {
        bf.sub_wide(dst, src, 4)
    } else {
        bf.add_wide(dst, src, 4)
    }
}

/// The first bytes of both numbers, and the carry, in use.
spec fn columns(b: Bf, dst: int, src: int, pend: int) -> bool {
    &&& roomy(b)
    &&& held_n(b, dst, 4)
    &&& held_n(b, src, 4)
    &&& held(b, pend)
    &&& apart(dst, 4, src, 4)
    &&& apart(pend, 1, dst, 4)
    &&& apart(pend, 1, src, 4)
}

proof fn lemma_columns_grown(b: Bf, c: Bf, dst: int, src: int, pend: int)
    requires
        grown(b, c),
        columns(b, dst, src, pend),
    ensures
        columns(c, dst, src, pend),
{
    assert forall|k: int| dst <= k < dst + 4 implies #[trigger] held(c, k) by {
        assert(held(b, k));
    }
    assert forall|k: int| src <= k < src + 4 implies #[trigger] held(c, k) by {
        assert(held(b, k));
    }
}

/// One of the first three bytes, seen from its carry in.
proof fn lemma_wide_column(
    o: Bf,
    bf: Bf,
    x0: Cells,
    x: Cells,
    dst: int,
    src: int,
    i: int,
    pend: int,
    down: bool,
    a: int,
    cin: int,
) -> (y: Cells)
    requires
        works(o, bf, x0, x),
        columns(bf, dst, src, pend),
        0 <= i < 4,
        0 <= a < 256,
        0 <= cin <= 1,
        x[dst + i] == changed(a, cin, down),
        x[pend] == bit(
            if down {
                a < cin
            } else {
                a + cin >= 256
            },
        ),
    ensures
        works(o, wide_byte(bf, dst, src, 4, i, pend, down), x0, y),
        columns(wide_byte(bf, dst, src, 4, i, pend, down), dst, src, pend),
        grown(bf, wide_byte(bf, dst, src, 4, i, pend, down)),
        ({
            let c = given(x, dst + i, src + i, pend, down);
            let r = y[dst + i];
            let v = x[dst + i + 1];
            &&& 0 <= c <= 1
            &&& 0 <= r < 256
            &&& down ==> a - x[src + i] - cin == r - 256 * c
            &&& !down ==> a + x[src + i] + cin == r + 256 * c
            &&& i < 3 ==> y[dst + i + 1] == changed(v, c, down) && y[pend] == bit(
                if down {
                    v < c
                } else {
                    v + c >= 256
                },
            )
        }),
        forall|k: int|
            held(bf, k) && k != dst + i && k != src + i && k != pend && (i < 3 ==> k != dst + i + 1)
                ==> #[trigger] y[k] == x[k],
{
    lemma_works_bytes(o, bf, x0, x);
    assert(x.dom().contains(src + i) && x.dom().contains(dst + i));
    lemma_two_carries(a, x[src + i], cin, down);
    assert(held(bf, dst + i) && held(bf, src + i));
    if i < 3 {
        assert(held(bf, dst + (i + 1)));
    }
    let y = lemma_wide_byte(o, bf, x0, x, dst, src, 4, i, pend, down);
    lemma_columns_grown(bf, wide_byte(bf, dst, src, 4, i, pend, down), dst, src, pend);
    y
}

/// The four bytes one after the other.
spec fn wide_bytes(b1: Bf, dst: int, src: int, pend: int, down: bool) -> Bf {
    let b2 = wide_byte(b1, dst, src, 4, 0, pend, down);
    let b3 = wide_byte(b2, dst, src, 4, 1, pend, down);
    let b4 = wide_byte(b3, dst, src, 4, 2, pend, down);
    wide_byte(b4, dst, src, 4, 3, pend, down)
}

proof fn lemma_wide_bytes(
    o: Bf,
    b1: Bf,
    x0: Cells,
    x: Cells,
    dst: int,
    src: int,
    pend: int,
    down: bool,
) -> (y3: Cells)
    requires
        works(o, b1, x0, x),
        columns(b1, dst, src, pend),
        x[pend] == 0,
    ensures
        works(o, wide_bytes(b1, dst, src, pend, down), x0, y3),
        grown(b1, wide_bytes(b1, dst, src, pend, down)),
        ({
            let a = four(x[dst], x[dst + 1], x[dst + 2], x[dst + 3]);
            let b = four(x[src], x[src + 1], x[src + 2], x[src + 3]);
            four(y3[dst], y3[dst + 1], y3[dst + 2], y3[dst + 3]) == if down {
                (a - b) % 0x1_0000_0000
            } else {
                (a + b) % 0x1_0000_0000
            }
        }),
        forall|k: int|
            held(b1, k) && k != pend && !(dst <= k < dst + 4) && !(src <= k < src + 4)
                ==> #[trigger] y3[k] == x[k],
{
    lemma_works_bytes(o, b1, x0, x);
    assert(x.dom().contains(dst) && x.dom().contains(dst + 1) && x.dom().contains(dst + 2)
        && x.dom().contains(dst + 3));
    let y0 = lemma_wide_column(o, b1, x0, x, dst, src, 0, pend, down, x[dst], 0);
    let c0 = given(x, dst + 0, src + 0, pend, down);
    let b2 = wide_byte(b1, dst, src, 4, 0, pend, down);
    lemma_kept_far(b1, x, y0, dst, src, pend, 0);
    let y1 = lemma_wide_column(o, b2, x0, y0, dst, src, 1, pend, down, x[dst + 1], c0);
    let c1 = given(y0, dst + 1, src + 1, pend, down);
    let b3 = wide_byte(b2, dst, src, 4, 1, pend, down);
    lemma_kept_far(b2, y0, y1, dst, src, pend, 1);
    let y2 = lemma_wide_column(o, b3, x0, y1, dst, src, 2, pend, down, x[dst + 2], c1);
    let c2 = given(y1, dst + 2, src + 2, pend, down);
    let b4 = wide_byte(b3, dst, src, 4, 2, pend, down);
    lemma_kept_far(b3, y1, y2, dst, src, pend, 2);
    let y3 = lemma_wide_column(o, b4, x0, y2, dst, src, 3, pend, down, x[dst + 3], c2);
    let c3 = given(y2, dst + 3, src + 3, pend, down);
    let b5 = wide_byte(b4, dst, src, 4, 3, pend, down);
    lemma_kept_far(b4, y2, y3, dst, src, pend, 3);
    let a = (x[dst], x[dst + 1], x[dst + 2], x[dst + 3]);
    let b = (x[src], x[src + 1], x[src + 2], x[src + 3]);
    let r = (y3[dst], y3[dst + 1], y3[dst + 2], y3[dst + 3]);
    assert(y3[dst] == y0[dst] && y3[dst + 1] == y1[dst + 1] && y3[dst + 2] == y2[dst + 2]);
    if down {
        lemma_four_sum(
            a,
            (-b.0, -b.1, -b.2, -b.3),
            r,
            (-c0, -c1, -c2, -c3),
        );
    } else {
        lemma_four_sum(a, b, r, (c0, c1, c2, c3));
    }
    assert forall|k: int| #[trigger] held(b1, k) implies held(b5, k) by {
        assert(held(b2, k));
        assert(held(b3, k));
        assert(held(b4, k));
    }
    assert forall|k: int|
        held(b1, k) && k != pend && !(dst <= k < dst + 4) && !(src <= k < src
            + 4) implies #[trigger] y3[k] == x[k] by {
        assert(y0[k] == x[k]);
        assert(held(b2, k));
        assert(y1[k] == y0[k]);
        assert(held(b3, k));
        assert(y2[k] == y1[k]);
        assert(held(b4, k));
        assert(y3[k] == y2[k]);
    }
    y3
}

/// The rounds are the four bytes.
proof fn lemma_rounds_unrolled(b1: Bf, dst: int, src: int, pend: int, down: bool)
    ensures
        wide_bytes(b1, dst, src, pend, down) == if down {
            b1.sub_wide_rounds(dst, src, 4, pend, 0)
        } else {
            b1.add_wide_rounds(dst, src, 4, pend, 0)
        },
{
    reveal_with_fuel(Bf::add_wide_rounds, 5);
    reveal_with_fuel(Bf::sub_wide_rounds, 5);
}

/// Numbers of four bytes are added and subtracted, wrapping.
pub proof fn lemma_wide_sum(o: Bf, bf: Bf, x0: Cells, x: Cells, dst: int, src: int, down: bool) -> (y:
    Cells)
    requires
        works(o, bf, x0, x),
        roomy(bf),
        held_n(bf, dst, 4),
        lent_n(bf, src, 4),
        apart(dst, 4, src, 4),
    ensures
        works(
            o,
            if down {
                bf.sub_n(dst, src, 4)
            } else {
                bf.add_n(dst, src, 4)
            },
            x0,
            y,
        ),
        ({
            let c = if down {
                bf.sub_n(dst, src, 4)
            } else {
                bf.add_n(dst, src, 4)
            };
            &&& c.temp_base == bf.temp_base
            &&& roomy(c)
            &&& forall|k: int| #[trigger] held(bf, k) && !(src <= k < src + 4) ==> held(c, k)
        }),
        ({
            let a = four(x[dst], x[dst + 1], x[dst + 2], x[dst + 3]);
            let b = four(x[src], x[src + 1], x[src + 2], x[src + 3]);
            four(y[dst], y[dst + 1], y[dst + 2], y[dst + 3]) == if down {
                (a - b) % 0x1_0000_0000
            } else {
                (a + b) % 0x1_0000_0000
            }
        }),
        forall|k: int|
            held(bf, k) && !(dst <= k < dst + 4) && !(src <= k < src + 4) ==> #[trigger] y[k]
                == x[k],
{
    broadcast use {works_talloc, works_clear, works_tfree, works_tfree_n, lemma_took};

    reveal(Bf::add_n);
    reveal(Bf::sub_n);
    reveal(Bf::add_wide);
    reveal(Bf::sub_wide);
    lemma_works_bytes(o, bf, x0, x);
    assert(took(bf, bf.talloc().0, bf.talloc().1));
    let (b0, pend) = bf.talloc();
    let b1 = b0.clear(pend);
    let x1 = x.insert(pend, 0);
    assert(works(o, b1, x0, x1));
    assert forall|k: int| #[trigger] held(bf, k) implies held(b1, k) && k != pend by {
        assert(held(b0, k));
    }
    assert(columns(b1, dst, src, pend)) by {
        assert forall|k: int| dst <= k < dst + 4 implies #[trigger] held(b1, k) && k != pend by {
            assert(held(bf, k));
        }
        assert forall|k: int| src <= k < src + 4 implies #[trigger] held(b1, k) && k != pend by {
            assert(held(bf, k));
        }
        assert(held(b0, pend));
    }
    assert(held(bf, dst) && held(bf, dst + 1) && held(bf, dst + 2) && held(bf, dst + 3));
    assert(held(bf, src) && held(bf, src + 1) && held(bf, src + 2) && held(bf, src + 3));
    assert(x.dom().contains(dst) && x.dom().contains(dst + 1) && x.dom().contains(dst + 2)
        && x.dom().contains(dst + 3));
    assert(x.dom().contains(src) && x.dom().contains(src + 1) && x.dom().contains(src + 2)
        && x.dom().contains(src + 3));
    let y3 = lemma_wide_bytes(o, b1, x0, x1, dst, src, pend, down);
    let b5 = wide_bytes(b1, dst, src, pend, down);
    lemma_rounds_unrolled(b1, dst, src, pend, down);
    lemma_freed(b5, pend);
    let b6 = b5.tfree(pend);
    assert(works(o, b6, x0, y3));
    lemma_freed_n(b6, src, 4);
    let c = b6.tfree_n(src, 4);
    assert(works(o, c, x0, y3));
    assert(c == wide_sum(bf, dst, src, down));
    assert forall|k: int| #[trigger] held(bf, k) && !(src <= k < src + 4) implies held(c, k) by {
        assert(held(b1, k) && k != pend);
        assert(held(b5, k));
        assert(held(b6, k));
    }
    assert forall|k: int|
        held(bf, k) && !(dst <= k < dst + 4) && !(src <= k < src + 4) implies #[trigger] y3[k]
        == x[k] by {
        assert(held(b1, k) && k != pend);
        assert(y3[k] == x1[k]);
    }
    y3
}

/// The other bytes keep what they hold.
proof fn lemma_kept_far(
    b: Bf,
    x: Cells,
    y: Cells,
    dst: int,
    src: int,
    pend: int,
    i: int,
)
    requires
        columns(b, dst, src, pend),
        0 <= i < 4,
        forall|k: int|
            held(b, k) && k != dst + i && k != src + i && k != pend && (i < 3 ==> k != dst + i + 1)
                ==> #[trigger] y[k] == x[k],
    ensures
        forall|j: int| 0 <= j < 4 && j != i && j != i + 1 ==> #[trigger] y[dst + j] == x[dst + j],
        forall|j: int| 0 <= j < 4 && j != i ==> #[trigger] y[src + j] == x[src + j],
{
    assert forall|j: int| 0 <= j < 4 && j != i && j != i + 1 implies #[trigger] y[dst + j] == x[dst
        + j] by {
        assert(held(b, dst + j));
    }
    assert forall|j: int| 0 <= j < 4 && j != i implies #[trigger] y[src + j] == x[src + j] by {
        assert(held(b, src + j));
    }
}

} // verus!
