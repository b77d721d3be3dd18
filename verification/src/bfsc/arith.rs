//! Brainfuck for arithmetic and comparisons.
//!
//! Operands and results are temporary cells; a value of several bytes takes
//! consecutive cells, low byte first.

use vstd::prelude::*;

use crate::bfsc::ast::BinOp;
use crate::bfsc::emitter::BfEmitter;
use crate::bfsc::emitter::{block, Bf};
use crate::bfsc::layout::CELL_LIMIT;

verus! {

impl Bf {
    /// Copy `src` to `dst`, keeping `src`.
    #[verifier::opaque]
    pub open spec fn copy(self, src: int, dst: int) -> Bf {
        let bf = self;
        let (bf, tmp) = bf.talloc();
        let bf = bf.clear(dst);
        let bf = bf.clear(tmp);
        let bf = bf.goto(src);
        let bf = bf.raw("["@);
        let bf = bf.goto(dst);
        let bf = bf.raw("+"@);
        let bf = bf.goto(tmp);
        let bf = bf.raw("+"@);
        let bf = bf.goto(src);
        let bf = bf.raw("-]"@);
        let bf = bf.goto(tmp);
        let bf = bf.raw("["@);
        let bf = bf.goto(src);
        let bf = bf.raw("+"@);
        let bf = bf.goto(tmp);
        let bf = bf.raw("-]"@);
        let bf = bf.tfree(tmp);
        bf
    }

    /// The rounds of [`Bf::copy_n`] from the given one on.
    #[verifier::opaque]
    pub open spec fn copy_n_rounds(self, src: int, dst: int, n: int, i: int) -> Bf
        decreases n - i,
    {
        if i >= n {
            self
        } else {
            let bf = self;
            let bf = bf.copy(src + i, dst + i);
            bf.copy_n_rounds(src, dst, n, i + 1)
        }
    }

    /// Copy `n` cells.
    #[verifier::opaque]
    pub open spec fn copy_n(self, src: int, dst: int, n: int) -> Bf {
        let bf = self;
        let bf = bf.copy_n_rounds(src, dst, n, 0);
        bf
    }

    /// Move `src` to `dst`; `src` becomes 0.
    #[verifier::opaque]
    pub open spec fn bfmove(self, src: int, dst: int) -> Bf {
        let bf = self;
        let bf = bf.clear(dst);
        let bf = bf.goto(src);
        let bf = bf.raw("["@);
        let bf = bf.goto(dst);
        let bf = bf.raw("+"@);
        let bf = bf.goto(src);
        let bf = bf.raw("-]"@);
        bf
    }

    /// The rounds of [`Bf::bfmove_n`] from the given one on.
    #[verifier::opaque]
    pub open spec fn bfmove_n_rounds(self, src: int, dst: int, n: int, i: int) -> Bf
        decreases n - i,
    {
        if i >= n {
            self
        } else {
            let bf = self;
            let bf = bf.bfmove(src + i, dst + i);
            bf.bfmove_n_rounds(src, dst, n, i + 1)
        }
    }

    /// Move `n` cells.
    #[verifier::opaque]
    pub open spec fn bfmove_n(self, src: int, dst: int, n: int) -> Bf {
        let bf = self;
        let bf = bf.bfmove_n_rounds(src, dst, n, 0);
        bf
    }

    /// The rounds of [`Bf::clear_range`] from the given one on.
    #[verifier::opaque]
    pub open spec fn clear_range_rounds(self, base: int, hi: int, i: int) -> Bf
        decreases hi - i,
    {
        if i >= hi {
            self
        } else {
            let bf = self;
            let bf = bf.clear(base + i);
            bf.clear_range_rounds(base, hi, i + 1)
        }
    }

    /// Clear the cells from `base + lo` to `base + hi`.
    #[verifier::opaque]
    pub open spec fn clear_range(self, base: int, lo: int, hi: int) -> Bf {
        let bf = self;
        let bf = bf.clear_range_rounds(base, hi, lo);
        bf
    }

    /// Add `src` to `dst`; `src` becomes 0.
    #[verifier::opaque]
    pub open spec fn add_to(self, src: int, dst: int) -> Bf {
        let bf = self;
        let bf = bf.goto(src);
        let bf = bf.raw("["@);
        let bf = bf.goto(dst);
        let bf = bf.raw("+"@);
        let bf = bf.goto(src);
        let bf = bf.raw("-]"@);
        bf
    }

    /// Subtract `src` from `dst`; `src` becomes 0.
    #[verifier::opaque]
    pub open spec fn sub_from(self, src: int, dst: int) -> Bf {
        let bf = self;
        let bf = bf.goto(src);
        let bf = bf.raw("["@);
        let bf = bf.goto(dst);
        let bf = bf.raw("-"@);
        let bf = bf.goto(src);
        let bf = bf.raw("-]"@);
        bf
    }

    /// A new cell with 1 where `cell` is not 0, else 0.
    #[verifier::opaque]
    pub open spec fn is_nz(self, cell: int) -> (Bf, int) {
        let bf = self;
        let (bf, r) = bf.talloc();
        let bf = bf.clear(r);
        let (bf, tc) = bf.talloc();
        let bf = bf.copy(cell, tc);
        let bf = bf.goto(tc);
        let bf = bf.raw("["@);
        let bf = bf.setv(r, 1);
        let bf = bf.clear(tc);
        let bf = bf.goto(tc);
        let bf = bf.raw("]"@);
        let bf = bf.tfree(tc);
        (bf, r)
    }

    /// Make the cell 1 where it is 0, else 0.
    #[verifier::opaque]
    pub open spec fn negate(self, c: int) -> (Bf, int) {
        let bf = self;
        let (bf, t) = bf.talloc();
        let bf = bf.bfmove(c, t);
        let bf = bf.inc(c, 1);
        let bf = bf.goto(t);
        let bf = bf.raw("["@);
        let bf = bf.clear(c);
        let bf = bf.clear(t);
        let bf = bf.goto(t);
        let bf = bf.raw("]"@);
        let bf = bf.tfree(t);
        (bf, c)
    }

    /// Set `flag` and clear `cell`, where `cell` is not 0.
    #[verifier::opaque]
    pub open spec fn flag_if(self, cell: int, flag: int) -> Bf {
        let bf = self;
        let bf = bf.goto(cell);
        let bf = bf.raw("["@);
        let bf = bf.setv(flag, 1);
        let bf = bf.clear(cell);
        let bf = bf.goto(cell);
        let bf = bf.raw("]"@);
        bf
    }

    /// Clear `flag` and `cell`, where `cell` is not 0.
    #[verifier::opaque]
    pub open spec fn unflag_if(self, cell: int, flag: int) -> Bf {
        let bf = self;
        let bf = bf.goto(cell);
        let bf = bf.raw("["@);
        let bf = bf.clear(flag);
        let bf = bf.clear(cell);
        let bf = bf.goto(cell);
        let bf = bf.raw("]"@);
        bf
    }

    /// Set `flag` and clear all three, where `a` and `b` are not 0.
    #[verifier::opaque]
    pub open spec fn flag_if_both(self, a: int, b: int, flag: int) -> Bf {
        let bf = self;
        let bf = bf.goto(a);
        let bf = bf.raw("["@);
        let bf = bf.flag_if(b, flag);
        let bf = bf.clear(a);
        let bf = bf.goto(a);
        let bf = bf.raw("]"@);
        bf
    }

    /// The value in `to_w` cells, with zeros above; the old cells are free.
    #[verifier::opaque]
    pub open spec fn widen(self, src: int, from_w: int, to_w: int) -> (Bf, int) {
        let bf = self;
        if from_w == to_w {
            (bf, src)
        } else {
            let (bf, t) = bf.talloc_n(to_w);
            let bf = bf.bfmove_n(src, t, from_w);
            let bf = bf.clear_range(t, from_w, to_w);
            let bf = bf.tfree_n(src, from_w);
            (bf, t)
        }
    }

    /// The value in `w` cells where it is narrower.
    #[verifier::opaque]
    pub open spec fn widened(self, src: int, from_w: int, w: int) -> (Bf, int) {
        let bf = self;
        if from_w < w {
            bf.widen(src, from_w, w)
        } else {
            (bf, src)
        }
    }

    /// One round of the comparison: where `b` is not 0, count both down, and stop
    /// where `a` was 0.
    #[verifier::opaque]
    pub open spec fn gt_count_down(self, a: int, b: int, flag: int) -> (Bf, int) {
        let bf = self;
        let (bf, bnz) = bf.is_nz(b);
        let bf = bf.goto(bnz);
        let bf = bf.raw("["@);
        let bf = bf.dec(b, 1);
        let (bf, anz) = bf.is_nz(a);
        let bf = bf.goto(anz);
        let bf = bf.raw("["@);
        let bf = bf.dec(a, 1);
        let bf = bf.clear(anz);
        let bf = bf.goto(anz);
        let bf = bf.raw("]"@);
        let (bf, ef_a) = bf.talloc();
        let bf = bf.setv(ef_a, 1);
        let (bf, anz2) = bf.is_nz(a);
        let bf = bf.unflag_if(anz2, ef_a);
        let bf = bf.tfree(anz2);
        let bf = bf.goto(ef_a);
        let bf = bf.raw("["@);
        let bf = bf.clear(flag);
        let bf = bf.clear(ef_a);
        let bf = bf.goto(ef_a);
        let bf = bf.raw("]"@);
        let bf = bf.tfree(ef_a);
        let bf = bf.clear(bnz);
        let bf = bf.goto(bnz);
        let bf = bf.raw("]"@);
        (bf, bnz)
    }

    /// The end of the comparison: where `b` is 0, the result is whether `a` is not.
    #[verifier::opaque]
    pub open spec fn gt_decide(self, a: int, b: int, flag: int, result: int) -> Bf {
        let bf = self;
        let (bf, ef_b) = bf.talloc();
        let bf = bf.setv(ef_b, 1);
        let (bf, bnz2) = bf.is_nz(b);
        let bf = bf.unflag_if(bnz2, ef_b);
        let bf = bf.tfree(bnz2);
        let bf = bf.goto(ef_b);
        let bf = bf.raw("["@);
        let (bf, anz3) = bf.is_nz(a);
        let bf = bf.flag_if(anz3, result);
        let bf = bf.tfree(anz3);
        let bf = bf.clear(flag);
        let bf = bf.clear(ef_b);
        let bf = bf.goto(ef_b);
        let bf = bf.raw("]"@);
        let bf = bf.tfree(ef_b);
        bf
    }

    /// A new cell with whether `a` is greater than `b`; both are free.
    #[verifier::opaque]
    pub open spec fn byte_gt(self, a: int, b: int) -> (Bf, int) {
        let bf = self;
        let (bf, result) = bf.talloc();
        let bf = bf.clear(result);
        let (bf, flag) = bf.talloc();
        let bf = bf.setv(flag, 1);
        let bf = bf.goto(flag);
        let bf = bf.raw("["@);
        let (bf, bnz) = bf.gt_count_down(a, b, flag);
        let bf = bf.gt_decide(a, b, flag, result);
        let bf = bf.tfree(bnz);
        let bf = bf.goto(flag);
        let bf = bf.raw("]"@);
        let bf = bf.tfree(flag);
        let bf = bf.tfree(a);
        let bf = bf.tfree(b);
        (bf, result)
    }

    /// A new cell with whether `a` is less than `b`; both are free.
    #[verifier::opaque]
    pub open spec fn byte_lt(self, a: int, b: int) -> (Bf, int) {
        let bf = self;
        let (bf, r) = bf.byte_gt(b, a);
        (bf, r)
    }

    /// Whether `a` equals `b`, in the cell of `a`; `b` is free.
    #[verifier::opaque]
    pub open spec fn byte_eq(self, a: int, b: int) -> (Bf, int) {
        let bf = self;
        let bf = bf.sub_from(b, a);
        let bf = bf.tfree(b);
        let (bf, r) = bf.negate(a);
        (bf, r)
    }

    /// Take byte `i` into account, from the low end up: less so far means less in
    /// this byte, or equal in it and less below.
    #[verifier::opaque]
    pub open spec fn lt_byte(self, a: int, b: int, n: int, result: int, i: int) -> Bf {
        let bf = self;
        let (bf, a1) = bf.talloc();
        let bf = bf.copy(a + i, a1);
        let (bf, b1) = bf.talloc();
        let bf = bf.copy(b + i, b1);
        let (bf, a2) = bf.talloc();
        let bf = bf.copy(a + i, a2);
        let (bf, b2) = bf.talloc();
        let bf = bf.copy(b + i, b2);
        let (bf, lt) = bf.byte_lt(a1, b1);
        let (bf, eq) = bf.byte_eq(a2, b2);
        let (bf, new_result) = bf.talloc();
        let bf = bf.clear(new_result);
        let (bf, prev_copy) = bf.talloc();
        let bf = bf.copy(result, prev_copy);
        let bf = bf.clear(result);
        let bf = bf.flag_if(lt, new_result);
        let bf = bf.tfree(lt);
        let bf = bf.flag_if_both(eq, prev_copy, new_result);
        let bf = bf.tfree(eq);
        let bf = bf.tfree(prev_copy);
        let bf = bf.bfmove(new_result, result);
        let bf = bf.tfree(new_result);
        bf
    }

    /// The rounds of [`Bf::lt_n`] from the given one on.
    #[verifier::opaque]
    pub open spec fn lt_n_rounds(self, a: int, b: int, n: int, result: int, i: int) -> Bf
        decreases n - i,
    {
        if i >= n {
            self
        } else {
            let bf = self;
            let bf = bf.lt_byte(a, b, n, result, i);
            bf.lt_n_rounds(a, b, n, result, i + 1)
        }
    }

    /// A new cell with whether `a` is less than `b`; both are free.
    #[verifier::opaque]
    pub open spec fn lt_n(self, a: int, b: int, n: int) -> (Bf, int) {
        let bf = self;
        if n == 1 {
            bf.byte_lt(a, b)
        } else {
            let (bf, result) = bf.talloc();
            let bf = bf.clear(result);
            let bf = bf.lt_n_rounds(a, b, n, result, 0);
            let bf = bf.tfree_n(a, n);
            let bf = bf.tfree_n(b, n);
            (bf, result)
        }
    }

    /// A new cell with whether `a` is greater than `b`; both are free.
    #[verifier::opaque]
    pub open spec fn gt_n(self, a: int, b: int, n: int) -> (Bf, int) {
        let bf = self;
        let (bf, r) = bf.lt_n(b, a, n);
        (bf, r)
    }

    /// A new cell with whether `a` is at most `b`; both are free.
    #[verifier::opaque]
    pub open spec fn le_n(self, a: int, b: int, n: int) -> (Bf, int) {
        let bf = self;
        let (bf, g) = bf.gt_n(a, b, n);
        let (bf, r) = bf.negate(g);
        (bf, r)
    }

    /// A new cell with whether `a` is at least `b`; both are free.
    #[verifier::opaque]
    pub open spec fn ge_n(self, a: int, b: int, n: int) -> (Bf, int) {
        let bf = self;
        let (bf, l) = bf.lt_n(a, b, n);
        let (bf, r) = bf.negate(l);
        (bf, r)
    }

    /// Take byte `i` into account.
    #[verifier::opaque]
    pub open spec fn eq_byte(self, a: int, b: int, n: int, result: int, i: int) -> Bf {
        let bf = self;
        let (bf, ai) = bf.talloc();
        let bf = bf.copy(a + i, ai);
        let (bf, bi) = bf.talloc();
        let bf = bf.copy(b + i, bi);
        let (bf, byte_same) = bf.byte_eq(ai, bi);
        let (bf, before) = bf.talloc();
        let bf = bf.bfmove(result, before);
        let bf = bf.clear(result);
        let bf = bf.flag_if_both(before, byte_same, result);
        let bf = bf.tfree(before);
        let bf = bf.tfree(byte_same);
        bf
    }

    /// The rounds of [`Bf::eq_n`] from the given one on.
    #[verifier::opaque]
    pub open spec fn eq_n_rounds(self, a: int, b: int, n: int, result: int, i: int) -> Bf
        decreases n - i,
    {
        if i >= n {
            self
        } else {
            let bf = self;
            let bf = bf.eq_byte(a, b, n, result, i);
            bf.eq_n_rounds(a, b, n, result, i + 1)
        }
    }

    /// A new cell with whether `a` equals `b`; both are free.
    #[verifier::opaque]
    pub open spec fn eq_n(self, a: int, b: int, n: int) -> (Bf, int) {
        let bf = self;
        if n == 1 {
            bf.byte_eq(a, b)
        } else {
            let (bf, result) = bf.talloc();
            let bf = bf.setv(result, 1);
            let bf = bf.eq_n_rounds(a, b, n, result, 0);
            let bf = bf.tfree_n(a, n);
            let bf = bf.tfree_n(b, n);
            (bf, result)
        }
    }

    /// A new cell with whether `a` differs from `b`; both are free.
    #[verifier::opaque]
    pub open spec fn ne_n(self, a: int, b: int, n: int) -> (Bf, int) {
        let bf = self;
        let (bf, e) = bf.eq_n(a, b, n);
        let (bf, r) = bf.negate(e);
        (bf, r)
    }

    /// Add byte `i` of `src`, and its carry to the next byte.
    #[verifier::opaque]
    pub open spec fn add_byte(self, dst: int, src: int, n: int, i: int) -> Bf {
        let bf = self;
        let (bf, orig) = bf.talloc();
        let bf = bf.copy(dst + i, orig);
        let bf = bf.add_to(src + i, dst + i);
        let bf = if i < n - 1 {
            let (bf, result_copy) = bf.talloc();
            let bf = bf.copy(dst + i, result_copy);
            let (bf, carry) = bf.byte_gt(orig, result_copy);
            let bf = bf.add_to(carry, dst + i + 1);
            let bf = bf.tfree(carry);
            bf
        } else {
            let bf = bf.tfree(orig);
            bf
        };
        bf
    }

    /// Add byte `i` of `src`. `pend` holds the carry that adding to byte `i` has
    /// already given, and then the one that adding to the next byte gives.
    #[verifier::opaque]
    pub open spec fn add_wide_byte(self, dst: int, src: int, n: int, i: int, pend: int) -> Bf {
        let bf = self;
        let (bf, orig) = bf.talloc();
        let bf = bf.copy(dst + i, orig);
        let bf = bf.add_to(src + i, dst + i);
        let (bf, result_copy) = bf.talloc();
        let bf = bf.copy(dst + i, result_copy);
        let (bf, carry) = bf.byte_gt(orig, result_copy);
        let bf = bf.add_to(pend, carry);
        let bf = if i < n - 1 {
            let bf = bf.copy(carry, pend);
            let bf = bf.add_to(carry, dst + i + 1);
            let (bf, nz) = bf.is_nz(dst + i + 1);
            let bf = bf.unflag_if(nz, pend);
            let bf = bf.tfree(nz);
            bf
        } else {
            bf
        };
        let bf = bf.tfree(carry);
        bf
    }

    /// The rounds of [`Bf::add_wide`] from the given one on.
    #[verifier::opaque]
    pub open spec fn add_wide_rounds(self, dst: int, src: int, n: int, pend: int, i: int) -> Bf
        decreases n - i,
    {
        if i >= n {
            self
        } else {
            let bf = self;
            let bf = bf.add_wide_byte(dst, src, n, i, pend);
            bf.add_wide_rounds(dst, src, n, pend, i + 1)
        }
    }

    /// Add the bytes of `src` to `dst`, with carries that ripple through any number
    /// of bytes; `src` is free.
    #[verifier::opaque]
    pub open spec fn add_wide(self, dst: int, src: int, n: int) -> Bf {
        let bf = self;
        let (bf, pend) = bf.talloc();
        let bf = bf.clear(pend);
        let bf = bf.add_wide_rounds(dst, src, n, pend, 0);
        let bf = bf.tfree(pend);
        let bf = bf.tfree_n(src, n);
        bf
    }

    /// Subtract byte `i` of `src`. `pend` holds the borrow that subtracting from byte
    /// `i` has already given, and then the one that subtracting from the next byte
    /// gives.
    #[verifier::opaque]
    pub open spec fn sub_wide_byte(self, dst: int, src: int, n: int, i: int, pend: int) -> Bf {
        let bf = self;
        let (bf, orig) = bf.talloc();
        let bf = bf.copy(dst + i, orig);
        let bf = bf.sub_from(src + i, dst + i);
        let (bf, result_copy) = bf.talloc();
        let bf = bf.copy(dst + i, result_copy);
        let (bf, borrow) = bf.byte_gt(result_copy, orig);
        let bf = bf.add_to(pend, borrow);
        let bf = if i < n - 1 {
            let bf = bf.copy(borrow, pend);
            let (bf, nz) = bf.is_nz(dst + i + 1);
            let bf = bf.unflag_if(nz, pend);
            let bf = bf.tfree(nz);
            let bf = bf.sub_from(borrow, dst + i + 1);
            bf
        } else {
            bf
        };
        let bf = bf.tfree(borrow);
        bf
    }

    /// The rounds of [`Bf::sub_wide`] from the given one on.
    #[verifier::opaque]
    pub open spec fn sub_wide_rounds(self, dst: int, src: int, n: int, pend: int, i: int) -> Bf
        decreases n - i,
    {
        if i >= n {
            self
        } else {
            let bf = self;
            let bf = bf.sub_wide_byte(dst, src, n, i, pend);
            bf.sub_wide_rounds(dst, src, n, pend, i + 1)
        }
    }

    /// Subtract the bytes of `src` from `dst`, with borrows that ripple through any number
    /// of bytes; `src` is free.
    #[verifier::opaque]
    pub open spec fn sub_wide(self, dst: int, src: int, n: int) -> Bf {
        let bf = self;
        let (bf, pend) = bf.talloc();
        let bf = bf.clear(pend);
        let bf = bf.sub_wide_rounds(dst, src, n, pend, 0);
        let bf = bf.tfree(pend);
        let bf = bf.tfree_n(src, n);
        bf
    }

    /// Add `src` to `dst`, wrapping; `src` is free.
    #[verifier::opaque]
    pub open spec fn add_n(self, dst: int, src: int, n: int) -> Bf {
        let bf = self;
        let bf = if n == 1 {
            let bf = bf.add_to(src, dst);
            let bf = bf.tfree(src);
            bf
        } else if n == 2 {
            let bf = bf.addb(dst, src, n);
            bf
        } else {
            let bf = bf.add_wide(dst, src, n);
            bf
        };
        bf
    }

    /// The rounds of [`Bf::addb`] from the given one on.
    #[verifier::opaque]
    pub open spec fn addb_rounds(self, dst: int, src: int, n: int, i: int) -> Bf
        decreases n - i,
    {
        if i >= n {
            self
        } else {
            let bf = self;
            let bf = bf.add_byte(dst, src, n, i);
            bf.addb_rounds(dst, src, n, i + 1)
        }
    }

    /// Add the bytes of `src` to `dst`; `src` is free.
    #[verifier::opaque]
    pub open spec fn addb(self, dst: int, src: int, n: int) -> Bf {
        let bf = self;
        let bf = bf.addb_rounds(dst, src, n, 0);
        let bf = bf.tfree_n(src, n);
        bf
    }

    /// Subtract byte `i` of `src`, and its borrow from the next byte.
    #[verifier::opaque]
    pub open spec fn sub_byte(self, dst: int, src: int, n: int, i: int) -> Bf {
        let bf = self;
        let (bf, orig) = bf.talloc();
        let bf = bf.copy(dst + i, orig);
        let bf = bf.sub_from(src + i, dst + i);
        let bf = if i < n - 1 {
            let (bf, result_copy) = bf.talloc();
            let bf = bf.copy(dst + i, result_copy);
            let (bf, borrow) = bf.byte_gt(result_copy, orig);
            let bf = bf.goto(borrow);
            let bf = bf.raw("["@);
            let bf = bf.dec(dst + i + 1, 1);
            let bf = bf.clear(borrow);
            let bf = bf.goto(borrow);
            let bf = bf.raw("]"@);
            bf
        } else {
            let bf = bf.tfree(orig);
            bf
        };
        bf
    }

    /// Subtract `src` from `dst`, wrapping; `src` is free.
    #[verifier::opaque]
    pub open spec fn sub_n(self, dst: int, src: int, n: int) -> Bf {
        let bf = self;
        let bf = if n == 1 {
            let bf = bf.sub_from(src, dst);
            let bf = bf.tfree(src);
            bf
        } else if n == 2 {
            let bf = bf.subb(dst, src, n);
            bf
        } else {
            let bf = bf.sub_wide(dst, src, n);
            bf
        };
        bf
    }

    /// The rounds of [`Bf::subb`] from the given one on.
    #[verifier::opaque]
    pub open spec fn subb_rounds(self, dst: int, src: int, n: int, i: int) -> Bf
        decreases n - i,
    {
        if i >= n {
            self
        } else {
            let bf = self;
            let bf = bf.sub_byte(dst, src, n, i);
            bf.subb_rounds(dst, src, n, i + 1)
        }
    }

    /// Subtract the bytes of `src` from `dst`; `src` is free.
    #[verifier::opaque]
    pub open spec fn subb(self, dst: int, src: int, n: int) -> Bf {
        let bf = self;
        let bf = bf.subb_rounds(dst, src, n, 0);
        let bf = bf.tfree_n(src, n);
        bf
    }

    /// Add 1, wrapping.
    #[verifier::opaque]
    pub open spec fn inc_n(self, target: int, n: int) -> Bf {
        let bf = self;
        let (bf, one) = bf.talloc_n(n);
        let bf = bf.set_const_n(one, 1, n);
        let bf = bf.add_n(target, one, n);
        bf
    }

    /// Subtract 1, wrapping.
    #[verifier::opaque]
    pub open spec fn dec_n(self, target: int, n: int) -> Bf {
        let bf = self;
        let (bf, one) = bf.talloc_n(n);
        let bf = bf.set_const_n(one, 1, n);
        let bf = bf.sub_n(target, one, n);
        bf
    }

    /// Set `r` where byte `i` is not 0.
    #[verifier::opaque]
    pub open spec fn nz_byte(self, base: int, n: int, r: int, i: int) -> Bf {
        let bf = self;
        let (bf, bc) = bf.talloc();
        let bf = bf.copy(base + i, bc);
        let bf = bf.flag_if(bc, r);
        let bf = bf.tfree(bc);
        bf
    }

    /// The rounds of [`Bf::is_nz_n`] from the given one on.
    #[verifier::opaque]
    pub open spec fn is_nz_n_rounds(self, base: int, n: int, r: int, i: int) -> Bf
        decreases n - i,
    {
        if i >= n {
            self
        } else {
            let bf = self;
            let bf = bf.nz_byte(base, n, r, i);
            bf.is_nz_n_rounds(base, n, r, i + 1)
        }
    }

    /// A new cell with 1 where some byte is not 0, else 0.
    #[verifier::opaque]
    pub open spec fn is_nz_n(self, base: int, n: int) -> (Bf, int) {
        let bf = self;
        if n == 1 {
            bf.is_nz(base)
        } else {
            let (bf, r) = bf.talloc();
            let bf = bf.clear(r);
            let bf = bf.is_nz_n_rounds(base, n, r, 0);
            (bf, r)
        }
    }

    /// The product, by repeated addition; both operands are free.
    #[verifier::opaque]
    pub open spec fn arith_mul(self, a: int, b: int) -> (Bf, int) {
        let bf = self;
        let (bf, r) = bf.talloc();
        let bf = bf.clear(r);
        let (bf, tc) = bf.talloc();
        let bf = bf.goto(a);
        let bf = bf.raw("["@);
        let bf = bf.dec(a, 1);
        let bf = bf.copy(b, tc);
        let bf = bf.add_to(tc, r);
        let bf = bf.goto(a);
        let bf = bf.raw("]"@);
        let bf = bf.tfree(tc);
        let bf = bf.tfree(a);
        let bf = bf.tfree(b);
        (bf, r)
    }

    /// The product, by repeated addition; both operands are free.
    #[verifier::opaque]
    pub open spec fn arith_mul_n(self, a: int, b: int, n: int) -> (Bf, int) {
        let bf = self;
        if n == 1 {
            bf.arith_mul(a, b)
        } else {
            let (bf, r) = bf.talloc_n(n);
            let bf = bf.clear_range(r, 0, n);
            let (bf, flag) = bf.is_nz_n(a, n);
            let bf = bf.goto(flag);
            let bf = bf.raw("["@);
            let bf = bf.clear(flag);
            let bf = bf.dec_n(a, n);
            let (bf, bc) = bf.talloc_n(n);
            let bf = bf.copy_n(b, bc, n);
            let bf = bf.add_n(r, bc, n);
            let (bf, flag2) = bf.is_nz_n(a, n);
            let bf = bf.bfmove(flag2, flag);
            let bf = bf.tfree(flag2);
            let bf = bf.goto(flag);
            let bf = bf.raw("]"@);
            let bf = bf.tfree(flag);
            let bf = bf.tfree_n(a, n);
            let bf = bf.tfree_n(b, n);
            (bf, r)
        }
    }

    /// A new cell with whether `a` is at least `b`; both are kept.
    #[verifier::opaque]
    pub open spec fn fits_byte(self, a: int, b: int) -> (Bf, int) {
        let bf = self;
        let (bf, ta) = bf.talloc();
        let (bf, tb) = bf.talloc();
        let bf = bf.copy(a, ta);
        let bf = bf.copy(b, tb);
        let (bf, bga) = bf.byte_gt(tb, ta);
        let (bf, ge) = bf.negate(bga);
        (bf, ge)
    }

    /// Subtract `b` from `a`, keeping `b`.
    #[verifier::opaque]
    pub open spec fn take_byte(self, a: int, b: int) -> Bf {
        let bf = self;
        let (bf, ts) = bf.talloc();
        let bf = bf.copy(b, ts);
        let bf = bf.sub_from(ts, a);
        let bf = bf.tfree(ts);
        bf
    }

    /// The quotient, by repeated subtraction; both operands are free.
    #[verifier::opaque]
    pub open spec fn arith_div(self, a: int, b: int) -> (Bf, int) {
        let bf = self;
        let (bf, q) = bf.talloc();
        let bf = bf.clear(q);
        let (bf, flag) = bf.talloc();
        let bf = bf.setv(flag, 1);
        let bf = bf.goto(flag);
        let bf = bf.raw("["@);
        let bf = bf.clear(flag);
        let (bf, ge) = bf.fits_byte(a, b);
        let bf = bf.goto(ge);
        let bf = bf.raw("["@);
        let bf = bf.take_byte(a, b);
        let bf = bf.inc(q, 1);
        let bf = bf.setv(flag, 1);
        let bf = bf.clear(ge);
        let bf = bf.goto(ge);
        let bf = bf.raw("]"@);
        let bf = bf.tfree(ge);
        let bf = bf.goto(flag);
        let bf = bf.raw("]"@);
        let bf = bf.tfree(flag);
        let bf = bf.tfree(a);
        let bf = bf.tfree(b);
        (bf, q)
    }

    /// The remainder, in the cell of `a`, by repeated subtraction; `b` is free.
    #[verifier::opaque]
    pub open spec fn arith_mod(self, a: int, b: int) -> (Bf, int) {
        let bf = self;
        let (bf, flag) = bf.talloc();
        let bf = bf.setv(flag, 1);
        let bf = bf.goto(flag);
        let bf = bf.raw("["@);
        let bf = bf.clear(flag);
        let (bf, ge) = bf.fits_byte(a, b);
        let bf = bf.goto(ge);
        let bf = bf.raw("["@);
        let bf = bf.take_byte(a, b);
        let bf = bf.setv(flag, 1);
        let bf = bf.clear(ge);
        let bf = bf.goto(ge);
        let bf = bf.raw("]"@);
        let bf = bf.tfree(ge);
        let bf = bf.goto(flag);
        let bf = bf.raw("]"@);
        let bf = bf.tfree(flag);
        let bf = bf.tfree(b);
        (bf, a)
    }

    /// A new cell with whether `a` is at least `b`; both are kept.
    #[verifier::opaque]
    pub open spec fn fits_n(self, a: int, b: int, n: int) -> (Bf, int) {
        let bf = self;
        let (bf, ta) = bf.talloc_n(n);
        let (bf, tb) = bf.talloc_n(n);
        let bf = bf.copy_n(a, ta, n);
        let bf = bf.copy_n(b, tb, n);
        let (bf, bgt) = bf.gt_n(tb, ta, n);
        let (bf, ge) = bf.negate(bgt);
        (bf, ge)
    }

    /// Subtract `b` from `a`, keeping `b`.
    #[verifier::opaque]
    pub open spec fn take_n(self, a: int, b: int, n: int) -> Bf {
        let bf = self;
        let (bf, ts) = bf.talloc_n(n);
        let bf = bf.copy_n(b, ts, n);
        let bf = bf.sub_n(a, ts, n);
        bf
    }

    /// The quotient, by repeated subtraction; both operands are free.
    #[verifier::opaque]
    pub open spec fn arith_div_n(self, a: int, b: int, n: int) -> (Bf, int) {
        let bf = self;
        if n == 1 {
            bf.arith_div(a, b)
        } else {
            let (bf, q) = bf.talloc_n(n);
            let bf = bf.clear_range(q, 0, n);
            let (bf, flag) = bf.talloc();
            let bf = bf.setv(flag, 1);
            let bf = bf.goto(flag);
            let bf = bf.raw("["@);
            let bf = bf.clear(flag);
            let (bf, ge) = bf.fits_n(a, b, n);
            let bf = bf.goto(ge);
            let bf = bf.raw("["@);
            let bf = bf.take_n(a, b, n);
            let bf = bf.inc_n(q, n);
            let bf = bf.setv(flag, 1);
            let bf = bf.clear(ge);
            let bf = bf.goto(ge);
            let bf = bf.raw("]"@);
            let bf = bf.tfree(ge);
            let bf = bf.goto(flag);
            let bf = bf.raw("]"@);
            let bf = bf.tfree(flag);
            let bf = bf.tfree_n(a, n);
            let bf = bf.tfree_n(b, n);
            (bf, q)
        }
    }

    /// The remainder, in the cells of `a`, by repeated subtraction; `b` is free.
    #[verifier::opaque]
    pub open spec fn arith_mod_n(self, a: int, b: int, n: int) -> (Bf, int) {
        let bf = self;
        if n == 1 {
            bf.arith_mod(a, b)
        } else {
            let (bf, flag) = bf.talloc();
            let bf = bf.setv(flag, 1);
            let bf = bf.goto(flag);
            let bf = bf.raw("["@);
            let bf = bf.clear(flag);
            let (bf, ge) = bf.fits_n(a, b, n);
            let bf = bf.goto(ge);
            let bf = bf.raw("["@);
            let bf = bf.take_n(a, b, n);
            let bf = bf.setv(flag, 1);
            let bf = bf.clear(ge);
            let bf = bf.goto(ge);
            let bf = bf.raw("]"@);
            let bf = bf.tfree(ge);
            let bf = bf.goto(flag);
            let bf = bf.raw("]"@);
            let bf = bf.tfree(flag);
            let bf = bf.tfree_n(b, n);
            (bf, a)
        }
    }

    /// A new cell with whether both operands are not 0; both are free.
    #[verifier::opaque]
    pub open spec fn both_n(self, a: int, b: int, w: int) -> (Bf, int) {
        let bf = self;
        let (bf, r) = bf.talloc();
        let bf = bf.clear(r);
        let (bf, anz) = bf.is_nz_n(a, w);
        let (bf, bnz) = bf.is_nz_n(b, w);
        let bf = bf.flag_if_both(anz, bnz, r);
        let bf = bf.tfree(anz);
        let bf = bf.tfree(bnz);
        let bf = bf.tfree_n(a, w);
        let bf = bf.tfree_n(b, w);
        (bf, r)
    }

    /// A new cell with whether one operand is not 0; both are free.
    #[verifier::opaque]
    pub open spec fn either_n(self, a: int, b: int, w: int) -> (Bf, int) {
        let bf = self;
        let (bf, r) = bf.talloc();
        let bf = bf.clear(r);
        let (bf, anz) = bf.is_nz_n(a, w);
        let (bf, bnz) = bf.is_nz_n(b, w);
        let bf = bf.flag_if(anz, r);
        let bf = bf.flag_if(bnz, r);
        let bf = bf.tfree(anz);
        let bf = bf.tfree(bnz);
        let bf = bf.tfree_n(a, w);
        let bf = bf.tfree_n(b, w);
        (bf, r)
    }
}

impl BfEmitter {
    /// Copy `src` to `dst`, keeping `src`.
    pub(crate) fn copy(&mut self, src: u128, dst: u128)
        requires
            old(self).wf(),
        ensures
            final(self).wf(),
            final(self)@ == old(self)@.copy(src as int, dst as int),
    {
        proof {
            reveal(Bf::copy);
        }
        let tmp = self.talloc();
        self.clear(dst);
        self.clear(tmp);
        self.goto(src);
        self.raw("[");
        self.goto(dst);
        self.raw("+");
        self.goto(tmp);
        self.raw("+");
        self.goto(src);
        self.raw("-]");
        self.goto(tmp);
        self.raw("[");
        self.goto(src);
        self.raw("+");
        self.goto(tmp);
        self.raw("-]");
        self.tfree(tmp);
    }

    /// Copy `n` cells.
    pub(crate) fn copy_n(&mut self, src: u128, dst: u128, n: u128)
        requires
            old(self).wf(),
            block(src as int, n as int),
            block(dst as int, n as int),
        ensures
            final(self).wf(),
            final(self)@ == old(self)@.copy_n(src as int, dst as int, n as int),
    {
        proof {
            reveal(Bf::copy_n);
        }
        let mut i: u128 = 0;
        let ghost goal = self@.copy_n_rounds(src as int, dst as int, n as int, i as int);
        while i < n
            invariant
                self.wf(),
                block(src as int, n as int),
                block(dst as int, n as int),
                self@.copy_n_rounds(src as int, dst as int, n as int, i as int) == goal,
            decreases n - i,
        {
            proof {
                reveal(Bf::copy_n_rounds);
            }
            self.copy(src + i, dst + i);
            i += 1;
        }
        proof {
            reveal(Bf::copy_n_rounds);
        }
    }

    /// Move `src` to `dst`; `src` becomes 0.
    pub(crate) fn bfmove(&mut self, src: u128, dst: u128)
        requires
            old(self).wf(),
        ensures
            final(self).wf(),
            final(self)@ == old(self)@.bfmove(src as int, dst as int),
    {
        proof {
            reveal(Bf::bfmove);
        }
        self.clear(dst);
        self.goto(src);
        self.raw("[");
        self.goto(dst);
        self.raw("+");
        self.goto(src);
        self.raw("-]");
    }

    /// Move `n` cells.
    pub(crate) fn bfmove_n(&mut self, src: u128, dst: u128, n: u128)
        requires
            old(self).wf(),
            block(src as int, n as int),
            block(dst as int, n as int),
        ensures
            final(self).wf(),
            final(self)@ == old(self)@.bfmove_n(src as int, dst as int, n as int),
    {
        proof {
            reveal(Bf::bfmove_n);
        }
        let mut i: u128 = 0;
        let ghost goal = self@.bfmove_n_rounds(src as int, dst as int, n as int, i as int);
        while i < n
            invariant
                self.wf(),
                block(src as int, n as int),
                block(dst as int, n as int),
                self@.bfmove_n_rounds(src as int, dst as int, n as int, i as int) == goal,
            decreases n - i,
        {
            proof {
                reveal(Bf::bfmove_n_rounds);
            }
            self.bfmove(src + i, dst + i);
            i += 1;
        }
        proof {
            reveal(Bf::bfmove_n_rounds);
        }
    }

    /// Clear the cells from `base + lo` to `base + hi`.
    pub(crate) fn clear_range(&mut self, base: u128, lo: u128, hi: u128)
        requires
            old(self).wf(),
            block(base as int, hi as int),
        ensures
            final(self).wf(),
            final(self)@ == old(self)@.clear_range(base as int, lo as int, hi as int),
    {
        proof {
            reveal(Bf::clear_range);
        }
        let mut i: u128 = lo;
        let ghost goal = self@.clear_range_rounds(base as int, hi as int, i as int);
        while i < hi
            invariant
                self.wf(),
                block(base as int, hi as int),
                self@.clear_range_rounds(base as int, hi as int, i as int) == goal,
            decreases hi - i,
        {
            proof {
                reveal(Bf::clear_range_rounds);
            }
            self.clear(base + i);
            i += 1;
        }
        proof {
            reveal(Bf::clear_range_rounds);
        }
    }

    /// Add `src` to `dst`; `src` becomes 0.
    pub(crate) fn add_to(&mut self, src: u128, dst: u128)
        requires
            old(self).wf(),
        ensures
            final(self).wf(),
            final(self)@ == old(self)@.add_to(src as int, dst as int),
    {
        proof {
            reveal(Bf::add_to);
        }
        self.goto(src);
        self.raw("[");
        self.goto(dst);
        self.raw("+");
        self.goto(src);
        self.raw("-]");
    }

    /// Subtract `src` from `dst`; `src` becomes 0.
    pub(crate) fn sub_from(&mut self, src: u128, dst: u128)
        requires
            old(self).wf(),
        ensures
            final(self).wf(),
            final(self)@ == old(self)@.sub_from(src as int, dst as int),
    {
        proof {
            reveal(Bf::sub_from);
        }
        self.goto(src);
        self.raw("[");
        self.goto(dst);
        self.raw("-");
        self.goto(src);
        self.raw("-]");
    }

    /// A new cell with 1 where `cell` is not 0, else 0.
    pub(crate) fn is_nz(&mut self, cell: u128) -> (r: u128)
        requires
            old(self).wf(),
        ensures
            final(self).wf(),
            (final(self)@, r as int) == old(self)@.is_nz(cell as int),
            r <= CELL_LIMIT,
    {
        proof {
            reveal(Bf::is_nz);
        }
        let r = self.talloc();
        self.clear(r);
        let tc = self.talloc();
        self.copy(cell, tc);
        self.goto(tc);
        self.raw("[");
        self.setv(r, 1);
        self.clear(tc);
        self.goto(tc);
        self.raw("]");
        self.tfree(tc);
        r
    }

    /// Make the cell 1 where it is 0, else 0.
    pub(crate) fn negate(&mut self, c: u128) -> (r: u128)
        requires
            old(self).wf(),
            c <= CELL_LIMIT,
        ensures
            final(self).wf(),
            (final(self)@, r as int) == old(self)@.negate(c as int),
            r <= CELL_LIMIT,
    {
        proof {
            reveal(Bf::negate);
        }
        let t = self.talloc();
        self.bfmove(c, t);
        self.inc(c, 1);
        self.goto(t);
        self.raw("[");
        self.clear(c);
        self.clear(t);
        self.goto(t);
        self.raw("]");
        self.tfree(t);
        c
    }

    /// Set `flag` and clear `cell`, where `cell` is not 0.
    pub(crate) fn flag_if(&mut self, cell: u128, flag: u128)
        requires
            old(self).wf(),
        ensures
            final(self).wf(),
            final(self)@ == old(self)@.flag_if(cell as int, flag as int),
    {
        proof {
            reveal(Bf::flag_if);
        }
        self.goto(cell);
        self.raw("[");
        self.setv(flag, 1);
        self.clear(cell);
        self.goto(cell);
        self.raw("]");
    }

    /// Clear `flag` and `cell`, where `cell` is not 0.
    pub(crate) fn unflag_if(&mut self, cell: u128, flag: u128)
        requires
            old(self).wf(),
        ensures
            final(self).wf(),
            final(self)@ == old(self)@.unflag_if(cell as int, flag as int),
    {
        proof {
            reveal(Bf::unflag_if);
        }
        self.goto(cell);
        self.raw("[");
        self.clear(flag);
        self.clear(cell);
        self.goto(cell);
        self.raw("]");
    }

    /// Set `flag` and clear all three, where `a` and `b` are not 0.
    pub(crate) fn flag_if_both(&mut self, a: u128, b: u128, flag: u128)
        requires
            old(self).wf(),
        ensures
            final(self).wf(),
            final(self)@ == old(self)@.flag_if_both(a as int, b as int, flag as int),
    {
        proof {
            reveal(Bf::flag_if_both);
        }
        self.goto(a);
        self.raw("[");
        self.flag_if(b, flag);
        self.clear(a);
        self.goto(a);
        self.raw("]");
    }

    /// The value in `to_w` cells, with zeros above; the old cells are free.
    pub(crate) fn widen(&mut self, src: u128, from_w: u128, to_w: u128) -> (r: u128)
        requires
            old(self).wf(),
            block(src as int, from_w as int),
            to_w <= CELL_LIMIT,
        ensures
            final(self).wf(),
            (final(self)@, r as int) == old(self)@.widen(src as int, from_w as int, to_w as int),
            r <= CELL_LIMIT,
    {
        proof {
            reveal(Bf::widen);
        }
        if from_w == to_w {
            return src;
        }
        let t = self.talloc_n(to_w);
        self.bfmove_n(src, t, from_w);
        self.clear_range(t, from_w, to_w);
        self.tfree_n(src, from_w);
        t
    }

    /// The value in `w` cells where it is narrower.
    pub(crate) fn widened(&mut self, src: u128, from_w: u128, w: u128) -> (r: u128)
        requires
            old(self).wf(),
            block(src as int, from_w as int),
            w <= CELL_LIMIT,
        ensures
            final(self).wf(),
            (final(self)@, r as int) == old(self)@.widened(src as int, from_w as int, w as int),
            r <= CELL_LIMIT,
    {
        proof {
            reveal(Bf::widened);
        }
        if from_w < w {
            self.widen(src, from_w, w)
        } else {
            src
        }
    }

    /// One round of the comparison: where `b` is not 0, count both down, and stop
    /// where `a` was 0.
    pub(crate) fn gt_count_down(&mut self, a: u128, b: u128, flag: u128) -> (r: u128)
        requires
            old(self).wf(),
        ensures
            final(self).wf(),
            (final(self)@, r as int) == old(self)@.gt_count_down(a as int, b as int, flag as int),
            r <= CELL_LIMIT,
    {
        proof {
            reveal(Bf::gt_count_down);
        }
        let bnz = self.is_nz(b);
        self.goto(bnz);
        self.raw("[");
        self.dec(b, 1);
        let anz = self.is_nz(a);
        self.goto(anz);
        self.raw("[");
        self.dec(a, 1);
        self.clear(anz);
        self.goto(anz);
        self.raw("]");
        let ef_a = self.talloc();
        self.setv(ef_a, 1);
        let anz2 = self.is_nz(a);
        self.unflag_if(anz2, ef_a);
        self.tfree(anz2);
        self.goto(ef_a);
        self.raw("[");
        self.clear(flag);
        self.clear(ef_a);
        self.goto(ef_a);
        self.raw("]");
        self.tfree(ef_a);
        self.clear(bnz);
        self.goto(bnz);
        self.raw("]");
        bnz
    }

    /// The end of the comparison: where `b` is 0, the result is whether `a` is not.
    pub(crate) fn gt_decide(&mut self, a: u128, b: u128, flag: u128, result: u128)
        requires
            old(self).wf(),
        ensures
            final(self).wf(),
            final(self)@ == old(self)@.gt_decide(a as int, b as int, flag as int, result as int),
    {
        proof {
            reveal(Bf::gt_decide);
        }
        let ef_b = self.talloc();
        self.setv(ef_b, 1);
        let bnz2 = self.is_nz(b);
        self.unflag_if(bnz2, ef_b);
        self.tfree(bnz2);
        self.goto(ef_b);
        self.raw("[");
        let anz3 = self.is_nz(a);
        self.flag_if(anz3, result);
        self.tfree(anz3);
        self.clear(flag);
        self.clear(ef_b);
        self.goto(ef_b);
        self.raw("]");
        self.tfree(ef_b);
    }

    /// A new cell with whether `a` is greater than `b`; both are free.
    pub(crate) fn byte_gt(&mut self, a: u128, b: u128) -> (r: u128)
        requires
            old(self).wf(),
        ensures
            final(self).wf(),
            (final(self)@, r as int) == old(self)@.byte_gt(a as int, b as int),
            r <= CELL_LIMIT,
    {
        proof {
            reveal(Bf::byte_gt);
        }
        let result = self.talloc();
        self.clear(result);
        let flag = self.talloc();
        self.setv(flag, 1);
        self.goto(flag);
        self.raw("[");
        let bnz = self.gt_count_down(a, b, flag);
        self.gt_decide(a, b, flag, result);
        self.tfree(bnz);
        self.goto(flag);
        self.raw("]");
        self.tfree(flag);
        self.tfree(a);
        self.tfree(b);
        result
    }

    /// A new cell with whether `a` is less than `b`; both are free.
    pub(crate) fn byte_lt(&mut self, a: u128, b: u128) -> (r: u128)
        requires
            old(self).wf(),
        ensures
            final(self).wf(),
            (final(self)@, r as int) == old(self)@.byte_lt(a as int, b as int),
            r <= CELL_LIMIT,
    {
        proof {
            reveal(Bf::byte_lt);
        }
        let r = self.byte_gt(b, a);
        r
    }

    /// Whether `a` equals `b`, in the cell of `a`; `b` is free.
    pub(crate) fn byte_eq(&mut self, a: u128, b: u128) -> (r: u128)
        requires
            old(self).wf(),
            a <= CELL_LIMIT,
        ensures
            final(self).wf(),
            (final(self)@, r as int) == old(self)@.byte_eq(a as int, b as int),
            r <= CELL_LIMIT,
    {
        proof {
            reveal(Bf::byte_eq);
        }
        self.sub_from(b, a);
        self.tfree(b);
        let r = self.negate(a);
        r
    }

    /// Take byte `i` into account, from the low end up: less so far means less in
    /// this byte, or equal in it and less below.
    pub(crate) fn lt_byte(&mut self, a: u128, b: u128, n: u128, result: u128, i: u128)
        requires
            old(self).wf(),
            block(a as int, n as int),
            block(b as int, n as int),
            i < n,
        ensures
            final(self).wf(),
            final(self)@ == old(self)@.lt_byte(a as int, b as int, n as int, result as int, i as int),
    {
        proof {
            reveal(Bf::lt_byte);
        }
        let a1 = self.talloc();
        self.copy(a + i, a1);
        let b1 = self.talloc();
        self.copy(b + i, b1);
        let a2 = self.talloc();
        self.copy(a + i, a2);
        let b2 = self.talloc();
        self.copy(b + i, b2);
        let lt = self.byte_lt(a1, b1);
        let eq = self.byte_eq(a2, b2);
        let new_result = self.talloc();
        self.clear(new_result);
        let prev_copy = self.talloc();
        self.copy(result, prev_copy);
        self.clear(result);
        self.flag_if(lt, new_result);
        self.tfree(lt);
        self.flag_if_both(eq, prev_copy, new_result);
        self.tfree(eq);
        self.tfree(prev_copy);
        self.bfmove(new_result, result);
        self.tfree(new_result);
    }

    /// A new cell with whether `a` is less than `b`; both are free.
    pub(crate) fn lt_n(&mut self, a: u128, b: u128, n: u128) -> (r: u128)
        requires
            old(self).wf(),
            block(a as int, n as int),
            block(b as int, n as int),
        ensures
            final(self).wf(),
            (final(self)@, r as int) == old(self)@.lt_n(a as int, b as int, n as int),
            r <= CELL_LIMIT,
    {
        proof {
            reveal(Bf::lt_n);
        }
        if n == 1 {
            return self.byte_lt(a, b);
        }
        let result = self.talloc();
        self.clear(result);
        let mut i: u128 = 0;
        let ghost goal = self@.lt_n_rounds(a as int, b as int, n as int, result as int, i as int);
        while i < n
            invariant
                self.wf(),
                block(a as int, n as int),
                block(b as int, n as int),
                result <= CELL_LIMIT,
                self@.lt_n_rounds(a as int, b as int, n as int, result as int, i as int) == goal,
            decreases n - i,
        {
            proof {
                reveal(Bf::lt_n_rounds);
            }
            self.lt_byte(a, b, n, result, i);
            i += 1;
        }
        proof {
            reveal(Bf::lt_n_rounds);
        }
        self.tfree_n(a, n);
        self.tfree_n(b, n);
        result
    }

    /// A new cell with whether `a` is greater than `b`; both are free.
    pub(crate) fn gt_n(&mut self, a: u128, b: u128, n: u128) -> (r: u128)
        requires
            old(self).wf(),
            block(a as int, n as int),
            block(b as int, n as int),
        ensures
            final(self).wf(),
            (final(self)@, r as int) == old(self)@.gt_n(a as int, b as int, n as int),
            r <= CELL_LIMIT,
    {
        proof {
            reveal(Bf::gt_n);
        }
        let r = self.lt_n(b, a, n);
        r
    }

    /// A new cell with whether `a` is at most `b`; both are free.
    pub(crate) fn le_n(&mut self, a: u128, b: u128, n: u128) -> (r: u128)
        requires
            old(self).wf(),
            block(a as int, n as int),
            block(b as int, n as int),
        ensures
            final(self).wf(),
            (final(self)@, r as int) == old(self)@.le_n(a as int, b as int, n as int),
            r <= CELL_LIMIT,
    {
        proof {
            reveal(Bf::le_n);
        }
        let g = self.gt_n(a, b, n);
        let r = self.negate(g);
        r
    }

    /// A new cell with whether `a` is at least `b`; both are free.
    pub(crate) fn ge_n(&mut self, a: u128, b: u128, n: u128) -> (r: u128)
        requires
            old(self).wf(),
            block(a as int, n as int),
            block(b as int, n as int),
        ensures
            final(self).wf(),
            (final(self)@, r as int) == old(self)@.ge_n(a as int, b as int, n as int),
            r <= CELL_LIMIT,
    {
        proof {
            reveal(Bf::ge_n);
        }
        let l = self.lt_n(a, b, n);
        let r = self.negate(l);
        r
    }

    /// Take byte `i` into account.
    pub(crate) fn eq_byte(&mut self, a: u128, b: u128, n: u128, result: u128, i: u128)
        requires
            old(self).wf(),
            block(a as int, n as int),
            block(b as int, n as int),
            i < n,
        ensures
            final(self).wf(),
            final(self)@ == old(self)@.eq_byte(a as int, b as int, n as int, result as int, i as int),
    {
        proof {
            reveal(Bf::eq_byte);
        }
        let ai = self.talloc();
        self.copy(a + i, ai);
        let bi = self.talloc();
        self.copy(b + i, bi);
        let byte_same = self.byte_eq(ai, bi);
        let before = self.talloc();
        self.bfmove(result, before);
        self.clear(result);
        self.flag_if_both(before, byte_same, result);
        self.tfree(before);
        self.tfree(byte_same);
    }

    /// A new cell with whether `a` equals `b`; both are free.
    pub(crate) fn eq_n(&mut self, a: u128, b: u128, n: u128) -> (r: u128)
        requires
            old(self).wf(),
            block(a as int, n as int),
            block(b as int, n as int),
        ensures
            final(self).wf(),
            (final(self)@, r as int) == old(self)@.eq_n(a as int, b as int, n as int),
            r <= CELL_LIMIT,
    {
        proof {
            reveal(Bf::eq_n);
        }
        if n == 1 {
            return self.byte_eq(a, b);
        }
        let result = self.talloc();
        self.setv(result, 1);
        let mut i: u128 = 0;
        let ghost goal = self@.eq_n_rounds(a as int, b as int, n as int, result as int, i as int);
        while i < n
            invariant
                self.wf(),
                block(a as int, n as int),
                block(b as int, n as int),
                result <= CELL_LIMIT,
                self@.eq_n_rounds(a as int, b as int, n as int, result as int, i as int) == goal,
            decreases n - i,
        {
            proof {
                reveal(Bf::eq_n_rounds);
            }
            self.eq_byte(a, b, n, result, i);
            i += 1;
        }
        proof {
            reveal(Bf::eq_n_rounds);
        }
        self.tfree_n(a, n);
        self.tfree_n(b, n);
        result
    }

    /// A new cell with whether `a` differs from `b`; both are free.
    pub(crate) fn ne_n(&mut self, a: u128, b: u128, n: u128) -> (r: u128)
        requires
            old(self).wf(),
            block(a as int, n as int),
            block(b as int, n as int),
        ensures
            final(self).wf(),
            (final(self)@, r as int) == old(self)@.ne_n(a as int, b as int, n as int),
            r <= CELL_LIMIT,
    {
        proof {
            reveal(Bf::ne_n);
        }
        let e = self.eq_n(a, b, n);
        let r = self.negate(e);
        r
    }

    /// Add byte `i` of `src`, and its carry to the next byte.
    pub(crate) fn add_byte(&mut self, dst: u128, src: u128, n: u128, i: u128)
        requires
            old(self).wf(),
            block(dst as int, n as int),
            block(src as int, n as int),
            i < n,
        ensures
            final(self).wf(),
            final(self)@ == old(self)@.add_byte(dst as int, src as int, n as int, i as int),
    {
        proof {
            reveal(Bf::add_byte);
        }
        let orig = self.talloc();
        self.copy(dst + i, orig);
        self.add_to(src + i, dst + i);
        if i < n - 1 {
            let result_copy = self.talloc();
            self.copy(dst + i, result_copy);
            let carry = self.byte_gt(orig, result_copy);
            self.add_to(carry, dst + i + 1);
            self.tfree(carry);
        } else {
            self.tfree(orig);
        }
    }

    /// Add byte `i` of `src`, with the carry in `pend`.
    pub(crate) fn add_wide_byte(&mut self, dst: u128, src: u128, n: u128, i: u128, pend: u128)
        requires
            old(self).wf(),
            block(dst as int, n as int),
            block(src as int, n as int),
            i < n,
        ensures
            final(self).wf(),
            final(self)@ == old(self)@.add_wide_byte(
                dst as int,
                src as int,
                n as int,
                i as int,
                pend as int,
            ),
    {
        proof {
            reveal(Bf::add_wide_byte);
        }
        let orig = self.talloc();
        self.copy(dst + i, orig);
        self.add_to(src + i, dst + i);
        let result_copy = self.talloc();
        self.copy(dst + i, result_copy);
        let carry = self.byte_gt(orig, result_copy);
        self.add_to(pend, carry);
        if i < n - 1 {
            self.copy(carry, pend);
            self.add_to(carry, dst + i + 1);
            let nz = self.is_nz(dst + i + 1);
            self.unflag_if(nz, pend);
            self.tfree(nz);
        }
        self.tfree(carry);
    }

    /// Add the bytes of `src` to `dst`, with carries that ripple through any number
    /// of bytes; `src` is free.
    pub(crate) fn add_wide(&mut self, dst: u128, src: u128, n: u128)
        requires
            old(self).wf(),
            block(dst as int, n as int),
            block(src as int, n as int),
        ensures
            final(self).wf(),
            final(self)@ == old(self)@.add_wide(dst as int, src as int, n as int),
    {
        proof {
            reveal(Bf::add_wide);
        }
        let pend = self.talloc();
        self.clear(pend);
        let mut i: u128 = 0;
        let ghost goal = self@.add_wide_rounds(dst as int, src as int, n as int, pend as int, 0);
        while i < n
            invariant
                self.wf(),
                block(dst as int, n as int),
                block(src as int, n as int),
                self@.add_wide_rounds(dst as int, src as int, n as int, pend as int, i as int)
                    == goal,
            decreases n - i,
        {
            proof {
                reveal(Bf::add_wide_rounds);
            }
            self.add_wide_byte(dst, src, n, i, pend);
            i += 1;
        }
        proof {
            reveal(Bf::add_wide_rounds);
        }
        self.tfree(pend);
        self.tfree_n(src, n);
    }

    /// Subtract byte `i` of `src`, with the borrow in `pend`.
    pub(crate) fn sub_wide_byte(&mut self, dst: u128, src: u128, n: u128, i: u128, pend: u128)
        requires
            old(self).wf(),
            block(dst as int, n as int),
            block(src as int, n as int),
            i < n,
        ensures
            final(self).wf(),
            final(self)@ == old(self)@.sub_wide_byte(
                dst as int,
                src as int,
                n as int,
                i as int,
                pend as int,
            ),
    {
        proof {
            reveal(Bf::sub_wide_byte);
        }
        let orig = self.talloc();
        self.copy(dst + i, orig);
        self.sub_from(src + i, dst + i);
        let result_copy = self.talloc();
        self.copy(dst + i, result_copy);
        let borrow = self.byte_gt(result_copy, orig);
        self.add_to(pend, borrow);
        if i < n - 1 {
            self.copy(borrow, pend);
            let nz = self.is_nz(dst + i + 1);
            self.unflag_if(nz, pend);
            self.tfree(nz);
            self.sub_from(borrow, dst + i + 1);
        }
        self.tfree(borrow);
    }

    /// Subtract the bytes of `src` from `dst`, with borrows that ripple through any number
    /// of bytes; `src` is free.
    pub(crate) fn sub_wide(&mut self, dst: u128, src: u128, n: u128)
        requires
            old(self).wf(),
            block(dst as int, n as int),
            block(src as int, n as int),
        ensures
            final(self).wf(),
            final(self)@ == old(self)@.sub_wide(dst as int, src as int, n as int),
    {
        proof {
            reveal(Bf::sub_wide);
        }
        let pend = self.talloc();
        self.clear(pend);
        let mut i: u128 = 0;
        let ghost goal = self@.sub_wide_rounds(dst as int, src as int, n as int, pend as int, 0);
        while i < n
            invariant
                self.wf(),
                block(dst as int, n as int),
                block(src as int, n as int),
                self@.sub_wide_rounds(dst as int, src as int, n as int, pend as int, i as int)
                    == goal,
            decreases n - i,
        {
            proof {
                reveal(Bf::sub_wide_rounds);
            }
            self.sub_wide_byte(dst, src, n, i, pend);
            i += 1;
        }
        proof {
            reveal(Bf::sub_wide_rounds);
        }
        self.tfree(pend);
        self.tfree_n(src, n);
    }

    /// Add `src` to `dst`, wrapping; `src` is free.
    pub(crate) fn add_n(&mut self, dst: u128, src: u128, n: u128)
        requires
            old(self).wf(),
            block(dst as int, n as int),
            block(src as int, n as int),
        ensures
            final(self).wf(),
            final(self)@ == old(self)@.add_n(dst as int, src as int, n as int),
    {
        proof {
            reveal(Bf::add_n);
        }
        if n == 1 {
            self.add_to(src, dst);
            self.tfree(src);
        } else if n == 2 {
            self.addb(dst, src, n);
        } else {
            self.add_wide(dst, src, n);
        }
    }

    /// Add the bytes of `src` to `dst`; `src` is free.
    pub(crate) fn addb(&mut self, dst: u128, src: u128, n: u128)
        requires
            old(self).wf(),
            block(dst as int, n as int),
            block(src as int, n as int),
        ensures
            final(self).wf(),
            final(self)@ == old(self)@.addb(dst as int, src as int, n as int),
    {
        proof {
            reveal(Bf::addb);
        }
        let mut i: u128 = 0;
        let ghost goal = self@.addb_rounds(dst as int, src as int, n as int, i as int);
        while i < n
            invariant
                self.wf(),
                block(dst as int, n as int),
                block(src as int, n as int),
                self@.addb_rounds(dst as int, src as int, n as int, i as int) == goal,
            decreases n - i,
        {
            proof {
                reveal(Bf::addb_rounds);
            }
            self.add_byte(dst, src, n, i);
            i += 1;
        }
        proof {
            reveal(Bf::addb_rounds);
        }
        self.tfree_n(src, n);
    }

    /// Subtract byte `i` of `src`, and its borrow from the next byte.
    pub(crate) fn sub_byte(&mut self, dst: u128, src: u128, n: u128, i: u128)
        requires
            old(self).wf(),
            block(dst as int, n as int),
            block(src as int, n as int),
            i < n,
        ensures
            final(self).wf(),
            final(self)@ == old(self)@.sub_byte(dst as int, src as int, n as int, i as int),
    {
        proof {
            reveal(Bf::sub_byte);
        }
        let orig = self.talloc();
        self.copy(dst + i, orig);
        self.sub_from(src + i, dst + i);
        if i < n - 1 {
            let result_copy = self.talloc();
            self.copy(dst + i, result_copy);
            let borrow = self.byte_gt(result_copy, orig);
            self.goto(borrow);
            self.raw("[");
            self.dec(dst + i + 1, 1);
            self.clear(borrow);
            self.goto(borrow);
            self.raw("]");
        } else {
            self.tfree(orig);
        }
    }

    /// Subtract `src` from `dst`, wrapping; `src` is free.
    pub(crate) fn sub_n(&mut self, dst: u128, src: u128, n: u128)
        requires
            old(self).wf(),
            block(dst as int, n as int),
            block(src as int, n as int),
        ensures
            final(self).wf(),
            final(self)@ == old(self)@.sub_n(dst as int, src as int, n as int),
    {
        proof {
            reveal(Bf::sub_n);
        }
        if n == 1 {
            self.sub_from(src, dst);
            self.tfree(src);
        } else if n == 2 {
            self.subb(dst, src, n);
        } else {
            self.sub_wide(dst, src, n);
        }
    }

    /// Subtract the bytes of `src` from `dst`; `src` is free.
    pub(crate) fn subb(&mut self, dst: u128, src: u128, n: u128)
        requires
            old(self).wf(),
            block(dst as int, n as int),
            block(src as int, n as int),
        ensures
            final(self).wf(),
            final(self)@ == old(self)@.subb(dst as int, src as int, n as int),
    {
        proof {
            reveal(Bf::subb);
        }
        let mut i: u128 = 0;
        let ghost goal = self@.subb_rounds(dst as int, src as int, n as int, i as int);
        while i < n
            invariant
                self.wf(),
                block(dst as int, n as int),
                block(src as int, n as int),
                self@.subb_rounds(dst as int, src as int, n as int, i as int) == goal,
            decreases n - i,
        {
            proof {
                reveal(Bf::subb_rounds);
            }
            self.sub_byte(dst, src, n, i);
            i += 1;
        }
        proof {
            reveal(Bf::subb_rounds);
        }
        self.tfree_n(src, n);
    }

    /// Add 1, wrapping.
    pub(crate) fn inc_n(&mut self, target: u128, n: u128)
        requires
            old(self).wf(),
            block(target as int, n as int),
        ensures
            final(self).wf(),
            final(self)@ == old(self)@.inc_n(target as int, n as int),
    {
        proof {
            reveal(Bf::inc_n);
        }
        let one = self.talloc_n(n);
        self.set_const_n(one, 1, n);
        self.add_n(target, one, n);
    }

    /// Subtract 1, wrapping.
    pub(crate) fn dec_n(&mut self, target: u128, n: u128)
        requires
            old(self).wf(),
            block(target as int, n as int),
        ensures
            final(self).wf(),
            final(self)@ == old(self)@.dec_n(target as int, n as int),
    {
        proof {
            reveal(Bf::dec_n);
        }
        let one = self.talloc_n(n);
        self.set_const_n(one, 1, n);
        self.sub_n(target, one, n);
    }

    /// Set `r` where byte `i` is not 0.
    pub(crate) fn nz_byte(&mut self, base: u128, n: u128, r: u128, i: u128)
        requires
            old(self).wf(),
            block(base as int, n as int),
            i < n,
        ensures
            final(self).wf(),
            final(self)@ == old(self)@.nz_byte(base as int, n as int, r as int, i as int),
    {
        proof {
            reveal(Bf::nz_byte);
        }
        let bc = self.talloc();
        self.copy(base + i, bc);
        self.flag_if(bc, r);
        self.tfree(bc);
    }

    /// A new cell with 1 where some byte is not 0, else 0.
    pub(crate) fn is_nz_n(&mut self, base: u128, n: u128) -> (r: u128)
        requires
            old(self).wf(),
            block(base as int, n as int),
        ensures
            final(self).wf(),
            (final(self)@, r as int) == old(self)@.is_nz_n(base as int, n as int),
            r <= CELL_LIMIT,
    {
        proof {
            reveal(Bf::is_nz_n);
        }
        if n == 1 {
            return self.is_nz(base);
        }
        let r = self.talloc();
        self.clear(r);
        let mut i: u128 = 0;
        let ghost goal = self@.is_nz_n_rounds(base as int, n as int, r as int, i as int);
        while i < n
            invariant
                self.wf(),
                block(base as int, n as int),
                r <= CELL_LIMIT,
                self@.is_nz_n_rounds(base as int, n as int, r as int, i as int) == goal,
            decreases n - i,
        {
            proof {
                reveal(Bf::is_nz_n_rounds);
            }
            self.nz_byte(base, n, r, i);
            i += 1;
        }
        proof {
            reveal(Bf::is_nz_n_rounds);
        }
        r
    }

    /// The product, by repeated addition; both operands are free.
    pub(crate) fn arith_mul(&mut self, a: u128, b: u128) -> (r: u128)
        requires
            old(self).wf(),
        ensures
            final(self).wf(),
            (final(self)@, r as int) == old(self)@.arith_mul(a as int, b as int),
            r <= CELL_LIMIT,
    {
        proof {
            reveal(Bf::arith_mul);
        }
        let r = self.talloc();
        self.clear(r);
        let tc = self.talloc();
        self.goto(a);
        self.raw("[");
        self.dec(a, 1);
        self.copy(b, tc);
        self.add_to(tc, r);
        self.goto(a);
        self.raw("]");
        self.tfree(tc);
        self.tfree(a);
        self.tfree(b);
        r
    }

    /// The product, by repeated addition; both operands are free.
    pub(crate) fn arith_mul_n(&mut self, a: u128, b: u128, n: u128) -> (r: u128)
        requires
            old(self).wf(),
            block(a as int, n as int),
            block(b as int, n as int),
        ensures
            final(self).wf(),
            (final(self)@, r as int) == old(self)@.arith_mul_n(a as int, b as int, n as int),
            r <= CELL_LIMIT,
    {
        proof {
            reveal(Bf::arith_mul_n);
        }
        if n == 1 {
            return self.arith_mul(a, b);
        }
        let r = self.talloc_n(n);
        self.clear_range(r, 0, n);
        let flag = self.is_nz_n(a, n);
        self.goto(flag);
        self.raw("[");
        self.clear(flag);
        self.dec_n(a, n);
        let bc = self.talloc_n(n);
        self.copy_n(b, bc, n);
        self.add_n(r, bc, n);
        let flag2 = self.is_nz_n(a, n);
        self.bfmove(flag2, flag);
        self.tfree(flag2);
        self.goto(flag);
        self.raw("]");
        self.tfree(flag);
        self.tfree_n(a, n);
        self.tfree_n(b, n);
        r
    }

    /// A new cell with whether `a` is at least `b`; both are kept.
    pub(crate) fn fits_byte(&mut self, a: u128, b: u128) -> (r: u128)
        requires
            old(self).wf(),
        ensures
            final(self).wf(),
            (final(self)@, r as int) == old(self)@.fits_byte(a as int, b as int),
            r <= CELL_LIMIT,
    {
        proof {
            reveal(Bf::fits_byte);
        }
        let ta = self.talloc();
        let tb = self.talloc();
        self.copy(a, ta);
        self.copy(b, tb);
        let bga = self.byte_gt(tb, ta);
        let ge = self.negate(bga);
        ge
    }

    /// Subtract `b` from `a`, keeping `b`.
    pub(crate) fn take_byte(&mut self, a: u128, b: u128)
        requires
            old(self).wf(),
        ensures
            final(self).wf(),
            final(self)@ == old(self)@.take_byte(a as int, b as int),
    {
        proof {
            reveal(Bf::take_byte);
        }
        let ts = self.talloc();
        self.copy(b, ts);
        self.sub_from(ts, a);
        self.tfree(ts);
    }

    /// The quotient, by repeated subtraction; both operands are free.
    pub(crate) fn arith_div(&mut self, a: u128, b: u128) -> (r: u128)
        requires
            old(self).wf(),
        ensures
            final(self).wf(),
            (final(self)@, r as int) == old(self)@.arith_div(a as int, b as int),
            r <= CELL_LIMIT,
    {
        proof {
            reveal(Bf::arith_div);
        }
        let q = self.talloc();
        self.clear(q);
        let flag = self.talloc();
        self.setv(flag, 1);
        self.goto(flag);
        self.raw("[");
        self.clear(flag);
        let ge = self.fits_byte(a, b);
        self.goto(ge);
        self.raw("[");
        self.take_byte(a, b);
        self.inc(q, 1);
        self.setv(flag, 1);
        self.clear(ge);
        self.goto(ge);
        self.raw("]");
        self.tfree(ge);
        self.goto(flag);
        self.raw("]");
        self.tfree(flag);
        self.tfree(a);
        self.tfree(b);
        q
    }

    /// The remainder, in the cell of `a`, by repeated subtraction; `b` is free.
    pub(crate) fn arith_mod(&mut self, a: u128, b: u128) -> (r: u128)
        requires
            old(self).wf(),
            a <= CELL_LIMIT,
        ensures
            final(self).wf(),
            (final(self)@, r as int) == old(self)@.arith_mod(a as int, b as int),
            r <= CELL_LIMIT,
    {
        proof {
            reveal(Bf::arith_mod);
        }
        let flag = self.talloc();
        self.setv(flag, 1);
        self.goto(flag);
        self.raw("[");
        self.clear(flag);
        let ge = self.fits_byte(a, b);
        self.goto(ge);
        self.raw("[");
        self.take_byte(a, b);
        self.setv(flag, 1);
        self.clear(ge);
        self.goto(ge);
        self.raw("]");
        self.tfree(ge);
        self.goto(flag);
        self.raw("]");
        self.tfree(flag);
        self.tfree(b);
        a
    }

    /// A new cell with whether `a` is at least `b`; both are kept.
    pub(crate) fn fits_n(&mut self, a: u128, b: u128, n: u128) -> (r: u128)
        requires
            old(self).wf(),
            block(a as int, n as int),
            block(b as int, n as int),
        ensures
            final(self).wf(),
            (final(self)@, r as int) == old(self)@.fits_n(a as int, b as int, n as int),
            r <= CELL_LIMIT,
    {
        proof {
            reveal(Bf::fits_n);
        }
        let ta = self.talloc_n(n);
        let tb = self.talloc_n(n);
        self.copy_n(a, ta, n);
        self.copy_n(b, tb, n);
        let bgt = self.gt_n(tb, ta, n);
        let ge = self.negate(bgt);
        ge
    }

    /// Subtract `b` from `a`, keeping `b`.
    pub(crate) fn take_n(&mut self, a: u128, b: u128, n: u128)
        requires
            old(self).wf(),
            block(a as int, n as int),
            block(b as int, n as int),
        ensures
            final(self).wf(),
            final(self)@ == old(self)@.take_n(a as int, b as int, n as int),
    {
        proof {
            reveal(Bf::take_n);
        }
        let ts = self.talloc_n(n);
        self.copy_n(b, ts, n);
        self.sub_n(a, ts, n);
    }

    /// The quotient, by repeated subtraction; both operands are free.
    pub(crate) fn arith_div_n(&mut self, a: u128, b: u128, n: u128) -> (r: u128)
        requires
            old(self).wf(),
            block(a as int, n as int),
            block(b as int, n as int),
        ensures
            final(self).wf(),
            (final(self)@, r as int) == old(self)@.arith_div_n(a as int, b as int, n as int),
            r <= CELL_LIMIT,
    {
        proof {
            reveal(Bf::arith_div_n);
        }
        if n == 1 {
            return self.arith_div(a, b);
        }
        let q = self.talloc_n(n);
        self.clear_range(q, 0, n);
        let flag = self.talloc();
        self.setv(flag, 1);
        self.goto(flag);
        self.raw("[");
        self.clear(flag);
        let ge = self.fits_n(a, b, n);
        self.goto(ge);
        self.raw("[");
        self.take_n(a, b, n);
        self.inc_n(q, n);
        self.setv(flag, 1);
        self.clear(ge);
        self.goto(ge);
        self.raw("]");
        self.tfree(ge);
        self.goto(flag);
        self.raw("]");
        self.tfree(flag);
        self.tfree_n(a, n);
        self.tfree_n(b, n);
        q
    }

    /// The remainder, in the cells of `a`, by repeated subtraction; `b` is free.
    pub(crate) fn arith_mod_n(&mut self, a: u128, b: u128, n: u128) -> (r: u128)
        requires
            old(self).wf(),
            block(a as int, n as int),
            block(b as int, n as int),
        ensures
            final(self).wf(),
            (final(self)@, r as int) == old(self)@.arith_mod_n(a as int, b as int, n as int),
            r <= CELL_LIMIT,
    {
        proof {
            reveal(Bf::arith_mod_n);
        }
        if n == 1 {
            return self.arith_mod(a, b);
        }
        let flag = self.talloc();
        self.setv(flag, 1);
        self.goto(flag);
        self.raw("[");
        self.clear(flag);
        let ge = self.fits_n(a, b, n);
        self.goto(ge);
        self.raw("[");
        self.take_n(a, b, n);
        self.setv(flag, 1);
        self.clear(ge);
        self.goto(ge);
        self.raw("]");
        self.tfree(ge);
        self.goto(flag);
        self.raw("]");
        self.tfree(flag);
        self.tfree_n(b, n);
        a
    }

    /// A new cell with whether both operands are not 0; both are free.
    pub(crate) fn both_n(&mut self, a: u128, b: u128, w: u128) -> (r: u128)
        requires
            old(self).wf(),
            block(a as int, w as int),
            block(b as int, w as int),
        ensures
            final(self).wf(),
            (final(self)@, r as int) == old(self)@.both_n(a as int, b as int, w as int),
            r <= CELL_LIMIT,
    {
        proof {
            reveal(Bf::both_n);
        }
        let r = self.talloc();
        self.clear(r);
        let anz = self.is_nz_n(a, w);
        let bnz = self.is_nz_n(b, w);
        self.flag_if_both(anz, bnz, r);
        self.tfree(anz);
        self.tfree(bnz);
        self.tfree_n(a, w);
        self.tfree_n(b, w);
        r
    }

    /// A new cell with whether one operand is not 0; both are free.
    pub(crate) fn either_n(&mut self, a: u128, b: u128, w: u128) -> (r: u128)
        requires
            old(self).wf(),
            block(a as int, w as int),
            block(b as int, w as int),
        ensures
            final(self).wf(),
            (final(self)@, r as int) == old(self)@.either_n(a as int, b as int, w as int),
            r <= CELL_LIMIT,
    {
        proof {
            reveal(Bf::either_n);
        }
        let r = self.talloc();
        self.clear(r);
        let anz = self.is_nz_n(a, w);
        let bnz = self.is_nz_n(b, w);
        self.flag_if(anz, r);
        self.flag_if(bnz, r);
        self.tfree(anz);
        self.tfree(bnz);
        self.tfree_n(a, w);
        self.tfree_n(b, w);
        r
    }
}

impl Bf {
    /// The result of a binary operator and its width; both operands are free.
    #[verifier::opaque]
    pub open spec fn binop_w(self, op: BinOp, a: int, aw: int, b: int, bw: int) -> (Bf, int, int) {
        let w = if aw < bw {
            bw
        } else {
            aw
        };
        let (bf, a) = self.widened(a, aw, w);
        let (bf, b) = bf.widened(b, bw, w);
        match op {
            BinOp::Add => (bf.add_n(a, b, w), a, w),
            BinOp::Sub => (bf.sub_n(a, b, w), a, w),
            BinOp::Mul => {
                let (bf, r) = bf.arith_mul_n(a, b, w);
                (bf, r, w)
            },
            BinOp::Div => {
                let (bf, r) = bf.arith_div_n(a, b, w);
                (bf, r, w)
            },
            BinOp::Rem => {
                let (bf, r) = bf.arith_mod_n(a, b, w);
                (bf, r, w)
            },
            BinOp::Lt => {
                let (bf, r) = bf.lt_n(a, b, w);
                (bf, r, 1)
            },
            BinOp::Gt => {
                let (bf, r) = bf.gt_n(a, b, w);
                (bf, r, 1)
            },
            BinOp::Le => {
                let (bf, r) = bf.le_n(a, b, w);
                (bf, r, 1)
            },
            BinOp::Ge => {
                let (bf, r) = bf.ge_n(a, b, w);
                (bf, r, 1)
            },
            BinOp::EqEq => {
                let (bf, r) = bf.eq_n(a, b, w);
                (bf, r, 1)
            },
            BinOp::Ne => {
                let (bf, r) = bf.ne_n(a, b, w);
                (bf, r, 1)
            },
            BinOp::And => {
                let (bf, r) = bf.both_n(a, b, w);
                (bf, r, 1)
            },
            BinOp::Or => {
                let (bf, r) = bf.either_n(a, b, w);
                (bf, r, 1)
            },
        }
    }
}

impl BfEmitter {
    /// The result of a binary operator and its width; both operands are free.
    pub(crate) fn eval_binop_w(&mut self, op: BinOp, a: u128, aw: u128, b: u128, bw: u128) -> (r: (
        u128,
        u128,
    ))
        requires
            old(self).wf(),
            block(a as int, aw as int),
            block(b as int, bw as int),
        ensures
            final(self).wf(),
            (final(self)@, r.0 as int, r.1 as int) == old(self)@.binop_w(
                op,
                a as int,
                aw as int,
                b as int,
                bw as int,
            ),
            block(r.0 as int, r.1 as int),
    {
        proof {
            reveal(Bf::binop_w);
        }
        let w = if aw < bw {
            bw
        } else {
            aw
        };
        let a = self.widened(a, aw, w);
        let b = self.widened(b, bw, w);
        match op {
            BinOp::Add => {
                self.add_n(a, b, w);
                (a, w)
            },
            BinOp::Sub => {
                self.sub_n(a, b, w);
                (a, w)
            },
            BinOp::Mul => (self.arith_mul_n(a, b, w), w),
            BinOp::Div => (self.arith_div_n(a, b, w), w),
            BinOp::Rem => (self.arith_mod_n(a, b, w), w),
            BinOp::Lt => (self.lt_n(a, b, w), 1),
            BinOp::Gt => (self.gt_n(a, b, w), 1),
            BinOp::Le => (self.le_n(a, b, w), 1),
            BinOp::Ge => (self.ge_n(a, b, w), 1),
            BinOp::EqEq => (self.eq_n(a, b, w), 1),
            BinOp::Ne => (self.ne_n(a, b, w), 1),
            BinOp::And => (self.both_n(a, b, w), 1),
            BinOp::Or => (self.either_n(a, b, w), 1),
        }
    }
}

} // verus!
