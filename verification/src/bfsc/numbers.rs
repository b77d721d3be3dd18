//! Brainfuck for reading and writing decimal numbers.

use vstd::prelude::*;

use crate::bfsc::emitter::BfEmitter;
use crate::bfsc::emitter::{block, Bf};
use crate::bfsc::layout::CELL_LIMIT;

verus! {

impl Bf {
    /// Write a digit, keeping its cell.
    #[verifier::opaque]
    pub open spec fn out_digit(self, cell: int) -> Bf {
        let bf = self;
        let (bf, d) = bf.talloc();
        let bf = bf.copy(cell, d);
        let bf = bf.inc(d, 48);
        let bf = bf.out_cell(d);
        let bf = bf.tfree(d);
        bf
    }

    /// Put `val / div` into `quot`, and the remainder into `val`.
    #[verifier::opaque]
    pub open spec fn divconst(self, val: int, div: int, quot: int) -> Bf {
        let bf = self;
        let bf = bf.clear(quot);
        let (bf, flag) = bf.talloc();
        let bf = bf.setv(flag, 1);
        let bf = bf.goto(flag);
        let bf = bf.raw("["@);
        let bf = bf.clear(flag);
        let (bf, tv) = bf.talloc();
        let (bf, td) = bf.talloc();
        let bf = bf.copy(val, tv);
        let bf = bf.setv(td, div);
        let (bf, gt) = bf.byte_gt(td, tv);
        let (bf, ge) = bf.negate(gt);
        let bf = bf.goto(ge);
        let bf = bf.raw("["@);
        let bf = bf.dec(val, div);
        let bf = bf.inc(quot, 1);
        let bf = bf.setv(flag, 1);
        let bf = bf.clear(ge);
        let bf = bf.goto(ge);
        let bf = bf.raw("]"@);
        let bf = bf.tfree(ge);
        let bf = bf.goto(flag);
        let bf = bf.raw("]"@);
        let bf = bf.tfree(flag);
        bf
    }

    /// Write a byte as a decimal number, keeping its cell.
    #[verifier::opaque]
    pub open spec fn print_num(self, cell: int) -> Bf {
        let bf = self;
        let (bf, v) = bf.talloc();
        let bf = bf.copy(cell, v);
        let (bf, h) = bf.talloc();
        let bf = bf.clear(h);
        let (bf, t) = bf.talloc();
        let bf = bf.clear(t);
        let bf = bf.divconst(v, 100, h);
        let bf = bf.divconst(v, 10, t);
        let (bf, hp) = bf.is_nz(h);
        let bf = bf.goto(hp);
        let bf = bf.raw("["@);
        let bf = bf.out_digit(h);
        let bf = bf.clear(hp);
        let bf = bf.goto(hp);
        let bf = bf.raw("]"@);
        let bf = bf.tfree(hp);
        let (bf, ht) = bf.talloc();
        let bf = bf.clear(ht);
        let (bf, ch) = bf.is_nz(h);
        let bf = bf.flag_if(ch, ht);
        let bf = bf.tfree(ch);
        let (bf, ct) = bf.is_nz(t);
        let bf = bf.flag_if(ct, ht);
        let bf = bf.tfree(ct);
        let bf = bf.goto(ht);
        let bf = bf.raw("["@);
        let bf = bf.out_digit(t);
        let bf = bf.clear(ht);
        let bf = bf.goto(ht);
        let bf = bf.raw("]"@);
        let bf = bf.tfree(ht);
        let bf = bf.inc(v, 48);
        let bf = bf.out_cell(v);
        let bf = bf.tfree(t);
        let bf = bf.tfree(h);
        let bf = bf.tfree(v);
        bf
    }

    /// A new cell with 1 where `ch` differs from 0, newline and space, else 0.
    #[verifier::opaque]
    pub open spec fn is_digit(self, ch: int) -> (Bf, int) {
        let bf = self;
        let (bf, r) = bf.talloc();
        let bf = bf.clear(r);
        let (bf, c1) = bf.is_nz(ch);
        let (bf, t10) = bf.talloc();
        let bf = bf.copy(ch, t10);
        let bf = bf.dec(t10, 10);
        let (bf, c2) = bf.is_nz(t10);
        let bf = bf.tfree(t10);
        let (bf, t32) = bf.talloc();
        let bf = bf.copy(ch, t32);
        let bf = bf.dec(t32, 32);
        let (bf, c3) = bf.is_nz(t32);
        let bf = bf.tfree(t32);
        let bf = bf.goto(c1);
        let bf = bf.raw("["@);
        let bf = bf.goto(c2);
        let bf = bf.raw("["@);
        let bf = bf.goto(c3);
        let bf = bf.raw("["@);
        let bf = bf.setv(r, 1);
        let bf = bf.clear(c3);
        let bf = bf.goto(c3);
        let bf = bf.raw("]"@);
        let bf = bf.clear(c2);
        let bf = bf.goto(c2);
        let bf = bf.raw("]"@);
        let bf = bf.clear(c1);
        let bf = bf.goto(c1);
        let bf = bf.raw("]"@);
        let bf = bf.tfree(c3);
        let bf = bf.tfree(c2);
        let bf = bf.tfree(c1);
        (bf, r)
    }

    /// The rounds of [`Bf::mul10`] from the given one on.
    #[verifier::opaque]
    pub open spec fn mul10_rounds(self, cell: int, tc: int, i: int) -> Bf
        decreases 10 - i,
    {
        if i >= 10 {
            self
        } else {
            let bf = self;
            let (bf, t2) = bf.talloc();
            let bf = bf.copy(tc, t2);
            let bf = bf.add_to(t2, cell);
            let bf = bf.tfree(t2);
            bf.mul10_rounds(cell, tc, i + 1)
        }
    }

    /// Multiply by 10, wrapping.
    #[verifier::opaque]
    pub open spec fn mul10(self, cell: int) -> Bf {
        let bf = self;
        let (bf, tc) = bf.talloc();
        let bf = bf.copy(cell, tc);
        let bf = bf.clear(cell);
        let bf = bf.mul10_rounds(cell, tc, 0);
        let bf = bf.tfree(tc);
        bf
    }

    /// Multiply by 10, wrapping.
    #[verifier::opaque]
    pub open spec fn mul10_n(self, cell: int, n: int) -> Bf {
        let bf = self;
        let bf = if n == 1 {
            let bf = bf.mul10(cell);
            bf
        } else {
            let bf = bf.mul10_wide(cell, n);
            bf
        };
        bf
    }

    /// The rounds of [`Bf::mul10_wide`] from the given one on.
    #[verifier::opaque]
    pub open spec fn mul10_wide_rounds(self, cell: int, n: int, tc: int, i: int) -> Bf
        decreases 10 - i,
    {
        if i >= 10 {
            self
        } else {
            let bf = self;
            let (bf, t2) = bf.talloc_n(n);
            let bf = bf.copy_n(tc, t2, n);
            let bf = bf.add_n(cell, t2, n);
            bf.mul10_wide_rounds(cell, n, tc, i + 1)
        }
    }

    /// Multiply several cells by 10, wrapping.
    #[verifier::opaque]
    pub open spec fn mul10_wide(self, cell: int, n: int) -> Bf {
        let bf = self;
        let (bf, tc) = bf.talloc_n(n);
        let bf = bf.copy_n(cell, tc, n);
        let bf = bf.clear_range(cell, 0, n);
        let bf = bf.mul10_wide_rounds(cell, n, tc, 0);
        let bf = bf.tfree_n(tc, n);
        bf
    }

    /// Read the next character, and set `lf` where it goes on with the number.
    #[verifier::opaque]
    pub open spec fn next_char(self, ch: int, lf: int) -> Bf {
        let bf = self;
        let bf = bf.clear(ch);
        let bf = bf.inp(ch);
        let bf = bf.clear(lf);
        let (bf, lf2) = bf.is_digit(ch);
        let bf = bf.bfmove(lf2, lf);
        let bf = bf.tfree(lf2);
        bf
    }

    /// Read a decimal number into a byte.
    #[verifier::opaque]
    pub open spec fn scan_num(self, target: int) -> Bf {
        let bf = self;
        let bf = bf.clear(target);
        let (bf, ch) = bf.talloc();
        let bf = bf.clear(ch);
        let bf = bf.inp(ch);
        let (bf, lf) = bf.is_digit(ch);
        let bf = bf.goto(lf);
        let bf = bf.raw("["@);
        let bf = bf.mul10(target);
        let (bf, dg) = bf.talloc();
        let bf = bf.copy(ch, dg);
        let bf = bf.dec(dg, 48);
        let bf = bf.add_to(dg, target);
        let bf = bf.tfree(dg);
        let bf = bf.next_char(ch, lf);
        let bf = bf.goto(lf);
        let bf = bf.raw("]"@);
        let bf = bf.tfree(lf);
        let bf = bf.tfree(ch);
        bf
    }

    /// Read a decimal number into several cells.
    #[verifier::opaque]
    pub open spec fn scan_wide(self, target: int, n: int) -> Bf {
        let bf = self;
        let bf = bf.clear_range(target, 0, n);
        let (bf, ch) = bf.talloc();
        let bf = bf.clear(ch);
        let bf = bf.inp(ch);
        let (bf, lf) = bf.is_digit(ch);
        let bf = bf.goto(lf);
        let bf = bf.raw("["@);
        let bf = bf.mul10_n(target, n);
        let (bf, dg) = bf.talloc();
        let bf = bf.copy(ch, dg);
        let bf = bf.dec(dg, 48);
        let (bf, dg_wide) = bf.widen(dg, 1, n);
        let bf = bf.add_n(target, dg_wide, n);
        let bf = bf.next_char(ch, lf);
        let bf = bf.goto(lf);
        let bf = bf.raw("]"@);
        let bf = bf.tfree(lf);
        let bf = bf.tfree(ch);
        bf
    }

    /// Put `val / div` into `quot`, and the remainder into `val`.
    #[verifier::opaque]
    pub open spec fn divconst_wide(self, val: int, n: int, div: int, quot: int) -> Bf {
        let bf = self;
        let bf = bf.clear_range(quot, 0, n);
        let (bf, flag) = bf.talloc();
        let bf = bf.setv(flag, 1);
        let bf = bf.goto(flag);
        let bf = bf.raw("["@);
        let bf = bf.clear(flag);
        let (bf, tv) = bf.talloc_n(n);
        let (bf, td) = bf.talloc_n(n);
        let bf = bf.copy_n(val, tv, n);
        let bf = bf.set_const_n(td, div, n);
        let (bf, gt) = bf.gt_n(td, tv, n);
        let (bf, ge) = bf.negate(gt);
        let bf = bf.goto(ge);
        let bf = bf.raw("["@);
        let (bf, ts) = bf.talloc_n(n);
        let bf = bf.set_const_n(ts, div, n);
        let bf = bf.sub_n(val, ts, n);
        let bf = bf.inc_n(quot, n);
        let bf = bf.setv(flag, 1);
        let bf = bf.clear(ge);
        let bf = bf.goto(ge);
        let bf = bf.raw("]"@);
        let bf = bf.tfree(ge);
        let bf = bf.goto(flag);
        let bf = bf.raw("]"@);
        let bf = bf.tfree(flag);
        bf
    }

    /// Take the next digit of `v` into a cell of its own.
    #[verifier::opaque]
    pub open spec fn take_digit(self, v: int, n: int, div: int, quot: int) -> (Bf, int) {
        let bf = self;
        let bf = bf.divconst_wide(v, n, div, quot);
        let (bf, dg) = bf.talloc();
        let bf = bf.copy(quot, dg);
        let bf = bf.clear_range(quot, 0, n);
        (bf, dg)
    }

    /// Write a digit that is not the last, unless it is a leading zero.
    #[verifier::opaque]
    pub open spec fn print_digit(self, d: int, seen_nz: int) -> Bf {
        let bf = self;
        let (bf, d_nz) = bf.is_nz(d);
        let (bf, should_print) = bf.talloc();
        let bf = bf.clear(should_print);
        let (bf, snz_copy) = bf.talloc();
        let bf = bf.copy(seen_nz, snz_copy);
        let bf = bf.flag_if(snz_copy, should_print);
        let bf = bf.tfree(snz_copy);
        let bf = bf.flag_if(d_nz, should_print);
        let bf = bf.tfree(d_nz);
        let bf = bf.goto(should_print);
        let bf = bf.raw("["@);
        let bf = bf.setv(seen_nz, 1);
        let (bf, dc) = bf.talloc();
        let bf = bf.copy(d, dc);
        let bf = bf.inc(dc, 48);
        let bf = bf.out_cell(dc);
        let bf = bf.tfree(dc);
        let bf = bf.clear(should_print);
        let bf = bf.goto(should_print);
        let bf = bf.raw("]"@);
        let bf = bf.tfree(should_print);
        let bf = bf.tfree(d);
        bf
    }

    /// Write the last digit.
    #[verifier::opaque]
    pub open spec fn print_last_digit(self, d: int) -> Bf {
        let bf = self;
        let bf = bf.inc(d, 48);
        let bf = bf.out_cell(d);
        let bf = bf.tfree(d);
        bf
    }
}

impl BfEmitter {
    /// Write a digit, keeping its cell.
    pub(crate) fn out_digit(&mut self, cell: u128)
        requires
            old(self).wf(),
        ensures
            final(self).wf(),
            final(self)@ == old(self)@.out_digit(cell as int),
    {
        proof {
            reveal(Bf::out_digit);
        }
        let d = self.talloc();
        self.copy(cell, d);
        self.inc(d, 48);
        self.out_cell(d);
        self.tfree(d);
    }

    /// Put `val / div` into `quot`, and the remainder into `val`.
    pub(crate) fn divconst(&mut self, val: u128, div: u8, quot: u128)
        requires
            old(self).wf(),
        ensures
            final(self).wf(),
            final(self)@ == old(self)@.divconst(val as int, div as int, quot as int),
    {
        proof {
            reveal(Bf::divconst);
        }
        self.clear(quot);
        let flag = self.talloc();
        self.setv(flag, 1);
        self.goto(flag);
        self.raw("[");
        self.clear(flag);
        let tv = self.talloc();
        let td = self.talloc();
        self.copy(val, tv);
        self.setv(td, div);
        let gt = self.byte_gt(td, tv);
        let ge = self.negate(gt);
        self.goto(ge);
        self.raw("[");
        self.dec(val, div as u128);
        self.inc(quot, 1);
        self.setv(flag, 1);
        self.clear(ge);
        self.goto(ge);
        self.raw("]");
        self.tfree(ge);
        self.goto(flag);
        self.raw("]");
        self.tfree(flag);
    }

    /// Write a byte as a decimal number, keeping its cell.
    pub(crate) fn print_num(&mut self, cell: u128)
        requires
            old(self).wf(),
        ensures
            final(self).wf(),
            final(self)@ == old(self)@.print_num(cell as int),
    {
        proof {
            reveal(Bf::print_num);
        }
        let v = self.talloc();
        self.copy(cell, v);
        let h = self.talloc();
        self.clear(h);
        let t = self.talloc();
        self.clear(t);
        self.divconst(v, 100, h);
        self.divconst(v, 10, t);
        let hp = self.is_nz(h);
        self.goto(hp);
        self.raw("[");
        self.out_digit(h);
        self.clear(hp);
        self.goto(hp);
        self.raw("]");
        self.tfree(hp);
        let ht = self.talloc();
        self.clear(ht);
        let ch = self.is_nz(h);
        self.flag_if(ch, ht);
        self.tfree(ch);
        let ct = self.is_nz(t);
        self.flag_if(ct, ht);
        self.tfree(ct);
        self.goto(ht);
        self.raw("[");
        self.out_digit(t);
        self.clear(ht);
        self.goto(ht);
        self.raw("]");
        self.tfree(ht);
        self.inc(v, 48);
        self.out_cell(v);
        self.tfree(t);
        self.tfree(h);
        self.tfree(v);
    }

    /// A new cell with 1 where `ch` differs from 0, newline and space, else 0.
    pub(crate) fn is_digit(&mut self, ch: u128) -> (r: u128)
        requires
            old(self).wf(),
        ensures
            final(self).wf(),
            (final(self)@, r as int) == old(self)@.is_digit(ch as int),
            r <= CELL_LIMIT,
    {
        proof {
            reveal(Bf::is_digit);
        }
        let r = self.talloc();
        self.clear(r);
        let c1 = self.is_nz(ch);
        let t10 = self.talloc();
        self.copy(ch, t10);
        self.dec(t10, 10);
        let c2 = self.is_nz(t10);
        self.tfree(t10);
        let t32 = self.talloc();
        self.copy(ch, t32);
        self.dec(t32, 32);
        let c3 = self.is_nz(t32);
        self.tfree(t32);
        self.goto(c1);
        self.raw("[");
        self.goto(c2);
        self.raw("[");
        self.goto(c3);
        self.raw("[");
        self.setv(r, 1);
        self.clear(c3);
        self.goto(c3);
        self.raw("]");
        self.clear(c2);
        self.goto(c2);
        self.raw("]");
        self.clear(c1);
        self.goto(c1);
        self.raw("]");
        self.tfree(c3);
        self.tfree(c2);
        self.tfree(c1);
        r
    }

    /// Multiply by 10, wrapping.
    pub(crate) fn mul10(&mut self, cell: u128)
        requires
            old(self).wf(),
        ensures
            final(self).wf(),
            final(self)@ == old(self)@.mul10(cell as int),
    {
        proof {
            reveal(Bf::mul10);
        }
        let tc = self.talloc();
        self.copy(cell, tc);
        self.clear(cell);
        let mut i: u128 = 0;
        let ghost goal = self@.mul10_rounds(cell as int, tc as int, i as int);
        while i < 10
            invariant
                self.wf(),
                tc <= CELL_LIMIT,
                self@.mul10_rounds(cell as int, tc as int, i as int) == goal,
            decreases 10 - i,
        {
            proof {
                reveal(Bf::mul10_rounds);
            }
            let t2 = self.talloc();
            self.copy(tc, t2);
            self.add_to(t2, cell);
            self.tfree(t2);
            i += 1;
        }
        proof {
            reveal(Bf::mul10_rounds);
        }
        self.tfree(tc);
    }

    /// Multiply by 10, wrapping.
    pub(crate) fn mul10_n(&mut self, cell: u128, n: u128)
        requires
            old(self).wf(),
            block(cell as int, n as int),
        ensures
            final(self).wf(),
            final(self)@ == old(self)@.mul10_n(cell as int, n as int),
    {
        proof {
            reveal(Bf::mul10_n);
        }
        if n == 1 {
            self.mul10(cell);
        } else {
            self.mul10_wide(cell, n);
        }
    }

    /// Multiply several cells by 10, wrapping.
    pub(crate) fn mul10_wide(&mut self, cell: u128, n: u128)
        requires
            old(self).wf(),
            block(cell as int, n as int),
        ensures
            final(self).wf(),
            final(self)@ == old(self)@.mul10_wide(cell as int, n as int),
    {
        proof {
            reveal(Bf::mul10_wide);
        }
        let tc = self.talloc_n(n);
        self.copy_n(cell, tc, n);
        self.clear_range(cell, 0, n);
        let mut i: u128 = 0;
        let ghost goal = self@.mul10_wide_rounds(cell as int, n as int, tc as int, i as int);
        while i < 10
            invariant
                self.wf(),
                block(cell as int, n as int),
                tc <= CELL_LIMIT,
                self@.mul10_wide_rounds(cell as int, n as int, tc as int, i as int) == goal,
            decreases 10 - i,
        {
            proof {
                reveal(Bf::mul10_wide_rounds);
            }
            let t2 = self.talloc_n(n);
            self.copy_n(tc, t2, n);
            self.add_n(cell, t2, n);
            i += 1;
        }
        proof {
            reveal(Bf::mul10_wide_rounds);
        }
        self.tfree_n(tc, n);
    }

    /// Read the next character, and set `lf` where it goes on with the number.
    pub(crate) fn next_char(&mut self, ch: u128, lf: u128)
        requires
            old(self).wf(),
        ensures
            final(self).wf(),
            final(self)@ == old(self)@.next_char(ch as int, lf as int),
    {
        proof {
            reveal(Bf::next_char);
        }
        self.clear(ch);
        self.inp(ch);
        self.clear(lf);
        let lf2 = self.is_digit(ch);
        self.bfmove(lf2, lf);
        self.tfree(lf2);
    }

    /// Read a decimal number into a byte.
    pub(crate) fn scan_num(&mut self, target: u128)
        requires
            old(self).wf(),
        ensures
            final(self).wf(),
            final(self)@ == old(self)@.scan_num(target as int),
    {
        proof {
            reveal(Bf::scan_num);
        }
        self.clear(target);
        let ch = self.talloc();
        self.clear(ch);
        self.inp(ch);
        let lf = self.is_digit(ch);
        self.goto(lf);
        self.raw("[");
        self.mul10(target);
        let dg = self.talloc();
        self.copy(ch, dg);
        self.dec(dg, 48);
        self.add_to(dg, target);
        self.tfree(dg);
        self.next_char(ch, lf);
        self.goto(lf);
        self.raw("]");
        self.tfree(lf);
        self.tfree(ch);
    }

    /// Read a decimal number into several cells.
    pub(crate) fn scan_wide(&mut self, target: u128, n: u128)
        requires
            old(self).wf(),
            block(target as int, n as int),
        ensures
            final(self).wf(),
            final(self)@ == old(self)@.scan_wide(target as int, n as int),
    {
        proof {
            reveal(Bf::scan_wide);
        }
        self.clear_range(target, 0, n);
        let ch = self.talloc();
        self.clear(ch);
        self.inp(ch);
        let lf = self.is_digit(ch);
        self.goto(lf);
        self.raw("[");
        self.mul10_n(target, n);
        let dg = self.talloc();
        self.copy(ch, dg);
        self.dec(dg, 48);
        let dg_wide = self.widen(dg, 1, n);
        self.add_n(target, dg_wide, n);
        self.next_char(ch, lf);
        self.goto(lf);
        self.raw("]");
        self.tfree(lf);
        self.tfree(ch);
    }

    /// Put `val / div` into `quot`, and the remainder into `val`.
    pub(crate) fn divconst_wide(&mut self, val: u128, n: u128, div: u32, quot: u128)
        requires
            old(self).wf(),
            block(val as int, n as int),
            block(quot as int, n as int),
        ensures
            final(self).wf(),
            final(self)@ == old(self)@.divconst_wide(val as int, n as int, div as int, quot as int),
    {
        proof {
            reveal(Bf::divconst_wide);
        }
        self.clear_range(quot, 0, n);
        let flag = self.talloc();
        self.setv(flag, 1);
        self.goto(flag);
        self.raw("[");
        self.clear(flag);
        let tv = self.talloc_n(n);
        let td = self.talloc_n(n);
        self.copy_n(val, tv, n);
        self.set_const_n(td, div, n);
        let gt = self.gt_n(td, tv, n);
        let ge = self.negate(gt);
        self.goto(ge);
        self.raw("[");
        let ts = self.talloc_n(n);
        self.set_const_n(ts, div, n);
        self.sub_n(val, ts, n);
        self.inc_n(quot, n);
        self.setv(flag, 1);
        self.clear(ge);
        self.goto(ge);
        self.raw("]");
        self.tfree(ge);
        self.goto(flag);
        self.raw("]");
        self.tfree(flag);
    }

    /// Take the next digit of `v` into a cell of its own.
    pub(crate) fn take_digit(&mut self, v: u128, n: u128, div: u32, quot: u128) -> (r: u128)
        requires
            old(self).wf(),
            block(v as int, n as int),
            block(quot as int, n as int),
        ensures
            final(self).wf(),
            (final(self)@, r as int) == old(self)@.take_digit(v as int, n as int, div as int, quot as int),
            r <= CELL_LIMIT,
    {
        proof {
            reveal(Bf::take_digit);
        }
        self.divconst_wide(v, n, div, quot);
        let dg = self.talloc();
        self.copy(quot, dg);
        self.clear_range(quot, 0, n);
        dg
    }

    /// Write a digit that is not the last, unless it is a leading zero.
    pub(crate) fn print_digit(&mut self, d: u128, seen_nz: u128)
        requires
            old(self).wf(),
        ensures
            final(self).wf(),
            final(self)@ == old(self)@.print_digit(d as int, seen_nz as int),
    {
        proof {
            reveal(Bf::print_digit);
        }
        let d_nz = self.is_nz(d);
        let should_print = self.talloc();
        self.clear(should_print);
        let snz_copy = self.talloc();
        self.copy(seen_nz, snz_copy);
        self.flag_if(snz_copy, should_print);
        self.tfree(snz_copy);
        self.flag_if(d_nz, should_print);
        self.tfree(d_nz);
        self.goto(should_print);
        self.raw("[");
        self.setv(seen_nz, 1);
        let dc = self.talloc();
        self.copy(d, dc);
        self.inc(dc, 48);
        self.out_cell(dc);
        self.tfree(dc);
        self.clear(should_print);
        self.goto(should_print);
        self.raw("]");
        self.tfree(should_print);
        self.tfree(d);
    }

    /// Write the last digit.
    pub(crate) fn print_last_digit(&mut self, d: u128)
        requires
            old(self).wf(),
        ensures
            final(self).wf(),
            final(self)@ == old(self)@.print_last_digit(d as int),
    {
        proof {
            reveal(Bf::print_last_digit);
        }
        self.inc(d, 48);
        self.out_cell(d);
        self.tfree(d);
    }
}

/// The powers of ten that a number of `n` bytes is divided by.
pub open spec fn divisors_of(n: int) -> Seq<u32> {
    if n == 2 {
        seq![10000u32, 1000u32, 100u32, 10u32]
    } else if n == 4 {
        seq![
            1000000000u32,
            100000000u32,
            10000000u32,
            1000000u32,
            100000u32,
            10000u32,
            1000u32,
            100u32,
            10u32,
        ]
    } else {
        Seq::empty()
    }
}

fn divisors(n: u128) -> (d: Vec<u32>)
    ensures
        d@ == divisors_of(n as int),
{
    let d: Vec<u32> = if n == 2 {
        vec![10000, 1000, 100, 10]
    } else if n == 4 {
        vec![1000000000, 100000000, 10000000, 1000000, 100000, 10000, 1000, 100, 10]
    } else {
        Vec::new()
    };
    assert(d@ =~= divisors_of(n as int));
    d
}

impl Bf {
    /// Take the digits for the divisors from `i` on into cells of their own,
    /// behind those taken before.
    #[verifier::opaque]
    pub open spec fn take_digits(
        self,
        v: int,
        n: int,
        quot: int,
        divs: Seq<u32>,
        i: int,
        digits: Seq<int>,
    ) -> (Bf, Seq<int>)
        decreases divs.len() - i,
    {
        if i < 0 || i >= divs.len() {
            (self, digits)
        } else {
            let (bf, dg) = self.take_digit(v, n, divs[i] as int, quot);
            bf.take_digits(v, n, quot, divs, i + 1, digits.push(dg))
        }
    }

    /// Write the digits from `i` on, without leading zeros but for the last
    /// digit.
    #[verifier::opaque]
    pub open spec fn print_digits(self, digits: Seq<int>, seen_nz: int, i: int) -> Bf
        decreases digits.len() - i,
    {
        if i < 0 || i >= digits.len() {
            self
        } else if i == digits.len() - 1 {
            self.print_last_digit(digits[i]).print_digits(digits, seen_nz, i + 1)
        } else {
            self.print_digit(digits[i], seen_nz).print_digits(digits, seen_nz, i + 1)
        }
    }

    /// Write a number of several bytes in decimal, keeping its cells.
    #[verifier::opaque]
    pub open spec fn print_wide(self, cell: int, n: int) -> Bf {
        let (bf, v) = self.talloc_n(n);
        let bf = bf.copy_n(cell, v, n);
        let (bf, quot) = bf.talloc_n(n);
        let (bf, digits) = bf.take_digits(v, n, quot, divisors_of(n), 0, Seq::empty());
        let (bf, last) = bf.talloc();
        let bf = bf.copy(v, last);
        let digits = digits.push(last);
        let bf = bf.tfree_n(quot, n);
        let bf = bf.tfree_n(v, n);
        let (bf, seen_nz) = bf.talloc();
        let bf = bf.clear(seen_nz);
        let bf = bf.print_digits(digits, seen_nz, 0);
        bf.tfree(seen_nz)
    }

    /// Write a number in decimal, keeping its cells.
    #[verifier::opaque]
    pub open spec fn print_num_n(self, cell: int, n: int) -> Bf {
        if n == 1 {
            self.print_num(cell)
        } else {
            self.print_wide(cell, n)
        }
    }

    /// Read a decimal number.
    #[verifier::opaque]
    pub open spec fn scan_num_n(self, target: int, n: int) -> Bf {
        if n == 1 {
            self.scan_num(target)
        } else {
            self.scan_wide(target, n)
        }
    }
}

spec fn cells_view(cells: Seq<u128>) -> Seq<int> {
    Seq::new(cells.len(), |i: int| cells[i] as int)
}

impl BfEmitter {
    /// Write a number in decimal, keeping its cells.
    pub(crate) fn print_num_n(&mut self, cell: u128, n: u128)
        requires
            old(self).wf(),
            block(cell as int, n as int),
        ensures
            final(self).wf(),
            final(self)@ == old(self)@.print_num_n(cell as int, n as int),
    {
        proof {
            reveal(Bf::print_num_n);
        }
        if n == 1 {
            self.print_num(cell);
            return ;
        }
        proof {
            reveal(Bf::print_wide);
        }
        let v = self.talloc_n(n);
        self.copy_n(cell, v, n);
        let divs = divisors(n);
        let mut digit_cells: Vec<u128> = Vec::new();
        let quot = self.talloc_n(n);
        let ghost goal = self@.take_digits(
            v as int,
            n as int,
            quot as int,
            divs@,
            0,
            Seq::empty(),
        );
        assert(cells_view(digit_cells@) =~= Seq::<int>::empty());
        let mut i: usize = 0;
        while i < divs.len()
            invariant
                self.wf(),
                i <= divs@.len(),
                block(v as int, n as int),
                block(quot as int, n as int),
                self@.take_digits(
                    v as int,
                    n as int,
                    quot as int,
                    divs@,
                    i as int,
                    cells_view(digit_cells@),
                ) == goal,
            decreases divs@.len() - i,
        {
            proof {
                reveal(Bf::take_digits);
            }
            let ghost before = cells_view(digit_cells@);
            let dg = self.take_digit(v, n, divs[i], quot);
            digit_cells.push(dg);
            assert(cells_view(digit_cells@) =~= before.push(dg as int));
            i += 1;
        }
        proof {
            reveal(Bf::take_digits);
        }
        let last = self.talloc();
        self.copy(v, last);
        let ghost before = cells_view(digit_cells@);
        digit_cells.push(last);
        assert(cells_view(digit_cells@) =~= before.push(last as int));
        self.tfree_n(quot, n);
        self.tfree_n(v, n);
        let seen_nz = self.talloc();
        self.clear(seen_nz);
        let ghost digits = cells_view(digit_cells@);
        let ghost goal = self@.print_digits(digits, seen_nz as int, 0);
        let mut i: usize = 0;
        while i < digit_cells.len()
            invariant
                self.wf(),
                i <= digit_cells@.len(),
                digits == cells_view(digit_cells@),
                self@.print_digits(digits, seen_nz as int, i as int) == goal,
            decreases digit_cells@.len() - i,
        {
            proof {
                reveal(Bf::print_digits);
            }
            let d = digit_cells[i];
            if i == digit_cells.len() - 1 {
                self.print_last_digit(d);
            } else {
                self.print_digit(d, seen_nz);
            }
            i += 1;
        }
        proof {
            reveal(Bf::print_digits);
        }
        self.tfree(seen_nz);
    }

    /// Read a decimal number.
    pub(crate) fn scan_num_n(&mut self, target: u128, n: u128)
        requires
            old(self).wf(),
            block(target as int, n as int),
        ensures
            final(self).wf(),
            final(self)@ == old(self)@.scan_num_n(target as int, n as int),
    {
        proof {
            reveal(Bf::scan_num_n);
        }
        if n == 1 {
            self.scan_num(target);
        } else {
            self.scan_wide(target, n);
        }
    }
}

} // verus!
