//! Brainfuck for array elements.
//!
//! Small arrays are searched element by element. Large byte arrays lie in
//! chunks, through which counters walk: each access takes the same amount of
//! code, whatever the size.

use vstd::prelude::*;

use crate::bfsc::emitter::BfEmitter;
use crate::bfsc::emitter::{block, Bf, CHUNK_LIMIT};
use crate::bfsc::layout::CELL_LIMIT;

verus! {

impl Bf {
    /// Move `src` to `dst`, counting down first; `src` becomes 0.
    #[verifier::opaque]
    pub open spec fn pour(self, src: int, dst: int) -> Bf {
        let bf = self;
        let bf = bf.goto(src);
        let bf = bf.raw("[-"@);
        let bf = bf.goto(dst);
        let bf = bf.raw("+"@);
        let bf = bf.goto(src);
        let bf = bf.raw("]"@);
        bf
    }

    /// Read the element at `local_offset` of a chunk into `result`. A counter walks
    /// through the chunk in strides of four cells, leaves a survivor that brings
    /// the value back, and is free.
    #[verifier::opaque]
    pub open spec fn walk_read_chunk(self, chunk_base: int, local_offset: int, result: int) -> Bf {
        let bf = self;
        let bf = bf.clear(chunk_base);
        let bf = bf.clear(chunk_base + 1);
        let bf = bf.clear(chunk_base + 2);
        let bf = bf.pour(local_offset, chunk_base);
        let bf = bf.tfree(local_offset);
        let bf = bf.goto(chunk_base);
        let bf = bf.raw("[->+>+<<]>>[-<<+>>]<<"@);
        let bf = bf.raw("[-[->>>>+<<<<]>[->>>>+<<<<]<>>>>]"@);
        let bf = bf.raw(">>>"@);
        let bf = bf.raw("<[-]>[-<+>>+<]>[-<+>]<"@);
        let bf = bf.raw("<<"@);
        let bf = bf.raw("[-[-<<<<+>>>>]>[-<<<<+>>>>]<<<<<]"@);
        let bf = bf.set_ptr(chunk_base + 1);
        let bf = bf.pour(chunk_base + 2, result);
        bf
    }

    /// Write `val` to the element at `local_offset` of a chunk; both are free.
    #[verifier::opaque]
    pub open spec fn walk_write_chunk(self, chunk_base: int, local_offset: int, val: int) -> Bf {
        let bf = self;
        let bf = bf.clear(chunk_base);
        let bf = bf.clear(chunk_base + 1);
        let bf = bf.clear(chunk_base + 2);
        let bf = bf.pour(local_offset, chunk_base);
        let bf = bf.tfree(local_offset);
        let bf = bf.pour(val, chunk_base + 2);
        let bf = bf.tfree(val);
        let bf = bf.goto(chunk_base);
        let bf = bf.raw("[->+>>>>>+<<<<<<]>>>>>>[-<<<<<<+>>>>>>]<<<<<<"@);
        let bf = bf.raw("[-[->>>>+<<<<]>[->>>>+<<<<]>[->>>>+<<<<]<<>>>>]"@);
        let bf = bf.raw(">>>"@);
        let bf = bf.raw("[-]<[->+<]<"@);
        let bf = bf.raw("[-[-<<<<+>>>>]<<<<]"@);
        let bf = bf.set_ptr(chunk_base + 1);
        bf
    }

    /// Take the value that a read over chunks has brought back.
    #[verifier::opaque]
    pub open spec fn extract_outer_walk_result(self, base: int, result: int) -> Bf {
        let bf = self;
        let bf = bf.clear(base + 1);
        let bf = bf.pour(base + 2, result);
        bf
    }

    /// Move the chunk number and the offset of an index into the first chunk's
    /// prefix cells.
    #[verifier::opaque]
    pub open spec fn seed_outer_prefix(self, base: int, idx: int) -> Bf {
        let bf = self;
        let bf = bf.goto(idx + 1);
        let bf = bf.raw("[-"@);
        let bf = bf.goto(base);
        let bf = bf.raw("+>+<"@);
        let bf = bf.goto(idx + 1);
        let bf = bf.raw("]"@);
        let bf = bf.pour(idx, base + 2);
        bf
    }

    /// Move the group, the chunk number and the offset of an index into the first
    /// chunk's prefix cells.
    #[verifier::opaque]
    pub open spec fn seed_outer_prefix_2stage(self, base: int, idx: int, chunk_size: int) -> Bf {
        let bf = self;
        let bf = bf.goto(idx + 2);
        let bf = bf.raw("[-"@);
        let bf = bf.goto(base);
        let bf = bf.raw("+>+<"@);
        let bf = bf.goto(idx + 2);
        let bf = bf.raw("]"@);
        let bf = bf.pour(idx + 1, base + 2);
        let bf = bf.pour(idx, base + (4 * chunk_size + 3));
        bf
    }

    /// Move a cell by `n` to the right.
    #[verifier::opaque]
    pub open spec fn shift_right(self, n: int) -> Bf {
        let bf = self;
        let bf = bf.raw("[-"@);
        let bf = bf.many('>', n);
        let bf = bf.raw("+"@);
        let bf = bf.many('<', n);
        let bf = bf.raw("]"@);
        bf
    }

    /// Move a cell by `n` to the left.
    #[verifier::opaque]
    pub open spec fn shift_left(self, n: int) -> Bf {
        let bf = self;
        let bf = bf.raw("[-"@);
        let bf = bf.many('<', n);
        let bf = bf.raw("+"@);
        let bf = bf.many('>', n);
        let bf = bf.raw("]"@);
        bf
    }

    /// Walk to the chunk with three prefix cells.
    #[verifier::opaque]
    pub open spec fn forward_three(self, s: int) -> Bf {
        let bf = self;
        let bf = bf.raw("[-"@);
        let bf = bf.shift_right(s);
        let bf = bf.raw(">"@);
        let bf = bf.shift_right(s);
        let bf = bf.raw(">"@);
        let bf = bf.shift_right(s);
        let bf = bf.raw("<<"@);
        let bf = bf.many('>', s);
        let bf = bf.raw("]"@);
        bf
    }

    /// Walk back from the chunk with three prefix cells.
    #[verifier::opaque]
    pub open spec fn backward_three(self, s: int) -> Bf {
        let bf = self;
        let bf = bf.raw("[-"@);
        let bf = bf.shift_left(s);
        let bf = bf.raw(">"@);
        let bf = bf.shift_left(s);
        let bf = bf.raw(">"@);
        let bf = bf.shift_left(s);
        let bf = bf.raw("<<"@);
        let bf = bf.many('<', s);
        let bf = bf.raw("]"@);
        bf
    }

    /// Bring the chunk number back from the end of the chunk, twice.
    #[verifier::opaque]
    pub open spec fn restore_chunk_id(self, s: int) -> Bf {
        let bf = self;
        let bf = bf.many('>', s - 3);
        let bf = bf.shift_left(s - 2);
        let bf = bf.many('<', s - 2);
        let bf = bf.raw("[->+>>>+<<<<]>>>>[-<<<<+>>>>]<<<<"@);
        bf
    }

    /// Read over chunks: from the first chunk's prefix cells to the addressed
    /// element and back.
    #[verifier::opaque]
    pub open spec fn emit_outer_walk_read_body(self, chunk_size: int) -> Bf {
        let bf = self;
        let s = 4 * chunk_size + 5;
        let bf = bf.forward_three(s);
        let bf = bf.raw(">"@);
        let bf = bf.shift_right(s - 3);
        let bf = bf.raw("<"@);
        let bf = bf.raw(">>[-<+<+>>]<<"@);
        let bf = bf.raw("[-[->>>>+<<<<]>[->>>>+<<<<]<>>>>]"@);
        let bf = bf.raw(">>>"@);
        let bf = bf.raw("<[-]>[-<+>>+<]>[-<+>]<"@);
        let bf = bf.raw("<<"@);
        let bf = bf.raw("[-[-<<<<+>>>>]>[-<<<<+>>>>]<<<<<]"@);
        let bf = bf.restore_chunk_id(s);
        let bf = bf.backward_three(s);
        bf
    }

    /// Write over chunks: from the first chunk's prefix cells to the addressed
    /// element and back.
    #[verifier::opaque]
    pub open spec fn emit_outer_walk_write_body(self, chunk_size: int) -> Bf {
        let bf = self;
        let s = 4 * chunk_size + 5;
        let bf = bf.raw("[-"@);
        let bf = bf.shift_right(s);
        let bf = bf.raw(">"@);
        let bf = bf.shift_right(s);
        let bf = bf.raw(">"@);
        let bf = bf.shift_right(s);
        let bf = bf.many('>', s - 3);
        let bf = bf.shift_right(s);
        let bf = bf.many('<', s - 1);
        let bf = bf.many('>', s);
        let bf = bf.raw("]"@);
        let bf = bf.raw(">"@);
        let bf = bf.shift_right(s - 3);
        let bf = bf.raw("<"@);
        let bf = bf.raw(">>[-<<+>>]<<"@);
        let bf = bf.many('>', s - 1);
        let bf = bf.shift_left(s - 3);
        let bf = bf.many('<', s - 1);
        let bf = bf.raw("[->+>>>>>+<<<<<<]>>>>>>[-<<<<<<+>>>>>>]<<<<<<"@);
        let bf = bf.raw("[-[->>>>+<<<<]>[->>>>+<<<<]>[->>>>+<<<<]<<>>>>]"@);
        let bf = bf.raw(">>>"@);
        let bf = bf.raw("[-]<[->+<]<"@);
        let bf = bf.raw("[-[-<<<<+>>>>]<<<<]"@);
        let bf = bf.restore_chunk_id(s);
        let bf = bf.backward_three(s);
        bf
    }

    /// Walk to the group with the prefix cells, and the value where there is one.
    #[verifier::opaque]
    pub open spec fn emit_stage1_macro_walk_forward(self, chunk_size: int, with_val: bool) -> Bf {
        let bf = self;
        let s = 4 * chunk_size + 5;
        let s1 = 256 * s;
        let bf = bf.raw("[-"@);
        let bf = bf.shift_right(s1);
        let bf = bf.raw(">"@);
        let bf = bf.shift_right(s1);
        let bf = bf.raw(">"@);
        let bf = bf.shift_right(s1);
        let bf = bf.many('>', s - 4);
        let bf = bf.shift_right(s1);
        let bf = if with_val {
            let bf = bf.raw(">"@);
            let bf = bf.shift_right(s1);
            let bf = bf.many('<', s - 1);
            bf
        } else {
            let bf = bf.many('<', s - 2);
            bf
        };
        let bf = bf.many('>', s1);
        let bf = bf.raw("]"@);
        bf
    }

    /// Go over from the group to the chunk: park the group number and move the
    /// chunk number and the offset to their places.
    #[verifier::opaque]
    pub open spec fn emit_stage1_to_stage2_transition(self, chunk_size: int) -> Bf {
        let bf = self;
        let s = 4 * chunk_size + 5;
        let bf = bf.raw(">"@);
        let bf = bf.shift_right(s - 4);
        let bf = bf.raw(">[-<<+>>]"@);
        let bf = bf.many('>', s - 4);
        let bf = bf.shift_left(s - 4);
        let bf = bf.many('<', s - 2);
        let bf = bf.raw("[->+>>>>>+<<<<<<]>>>>>>[-<<<<<<+>>>>>>]<<<<<<"@);
        bf
    }

    /// Go back from the chunk to the group: unpark the group number.
    #[verifier::opaque]
    pub open spec fn emit_stage2_to_stage1_transition(self, chunk_size: int) -> Bf {
        let bf = self;
        let s = 4 * chunk_size + 5;
        let bf = bf.raw(">[-]<"@);
        let bf = bf.many('>', s - 3);
        let bf = bf.shift_left(s - 3);
        let bf = bf.many('<', s - 3);
        bf
    }

    /// Walk back from the group, with the value where it is carried.
    #[verifier::opaque]
    pub open spec fn emit_stage1_macro_walk_backward(
        self,
        chunk_size: int,
        carry_value: bool,
    ) -> Bf {
        let bf = self;
        let s = 4 * chunk_size + 5;
        let s1 = 256 * s;
        let bf = bf.raw("[-"@);
        let bf = bf.shift_left(s1);
        let bf = if carry_value {
            let bf = bf.raw(">>"@);
            let bf = bf.shift_left(s1);
            let bf = bf.raw("<<"@);
            bf
        } else {
            bf
        };
        let bf = bf.many('<', s1);
        let bf = bf.raw("]"@);
        bf
    }

    /// A new cell with whether `idx` is `i`, and the cell that it was counted down
    /// in.
    #[verifier::opaque]
    pub open spec fn index_is(self, idx: int, i: int) -> (Bf, int, int) {
        let bf = self;
        let (bf, ti) = bf.talloc();
        let bf = bf.copy(idx, ti);
        let bf = if i > 0 {
            let bf = bf.dec(ti, i);
            bf
        } else {
            bf
        };
        let (bf, eq) = bf.talloc();
        let bf = bf.setv(eq, 1);
        let (bf, tc) = bf.talloc();
        let bf = bf.copy(ti, tc);
        let bf = bf.unflag_if(tc, eq);
        let bf = bf.tfree(tc);
        (bf, eq, ti)
    }

    /// Copy element `i` into `result` where the index selects it.
    #[verifier::opaque]
    pub open spec fn read_element(self, idx: int, i: int, at: int, ew: int, result: int) -> Bf {
        let bf = self;
        let (bf, eq, ti) = bf.index_is(idx, i);
        let bf = bf.goto(eq);
        let bf = bf.raw("["@);
        let bf = bf.copy_n(at, result, ew);
        let bf = bf.clear(eq);
        let bf = bf.goto(eq);
        let bf = bf.raw("]"@);
        let bf = bf.tfree(eq);
        let bf = bf.tfree(ti);
        bf
    }

    /// Copy `val` into element `i` where the index selects it.
    #[verifier::opaque]
    pub open spec fn write_element(self, idx: int, i: int, at: int, ew: int, val: int) -> Bf {
        let bf = self;
        let (bf, eq, ti) = bf.index_is(idx, i);
        let bf = bf.goto(eq);
        let bf = bf.raw("["@);
        let bf = bf.store_n(val, at, ew);
        let bf = bf.clear(eq);
        let bf = bf.goto(eq);
        let bf = bf.raw("]"@);
        let bf = bf.tfree(eq);
        let bf = bf.tfree(ti);
        bf
    }

    /// The rounds of [`Bf::store_n`] from the given one on.
    #[verifier::opaque]
    pub open spec fn store_n_rounds(self, src: int, dst: int, n: int, i: int) -> Bf
        decreases n - i,
    {
        if i >= n {
            self
        } else {
            let bf = self;
            let bf = bf.clear(dst + i);
            let bf = bf.copy(src + i, dst + i);
            bf.store_n_rounds(src, dst, n, i + 1)
        }
    }

    /// Clear and copy `n` cells.
    #[verifier::opaque]
    pub open spec fn store_n(self, src: int, dst: int, n: int) -> Bf {
        let bf = self;
        let bf = bf.store_n_rounds(src, dst, n, 0);
        bf
    }

    /// A new cell with whether the counter has reached 0, counted down first but
    /// for the first element.
    #[verifier::opaque]
    pub open spec fn counted_down(self, ti: int, i: int) -> (Bf, int) {
        let bf = self;
        let bf = if i > 0 {
            let bf = bf.dec_n(ti, 2);
            bf
        } else {
            bf
        };
        let (bf, nz) = bf.is_nz_n(ti, 2);
        let (bf, eq) = bf.negate(nz);
        (bf, eq)
    }

    /// Copy an element into `result` where the counter has reached it.
    #[verifier::opaque]
    pub open spec fn read_counted(self, ti: int, i: int, at: int, ew: int, result: int) -> Bf {
        let bf = self;
        let (bf, eq) = bf.counted_down(ti, i);
        let bf = bf.goto(eq);
        let bf = bf.raw("["@);
        let bf = bf.copy_n(at, result, ew);
        let bf = bf.clear(eq);
        let bf = bf.goto(eq);
        let bf = bf.raw("]"@);
        let bf = bf.tfree(eq);
        bf
    }

    /// Copy `val` into an element where the counter has reached it.
    #[verifier::opaque]
    pub open spec fn write_counted(self, ti: int, i: int, at: int, ew: int, val: int) -> Bf {
        let bf = self;
        let (bf, eq) = bf.counted_down(ti, i);
        let bf = bf.goto(eq);
        let bf = bf.raw("["@);
        let bf = bf.store_n(val, at, ew);
        let bf = bf.clear(eq);
        let bf = bf.goto(eq);
        let bf = bf.raw("]"@);
        let bf = bf.tfree(eq);
        bf
    }

    /// The low `w` cells of a value of `ew` cells; the others are free.
    #[verifier::opaque]
    pub open spec fn truncated(self, base: int, ew: int, w: int) -> (Bf, int) {
        let bf = self;
        let (bf, lo) = bf.talloc_n(w);
        let bf = bf.bfmove_n(base, lo, w);
        let bf = bf.clear_range(base, w, ew);
        let bf = bf.tfree_n(base, ew);
        (bf, lo)
    }

    /// A value of `ew` cells in `w` cells.
    #[verifier::opaque]
    pub open spec fn resized(self, base: int, ew: int, w: int) -> (Bf, int) {
        let bf = self;
        if ew == w {
            (bf, base)
        } else {
            if ew < w {
                bf.widen(base, ew, w)
            } else {
                let (bf, r) = bf.truncated(base, ew, w);
                (bf, r)
            }
        }
    }

    /// The low byte of a value; the other cells are free.
    #[verifier::opaque]
    pub open spec fn low_byte(self, base: int, w: int) -> (Bf, int) {
        let bf = self;
        let (bf, lo) = bf.talloc();
        let bf = bf.bfmove(base, lo);
        let bf = bf.tfree_n(base, w);
        let bf = bf.clear_range(base, 1, w);
        let bf = bf.tfree_n(base + 1, w - 1);
        (bf, lo)
    }

    /// The value as a byte.
    #[verifier::opaque]
    pub open spec fn as_byte(self, base: int, w: int) -> (Bf, int) {
        let bf = self;
        if w > 1 {
            bf.low_byte(base, w)
        } else {
            (bf, base)
        }
    }

    /// The low byte of a value to be stored; the other cells are free.
    #[verifier::opaque]
    pub open spec fn store_byte(self, val: int, val_w: int) -> (Bf, int) {
        let bf = self;
        if val_w <= 1 {
            (bf, val)
        } else {
            let (bf, lo) = bf.talloc();
            let bf = bf.bfmove(val, lo);
            let bf = bf.clear_range(val, 1, val_w);
            let bf = bf.tfree_n(val, val_w);
            (bf, lo)
        }
    }

    /// Read the element of a chunked array of at most 256 chunks that `idx`
    /// addresses.
    #[verifier::opaque]
    pub open spec fn read_chunks(self, base: int, idx: int, chunk_size: int, result: int) -> Bf {
        let bf = self;
        let bf = bf.seed_outer_prefix(base, idx);
        let bf = bf.tfree_n(idx, 2);
        let bf = bf.goto(base);
        let bf = bf.emit_outer_walk_read_body(chunk_size);
        let bf = bf.set_ptr(base);
        let bf = bf.extract_outer_walk_result(base, result);
        bf
    }

    /// Read the element of a chunked array of several groups of chunks that `idx`
    /// addresses.
    #[verifier::opaque]
    pub open spec fn read_groups(self, base: int, idx: int, chunk_size: int, result: int) -> Bf {
        let bf = self;
        let bf = bf.seed_outer_prefix_2stage(base, idx, chunk_size);
        let bf = bf.tfree_n(idx, 3);
        let bf = bf.goto(base);
        let bf = bf.emit_stage1_macro_walk_forward(chunk_size, false);
        let bf = bf.emit_stage1_to_stage2_transition(chunk_size);
        let bf = bf.emit_outer_walk_read_body(chunk_size);
        let bf = bf.emit_stage2_to_stage1_transition(chunk_size);
        let bf = bf.emit_stage1_macro_walk_backward(chunk_size, true);
        let bf = bf.set_ptr(base);
        let bf = bf.extract_outer_walk_result(base, result);
        bf
    }

    /// Write the element of a chunked array of at most 256 chunks that `idx`
    /// addresses.
    #[verifier::opaque]
    pub open spec fn write_chunks(self, base: int, idx: int, chunk_size: int, val: int) -> Bf {
        let bf = self;
        let bf = bf.seed_outer_prefix(base, idx);
        let bf = bf.pour(val, base + (4 * chunk_size + 4));
        let bf = bf.tfree_n(idx, 2);
        let bf = bf.tfree(val);
        let bf = bf.goto(base);
        let bf = bf.emit_outer_walk_write_body(chunk_size);
        let bf = bf.set_ptr(base);
        let bf = bf.clear(base + 1);
        bf
    }

    /// Write the element of a chunked array of several groups of chunks that `idx`
    /// addresses.
    #[verifier::opaque]
    pub open spec fn write_groups(self, base: int, idx: int, chunk_size: int, val: int) -> Bf {
        let bf = self;
        let bf = bf.seed_outer_prefix_2stage(base, idx, chunk_size);
        let bf = bf.pour(val, base + (4 * chunk_size + 4));
        let bf = bf.tfree_n(idx, 3);
        let bf = bf.tfree(val);
        let bf = bf.goto(base);
        let bf = bf.emit_stage1_macro_walk_forward(chunk_size, true);
        let bf = bf.emit_stage1_to_stage2_transition(chunk_size);
        let bf = bf.emit_outer_walk_write_body(chunk_size);
        let bf = bf.emit_stage2_to_stage1_transition(chunk_size);
        let bf = bf.emit_stage1_macro_walk_backward(chunk_size, false);
        let bf = bf.set_ptr(base);
        bf
    }
}

impl BfEmitter {
    /// Move `src` to `dst`, counting down first; `src` becomes 0.
    pub(crate) fn pour(&mut self, src: u128, dst: u128)
        requires
            old(self).wf(),
        ensures
            final(self).wf(),
            final(self)@ == old(self)@.pour(src as int, dst as int),
    {
        proof {
            reveal(Bf::pour);
        }
        self.goto(src);
        self.raw("[-");
        self.goto(dst);
        self.raw("+");
        self.goto(src);
        self.raw("]");
    }

    /// Read the element at `local_offset` of a chunk into `result`. A counter walks
    /// through the chunk in strides of four cells, leaves a survivor that brings
    /// the value back, and is free.
    pub(crate) fn walk_read_chunk(&mut self, chunk_base: u128, local_offset: u128, result: u128)
        requires
            old(self).wf(),
            block(chunk_base as int, 3),
        ensures
            final(self).wf(),
            final(self)@ == old(self)@.walk_read_chunk(chunk_base as int, local_offset as int, result as int),
    {
        proof {
            reveal(Bf::walk_read_chunk);
        }
        self.clear(chunk_base);
        self.clear(chunk_base + 1);
        self.clear(chunk_base + 2);
        self.pour(local_offset, chunk_base);
        self.tfree(local_offset);
        self.goto(chunk_base);
        self.raw("[->+>+<<]>>[-<<+>>]<<");
        self.raw("[-[->>>>+<<<<]>[->>>>+<<<<]<>>>>]");
        self.raw(">>>");
        self.raw("<[-]>[-<+>>+<]>[-<+>]<");
        self.raw("<<");
        self.raw("[-[-<<<<+>>>>]>[-<<<<+>>>>]<<<<<]");
        self.set_ptr(chunk_base + 1);
        self.pour(chunk_base + 2, result);
    }

    /// Write `val` to the element at `local_offset` of a chunk; both are free.
    pub(crate) fn walk_write_chunk(&mut self, chunk_base: u128, local_offset: u128, val: u128)
        requires
            old(self).wf(),
            block(chunk_base as int, 3),
        ensures
            final(self).wf(),
            final(self)@ == old(self)@.walk_write_chunk(chunk_base as int, local_offset as int, val as int),
    {
        proof {
            reveal(Bf::walk_write_chunk);
        }
        self.clear(chunk_base);
        self.clear(chunk_base + 1);
        self.clear(chunk_base + 2);
        self.pour(local_offset, chunk_base);
        self.tfree(local_offset);
        self.pour(val, chunk_base + 2);
        self.tfree(val);
        self.goto(chunk_base);
        self.raw("[->+>>>>>+<<<<<<]>>>>>>[-<<<<<<+>>>>>>]<<<<<<");
        self.raw("[-[->>>>+<<<<]>[->>>>+<<<<]>[->>>>+<<<<]<<>>>>]");
        self.raw(">>>");
        self.raw("[-]<[->+<]<");
        self.raw("[-[-<<<<+>>>>]<<<<]");
        self.set_ptr(chunk_base + 1);
    }

    /// Take the value that a read over chunks has brought back.
    pub(crate) fn extract_outer_walk_result(&mut self, base: u128, result: u128)
        requires
            old(self).wf(),
            block(base as int, 3),
        ensures
            final(self).wf(),
            final(self)@ == old(self)@.extract_outer_walk_result(base as int, result as int),
    {
        proof {
            reveal(Bf::extract_outer_walk_result);
        }
        self.clear(base + 1);
        self.pour(base + 2, result);
    }

    /// Move the chunk number and the offset of an index into the first chunk's
    /// prefix cells.
    pub(crate) fn seed_outer_prefix(&mut self, base: u128, idx: u128)
        requires
            old(self).wf(),
            block(base as int, 3),
            block(idx as int, 2),
        ensures
            final(self).wf(),
            final(self)@ == old(self)@.seed_outer_prefix(base as int, idx as int),
    {
        proof {
            reveal(Bf::seed_outer_prefix);
        }
        self.goto(idx + 1);
        self.raw("[-");
        self.goto(base);
        self.raw("+>+<");
        self.goto(idx + 1);
        self.raw("]");
        self.pour(idx, base + 2);
    }

    /// Move the group, the chunk number and the offset of an index into the first
    /// chunk's prefix cells.
    pub(crate) fn seed_outer_prefix_2stage(&mut self, base: u128, idx: u128, chunk_size: u128)
        requires
            old(self).wf(),
            block(base as int, 3),
            block(idx as int, 3),
            chunk_size <= CHUNK_LIMIT,
        ensures
            final(self).wf(),
            final(self)@ == old(self)@.seed_outer_prefix_2stage(base as int, idx as int, chunk_size as int),
    {
        proof {
            reveal(Bf::seed_outer_prefix_2stage);
        }
        self.goto(idx + 2);
        self.raw("[-");
        self.goto(base);
        self.raw("+>+<");
        self.goto(idx + 2);
        self.raw("]");
        self.pour(idx + 1, base + 2);
        self.pour(idx, base + (4 * chunk_size + 3));
    }

    /// Move a cell by `n` to the right.
    pub(crate) fn shift_right(&mut self, n: u128)
        requires
            old(self).wf(),
        ensures
            final(self).wf(),
            final(self)@ == old(self)@.shift_right(n as int),
    {
        proof {
            reveal(Bf::shift_right);
        }
        self.raw("[-");
        self.many('>', n);
        self.raw("+");
        self.many('<', n);
        self.raw("]");
    }

    /// Move a cell by `n` to the left.
    pub(crate) fn shift_left(&mut self, n: u128)
        requires
            old(self).wf(),
        ensures
            final(self).wf(),
            final(self)@ == old(self)@.shift_left(n as int),
    {
        proof {
            reveal(Bf::shift_left);
        }
        self.raw("[-");
        self.many('<', n);
        self.raw("+");
        self.many('>', n);
        self.raw("]");
    }

    /// Walk to the chunk with three prefix cells.
    pub(crate) fn forward_three(&mut self, s: u128)
        requires
            old(self).wf(),
        ensures
            final(self).wf(),
            final(self)@ == old(self)@.forward_three(s as int),
    {
        proof {
            reveal(Bf::forward_three);
        }
        self.raw("[-");
        self.shift_right(s);
        self.raw(">");
        self.shift_right(s);
        self.raw(">");
        self.shift_right(s);
        self.raw("<<");
        self.many('>', s);
        self.raw("]");
    }

    /// Walk back from the chunk with three prefix cells.
    pub(crate) fn backward_three(&mut self, s: u128)
        requires
            old(self).wf(),
        ensures
            final(self).wf(),
            final(self)@ == old(self)@.backward_three(s as int),
    {
        proof {
            reveal(Bf::backward_three);
        }
        self.raw("[-");
        self.shift_left(s);
        self.raw(">");
        self.shift_left(s);
        self.raw(">");
        self.shift_left(s);
        self.raw("<<");
        self.many('<', s);
        self.raw("]");
    }

    /// Bring the chunk number back from the end of the chunk, twice.
    pub(crate) fn restore_chunk_id(&mut self, s: u128)
        requires
            old(self).wf(),
            3 <= s,
        ensures
            final(self).wf(),
            final(self)@ == old(self)@.restore_chunk_id(s as int),
    {
        proof {
            reveal(Bf::restore_chunk_id);
        }
        self.many('>', s - 3);
        self.shift_left(s - 2);
        self.many('<', s - 2);
        self.raw("[->+>>>+<<<<]>>>>[-<<<<+>>>>]<<<<");
    }

    /// Read over chunks: from the first chunk's prefix cells to the addressed
    /// element and back.
    pub(crate) fn emit_outer_walk_read_body(&mut self, chunk_size: u128)
        requires
            old(self).wf(),
            chunk_size <= CHUNK_LIMIT,
        ensures
            final(self).wf(),
            final(self)@ == old(self)@.emit_outer_walk_read_body(chunk_size as int),
    {
        proof {
            reveal(Bf::emit_outer_walk_read_body);
        }
        let s: u128 = 4 * chunk_size + 5;
        self.forward_three(s);
        self.raw(">");
        self.shift_right(s - 3);
        self.raw("<");
        self.raw(">>[-<+<+>>]<<");
        self.raw("[-[->>>>+<<<<]>[->>>>+<<<<]<>>>>]");
        self.raw(">>>");
        self.raw("<[-]>[-<+>>+<]>[-<+>]<");
        self.raw("<<");
        self.raw("[-[-<<<<+>>>>]>[-<<<<+>>>>]<<<<<]");
        self.restore_chunk_id(s);
        self.backward_three(s);
    }

    /// Write over chunks: from the first chunk's prefix cells to the addressed
    /// element and back.
    pub(crate) fn emit_outer_walk_write_body(&mut self, chunk_size: u128)
        requires
            old(self).wf(),
            chunk_size <= CHUNK_LIMIT,
        ensures
            final(self).wf(),
            final(self)@ == old(self)@.emit_outer_walk_write_body(chunk_size as int),
    {
        proof {
            reveal(Bf::emit_outer_walk_write_body);
        }
        let s: u128 = 4 * chunk_size + 5;
        self.raw("[-");
        self.shift_right(s);
        self.raw(">");
        self.shift_right(s);
        self.raw(">");
        self.shift_right(s);
        self.many('>', s - 3);
        self.shift_right(s);
        self.many('<', s - 1);
        self.many('>', s);
        self.raw("]");
        self.raw(">");
        self.shift_right(s - 3);
        self.raw("<");
        self.raw(">>[-<<+>>]<<");
        self.many('>', s - 1);
        self.shift_left(s - 3);
        self.many('<', s - 1);
        self.raw("[->+>>>>>+<<<<<<]>>>>>>[-<<<<<<+>>>>>>]<<<<<<");
        self.raw("[-[->>>>+<<<<]>[->>>>+<<<<]>[->>>>+<<<<]<<>>>>]");
        self.raw(">>>");
        self.raw("[-]<[->+<]<");
        self.raw("[-[-<<<<+>>>>]<<<<]");
        self.restore_chunk_id(s);
        self.backward_three(s);
    }

    /// Walk to the group with the prefix cells, and the value where there is one.
    pub(crate) fn emit_stage1_macro_walk_forward(&mut self, chunk_size: u128, with_val: bool)
        requires
            old(self).wf(),
            chunk_size <= CHUNK_LIMIT,
        ensures
            final(self).wf(),
            final(self)@ == old(self)@.emit_stage1_macro_walk_forward(chunk_size as int, with_val),
    {
        proof {
            reveal(Bf::emit_stage1_macro_walk_forward);
        }
        let s: u128 = 4 * chunk_size + 5;
        let s1: u128 = 256 * s;
        self.raw("[-");
        self.shift_right(s1);
        self.raw(">");
        self.shift_right(s1);
        self.raw(">");
        self.shift_right(s1);
        self.many('>', s - 4);
        self.shift_right(s1);
        if with_val {
            self.raw(">");
            self.shift_right(s1);
            self.many('<', s - 1);
        } else {
            self.many('<', s - 2);
        }
        self.many('>', s1);
        self.raw("]");
    }

    /// Go over from the group to the chunk: park the group number and move the
    /// chunk number and the offset to their places.
    pub(crate) fn emit_stage1_to_stage2_transition(&mut self, chunk_size: u128)
        requires
            old(self).wf(),
            chunk_size <= CHUNK_LIMIT,
        ensures
            final(self).wf(),
            final(self)@ == old(self)@.emit_stage1_to_stage2_transition(chunk_size as int),
    {
        proof {
            reveal(Bf::emit_stage1_to_stage2_transition);
        }
        let s: u128 = 4 * chunk_size + 5;
        self.raw(">");
        self.shift_right(s - 4);
        self.raw(">[-<<+>>]");
        self.many('>', s - 4);
        self.shift_left(s - 4);
        self.many('<', s - 2);
        self.raw("[->+>>>>>+<<<<<<]>>>>>>[-<<<<<<+>>>>>>]<<<<<<");
    }

    /// Go back from the chunk to the group: unpark the group number.
    pub(crate) fn emit_stage2_to_stage1_transition(&mut self, chunk_size: u128)
        requires
            old(self).wf(),
            chunk_size <= CHUNK_LIMIT,
        ensures
            final(self).wf(),
            final(self)@ == old(self)@.emit_stage2_to_stage1_transition(chunk_size as int),
    {
        proof {
            reveal(Bf::emit_stage2_to_stage1_transition);
        }
        let s: u128 = 4 * chunk_size + 5;
        self.raw(">[-]<");
        self.many('>', s - 3);
        self.shift_left(s - 3);
        self.many('<', s - 3);
    }

    /// Walk back from the group, with the value where it is carried.
    pub(crate) fn emit_stage1_macro_walk_backward(&mut self, chunk_size: u128, carry_value: bool)
        requires
            old(self).wf(),
            chunk_size <= CHUNK_LIMIT,
        ensures
            final(self).wf(),
            final(self)@ == old(self)@.emit_stage1_macro_walk_backward(chunk_size as int, carry_value),
    {
        proof {
            reveal(Bf::emit_stage1_macro_walk_backward);
        }
        let s: u128 = 4 * chunk_size + 5;
        let s1: u128 = 256 * s;
        self.raw("[-");
        self.shift_left(s1);
        if carry_value {
            self.raw(">>");
            self.shift_left(s1);
            self.raw("<<");
        }
        self.many('<', s1);
        self.raw("]");
    }

    /// A new cell with whether `idx` is `i`, and the cell that it was counted down
    /// in.
    pub(crate) fn index_is(&mut self, idx: u128, i: u128) -> (r: (u128, u128))
        requires
            old(self).wf(),
        ensures
            final(self).wf(),
            (final(self)@, r.0 as int, r.1 as int) == old(self)@.index_is(idx as int, i as int),
            r.0 <= CELL_LIMIT,
            r.1 <= CELL_LIMIT,
    {
        proof {
            reveal(Bf::index_is);
        }
        let ti = self.talloc();
        self.copy(idx, ti);
        if i > 0 {
            self.dec(ti, i);
        }
        let eq = self.talloc();
        self.setv(eq, 1);
        let tc = self.talloc();
        self.copy(ti, tc);
        self.unflag_if(tc, eq);
        self.tfree(tc);
        (eq, ti)
    }

    /// Copy element `i` into `result` where the index selects it.
    pub(crate) fn read_element(&mut self, idx: u128, i: u128, at: u128, ew: u128, result: u128)
        requires
            old(self).wf(),
            block(at as int, ew as int),
            block(result as int, ew as int),
        ensures
            final(self).wf(),
            final(self)@ == old(self)@.read_element(idx as int, i as int, at as int, ew as int, result as int),
    {
        proof {
            reveal(Bf::read_element);
        }
        let (eq, ti) = self.index_is(idx, i);
        self.goto(eq);
        self.raw("[");
        self.copy_n(at, result, ew);
        self.clear(eq);
        self.goto(eq);
        self.raw("]");
        self.tfree(eq);
        self.tfree(ti);
    }

    /// Copy `val` into element `i` where the index selects it.
    pub(crate) fn write_element(&mut self, idx: u128, i: u128, at: u128, ew: u128, val: u128)
        requires
            old(self).wf(),
            block(at as int, ew as int),
            block(val as int, ew as int),
        ensures
            final(self).wf(),
            final(self)@ == old(self)@.write_element(idx as int, i as int, at as int, ew as int, val as int),
    {
        proof {
            reveal(Bf::write_element);
        }
        let (eq, ti) = self.index_is(idx, i);
        self.goto(eq);
        self.raw("[");
        self.store_n(val, at, ew);
        self.clear(eq);
        self.goto(eq);
        self.raw("]");
        self.tfree(eq);
        self.tfree(ti);
    }

    /// Clear and copy `n` cells.
    pub(crate) fn store_n(&mut self, src: u128, dst: u128, n: u128)
        requires
            old(self).wf(),
            block(src as int, n as int),
            block(dst as int, n as int),
        ensures
            final(self).wf(),
            final(self)@ == old(self)@.store_n(src as int, dst as int, n as int),
    {
        proof {
            reveal(Bf::store_n);
        }
        let mut i: u128 = 0;
        let ghost goal = self@.store_n_rounds(src as int, dst as int, n as int, i as int);
        while i < n
            invariant
                self.wf(),
                block(src as int, n as int),
                block(dst as int, n as int),
                self@.store_n_rounds(src as int, dst as int, n as int, i as int) == goal,
            decreases n - i,
        {
            proof {
                reveal(Bf::store_n_rounds);
            }
            self.clear(dst + i);
            self.copy(src + i, dst + i);
            i += 1;
        }
        proof {
            reveal(Bf::store_n_rounds);
        }
    }

    /// A new cell with whether the counter has reached 0, counted down first but
    /// for the first element.
    pub(crate) fn counted_down(&mut self, ti: u128, i: u128) -> (r: u128)
        requires
            old(self).wf(),
            block(ti as int, 2),
        ensures
            final(self).wf(),
            (final(self)@, r as int) == old(self)@.counted_down(ti as int, i as int),
            r <= CELL_LIMIT,
    {
        proof {
            reveal(Bf::counted_down);
        }
        if i > 0 {
            self.dec_n(ti, 2);
        }
        let nz = self.is_nz_n(ti, 2);
        let eq = self.negate(nz);
        eq
    }

    /// Copy an element into `result` where the counter has reached it.
    pub(crate) fn read_counted(&mut self, ti: u128, i: u128, at: u128, ew: u128, result: u128)
        requires
            old(self).wf(),
            block(ti as int, 2),
            block(at as int, ew as int),
            block(result as int, ew as int),
        ensures
            final(self).wf(),
            final(self)@ == old(self)@.read_counted(ti as int, i as int, at as int, ew as int, result as int),
    {
        proof {
            reveal(Bf::read_counted);
        }
        let eq = self.counted_down(ti, i);
        self.goto(eq);
        self.raw("[");
        self.copy_n(at, result, ew);
        self.clear(eq);
        self.goto(eq);
        self.raw("]");
        self.tfree(eq);
    }

    /// Copy `val` into an element where the counter has reached it.
    pub(crate) fn write_counted(&mut self, ti: u128, i: u128, at: u128, ew: u128, val: u128)
        requires
            old(self).wf(),
            block(ti as int, 2),
            block(at as int, ew as int),
            block(val as int, ew as int),
        ensures
            final(self).wf(),
            final(self)@ == old(self)@.write_counted(ti as int, i as int, at as int, ew as int, val as int),
    {
        proof {
            reveal(Bf::write_counted);
        }
        let eq = self.counted_down(ti, i);
        self.goto(eq);
        self.raw("[");
        self.store_n(val, at, ew);
        self.clear(eq);
        self.goto(eq);
        self.raw("]");
        self.tfree(eq);
    }

    /// The low `w` cells of a value of `ew` cells; the others are free.
    pub(crate) fn truncated(&mut self, base: u128, ew: u128, w: u128) -> (r: u128)
        requires
            old(self).wf(),
            block(base as int, ew as int),
            w <= CELL_LIMIT,
        ensures
            final(self).wf(),
            (final(self)@, r as int) == old(self)@.truncated(base as int, ew as int, w as int),
            r <= CELL_LIMIT,
    {
        proof {
            reveal(Bf::truncated);
        }
        let lo = self.talloc_n(w);
        self.bfmove_n(base, lo, w);
        self.clear_range(base, w, ew);
        self.tfree_n(base, ew);
        lo
    }

    /// A value of `ew` cells in `w` cells.
    pub(crate) fn resized(&mut self, base: u128, ew: u128, w: u128) -> (r: u128)
        requires
            old(self).wf(),
            block(base as int, ew as int),
            w <= CELL_LIMIT,
        ensures
            final(self).wf(),
            (final(self)@, r as int) == old(self)@.resized(base as int, ew as int, w as int),
            r <= CELL_LIMIT,
    {
        proof {
            reveal(Bf::resized);
        }
        if ew == w {
            return base;
        }
        if ew < w {
            return self.widen(base, ew, w);
        }
        let r = self.truncated(base, ew, w);
        r
    }

    /// The low byte of a value; the other cells are free.
    pub(crate) fn low_byte(&mut self, base: u128, w: u128) -> (r: u128)
        requires
            old(self).wf(),
            block(base as int, w as int),
            w >= 2,
        ensures
            final(self).wf(),
            (final(self)@, r as int) == old(self)@.low_byte(base as int, w as int),
            r <= CELL_LIMIT,
    {
        proof {
            reveal(Bf::low_byte);
        }
        let lo = self.talloc();
        self.bfmove(base, lo);
        self.tfree_n(base, w);
        self.clear_range(base, 1, w);
        self.tfree_n(base + 1, w - 1);
        lo
    }

    /// The value as a byte.
    pub(crate) fn as_byte(&mut self, base: u128, w: u128) -> (r: u128)
        requires
            old(self).wf(),
            block(base as int, w as int),
        ensures
            final(self).wf(),
            (final(self)@, r as int) == old(self)@.as_byte(base as int, w as int),
            r <= CELL_LIMIT,
    {
        proof {
            reveal(Bf::as_byte);
        }
        if w > 1 {
            return self.low_byte(base, w);
        }
        base
    }

    /// The low byte of a value to be stored; the other cells are free.
    pub(crate) fn store_byte(&mut self, val: u128, val_w: u128) -> (r: u128)
        requires
            old(self).wf(),
            block(val as int, val_w as int),
        ensures
            final(self).wf(),
            (final(self)@, r as int) == old(self)@.store_byte(val as int, val_w as int),
            r <= CELL_LIMIT,
    {
        proof {
            reveal(Bf::store_byte);
        }
        if val_w <= 1 {
            return val;
        }
        let lo = self.talloc();
        self.bfmove(val, lo);
        self.clear_range(val, 1, val_w);
        self.tfree_n(val, val_w);
        lo
    }

    /// Read the element of a chunked array of at most 256 chunks that `idx`
    /// addresses.
    pub(crate) fn read_chunks(&mut self, base: u128, idx: u128, chunk_size: u128, result: u128)
        requires
            old(self).wf(),
            block(base as int, 3),
            block(idx as int, 2),
            chunk_size <= CHUNK_LIMIT,
        ensures
            final(self).wf(),
            final(self)@ == old(self)@.read_chunks(base as int, idx as int, chunk_size as int, result as int),
    {
        proof {
            reveal(Bf::read_chunks);
        }
        self.seed_outer_prefix(base, idx);
        self.tfree_n(idx, 2);
        self.goto(base);
        self.emit_outer_walk_read_body(chunk_size);
        self.set_ptr(base);
        self.extract_outer_walk_result(base, result);
    }

    /// Read the element of a chunked array of several groups of chunks that `idx`
    /// addresses.
    pub(crate) fn read_groups(&mut self, base: u128, idx: u128, chunk_size: u128, result: u128)
        requires
            old(self).wf(),
            block(base as int, 3),
            block(idx as int, 3),
            chunk_size <= CHUNK_LIMIT,
        ensures
            final(self).wf(),
            final(self)@ == old(self)@.read_groups(base as int, idx as int, chunk_size as int, result as int),
    {
        proof {
            reveal(Bf::read_groups);
        }
        self.seed_outer_prefix_2stage(base, idx, chunk_size);
        self.tfree_n(idx, 3);
        self.goto(base);
        self.emit_stage1_macro_walk_forward(chunk_size, false);
        self.emit_stage1_to_stage2_transition(chunk_size);
        self.emit_outer_walk_read_body(chunk_size);
        self.emit_stage2_to_stage1_transition(chunk_size);
        self.emit_stage1_macro_walk_backward(chunk_size, true);
        self.set_ptr(base);
        self.extract_outer_walk_result(base, result);
    }

    /// Write the element of a chunked array of at most 256 chunks that `idx`
    /// addresses.
    pub(crate) fn write_chunks(&mut self, base: u128, idx: u128, chunk_size: u128, val: u128)
        requires
            old(self).wf(),
            block(base as int, 3),
            block(idx as int, 2),
            chunk_size <= CHUNK_LIMIT,
        ensures
            final(self).wf(),
            final(self)@ == old(self)@.write_chunks(base as int, idx as int, chunk_size as int, val as int),
    {
        proof {
            reveal(Bf::write_chunks);
        }
        self.seed_outer_prefix(base, idx);
        self.pour(val, base + (4 * chunk_size + 4));
        self.tfree_n(idx, 2);
        self.tfree(val);
        self.goto(base);
        self.emit_outer_walk_write_body(chunk_size);
        self.set_ptr(base);
        self.clear(base + 1);
    }

    /// Write the element of a chunked array of several groups of chunks that `idx`
    /// addresses.
    pub(crate) fn write_groups(&mut self, base: u128, idx: u128, chunk_size: u128, val: u128)
        requires
            old(self).wf(),
            block(base as int, 3),
            block(idx as int, 3),
            chunk_size <= CHUNK_LIMIT,
        ensures
            final(self).wf(),
            final(self)@ == old(self)@.write_groups(base as int, idx as int, chunk_size as int, val as int),
    {
        proof {
            reveal(Bf::write_groups);
        }
        self.seed_outer_prefix_2stage(base, idx, chunk_size);
        self.pour(val, base + (4 * chunk_size + 4));
        self.tfree_n(idx, 3);
        self.tfree(val);
        self.goto(base);
        self.emit_stage1_macro_walk_forward(chunk_size, true);
        self.emit_stage1_to_stage2_transition(chunk_size);
        self.emit_outer_walk_write_body(chunk_size);
        self.emit_stage2_to_stage1_transition(chunk_size);
        self.emit_stage1_macro_walk_backward(chunk_size, false);
        self.set_ptr(base);
    }
}

impl Bf {
    /// Copy the selected element from `at` on into `result`.
    #[verifier::opaque]
    pub open spec fn read_all(self, idx: int, at: int, i: int, n: int, ew: int, result: int) -> Bf
        decreases n - i,
    {
        if i >= n {
            self
        } else {
            self.read_element(idx, i, at, ew, result).read_all(idx, at + ew, i + 1, n, ew, result)
        }
    }

    /// Copy the selected element from `at` on into `result`.
    #[verifier::opaque]
    pub open spec fn read_all_counted(
        self,
        ti: int,
        at: int,
        i: int,
        n: int,
        ew: int,
        result: int,
    ) -> Bf
        decreases n - i,
    {
        if i >= n {
            self
        } else {
            self.read_counted(ti, i, at, ew, result).read_all_counted(ti, at + ew, i + 1, n, ew, result)
        }
    }

    /// Copy `val` into the selected element from `at` on.
    #[verifier::opaque]
    pub open spec fn write_all(self, idx: int, at: int, i: int, n: int, ew: int, val: int) -> Bf
        decreases n - i,
    {
        if i >= n {
            self
        } else {
            self.write_element(idx, i, at, ew, val).write_all(idx, at + ew, i + 1, n, ew, val)
        }
    }

    /// Copy `val` into the selected element from `at` on.
    #[verifier::opaque]
    pub open spec fn write_all_counted(
        self,
        ti: int,
        at: int,
        i: int,
        n: int,
        ew: int,
        val: int,
    ) -> Bf
        decreases n - i,
    {
        if i >= n {
            self
        } else {
            self.write_counted(ti, i, at, ew, val).write_all_counted(ti, at + ew, i + 1, n, ew, val)
        }
    }
}

impl BfEmitter {
    /// Copy the selected element from `at` on into `result`.
    pub(crate) fn read_all(&mut self, idx: u128, base: u128, n: u128, ew: u128, result: u128)
        requires
            old(self).wf(),
            base + n * ew <= CELL_LIMIT,
            block(result as int, ew as int),
        ensures
            final(self).wf(),
            final(self)@ == old(self)@.read_all(
                idx as int,
                base as int,
                0,
                n as int,
                ew as int,
                result as int,
            ),
    {
        let mut i: u128 = 0;
        let mut at: u128 = base;
        let ghost goal = self@.read_all(
            idx as int,
            base as int,
            0,
            n as int,
            ew as int,
            result as int,
        );
        while i < n
            invariant
                self.wf(),
                i <= n,
                at + (n - i) * ew <= CELL_LIMIT,
                block(result as int, ew as int),
                self@.read_all(
                    idx as int,
                    at as int,
                    i as int,
                    n as int,
                    ew as int,
                    result as int,
                ) == goal,
            decreases n - i,
        {
            proof {
                reveal(Bf::read_all);
                assert((n - i) * ew == (n - i - 1) * ew + ew) by (nonlinear_arith);
                assert((n - i - 1) * ew >= 0) by (nonlinear_arith)
                    requires
                        n - i - 1 >= 0,
                        ew >= 0,
                ;
            }
            self.read_element(idx, i, at, ew, result);
            at = at + ew;
            i += 1;
        }
        proof {
            reveal(Bf::read_all);
        }
    }

    /// Copy the selected element from `at` on into `result`.
    pub(crate) fn read_all_counted(&mut self, ti: u128, base: u128, n: u128, ew: u128, result: u128)
        requires
            old(self).wf(),
            base + n * ew <= CELL_LIMIT,
            block(ti as int, 2),
            block(result as int, ew as int),
        ensures
            final(self).wf(),
            final(self)@ == old(self)@.read_all_counted(
                ti as int,
                base as int,
                0,
                n as int,
                ew as int,
                result as int,
            ),
    {
        let mut i: u128 = 0;
        let mut at: u128 = base;
        let ghost goal = self@.read_all_counted(
            ti as int,
            base as int,
            0,
            n as int,
            ew as int,
            result as int,
        );
        while i < n
            invariant
                self.wf(),
                i <= n,
                at + (n - i) * ew <= CELL_LIMIT,
                block(ti as int, 2),
                block(result as int, ew as int),
                self@.read_all_counted(
                    ti as int,
                    at as int,
                    i as int,
                    n as int,
                    ew as int,
                    result as int,
                ) == goal,
            decreases n - i,
        {
            proof {
                reveal(Bf::read_all_counted);
                assert((n - i) * ew == (n - i - 1) * ew + ew) by (nonlinear_arith);
                assert((n - i - 1) * ew >= 0) by (nonlinear_arith)
                    requires
                        n - i - 1 >= 0,
                        ew >= 0,
                ;
            }
            self.read_counted(ti, i, at, ew, result);
            at = at + ew;
            i += 1;
        }
        proof {
            reveal(Bf::read_all_counted);
        }
    }

    /// Copy `val` into the selected element from `at` on.
    pub(crate) fn write_all(&mut self, idx: u128, base: u128, n: u128, ew: u128, val: u128)
        requires
            old(self).wf(),
            base + n * ew <= CELL_LIMIT,
            block(val as int, ew as int),
        ensures
            final(self).wf(),
            final(self)@ == old(self)@.write_all(
                idx as int,
                base as int,
                0,
                n as int,
                ew as int,
                val as int,
            ),
    {
        let mut i: u128 = 0;
        let mut at: u128 = base;
        let ghost goal = self@.write_all(
            idx as int,
            base as int,
            0,
            n as int,
            ew as int,
            val as int,
        );
        while i < n
            invariant
                self.wf(),
                i <= n,
                at + (n - i) * ew <= CELL_LIMIT,
                block(val as int, ew as int),
                self@.write_all(
                    idx as int,
                    at as int,
                    i as int,
                    n as int,
                    ew as int,
                    val as int,
                ) == goal,
            decreases n - i,
        {
            proof {
                reveal(Bf::write_all);
                assert((n - i) * ew == (n - i - 1) * ew + ew) by (nonlinear_arith);
                assert((n - i - 1) * ew >= 0) by (nonlinear_arith)
                    requires
                        n - i - 1 >= 0,
                        ew >= 0,
                ;
            }
            self.write_element(idx, i, at, ew, val);
            at = at + ew;
            i += 1;
        }
        proof {
            reveal(Bf::write_all);
        }
    }

    /// Copy `val` into the selected element from `at` on.
    pub(crate) fn write_all_counted(&mut self, ti: u128, base: u128, n: u128, ew: u128, val: u128)
        requires
            old(self).wf(),
            base + n * ew <= CELL_LIMIT,
            block(ti as int, 2),
            block(val as int, ew as int),
        ensures
            final(self).wf(),
            final(self)@ == old(self)@.write_all_counted(
                ti as int,
                base as int,
                0,
                n as int,
                ew as int,
                val as int,
            ),
    {
        let mut i: u128 = 0;
        let mut at: u128 = base;
        let ghost goal = self@.write_all_counted(
            ti as int,
            base as int,
            0,
            n as int,
            ew as int,
            val as int,
        );
        while i < n
            invariant
                self.wf(),
                i <= n,
                at + (n - i) * ew <= CELL_LIMIT,
                block(ti as int, 2),
                block(val as int, ew as int),
                self@.write_all_counted(
                    ti as int,
                    at as int,
                    i as int,
                    n as int,
                    ew as int,
                    val as int,
                ) == goal,
            decreases n - i,
        {
            proof {
                reveal(Bf::write_all_counted);
                assert((n - i) * ew == (n - i - 1) * ew + ew) by (nonlinear_arith);
                assert((n - i - 1) * ew >= 0) by (nonlinear_arith)
                    requires
                        n - i - 1 >= 0,
                        ew >= 0,
                ;
            }
            self.write_counted(ti, i, at, ew, val);
            at = at + ew;
            i += 1;
        }
        proof {
            reveal(Bf::write_all_counted);
        }
    }
}

} // verus!
