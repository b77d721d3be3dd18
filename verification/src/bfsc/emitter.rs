//! The Brainfuck emitter's basic steps.
//!
//! [`BfEmitter`] appends Brainfuck to a text. It knows where the emitted code
//! leaves the data pointer and which temporary cells are in use. [`Bf`] is its
//! state as a mathematical value; every step of the emitter is a function on
//! it.

use vstd::prelude::*;

use crate::bfsc::layout::{CELL_LIMIT, DECL_CELLS};
use crate::text::repeat;

verus! {

/// The state of the emitter.
#[verifier::ext_equal]
pub struct Bf {
    /// The text so far.
    pub out: Seq<char>,
    /// The cell where the emitted code leaves the data pointer.
    pub ptr: int,
    /// The temporary cells in use, counted from the first one.
    pub used: Set<int>,
    /// The first temporary cell.
    pub temp_base: int,
}

/// No chunk of an array is longer.
pub const CHUNK_LIMIT: u128 = 0x1_0000_0000;

/// A cell number and a number of cells that can be added.
pub open spec fn block(base: int, n: int) -> bool {
    0 <= base <= CELL_LIMIT && 0 <= n <= CELL_LIMIT
}

/// `n` cells from `i` on are free.
pub open spec fn free_run(used: Set<int>, i: int, n: int) -> bool {
    forall|k: int| 0 <= k < n ==> !#[trigger] used.contains(i + k)
}

/// `i` is the lowest place for `n` cells.
pub open spec fn lowest_run(used: Set<int>, i: int, n: int) -> bool {
    &&& 0 <= i
    &&& free_run(used, i, n)
    &&& forall|j: int| 0 <= j < i ==> !#[trigger] free_run(used, j, n)
}

/// The lowest place for `n` cells.
pub open spec fn lowest_free(used: Set<int>, n: int) -> int {
    choose|i: int| lowest_run(used, i, n)
}

/// There is only one lowest place.
pub proof fn lemma_lowest_free(used: Set<int>, n: int, i: int)
    requires
        lowest_run(used, i, n),
    ensures
        lowest_free(used, n) == i,
{
    let j = lowest_free(used, n);
    assert(lowest_run(used, j, n));
    if j < i {
        assert(!free_run(used, j, n));
    }
    if i < j {
        assert(!free_run(used, i, n));
    }
}

/// Byte `i` of a number, low byte first.
pub open spec fn nth_byte_of(val: int, i: int) -> int {
    if i == 0 {
        val % 256
    } else if i == 1 {
        val / 0x100 % 256
    } else if i == 2 {
        val / 0x1_0000 % 256
    } else if i == 3 {
        val / 0x100_0000 % 256
    } else {
        0
    }
}

fn nth_byte(val: u32, i: u128) -> (b: u8)
    ensures
        b == nth_byte_of(val as int, i as int),
{
    if i == 0 {
        (val % 256) as u8
    } else if i == 1 {
        (val / 0x100 % 256) as u8
    } else if i == 2 {
        (val / 0x1_0000 % 256) as u8
    } else if i == 3 {
        (val / 0x100_0000 % 256) as u8
    } else {
        0
    }
}

impl Bf {
    /// Nothing is emitted.
    pub open spec fn start(temp_base: int) -> Bf {
        Bf { out: Seq::empty(), ptr: 0, used: Set::empty(), temp_base }
    }

    /// Append text.
    pub open spec fn raw(self, text: Seq<char>) -> Bf {
        Bf { out: self.out + text, ..self }
    }

    /// Append a character a number of times.
    pub open spec fn many(self, c: char, n: int) -> Bf {
        self.raw(repeat(c, n as nat))
    }

    /// The number of a temporary cell, 0 for other cells.
    pub open spec fn temp_index(self, cell: int) -> int {
        if cell < self.temp_base {
            0
        } else {
            cell - self.temp_base
        }
    }

    /// Take the lowest `n` free consecutive temporary cells.
    pub open spec fn talloc_n(self, n: int) -> (Bf, int) {
        let i = lowest_free(self.used, n);
        (
            Bf { used: self.used.union(Set::new(|k: int| i <= k < i + n)), ..self },
            self.temp_base + i,
        )
    }

    /// Take the lowest free temporary cell.
    pub open spec fn talloc(self) -> (Bf, int) {
        self.talloc_n(1)
    }

    /// Give `n` temporary cells back.
    pub open spec fn tfree_n(self, base: int, n: int) -> Bf {
        let i = self.temp_index(base);
        Bf { used: self.used.difference(Set::new(|k: int| i <= k < i + n)), ..self }
    }

    /// Give a temporary cell back.
    pub open spec fn tfree(self, cell: int) -> Bf {
        self.tfree_n(cell, 1)
    }

    /// Take a certain temporary cell.
    pub open spec fn reserve(self, cell: int) -> Bf {
        Bf { used: self.used.insert(self.temp_index(cell)), ..self }
    }

    /// Go back to an earlier set of cells in use.
    pub open spec fn trestore(self, used: Set<int>) -> Bf {
        Bf { used, ..self }
    }

    /// Say where the emitted code leaves the data pointer.
    pub open spec fn set_ptr(self, c: int) -> Bf {
        Bf { ptr: c, ..self }
    }

    /// Move the data pointer to a cell.
    pub open spec fn goto(self, c: int) -> Bf {
        if c > self.ptr {
            self.many('>', c - self.ptr).set_ptr(c)
        } else {
            self.many('<', self.ptr - c).set_ptr(c)
        }
    }

    /// Clear a cell.
    pub open spec fn clear(self, c: int) -> Bf {
        self.goto(c).raw("[-]"@)
    }

    /// Add `n` to a cell.
    pub open spec fn inc(self, c: int, n: int) -> Bf {
        if n > 0 {
            self.goto(c).many('+', n)
        } else {
            self
        }
    }

    /// Subtract `n` from a cell.
    pub open spec fn dec(self, c: int, n: int) -> Bf {
        if n > 0 {
            self.goto(c).many('-', n)
        } else {
            self
        }
    }

    /// Set a cell.
    pub open spec fn setv(self, c: int, v: int) -> Bf {
        self.clear(c).inc(c, v)
    }

    /// Set cells from `base + i` to `base + n` to the bytes of a number.
    pub open spec fn set_bytes(self, base: int, val: int, n: int, i: int) -> Bf
        decreases n - i,
    {
        if i >= n {
            self
        } else {
            self.setv(base + i, nth_byte_of(val, i)).set_bytes(base, val, n, i + 1)
        }
    }

    /// Set `n` cells to a number, low byte first.
    pub open spec fn set_const_n(self, base: int, val: int, n: int) -> Bf {
        self.set_bytes(base, val, n, 0)
    }

    /// Read a byte into a cell.
    pub open spec fn inp(self, c: int) -> Bf {
        self.goto(c).raw(","@)
    }

    /// Write a cell.
    pub open spec fn out_cell(self, c: int) -> Bf {
        self.goto(c).raw("."@)
    }
}

/// Appends Brainfuck to a text.
pub struct BfEmitter {
    output: String,
    ptr: u128,
    used: Vec<bool>,
    temp_base: u128,
}

/// The cells in use.
pub open spec fn used_set(used: Seq<bool>) -> Set<int> {
    Set::new(|i: int| 0 <= i < used.len() && used[i])
}

impl View for BfEmitter {
    type V = Bf;

    closed spec fn view(&self) -> Bf {
        Bf {
            out: self.output@,
            ptr: self.ptr as int,
            used: used_set(self.used@),
            temp_base: self.temp_base as int,
        }
    }
}

impl BfEmitter {
    /// Cell numbers are in range.
    pub closed spec fn wf(self) -> bool {
        self.temp_base <= DECL_CELLS * usize::MAX
    }

    /// Nothing is emitted.
    pub fn new(temp_base: u128) -> (e: Self)
        requires
            temp_base <= DECL_CELLS * usize::MAX,
        ensures
            e.wf(),
            e@ == Bf::start(temp_base as int),
    {
        let e = BfEmitter { output: String::new(), ptr: 0, used: Vec::new(), temp_base };
        assert(e@ =~= Bf::start(temp_base as int)) by {
            assert(e.output@ =~= Seq::<char>::empty());
            assert(used_set(e.used@) =~= Set::<int>::empty());
        }
        e
    }

    /// The text.
    pub fn into_text(self) -> (s: String)
        ensures
            s@ == self@.out,
    {
        self.output
    }

    /// Append text.
    pub(crate) fn raw(&mut self, text: &str)
        requires
            old(self).wf(),
        ensures
            final(self).wf(),
            final(self)@ == old(self)@.raw(text@),
    {
        self.output.append(text);
    }

    /// Append a character a number of times.
    pub(crate) fn many(&mut self, c: char, n: u128)
        requires
            old(self).wf(),
        ensures
            final(self).wf(),
            final(self)@ == old(self)@.many(c, n as int),
    {
        let ghost before = self.output@;
        let mut i: u128 = 0;
        while i < n
            invariant
                i <= n,
                self.output@ == before + repeat(c, i as nat),
                self.ptr == old(self).ptr,
                self.used == old(self).used,
                self.temp_base == old(self).temp_base,
            decreases n - i,
        {
            self.output.push(c);
            i += 1;
            assert(self.output@ =~= before + repeat(c, i as nat));
        }
    }

    fn is_used(&self, i: u128) -> (b: bool)
        ensures
            b == self@.used.contains(i as int),
    {
        i < self.used.len() as u128 && self.used[i as usize]
    }

    fn mark(&mut self, i: u128)
        requires
            old(self).wf(),
        ensures
            final(self).wf(),
            final(self)@ == (Bf { used: old(self)@.used.insert(i as int), ..old(self)@ }),
            i < final(self).used@.len() <= usize::MAX,
            final(self).used@.len() >= old(self).used@.len(),
    {
        let ghost before = used_set(self.used@);
        while self.used.len() as u128 <= i
            invariant
                used_set(self.used@) == before,
                self.output == old(self).output,
                self.ptr == old(self).ptr,
                self.temp_base == old(self).temp_base,
                self.used@.len() >= old(self).used@.len(),
            decreases i + 1 - self.used@.len(),
        {
            self.used.push(false);
            assert(used_set(self.used@) =~= before);
        }
        self.used.set(i as usize, true);
        assert(self.used.len() <= usize::MAX);
        assert(used_set(self.used@) =~= before.insert(i as int));
    }

    fn unmark(&mut self, i: u128)
        requires
            old(self).wf(),
        ensures
            final(self).wf(),
            final(self)@ == (Bf { used: old(self)@.used.remove(i as int), ..old(self)@ }),
    {
        let ghost before = used_set(self.used@);
        if i < self.used.len() as u128 {
            self.used.set(i as usize, false);
        }
        assert(used_set(self.used@) =~= before.remove(i as int));
    }

    /// Take the lowest free temporary cell.
    pub(crate) fn talloc(&mut self) -> (r: u128)
        requires
            old(self).wf(),
        ensures
            final(self).wf(),
            (final(self)@, r as int) == old(self)@.talloc(),
            r <= CELL_LIMIT,
    {
        self.talloc_n(1)
    }

    fn run_is_free(&self, i: u128, n: u128) -> (b: bool)
        requires
            i + n <= u128::MAX,
        ensures
            b == free_run(self@.used, i as int, n as int),
    {
        let mut k: u128 = 0;
        while k < n
            invariant
                k <= n,
                i + n <= u128::MAX,
                forall|j: int| 0 <= j < k ==> !#[trigger] self@.used.contains(i + j),
            decreases n - k,
        {
            if self.is_used(i + k) {
                return false;
            }
            k += 1;
        }
        true
    }

    /// Take the lowest `n` free consecutive temporary cells.
    pub(crate) fn talloc_n(&mut self, n: u128) -> (r: u128)
        requires
            old(self).wf(),
            n <= CELL_LIMIT,
        ensures
            final(self).wf(),
            (final(self)@, r as int) == old(self)@.talloc_n(n as int),
            r + DECL_CELLS <= CELL_LIMIT,
    {
        let ghost used = self@.used;
        let mut i: u128 = 0;
        let limit = self.used.len() as u128;
        while !self.run_is_free(i, n)
            invariant
                0 <= i <= limit,
                limit == self.used@.len() <= usize::MAX,
                n <= CELL_LIMIT,
                used == self@.used,
                forall|j: int| 0 <= j < i ==> !#[trigger] free_run(used, j, n as int),
            decreases limit - i,
        {
            assert(i < limit) by {
                if i >= limit {
                    assert(free_run(used, i as int, n as int));
                }
            }
            i += 1;
        }
        proof {
            lemma_lowest_free(used, n as int, i as int);
        }
        let mut k: u128 = 0;
        let ghost start = self@;
        while k < n
            invariant
                self.wf(),
                k <= n <= CELL_LIMIT,
                i <= usize::MAX,
                start.used == used,
                self@ == (Bf {
                    used: used.union(Set::new(|j: int| i <= j < i + k)),
                    ..start
                }),
            decreases n - k,
        {
            self.mark(i + k);
            k += 1;
            assert(self@.used =~= used.union(Set::new(|j: int| i <= j < i + k)));
        }
        assert(self@.used =~= used.union(Set::new(|j: int| i <= j < i + n)));
        self.temp_base + i
    }

    /// Give a temporary cell back.
    pub(crate) fn tfree(&mut self, cell: u128)
        requires
            old(self).wf(),
        ensures
            final(self).wf(),
            final(self)@ == old(self)@.tfree(cell as int),
    {
        let ghost before = self@;
        let i = self.temp_number(cell);
        self.unmark(i);
        assert(self@.used =~= before.tfree(cell as int).used);
    }

    fn temp_number(&self, cell: u128) -> (i: u128)
        ensures
            i == self@.temp_index(cell as int),
    {
        if cell < self.temp_base {
            0
        } else {
            cell - self.temp_base
        }
    }

    /// Give `n` temporary cells back.
    pub(crate) fn tfree_n(&mut self, base: u128, n: u128)
        requires
            old(self).wf(),
            n <= CELL_LIMIT,
            base <= 2 * CELL_LIMIT,
        ensures
            final(self).wf(),
            final(self)@ == old(self)@.tfree_n(base as int, n as int),
    {
        let ghost start = self@;
        let i = self.temp_number(base);
        let mut k: u128 = 0;
        assert(self@.used =~= start.used.difference(Set::new(|j: int| i <= j < i + k)));
        while k < n
            invariant
                self.wf(),
                k <= n <= CELL_LIMIT,
                i <= 2 * CELL_LIMIT,
                self@ == (Bf {
                    used: start.used.difference(Set::new(|j: int| i <= j < i + k)),
                    ..start
                }),
            decreases n - k,
        {
            self.unmark(i + k);
            k += 1;
            assert(self@.used =~= start.used.difference(Set::new(|j: int| i <= j < i + k)));
        }
    }

    /// Take a certain temporary cell.
    pub(crate) fn reserve(&mut self, cell: u128)
        requires
            old(self).wf(),
        ensures
            final(self).wf(),
            final(self)@ == old(self)@.reserve(cell as int),
    {
        let i = self.temp_number(cell);
        self.mark(i);
    }

    /// The cells in use, for [`BfEmitter::trestore`].
    pub(crate) fn tsave(&self) -> (saved: Vec<bool>)
        ensures
            used_set(saved@) == self@.used,
    {
        let mut saved: Vec<bool> = Vec::new();
        let mut i: usize = 0;
        while i < self.used.len()
            invariant
                i <= self.used@.len(),
                saved@.len() == i,
                forall|j: int| 0 <= j < i ==> #[trigger] saved@[j] == self.used@[j],
            decreases self.used@.len() - i,
        {
            saved.push(self.used[i]);
            i += 1;
        }
        assert(used_set(saved@) =~= self@.used);
        saved
    }

    /// Go back to an earlier set of cells in use.
    pub(crate) fn trestore(&mut self, saved: Vec<bool>)
        requires
            old(self).wf(),
        ensures
            final(self).wf(),
            final(self)@ == old(self)@.trestore(used_set(saved@)),
    {
        self.used = saved;
    }

    /// Say where the emitted code leaves the data pointer.
    pub(crate) fn set_ptr(&mut self, c: u128)
        requires
            old(self).wf(),
        ensures
            final(self).wf(),
            final(self)@ == old(self)@.set_ptr(c as int),
    {
        self.ptr = c;
    }

    /// Move the data pointer to a cell.
    pub(crate) fn goto(&mut self, c: u128)
        requires
            old(self).wf(),
        ensures
            final(self).wf(),
            final(self)@ == old(self)@.goto(c as int),
    {
        if c > self.ptr {
            self.many('>', c - self.ptr);
        } else {
            self.many('<', self.ptr - c);
        }
        self.ptr = c;
    }

    /// Clear a cell.
    pub(crate) fn clear(&mut self, c: u128)
        requires
            old(self).wf(),
        ensures
            final(self).wf(),
            final(self)@ == old(self)@.clear(c as int),
    {
        self.goto(c);
        self.raw("[-]");
    }

    /// Add `n` to a cell.
    pub(crate) fn inc(&mut self, c: u128, n: u128)
        requires
            old(self).wf(),
        ensures
            final(self).wf(),
            final(self)@ == old(self)@.inc(c as int, n as int),
    {
        if n > 0 {
            self.goto(c);
            self.many('+', n);
        }
    }

    /// Subtract `n` from a cell.
    pub(crate) fn dec(&mut self, c: u128, n: u128)
        requires
            old(self).wf(),
        ensures
            final(self).wf(),
            final(self)@ == old(self)@.dec(c as int, n as int),
    {
        if n > 0 {
            self.goto(c);
            self.many('-', n);
        }
    }

    /// Set a cell.
    pub(crate) fn setv(&mut self, c: u128, v: u8)
        requires
            old(self).wf(),
        ensures
            final(self).wf(),
            final(self)@ == old(self)@.setv(c as int, v as int),
    {
        self.clear(c);
        self.inc(c, v as u128);
    }

    /// Set `n` cells to a number, low byte first.
    pub(crate) fn set_const_n(&mut self, base: u128, val: u32, n: u128)
        requires
            old(self).wf(),
            block(base as int, n as int),
        ensures
            final(self).wf(),
            final(self)@ == old(self)@.set_const_n(base as int, val as int, n as int),
    {
        let mut i: u128 = 0;
        let ghost goal = self@.set_bytes(base as int, val as int, n as int, 0);
        while i < n
            invariant
                self.wf(),
                i <= n,
                block(base as int, n as int),
                self@.set_bytes(base as int, val as int, n as int, i as int) == goal,
            decreases n - i,
        {
            self.setv(base + i, nth_byte(val, i));
            i += 1;
        }
    }

    /// Read a byte into a cell.
    pub(crate) fn inp(&mut self, c: u128)
        requires
            old(self).wf(),
        ensures
            final(self).wf(),
            final(self)@ == old(self)@.inp(c as int),
    {
        self.goto(c);
        self.raw(",");
    }

    /// Write a cell.
    pub(crate) fn out_cell(&mut self, c: u128)
        requires
            old(self).wf(),
        ensures
            final(self).wf(),
            final(self)@ == old(self)@.out_cell(c as int),
    {
        self.goto(c);
        self.raw(".");
    }
}

} // verus!
