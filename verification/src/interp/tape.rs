//! The memory tape: cells without end in both directions, all zero at first.

use vstd::prelude::*;

verus! {

/// A tape and its data pointer. Cells that were never written take no memory.
#[derive(Debug)]
pub struct Tape {
    right: Vec<u8>,
    left: Vec<u8>,
    ptr: i64,
}

/// Whether a machine can have a cell at this place.
pub open spec fn addressable(at: int) -> bool {
    i64::MIN <= at <= i64::MAX && -usize::MAX <= at < usize::MAX
}

impl Tape {
    /// The cells.
    pub closed spec fn cells(self) -> Map<int, int> {
        Map::new(|i: int| true, |i: int| self.value(i))
    }

    /// The data pointer.
    pub closed spec fn pos(self) -> int {
        self.ptr as int
    }

    /// What stands at a place.
    spec fn value(self, i: int) -> int {
        if 0 <= i < self.right@.len() {
            self.right@[i] as int
        } else if i < 0 && -i <= self.left@.len() {
            self.left@[-i - 1] as int
        } else {
            0
        }
    }

    /// An empty tape with room for `len` cells, the data pointer at its first.
    pub fn new(len: usize) -> (t: Self)
        ensures
            t.pos() == 0,
            forall|i: int| #[trigger] t.cells().dom().contains(i) && t.cells()[i] == 0,
    {
        Tape { right: vec![0; len], left: Vec::new(), ptr: 0 }
    }

    /// Every place has a cell, and every cell holds a byte.
    pub proof fn law_cells_hold_bytes(self, i: int)
        ensures
            self.cells().dom().contains(i),
            0 <= self.cells()[i] < 256,
            i64::MIN <= self.pos() <= i64::MAX,
    {
    }

    /// The data pointer.
    pub fn ptr(&self) -> (p: i64)
        ensures
            p == self.pos(),
    {
        self.ptr
    }

    /// The cell at a place.
    fn get(&self, at: i64) -> (v: u8)
        ensures
            v == self.cells()[at as int],
    {
        if at >= 0 {
            if (at as u64) < self.right.len() as u64 {
                self.right[at as usize]
            } else {
                0
            }
        } else {
            let i: u64 = (-(at + 1)) as u64;
            if i < self.left.len() as u64 {
                self.left[i as usize]
            } else {
                0
            }
        }
    }

    /// The current cell.
    pub fn current(&self) -> (v: u8)
        ensures
            v == self.cells()[self.pos()],
    {
        self.get(self.ptr)
    }

    /// Set the cell at a place; `false`, with nothing done, where no machine
    /// has room for it.
    fn put(&mut self, at: i64, v: u8) -> (done: bool)
        ensures
            done == addressable(at as int),
            done ==> final(self).cells() == old(self).cells().insert(at as int, v as int),
            !done ==> final(self).cells() == old(self).cells(),
            final(self).pos() == old(self).pos(),
    {
        let right = at >= 0;
        let i: u64 = if right {
            at as u64
        } else {
            (-(at + 1)) as u64
        };
        if i >= usize::MAX as u64 {
            return false;
        }
        let i = i as usize;
        if right {
            self.grow_right(i);
        } else {
            self.grow_left(i);
        }
        let ghost grown = *self;
        if right {
            self.right.set(i, v);
        } else {
            self.left.set(i, v);
        }
        assert forall|k: int| #[trigger] self.value(k) == if k == at {
            v as int
        } else {
            old(self).value(k)
        } by {
            assert(grown.value(k) == old(self).value(k));
        }
        assert(self.cells() =~= old(self).cells().insert(at as int, v as int));
        true
    }

    /// Make room for the cell `i` on the right.
    fn grow_right(&mut self, i: usize)
        requires
            i < usize::MAX,
        ensures
            i < final(self).right@.len(),
            final(self).ptr == old(self).ptr,
            final(self).left == old(self).left,
            forall|k: int| #[trigger] final(self).value(k) == old(self).value(k),
    {
        while self.right.len() <= i
            invariant
                i < usize::MAX,
                self.ptr == old(self).ptr,
                self.left == old(self).left,
                forall|k: int| #[trigger] self.value(k) == old(self).value(k),
            decreases i + 1 - self.right.len(),
        {
            let ghost before = *self;
            self.right.push(0);
            assert forall|k: int| #[trigger] self.value(k) == old(self).value(k) by {
                assert(self.value(k) == before.value(k));
            }
        }
    }

    /// Make room for the cell `i` on the left, counted from the origin.
    fn grow_left(&mut self, i: usize)
        requires
            i < usize::MAX,
        ensures
            i < final(self).left@.len(),
            final(self).ptr == old(self).ptr,
            final(self).right == old(self).right,
            forall|k: int| #[trigger] final(self).value(k) == old(self).value(k),
    {
        while self.left.len() <= i
            invariant
                i < usize::MAX,
                self.ptr == old(self).ptr,
                self.right == old(self).right,
                forall|k: int| #[trigger] self.value(k) == old(self).value(k),
            decreases i + 1 - self.left.len(),
        {
            let ghost before = *self;
            self.left.push(0);
            assert forall|k: int| #[trigger] self.value(k) == old(self).value(k) by {
                assert(self.value(k) == before.value(k));
            }
        }
    }

    /// Move the data pointer; `false`, with nothing done, where it would leave
    /// the range of places.
    pub fn move_ptr(&mut self, d: i32) -> (done: bool)
        ensures
            done == (i64::MIN <= old(self).pos() + d <= i64::MAX),
            final(self).pos() == if done {
                old(self).pos() + d
            } else {
                old(self).pos()
            },
            final(self).cells() == old(self).cells(),
    {
        match self.ptr.checked_add(d as i64) {
            Some(p) => {
                self.ptr = p;
                assert(self.cells() =~= old(self).cells());
                true
            },
            None => false,
        }
    }

    /// Set the cell at an offset; `false`, with nothing done, where no machine
    /// has room for it.
    pub fn set_at(&mut self, off: i32, v: u8) -> (done: bool)
        ensures
            done == addressable(old(self).pos() + off),
            final(self).pos() == old(self).pos(),
            final(self).cells() == if done {
                old(self).cells().insert(old(self).pos() + off, v as int)
            } else {
                old(self).cells()
            },
    {
        match self.ptr.checked_add(off as i64) {
            Some(at) => self.put(at, v),
            None => false,
        }
    }

    /// Add to the cell at an offset, modulo 256; `false`, with nothing done,
    /// where no machine has room for it.
    pub fn add_at(&mut self, off: i32, k: i32) -> (done: bool)
        ensures
            done == addressable(old(self).pos() + off),
            final(self).pos() == old(self).pos(),
            final(self).cells() == if done {
                old(self).cells().insert(
                    old(self).pos() + off,
                    (old(self).cells()[old(self).pos() + off] + k) % 256,
                )
            } else {
                old(self).cells()
            },
    {
        match self.ptr.checked_add(off as i64) {
            Some(at) => {
                let v = self.get(at);
                let m = wrapped(v as i64 + k as i64);
                self.put(at, m)
            },
            None => false,
        }
    }
}

/// The remainder modulo 256.
fn wrapped(x: i64) -> (m: u8)
    requires
        x > i64::MIN,
    ensures
        m == x as int % 256,
{
    if x >= 0 {
        (x % 256) as u8
    } else {
        let r: i64 = (-x) % 256;
        if r == 0 {
            0
        } else {
            (256 - r) as u8
        }
    }
}

} // verus!
