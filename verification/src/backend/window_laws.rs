//! Where the back ends leave a check out, the cell has been checked before, on
//! every path.
//!
//! The tape is one range of addresses that only grows, so that two cells that
//! exist vouch for all cells between them. What a run has found out is therefore
//! a range of places, counted from where the pointer stood at the last
//! instruction that forgets everything.

use vstd::prelude::*;

use crate::backend::codegen_common::{
    covers, highest, lir_body, lir_inst_ok, lir_step, lowest, offsets_of, PlatformEmitter, Routines,
};
use crate::ir::lir::LirInst;

verus! {

/// What a run knows of the tape: where the pointer is, and the lowest and the
/// highest place that exist for sure.
pub struct Known {
    /// Where the pointer is.
    pub at: int,
    /// Lowest place.
    pub lo: int,
    /// Highest place.
    pub hi: int,
}

impl Known {
    /// Nothing but the current cell.
    pub open spec fn nothing() -> Known {
        Known { at: 0, lo: 0, hi: 0 }
    }

    /// Whether the places from `lo` to `hi`, counted from the pointer, exist.
    pub open spec fn holds(self, lo: int, hi: int) -> bool {
        self.lo <= self.at + lo && self.at + hi <= self.hi
    }

    /// With the places from `lo` to `hi`, counted from the pointer, checked.
    pub open spec fn checked(self, lo: int, hi: int) -> Known {
        Known {
            at: self.at,
            lo: if self.at + lo < self.lo {
                self.at + lo
            } else {
                self.lo
            },
            hi: if self.at + hi > self.hi {
                self.at + hi
            } else {
                self.hi
            },
        }
    }

    /// With the pointer moved.
    pub open spec fn moved(self, n: int) -> Known {
        Known { at: self.at + n, ..self }
    }
}

/// What a run knows behind an instruction whose code has been emitted with a
/// window. A move out of the window checks its target; a checked move out of the
/// window checks all its places, and so does a multiplication. A label, a jump, a
/// search, input and output, and a multiplication that may be skipped leave
/// nothing known.
pub open spec fn known_after(k: Known, inst: LirInst, window: Option<(int, int)>) -> Known {
    match inst {
        LirInst::PtrAdd(n) => if n == 0 || covers(window, n as int, n as int) {
            k.moved(n as int)
        } else {
            k.checked(n as int, n as int).moved(n as int)
        },
        LirInst::PtrAddChecked { delta, lo_extent, hi_extent } => if covers(
            window,
            lo_extent as int,
            hi_extent as int,
        ) {
            k.moved(delta as int)
        } else {
            k.checked(lo_extent as int, hi_extent as int).moved(delta as int)
        },
        LirInst::LinearMul(factors) => {
            let offs = offsets_of(factors@) + Seq::<isize>::empty();
            let n = offs.len() as int;
            k.checked(lowest(offs, n), highest(offs, n))
        },
        LirInst::CellAdd(_) => k,
        LirInst::CellSet(_) => k,
        LirInst::CellAddAt { .. } => k,
        LirInst::CellSetAt { .. } => k,
        LirInst::ZeroRun { .. } => k,
        _ => Known::nothing(),
    }
}

/// What a run knows behind the first `n` instructions.
pub open spec fn known_at<P: PlatformEmitter>(
    platform: P,
    insts: Seq<LirInst>,
    routines: Routines,
    next: int,
    n: int,
) -> Known
    decreases n,
{
    if n <= 0 {
        Known::nothing()
    } else {
        known_after(
            known_at(platform, insts, routines, next, n - 1),
            insts[n - 1],
            lir_body(platform, insts, routines, next, n - 1).window,
        )
    }
}

/// The window tells of no place that is not known, and the current cell exists.
pub open spec fn honest(k: Known, window: Option<(int, int)>) -> bool {
    &&& k.holds(0, 0)
    &&& match window {
        Some((lo, hi)) => k.holds(lo, hi),
        None => true,
    }
}

/// What the code that is emitted without a check reaches is known to exist: the
/// target of a move inside the window, and all places of a checked move inside
/// it.
pub open spec fn unchecked_is_known(k: Known, inst: LirInst, window: Option<(int, int)>) -> bool {
    match inst {
        LirInst::PtrAdd(n) => n == 0 || covers(window, n as int, n as int) ==> k.holds(
            n as int,
            n as int,
        ),
        LirInst::PtrAddChecked { delta, lo_extent, hi_extent } => covers(
            window,
            lo_extent as int,
            hi_extent as int,
        ) ==> k.holds(lo_extent as int, hi_extent as int) && k.holds(delta as int, delta as int),
        _ => true,
    }
}

proof fn lemma_step_is_honest<P: PlatformEmitter>(
    platform: P,
    all: Seq<LirInst>,
    routines: Routines,
    inst: LirInst,
    next: int,
    window: Option<(int, int)>,
    k: Known,
)
    requires
        lir_inst_ok(inst),
        honest(k, window),
    ensures
        unchecked_is_known(k, inst, window),
        honest(
            known_after(k, inst, window),
            lir_step(platform, all, routines, inst, next, window).window,
        ),
{
    match inst {
        LirInst::LinearMul(factors) => {
            let offs = offsets_of(factors@) + Seq::<isize>::empty();
            lemma_span(offs, offs.len() as int);
            if factors@.len() == 0 {
                assert(offs =~= Seq::<isize>::empty());
            }
        },
        _ => {},
    }
}

proof fn lemma_span(offs: Seq<isize>, k: int)
    ensures
        lowest(offs, k) <= 0 <= highest(offs, k),
    decreases k,
{
    if k > 0 {
        lemma_span(offs, k - 1);
    }
}

/// No check is left out that an earlier one on every path has not made: at every
/// instruction the window tells only of places that exist, and where the code
/// moves the pointer without a check, its target exists.
pub proof fn law_unchecked_moves_stay_on_the_tape<P: PlatformEmitter>(
    platform: P,
    insts: Seq<LirInst>,
    routines: Routines,
    next: int,
    n: int,
)
    requires
        0 <= n <= insts.len(),
        forall|i: int| 0 <= i < insts.len() ==> lir_inst_ok(#[trigger] insts[i]),
    ensures
        honest(
            known_at(platform, insts, routines, next, n),
            lir_body(platform, insts, routines, next, n).window,
        ),
        n < insts.len() ==> unchecked_is_known(
            known_at(platform, insts, routines, next, n),
            insts[n],
            lir_body(platform, insts, routines, next, n).window,
        ),
    decreases n,
{
    if n > 0 {
        law_unchecked_moves_stay_on_the_tape(platform, insts, routines, next, n - 1);
        let before = lir_body(platform, insts, routines, next, n - 1);
        lemma_step_is_honest(
            platform,
            insts,
            routines,
            insts[n - 1],
            before.next,
            before.window,
            known_at(platform, insts, routines, next, n - 1),
        );
    }
    if n < insts.len() {
        let now = lir_body(platform, insts, routines, next, n);
        lemma_step_is_honest(
            platform,
            insts,
            routines,
            insts[n],
            now.next,
            now.window,
            known_at(platform, insts, routines, next, n),
        );
    }
}

} // verus!
