//! What programs mean: a tape of cells, the instructions and operations that
//! act on it, and the trace of their input and output.

use vstd::prelude::*;

use crate::interp::bytecode::Op;
use crate::interp::lower::sign;
use crate::ir::hir::Hir;

verus! {

/// One act of input or output, with the position of the data pointer.
pub enum Io {
    /// A byte is written.
    Put(int, int),
    /// A byte is read.
    Get(int),
}

/// The state of a running program.
#[verifier::ext_equal]
pub struct St {
    /// The cells; every integer is the place of one.
    pub cells: Map<int, int>,
    /// The data pointer.
    pub ptr: int,
    /// Input and output so far.
    pub trace: Seq<Io>,
    /// How many bytes have been read.
    pub reads: nat,
}

impl St {
    /// Every place has a cell.
    pub open spec fn total(self) -> bool {
        forall|i: int| #[trigger] self.cells.dom().contains(i)
    }

    /// The current cell.
    pub open spec fn cell(self) -> int {
        self.cells[self.ptr]
    }

    /// The state after a move.
    pub open spec fn moved(self, d: int) -> St {
        St { ptr: self.ptr + d, ..self }
    }

    /// The state with a cell at an offset set.
    pub open spec fn set_at(self, off: int, v: int) -> St {
        St { cells: self.cells.insert(self.ptr + off, v), ..self }
    }

    /// The state with a cell at an offset increased, modulo 256.
    pub open spec fn add_at(self, off: int, k: int) -> St {
        self.set_at(off, (self.cells[self.ptr + off] + k) % 256)
    }

    /// The state after multiples of `v` have been added at the first `n`
    /// offsets of a list.
    pub open spec fn spread(self, factors: Seq<(int, int)>, v: int, n: int) -> St
        decreases n,
    {
        if n <= 0 {
            self
        } else {
            self.spread(factors, v, n - 1).add_at(factors[n - 1].0, v * factors[n - 1].1)
        }
    }

    /// The state with the first `n` offsets of a list cleared.
    pub open spec fn cleared(self, sets: Seq<int>, n: int) -> St
        decreases n,
    {
        if n <= 0 {
            self
        } else {
            self.cleared(sets, n - 1).set_at(sets[n - 1], 0)
        }
    }

    /// The state after the current cell has been cleared and its multiples
    /// added to others.
    pub open spec fn multiplied(self, factors: Seq<(int, int)>) -> St {
        self.set_at(0, 0).spread(factors, self.cell(), factors.len() as int)
    }

    /// The same with further cells cleared; nothing where the cell is zero.
    pub open spec fn multiplied_with_sets(self, factors: Seq<(int, int)>, sets: Seq<int>) -> St {
        if self.cell() == 0 {
            self
        } else {
            self.multiplied(factors).cleared(sets, sets.len() as int)
        }
    }

    /// The state after the current cell has been written.
    pub open spec fn wrote(self) -> St {
        St { trace: self.trace.push(Io::Put(self.ptr, self.cell())), ..self }
    }

    /// The state after a byte has been read.
    pub open spec fn read(self, byte: int) -> St {
        St {
            cells: self.cells.insert(self.ptr, byte),
            trace: self.trace.push(Io::Get(self.ptr)),
            reads: self.reads + 1,
            ..self
        }
    }
}

/// The bytes that a trace writes.
pub open spec fn written_bytes(trace: Seq<Io>) -> Seq<int>
    decreases trace.len(),
{
    if trace.len() == 0 {
        Seq::empty()
    } else {
        match trace.last() {
            Io::Put(_, b) => written_bytes(trace.drop_last()).push(b),
            Io::Get(_) => written_bytes(trace.drop_last()),
        }
    }
}

/// Where bytes come from: the byte that the `n`-th read gives.
pub type Source = spec_fn(nat) -> int;

/// The state that a search for a zero cell ends in, if it takes at most
/// `fuel` moves.
pub open spec fn scanned(s: St, dir: int, fuel: nat) -> Option<St>
    decreases fuel,
{
    if s.cell() == 0 {
        Some(s)
    } else if fuel == 0 {
        None
    } else {
        scanned(s.moved(sign(dir)), dir, (fuel - 1) as nat)
    }
}

/// The state that an instruction ends in. A loop may run its body as often as
/// `fuel` says, and a search may move as often.
pub open spec fn run_one(inst: Hir, s: St, source: Source, fuel: nat) -> Option<St>
    decreases fuel, inst, 0int,
{
    match inst {
        Hir::Move(d) => Some(s.moved(d)),
        Hir::Add(k) => Some(s.add_at(0, k)),
        Hir::Zero => Some(s.set_at(0, 0)),
        Hir::PutByte => Some(s.wrote()),
        Hir::GetByte => Some(s.read(source(s.reads))),
        Hir::LinearMul(factors) => Some(s.multiplied(factors)),
        Hir::LinearMulWithSets(factors, sets) => Some(s.multiplied_with_sets(factors, sets)),
        Hir::Scan(dir) => scanned(s, dir, fuel),
        Hir::Loop(body) => if s.cell() == 0 {
            Some(s)
        } else if fuel == 0 {
            None
        } else {
            match run(body, s, source, (fuel - 1) as nat) {
                Some(t) => run_one(inst, t, source, (fuel - 1) as nat),
                None => None,
            }
        },
    }
}

/// The state that a list of instructions ends in, `None` where the fuel does
/// not suffice.
pub open spec fn run(insts: Seq<Hir>, s: St, source: Source, fuel: nat) -> Option<St>
    decreases fuel, insts, 1int,
{
    if insts.len() == 0 {
        Some(s)
    } else {
        match run(insts.drop_last(), s, source, fuel) {
            Some(t) => run_one(insts.last(), t, source, fuel),
            None => None,
        }
    }
}

/// Operations with the index of the next one.
pub struct Frame {
    /// The operations.
    pub ops: Seq<Op>,
    /// Index of the next one.
    pub pc: int,
}

/// A bytecode machine: the program, then the bodies of the loops that run as
/// one operation and are being run, innermost last.
#[verifier::ext_equal]
pub struct Config {
    /// The operations being run.
    pub frames: Seq<Frame>,
    /// The state of the tape.
    pub st: St,
}

impl Config {
    /// Nothing is left to do.
    pub open spec fn halted(self) -> bool {
        self.frames.len() == 0
    }

    /// What is being run.
    pub open spec fn top(self) -> Frame {
        self.frames.last()
    }

    /// The same with the tape in another state and execution at `pc`.
    pub open spec fn at(self, pc: int, st: St) -> Config {
        Config {
            frames: self.frames.drop_last().push(Frame { ops: self.top().ops, pc }),
            st,
        }
    }

    /// The same, one operation further.
    pub open spec fn next(self, st: St) -> Config {
        self.at(self.top().pc + 1, st)
    }
}

/// What an operation without jumps does.
pub open spec fn effect(op: Op, s: St) -> St {
    match op {
        Op::Move(d) => s.moved(d),
        Op::Add(k) => s.add_at(0, k),
        Op::MoveAdd(d, k) => s.moved(d).add_at(0, k),
        Op::ZeroMove(d) => s.set_at(0, 0).moved(d),
        Op::AddAt(off, delta) => s.add_at(off, delta),
        Op::SetAt(off, v) => s.set_at(off, v),
        Op::SetByte(v) => s.set_at(0, v),
        Op::Zero => s.set_at(0, 0),
        Op::LinearMul(factors) => s.multiplied(factors),
        Op::LinearMulWithSets(factors, sets) => s.multiplied_with_sets(factors, sets),
        _ => s,
    }
}

/// Where execution goes on.
pub enum Go {
    /// At the next operation.
    Next,
    /// At the same operation.
    Stay,
    /// At this one.
    Jump(int),
    /// In the body of a loop that runs as one operation.
    Enter(Seq<Op>),
}

/// What an operation does, and where execution goes on. `byte` is what a read
/// gives; `outer` tells whether the operation stands in the program itself and
/// not in the body of a loop that runs as one operation.
pub open spec fn turn(op: Op, s: St, byte: int, outer: bool) -> (Go, St) {
    match op {
        Op::PutByte => (Go::Next, s.wrote()),
        Op::GetByte => (Go::Next, s.read(byte)),
        Op::Scan(dir) => if s.cell() == 0 {
            (Go::Next, s)
        } else {
            (Go::Stay, s.moved(dir))
        },
        Op::LoopStart(end) => if s.cell() == 0 {
            (Go::Jump(end + 1), s)
        } else {
            (Go::Next, s)
        },
        Op::LoopEnd(start) => if s.cell() == 0 {
            (Go::Next, s)
        } else {
            (Go::Jump(start + 1), s)
        },
        Op::LoopBlock(after, body) => if s.cell() != 0 {
            (Go::Enter(body), s)
        } else if outer {
            (Go::Jump(after), s)
        } else {
            (Go::Next, s)
        },
        _ => (Go::Next, effect(op, s)),
    }
}

/// One step of a machine: the next operation, or the end of what is being run.
pub open spec fn step(c: Config, byte: int) -> Config {
    if c.halted() {
        c
    } else if c.top().pc >= c.top().ops.len() || c.top().pc < 0 {
        Config { frames: c.frames.drop_last(), st: c.st }
    } else {
        let (go, st) = turn(c.top().ops[c.top().pc], c.st, byte, c.frames.len() == 1);
        match go {
            Go::Next => c.next(st),
            Go::Stay => c.at(c.top().pc, st),
            Go::Jump(pc) => c.at(pc, st),
            Go::Enter(body) => Config { frames: c.frames.push(Frame { ops: body, pc: 0 }), st },
        }
    }
}

/// The machine after `n` steps.
pub open spec fn steps(c: Config, source: Source, n: nat) -> Config
    decreases n,
{
    if n == 0 {
        c
    } else {
        steps(step(c, source(c.st.reads)), source, (n - 1) as nat)
    }
}

/// A machine at the start of a program.
pub open spec fn loaded(ops: Seq<Op>, st: St) -> Config {
    Config { frames: seq![Frame { ops, pc: 0 }], st }
}

/// The tape that a program starts on: every cell is 0.
pub open spec fn blank() -> St {
    St { cells: Map::new(|i: int| true, |i: int| 0), ptr: 0, trace: Seq::empty(), reads: 0 }
}

} // verus!
