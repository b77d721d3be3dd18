//! The execution engine: one bytecode operation at a time.

use std::sync::Arc;

use vstd::prelude::*;

use crate::interp::bytecode::{group_ops_view, op_view, ops_view, packed_sets_view, packed_view, Op};
use crate::interp::bytecode::{InterpOp, InterpProgram, LoopBlockPlan};
use crate::interp::lower::signed_byte;
use crate::interp::machine::{loaded, step, turn, Config, Frame, Go, Io, St};
use crate::interp::profile::LoopProfile;
use crate::interp::tape::addressable;
use crate::interp::tape::Tape;
use crate::text::owned;

verus! {

/// Why an execution stopped early.
#[derive(Debug)]
pub enum RuntimeError {
    /// Input or output failed.
    Io(String),
    /// A call into the host failed.
    Host(String),
    /// Native code of a hot loop failed, or there was no memory for it.
    Jit(String),
}

impl RuntimeError {
    /// The message of this error.
    pub open spec fn message(self) -> Seq<char> {
        match self {
            RuntimeError::Io(m) => "io error: "@ + m@,
            RuntimeError::Host(m) => "host error: "@ + m@,
            RuntimeError::Jit(m) => "jit error: "@ + m@,
        }
    }

    /// The message of this error.
    pub fn describe(&self) -> (s: String)
        ensures
            s@ == self.message(),
    {
        let (mut s, m) = match self {
            RuntimeError::Io(m) => (owned("io error: "), m),
            RuntimeError::Host(m) => (owned("host error: "), m),
            RuntimeError::Jit(m) => (owned("jit error: "), m),
        };
        s.append(m.as_str());
        s
    }
}

/// `v` times `f` modulo 256, as a signed byte.
pub fn mul_add_delta_u8(v: u8, f: i32) -> (r: i32)
    ensures
        r == signed_byte(v * f),
{
    assert(-0x8000_0000 * 255 <= v * f <= 0x7fff_ffff * 255) by (nonlinear_arith)
        requires
            0 <= v <= 255,
            -0x8000_0000 <= f <= 0x7fff_ffff,
    ;
    let p: i64 = v as i64 * f as i64;
    let m: i64 = if p >= 0 {
        p % 256
    } else {
        let r: i64 = (-p) % 256;
        if r == 0 {
            0
        } else {
            256 - r
        }
    };
    if m <= 127 {
        m as i32
    } else {
        (m - 256) as i32
    }
}

/// The state that a tape is in, with the input and output so far.
pub open spec fn state_of(t: Tape, trace: Seq<Io>, reads: nat) -> St {
    St { cells: t.cells(), ptr: t.pos(), trace, reads }
}

/// Whether the data pointer can stand at a place.
pub open spec fn in_range(at: int) -> bool {
    i64::MIN <= at <= i64::MAX
}

/// Whether a machine has room for what an operation does.
pub open spec fn feasible(op: Op, s: St) -> bool {
    match op {
        Op::Move(d) => in_range(s.ptr + d),
        Op::MoveAdd(d, _) => addressable(s.ptr + d),
        Op::ZeroMove(d) => addressable(s.ptr) && in_range(s.ptr + d),
        Op::AddAt(off, _) => addressable(s.ptr + off),
        Op::SetAt(off, _) => addressable(s.ptr + off),
        Op::Add(_) => addressable(s.ptr),
        Op::SetByte(_) => addressable(s.ptr),
        Op::Zero => addressable(s.ptr),
        Op::GetByte => addressable(s.ptr),
        Op::LinearMul(factors) => addressable(s.ptr) && reachable(factors, s.ptr),
        Op::LinearMulWithSets(factors, sets) => s.cell() == 0 || (addressable(s.ptr) && reachable(
            factors,
            s.ptr,
        ) && all_addressable(sets, s.ptr)),
        Op::Scan(dir) => s.cell() == 0 || in_range(s.ptr + dir),
        Op::LoopStart(end) => s.cell() != 0 || end < usize::MAX,
        Op::LoopEnd(start) => s.cell() == 0 || start < usize::MAX,
        _ => true,
    }
}

/// Whether there is room for the cells of a factor list.
pub open spec fn reachable(factors: Seq<(int, int)>, ptr: int) -> bool {
    forall|i: int| 0 <= i < factors.len() ==> addressable(ptr + (#[trigger] factors[i]).0)
}

/// Whether there is room for the cells at these offsets.
pub open spec fn all_addressable(sets: Seq<int>, ptr: int) -> bool {
    forall|i: int| 0 <= i < sets.len() ==> addressable(ptr + #[trigger] sets[i])
}

/// Add multiples of the current cell to others and clear it.
fn exec_linear_mul(
    tape: &mut Tape,
    factors: &Vec<(i32, i16)>,
    Ghost(trace): Ghost<Seq<Io>>,
    Ghost(reads): Ghost<nat>,
) -> (done: bool)
    ensures
        done == (addressable(old(tape).pos()) && reachable(
            packed_view(factors@),
            old(tape).pos(),
        )),
        done ==> state_of(*final(tape), trace, reads) == state_of(
            *old(tape),
            trace,
            reads,
        ).multiplied(packed_view(factors@)),
{
    let ghost fs = packed_view(factors@);
    let ghost s = state_of(*tape, trace, reads);
    let v = tape.current();
    if !tape.set_at(0, 0) {
        return false;
    }
    let ghost z = s.set_at(0, 0);
    assert(state_of(*tape, trace, reads) == z);
    let mut i: usize = 0;
    while i < factors.len()
        invariant
            i <= factors.len(),
            fs == packed_view(factors@),
            addressable(old(tape).pos()),
            tape.pos() == old(tape).pos(),
            z.ptr == old(tape).pos(),
            state_of(*tape, trace, reads) == z.spread(fs, v as int, i as int),
            forall|j: int| 0 <= j < i ==> addressable(old(tape).pos() + (#[trigger] fs[j]).0),
        decreases factors.len() - i,
    {
        let (off, f) = factors[i];
        let delta: i32 = match f {
            1 => v as i32,
            -1 => -(v as i32),
            _ => mul_add_delta_u8(v, f as i32),
        };
        let ghost before = state_of(*tape, trace, reads);
        assert(fs[i as int] == (off as int, f as int));
        if !tape.add_at(off, delta) {
            return false;
        }
        proof {
            let c = before.cells[before.ptr + off];
            lemma_same_remainder(c, v as int, f as int, delta as int);
            assert(state_of(*tape, trace, reads) =~= before.add_at(off as int, v * f));
        }
        i += 1;
    }
    true
}

/// Adding a product is adding its remainder.
proof fn lemma_same_remainder(c: int, v: int, f: int, delta: int)
    requires
        delta == signed_byte(v * f) || (f == 1 && delta == v) || (f == -1 && delta == -v),
    ensures
        (c + delta) % 256 == (c + v * f) % 256,
{
    if delta == signed_byte(v * f) {
        let p = v * f;
        assert((c + p % 256) % 256 == (c + p) % 256) by (nonlinear_arith);
        assert((c + (p % 256 - 256)) % 256 == (c + p % 256) % 256) by (nonlinear_arith);
    } else if f == 1 {
        assert(v * f == v);
    } else {
        assert(v * f == -v) by (nonlinear_arith)
            requires
                f == -1,
        ;
    }
}

/// The same, and clear further cells; nothing where the current cell is zero.
fn exec_linear_mul_with_sets(
    tape: &mut Tape,
    factors: &Vec<(i32, i16)>,
    sets: &Vec<i32>,
    Ghost(trace): Ghost<Seq<Io>>,
    Ghost(reads): Ghost<nat>,
) -> (done: bool)
    ensures
        done == feasible(
            Op::LinearMulWithSets(packed_view(factors@), packed_sets_view(sets@)),
            state_of(*old(tape), trace, reads),
        ),
        done ==> state_of(*final(tape), trace, reads) == state_of(
            *old(tape),
            trace,
            reads,
        ).multiplied_with_sets(packed_view(factors@), packed_sets_view(sets@)),
{
    let ghost off = packed_sets_view(sets@);
    if tape.current() == 0 {
        return true;
    }
    if !exec_linear_mul(tape, factors, Ghost(trace), Ghost(reads)) {
        return false;
    }
    let ghost m = state_of(*tape, trace, reads);
    proof {
        lemma_spread_keeps_ptr(
            state_of(*old(tape), trace, reads).set_at(0, 0),
            packed_view(factors@),
            state_of(*old(tape), trace, reads).cell(),
            factors@.len() as int,
        );
    }
    let mut i: usize = 0;
    while i < sets.len()
        invariant
            i <= sets.len(),
            off == packed_sets_view(sets@),
            state_of(*old(tape), trace, reads).cell() != 0,
            tape.pos() == old(tape).pos(),
            m.ptr == old(tape).pos(),
            state_of(*tape, trace, reads) == m.cleared(off, i as int),
            forall|j: int| 0 <= j < i ==> addressable(old(tape).pos() + #[trigger] off[j]),
        decreases sets.len() - i,
    {
        assert(off[i as int] == sets@[i as int]);
        if !tape.set_at(sets[i], 0) {
            return false;
        }
        i += 1;
    }
    true
}

/// Spreading leaves the data pointer where it is.
pub proof fn lemma_spread_keeps_ptr(s: St, factors: Seq<(int, int)>, v: int, n: int)
    ensures
        s.spread(factors, v, n).ptr == s.ptr,
        s.spread(factors, v, n).trace == s.trace,
        s.spread(factors, v, n).reads == s.reads,
    decreases n,
{
    if n > 0 {
        lemma_spread_keeps_ptr(s, factors, v, n - 1);
    }
}

/// What an operation has done, and where execution goes on.
enum Flow {
    Next,
    Stay,
    Jump(usize),
    Enter(Arc<LoopBlockPlan>),
    /// There is no room for what the operation does.
    Fail,
}

spec fn flow_view(f: Flow) -> Go {
    match f {
        Flow::Next => Go::Next,
        Flow::Stay => Go::Stay,
        Flow::Jump(pc) => Go::Jump(pc as int),
        Flow::Enter(plan) => Go::Enter(ops_view(plan.ops@)),
        Flow::Fail => Go::Stay,
    }
}

/// `Arc::clone`: another handle to the same plan.
#[verifier::external_body]
fn share(plan: &Arc<LoopBlockPlan>) -> (r: Arc<LoopBlockPlan>)
    ensures
        r == *plan,
{
    Arc::clone(plan)
}

/// `Next` where an operation could be done.
fn next_if(done: bool) -> (f: Flow)
    ensures
        f == if done {
            Flow::Next
        } else {
            Flow::Fail
        },
{
    if done {
        Flow::Next
    } else {
        Flow::Fail
    }
}

/// The trace after an operation.
spec fn trace_after(op: Op, s: St) -> Seq<Io> {
    match op {
        Op::PutByte => s.wrote().trace,
        Op::GetByte => s.trace.push(Io::Get(s.ptr)),
        _ => s.trace,
    }
}

/// The number of reads after an operation.
spec fn reads_after(op: Op, s: St) -> nat {
    match op {
        Op::GetByte => s.reads + 1,
        _ => s.reads,
    }
}

/// Do what one operation says to the tape.
fn dispatch(
    op: &InterpOp,
    tape: &mut Tape,
    byte: u8,
    outer: bool,
    Ghost(trace): Ghost<Seq<Io>>,
    Ghost(reads): Ghost<nat>,
) -> (f: Flow)
    ensures
        f is Fail <==> !feasible(op_view(*op), state_of(*old(tape), trace, reads)),
        !(f is Fail) ==> {
            let s = state_of(*old(tape), trace, reads);
            let o = op_view(*op);
            (flow_view(f), state_of(*final(tape), trace_after(o, s), reads_after(o, s))) == turn(
                o,
                s,
                byte as int,
                outer,
            )
        },
{
    match op {
        InterpOp::NoOp => Flow::Next,
        InterpOp::Move(d) => next_if(tape.move_ptr(*d)),
        InterpOp::Add(k) => next_if(tape.add_at(0, *k)),
        InterpOp::MoveAdd { d, k } => {
            if !tape.move_ptr(*d) {
                return Flow::Fail;
            }
            next_if(tape.add_at(0, *k))
        },
        InterpOp::ZeroMove(d) => {
            if !tape.set_at(0, 0) {
                return Flow::Fail;
            }
            next_if(tape.move_ptr(*d))
        },
        InterpOp::AddAt { off, delta } => next_if(tape.add_at(*off, *delta)),
        InterpOp::SetAt { off, val } => next_if(tape.set_at(*off, *val)),
        InterpOp::SetByte(v) => next_if(tape.set_at(0, *v)),
        InterpOp::PutByte => Flow::Next,
        InterpOp::GetByte => next_if(tape.set_at(0, byte)),
        InterpOp::Zero => next_if(tape.set_at(0, 0)),
        InterpOp::LinearMul(plan) => next_if(
            exec_linear_mul(tape, &plan.factors, Ghost(trace), Ghost(reads)),
        ),
        InterpOp::LinearMulWithSets(plan) => next_if(
            exec_linear_mul_with_sets(
                tape,
                &plan.factors,
                &plan.sets,
                Ghost(trace),
                Ghost(reads),
            ),
        ),
        InterpOp::Scan(dir) => {
            if tape.current() == 0 {
                Flow::Next
            } else if tape.move_ptr(*dir as i32) {
                Flow::Stay
            } else {
                Flow::Fail
            }
        },
        InterpOp::LoopBlock(plan) => {
            if tape.current() != 0 {
                Flow::Enter(share(plan))
            } else if outer {
                Flow::Jump(plan.after_pc as usize)
            } else {
                Flow::Next
            }
        },
        InterpOp::LoopStart { end_pc } => {
            if tape.current() != 0 {
                Flow::Next
            } else if (*end_pc as usize) < usize::MAX {
                Flow::Jump(*end_pc as usize + 1)
            } else {
                Flow::Fail
            }
        },
        InterpOp::LoopEnd { start_pc } => {
            if tape.current() == 0 {
                Flow::Next
            } else if (*start_pc as usize) < usize::MAX {
                Flow::Jump(*start_pc as usize + 1)
            } else {
                Flow::Fail
            }
        },
    }
}

/// A loop body that is being run as one operation.
struct Running {
    plan: Arc<LoopBlockPlan>,
    pc: usize,
}

/// What a machine is about to do.
#[derive(Debug, Clone, Copy, PartialEq, Eq)]
pub enum Event {
    /// Nothing: the program has ended.
    Halted,
    /// Write a byte, with the data pointer at this place.
    Put {
        /// Where the data pointer is.
        ptr: i64,
        /// The byte.
        byte: u8,
    },
    /// Read a byte, with the data pointer at this place.
    Get {
        /// Where the data pointer is.
        ptr: i64,
    },
    /// Something without input and output.
    Quiet,
}

/// The operation that a machine does next; `None` where it ends something.
pub open spec fn pending(c: Config) -> Option<Op> {
    if !c.halted() && 0 <= c.top().pc < c.top().ops.len() {
        Some(c.top().ops[c.top().pc])
    } else {
        None
    }
}

/// The loop of the program whose body a machine's next step starts another
/// time, by the index of its first operation: a loop counts where it jumps
/// back, a loop that runs as one operation wherever it starts its body.
pub open spec fn counted(c: Config) -> Option<int> {
    if c.frames.len() != 1 || c.st.cell() == 0 {
        None
    } else {
        match pending(c) {
            Some(Op::LoopEnd(start)) => if start < c.top().ops.len() {
                Some(start)
            } else {
                None
            },
            Some(Op::LoopBlock(_, _)) => if c.top().pc <= u32::MAX {
                Some(c.top().pc)
            } else {
                None
            },
            _ => None,
        }
    }
}

/// The trip counts after a step. A count that has reached its greatest value
/// keeps it.
pub open spec fn tallied(trips: Seq<u64>, c: Config) -> Seq<u64> {
    match counted(c) {
        Some(i) => if trips[i] < u64::MAX {
            trips.update(i, (trips[i] + 1) as u64)
        } else {
            trips
        },
        None => trips,
    }
}

/// The execution engine: a program, its tape and, where asked for, its trip
/// counts. Input and output are done by its user between two steps.
pub struct Interpreter {
    program: InterpProgram,
    pc: usize,
    done: bool,
    blocks: Vec<Running>,
    tape: Tape,
    profile: Option<LoopProfile>,
    trace: Ghost<Seq<Io>>,
    reads: Ghost<nat>,
}

impl View for Interpreter {
    type V = Config;

    closed spec fn view(&self) -> Config {
        Config { frames: self.frames(), st: state_of(self.tape, self.trace@, self.reads@) }
    }
}

impl Interpreter {
    spec fn frames(self) -> Seq<Frame> {
        if self.done {
            Seq::empty()
        } else {
            seq![Frame { ops: ops_view(self.program.ops@), pc: self.pc as int }]
                + self.blocks@.map_values(
                |b: Running| Frame { ops: ops_view(b.plan.ops@), pc: b.pc as int },
            )
        }
    }

    /// The program that is being run.
    pub closed spec fn code(self) -> Seq<Op> {
        ops_view(self.program.ops@)
    }

    /// The trip counts, where there are any.
    pub closed spec fn trips(self) -> Option<Seq<u64>> {
        match self.profile {
            Some(p) => Some(p.trips()),
            None => None,
        }
    }

    /// There is a trip count for every operation, and no body is being run
    /// after the end.
    pub closed spec fn wf(self) -> bool {
        &&& self.done ==> self.blocks@.len() == 0
        &&& self.profile is Some ==> self.profile->Some_0.trips().len() == self.program.ops@.len()
    }

    /// Load a program, with a tape of `tape_len` cells at the start.
    pub fn new(program: InterpProgram, tape_len: usize) -> (m: Self)
        ensures
            m.wf(),
            m@.st.ptr == 0,
            m@.st.trace == Seq::<Io>::empty(),
            m@.st.reads == 0,
            forall|i: int| #[trigger] m@.st.cells.dom().contains(i) && m@.st.cells[i] == 0,
            m@ == loaded(ops_view(program.ops@), m@.st),
            m.code() == ops_view(program.ops@),
            m.trips() is None,
    {
        let m = Interpreter {
            program,
            pc: 0,
            done: false,
            blocks: Vec::new(),
            tape: Tape::new(tape_len),
            profile: None,
            trace: Ghost(Seq::empty()),
            reads: Ghost(0),
        };
        assert(m.frames() =~= seq![Frame { ops: ops_view(program.ops@), pc: 0 }]);
        m
    }

    /// Count the trips of every loop from now on.
    pub fn enable_profiling(&mut self, threshold: u64)
        requires
            old(self).wf(),
        ensures
            final(self).wf(),
            final(self)@ == old(self)@,
            final(self).code() == old(self).code(),
            final(self).trips() == Some(Seq::new(old(self).code().len(), |i: int| 0u64)),
    {
        broadcast use group_ops_view;

        self.profile = Some(LoopProfile::new(self.program.ops.len(), threshold));
        assert(self.frames() =~= old(self).frames());
    }

    /// The trip counts, where they are being kept.
    pub fn profile(&self) -> (p: Option<&LoopProfile>)
        ensures
            match p {
                Some(profile) => self.trips() == Some(profile.trips()),
                None => self.trips() is None,
            },
    {
        match &self.profile {
            Some(p) => Some(p),
            None => None,
        }
    }

    /// What the next step does.
    pub fn event(&self) -> (e: Event)
        requires
            self.wf(),
        ensures
            e is Halted <==> self@.halted(),
            match pending(self@) {
                Some(Op::PutByte) => e matches Event::Put { ptr, byte } && ptr == self@.st.ptr
                    && byte == self@.st.cell(),
                Some(Op::GetByte) => e matches Event::Get { ptr } && ptr == self@.st.ptr,
                _ => !(e is Put) && !(e is Get),
            },
    {
        broadcast use group_ops_view;

        if self.done {
            return Event::Halted;
        }
        let n = self.blocks.len();
        assert(self@.frames.len() == n + 1);
        if n > 0 {
            assert(self@.top() == (Frame {
                ops: ops_view(self.blocks@[n - 1].plan.ops@),
                pc: self.blocks@[n - 1].pc as int,
            }));
            let b = &self.blocks[n - 1];
            if b.pc >= b.plan.ops.len() {
                return Event::Quiet;
            }
            self.told(&b.plan.ops[b.pc])
        } else {
            assert(self@.top() == (Frame {
                ops: ops_view(self.program.ops@),
                pc: self.pc as int,
            }));
            if self.pc >= self.program.ops.len() {
                return Event::Quiet;
            }
            self.told(&self.program.ops[self.pc])
        }
    }

    /// What an operation is about to do.
    fn told(&self, op: &InterpOp) -> (e: Event)
        ensures
            !(e is Halted),
            match op_view(*op) {
                Op::PutByte => e matches Event::Put { ptr, byte } && ptr == self@.st.ptr && byte
                    == self@.st.cell(),
                Op::GetByte => e matches Event::Get { ptr } && ptr == self@.st.ptr,
                _ => !(e is Put) && !(e is Get),
            },
    {
        match op {
            InterpOp::PutByte => Event::Put { ptr: self.tape.ptr(), byte: self.tape.current() },
            InterpOp::GetByte => Event::Get { ptr: self.tape.ptr() },
            _ => Event::Quiet,
        }
    }

    /// Count the trip that the next step makes.
    fn tally(&mut self)
        requires
            old(self).wf(),
            !old(self).done,
        ensures
            final(self).wf(),
            final(self).frames() == old(self).frames(),
            final(self).program == old(self).program,
            final(self).pc == old(self).pc,
            final(self).done == old(self).done,
            final(self).blocks == old(self).blocks,
            final(self).tape == old(self).tape,
            final(self).trace == old(self).trace,
            final(self).reads == old(self).reads,
            final(self).trips() == match old(self).trips() {
                Some(t) => Some(tallied(t, old(self)@)),
                None => None,
            },
    {
        broadcast use group_ops_view;

        assert(self@.frames.len() == self.blocks@.len() + 1);
        if self.blocks.len() > 0 || self.pc >= self.program.ops.len() || self.tape.current() == 0 {
            return;
        }
        assert(self@.top() == (Frame { ops: ops_view(self.program.ops@), pc: self.pc as int }));
        let at: usize = match &self.program.ops[self.pc] {
            InterpOp::LoopEnd { start_pc } => *start_pc as usize,
            InterpOp::LoopBlock(_) => self.pc,
            _ => {
                return;
            },
        };
        if at >= self.program.ops.len() || at as u64 > u32::MAX as u64 {
            return;
        }
        let mut p: Option<LoopProfile> = None;
        std::mem::swap(&mut p, &mut self.profile);
        if let Some(mut profile) = p {
            if profile.trip_count(at as u32) < u64::MAX {
                profile.record_loop_iter(at as u32);
            }
            self.profile = Some(profile);
        }
        assert(self.frames() =~= old(self).frames());
    }

    /// Do the next step. `byte` is what a read gives. The result is `false`
    /// where no machine has room for what the step does; the engine is then
    /// of no further use.
    pub fn advance(&mut self, byte: u8) -> (done: bool)
        requires
            old(self).wf(),
        ensures
            done == match pending(old(self)@) {
                Some(op) => feasible(op, old(self)@.st),
                None => true,
            },
            done ==> {
                &&& final(self).wf()
                &&& final(self).code() == old(self).code()
                &&& final(self)@ == step(old(self)@, byte as int)
                &&& final(self).trips() == match old(self).trips() {
                    Some(t) => Some(tallied(t, old(self)@)),
                    None => None,
                }
            },
    {
        broadcast use group_ops_view;

        if self.done {
            return true;
        }
        let ghost c = self@;
        self.tally();
        let n = self.blocks.len();
        assert(c.frames.len() == n + 1);
        let ghost trace = self.trace@;
        let ghost reads = self.reads@;
        if n > 0 {
            let ghost b = self.blocks@[n - 1];
            assert(c.top() == (Frame { ops: ops_view(b.plan.ops@), pc: b.pc as int }));
            let plan = share(&self.blocks[n - 1].plan);
            let pc = self.blocks[n - 1].pc;
            if pc >= plan.ops.len() {
                let _ = self.blocks.pop();
                assert(self.frames() =~= c.frames.drop_last());
                return true;
            }
            let ghost op = op_view(plan.ops@[pc as int]);
            let flow = dispatch(
                &plan.ops[pc],
                &mut self.tape,
                byte,
                false,
                Ghost(trace),
                Ghost(reads),
            );
            proof {
                self.trace = Ghost(trace_after(op, c.st));
                self.reads = Ghost(reads_after(op, c.st));
            }
            let to = match flow {
                Flow::Next => pc + 1,
                Flow::Stay => pc,
                Flow::Jump(to) => to,
                Flow::Enter(inner) => {
                    self.blocks.push(Running { plan: inner, pc: 0 });
                    assert(self.frames() =~= c.frames.push(
                        Frame { ops: ops_view(inner.ops@), pc: 0 },
                    ));
                    return true;
                },
                Flow::Fail => {
                    return false;
                },
            };
            self.blocks.set(n - 1, Running { plan, pc: to });
            assert(self.frames() =~= c.at(to as int, self@.st).frames);
            true
        } else {
            assert(c.top() == (Frame { ops: ops_view(self.program.ops@), pc: self.pc as int }));
            let pc = self.pc;
            if pc >= self.program.ops.len() {
                self.done = true;
                assert(self.frames() =~= c.frames.drop_last());
                return true;
            }
            let ghost op = op_view(self.program.ops@[pc as int]);
            let flow = dispatch(
                &self.program.ops[pc],
                &mut self.tape,
                byte,
                true,
                Ghost(trace),
                Ghost(reads),
            );
            proof {
                self.trace = Ghost(trace_after(op, c.st));
                self.reads = Ghost(reads_after(op, c.st));
            }
            let to = match flow {
                Flow::Next => pc + 1,
                Flow::Stay => pc,
                Flow::Jump(to) => to,
                Flow::Enter(inner) => {
                    self.blocks.push(Running { plan: inner, pc: 0 });
                    assert(self.frames() =~= c.frames.push(
                        Frame { ops: ops_view(inner.ops@), pc: 0 },
                    ));
                    return true;
                },
                Flow::Fail => {
                    return false;
                },
            };
            self.pc = to;
            assert(self.frames() =~= c.at(to as int, self@.st).frames);
            true
        }
    }
}

/// Whether native code stands in for a loop.
#[derive(Debug, Clone, Copy, PartialEq, Eq)]
pub enum JitState {
    /// The loop has not been hot.
    Cold,
    /// There is no native code for it, and none will be tried again.
    Failed,
    /// There is native code for it.
    Ready,
}

/// What to do when a loop jumps back.
#[derive(Debug, Clone, Copy, PartialEq, Eq)]
pub enum BackEdge {
    /// Run the body once more.
    Again,
    /// Count the trip, then run the body once more.
    Count,
    /// Count the trip, then try to make native code.
    Compile,
    /// Run the native code.
    Dispatch,
}

/// What to do when a loop jumps back that has done `trips` trips before this
/// one. Once it is decided whether there is native code, nothing is counted.
pub fn back_edge(state: JitState, trips: u64, threshold: u64) -> (b: BackEdge)
    ensures
        b == match state {
            JitState::Failed => BackEdge::Again,
            JitState::Ready => BackEdge::Dispatch,
            JitState::Cold => if trips + 1 >= threshold {
                BackEdge::Compile
            } else {
                BackEdge::Count
            },
        },
{
    match state {
        JitState::Failed => BackEdge::Again,
        JitState::Ready => BackEdge::Dispatch,
        JitState::Cold => {
            if trips >= threshold || trips + 1 >= threshold {
                BackEdge::Compile
            } else {
                BackEdge::Count
            }
        },
    }
}

/// The state of a loop after native code was tried for it.
pub fn after_compile(made: bool) -> (s: JitState)
    ensures
        s == if made {
            JitState::Ready
        } else {
            JitState::Failed
        },
{
    if made {
        JitState::Ready
    } else {
        JitState::Failed
    }
}

} // verus!
