//! What a program writes that reads nothing.

use vstd::prelude::*;

use crate::driver::config::OptLevel;
use crate::driver::pipeline::build_frontend;
use crate::driver::pipeline::program_of;
use crate::driver::run::fold_of;
use crate::driver::run::{choose_fold, Fold};
use crate::error::Error;
use crate::frontend::lexer::lex;
use crate::frontend::lexer::{tokens_of, Token};
use crate::frontend::parser::{
    balanced, block_at, depth, depth_agrees, lemma_block_end, lemma_depth, lemma_short_runs_fit,
    tree_of,
};
use crate::interp::bounds::{lemma_block_measures, lemma_short_program_fits};
use crate::interp::bytecode::{ops_view, Op};
use crate::interp::bytecode::InterpProgram;
use crate::interp::engine::{feasible, pending};
use crate::interp::engine::{Event, Interpreter};
use crate::interp::lower::lower_hir_to_bytecode;
use crate::interp::lower::{block_fits, bytecode};
use crate::interp::machine::{blank, loaded, step, steps, written_bytes, Config, Io, Source, St};
use crate::ir::hir::{hirs_view, Hir};
use crate::ir::hir::HirProgram;
use crate::ir::lower::hirs_of;
use crate::text::owned;

verus! {

/// What a program reads behind the end of its input.
pub const END_OF_INPUT: u8 = 255;

/// An input without a byte.
pub open spec fn no_input() -> Source {
    |i: nat| END_OF_INPUT as int
}

/// Bytes as numbers.
pub open spec fn numbers(bytes: Seq<u8>) -> Seq<int> {
    bytes.map_values(|b: u8| b as int)
}

/// The machine after `n` steps of a program without input on a blank tape.
pub open spec fn machine_after(c: Config, n: nat) -> Config {
    steps(c, no_input(), n)
}

/// Whether a machine has room for its next step.
pub open spec fn has_room(c: Config) -> bool {
    match pending(c) {
        Some(op) => feasible(op, c.st),
        None => true,
    }
}

/// Whether a program ends within `max_steps` steps, each of which has room.
pub open spec fn ends_within(c: Config, max_steps: nat) -> bool {
    exists|n: nat|
        n <= max_steps && (#[trigger] machine_after(c, n)).halted() && forall|k: nat|
            k < n ==> has_room(#[trigger] machine_after(c, k))
}

/// One step more.
proof fn lemma_one_more(c: Config, source: Source, n: nat)
    ensures
        steps(c, source, n + 1) == step(
            steps(c, source, n),
            source(steps(c, source, n).st.reads),
        ),
    decreases n,
{
    if n > 0 {
        lemma_one_more(step(c, source(c.st.reads)), source, (n - 1) as nat);
    } else {
        reveal_with_fuel(steps, 2);
    }
}

/// A machine that has come to its end stays there.
proof fn lemma_stays(c: Config, m: nat, n: nat)
    requires
        m <= n,
        machine_after(c, m).halted(),
    ensures
        machine_after(c, n) == machine_after(c, m),
    decreases n - m,
{
    if m < n {
        lemma_stays(c, m, (n - 1) as nat);
        lemma_one_more(c, no_input(), (n - 1) as nat);
    }
}

proof fn lemma_spread_is_quiet(s: St, factors: Seq<(int, int)>, v: int, n: int)
    ensures
        s.spread(factors, v, n).trace == s.trace,
    decreases n,
{
    if n > 0 {
        lemma_spread_is_quiet(s, factors, v, n - 1);
    }
}

proof fn lemma_cleared_is_quiet(s: St, sets: Seq<int>, n: int)
    ensures
        s.cleared(sets, n).trace == s.trace,
    decreases n,
{
    if n > 0 {
        lemma_cleared_is_quiet(s, sets, n - 1);
    }
}

/// The byte that a step writes.
proof fn lemma_step_writes(c: Config)
    ensures
        written_bytes(step(c, END_OF_INPUT as int).st.trace) == match pending(c) {
            Some(Op::PutByte) => written_bytes(c.st.trace).push(c.st.cell()),
            _ => written_bytes(c.st.trace),
        },
{
    let s = c.st;
    assert(s.trace.push(Io::Put(s.ptr, s.cell())).drop_last() =~= s.trace);
    assert(s.trace.push(Io::Get(s.ptr)).drop_last() =~= s.trace);
    match pending(c) {
        Some(Op::LinearMul(factors)) => {
            lemma_spread_is_quiet(s.set_at(0, 0), factors, s.cell(), factors.len() as int);
        },
        Some(Op::LinearMulWithSets(factors, sets)) => {
            lemma_spread_is_quiet(s.set_at(0, 0), factors, s.cell(), factors.len() as int);
            lemma_cleared_is_quiet(s.multiplied(factors), sets, sets.len() as int);
        },
        _ => {},
    }
}

/// Run a program without input for at most `max_steps` steps. The result is what
/// it has written, where it has come to its end.
pub fn written_by(program: InterpProgram, tape_len: usize, max_steps: u64) -> (r: Option<Vec<u8>>)
    ensures
        r is Some <==> ends_within(loaded(ops_view(program.ops@), blank()), max_steps as nat),
        r is Some ==> exists|n: nat|
            {
                let c = #[trigger] machine_after(loaded(ops_view(program.ops@), blank()), n);
                c.halted() && numbers(r->Some_0@) == written_bytes(c.st.trace)
            },
{
    let ghost start = loaded(ops_view(program.ops@), blank());
    let mut machine = Interpreter::new(program, tape_len);
    assert(machine@.st.cells =~= blank().cells);
    assert(machine@ == start);
    let mut out: Vec<u8> = Vec::new();
    let mut i: u64 = 0;
    assert(numbers(out@) =~= written_bytes(machine@.st.trace));
    loop
        invariant
            machine.wf(),
            i <= max_steps,
            machine@ == machine_after(start, i as nat),
            numbers(out@) == written_bytes(machine@.st.trace),
            forall|k: nat| k < i ==> has_room(#[trigger] machine_after(start, k)),
            forall|k: nat| k < i ==> !(#[trigger] machine_after(start, k)).halted(),
            start == loaded(ops_view(program.ops@), blank()),
        decreases max_steps - i,
    {
        let event = machine.event();
        match event {
            Event::Halted => {
                assert(machine_after(start, i as nat).halted());
                return Some(out);
            },
            _ => {},
        }
        if i == max_steps {
            proof {
                if ends_within(start, max_steps as nat) {
                    let n = choose|n: nat|
                        n <= max_steps && (#[trigger] machine_after(start, n)).halted() && forall|
                            k: nat,
                        |
                            k < n ==> has_room(#[trigger] machine_after(start, k));
                    lemma_stays(start, n, max_steps as nat);
                }
            }
            return None;
        }
        let ghost before = machine@;
        proof {
            lemma_one_more(start, no_input(), i as nat);
            lemma_step_writes(before);
        }
        if !machine.advance(END_OF_INPUT) {
            proof {
                if ends_within(start, max_steps as nat) {
                    let n = choose|n: nat|
                        n <= max_steps && (#[trigger] machine_after(start, n)).halted() && forall|
                            k: nat,
                        |
                            k < n ==> has_room(#[trigger] machine_after(start, k));
                    if n <= i {
                        lemma_stays(start, n, i as nat);
                    }
                    assert(has_room(machine_after(start, i as nat)));
                }
            }
            return None;
        }
        let ghost said = out@;
        match event {
            Event::Put { ptr: _, byte } => {
                out.push(byte);
                assert(numbers(out@) =~= numbers(said).push(byte as int));
            },
            _ => {},
        }
        i += 1;
    }
}

/// What a program that reads nothing writes, if it ends within `max_steps` steps:
/// what the bytecode of the program writes on a blank tape.
pub fn output_of(hir: &HirProgram, tape_len: usize, max_steps: u64) -> (r: Option<Vec<u8>>)
    requires
        block_fits(hirs_view(hir.insts@), Seq::empty()),
    ensures
        r is Some <==> ends_within(
            loaded(bytecode(hirs_view(hir.insts@)), blank()),
            max_steps as nat,
        ),
        r is Some ==> exists|n: nat|
            {
                let c = #[trigger] machine_after(
                    loaded(bytecode(hirs_view(hir.insts@)), blank()),
                    n,
                );
                c.halted() && numbers(r->Some_0@) == written_bytes(c.st.trace)
            },
{
    written_by(lower_hir_to_bytecode(hir), tape_len, max_steps)
}

/// Bytes of a Linux program that writes a text besides the text.
pub const PRECOMPUTED_CODE_LEN: usize = 15;

/// Whether bytes are what a program is compiled to write: what it writes on a
/// blank tape where it folds to its output, and nothing where it does not.
pub open spec fn folds_to(insts: Seq<Hir>, level: OptLevel, stdout: Seq<u8>) -> bool {
    if fold_of(insts, level) == Fold::Precomputed {
        exists|n: nat|
            {
                let c = #[trigger] machine_after(loaded(bytecode(insts), blank()), n);
                c.halted() && numbers(stdout) == written_bytes(c.st.trace)
            }
    } else {
        stdout.len() == 0
    }
}

/// What a source is compiled to write: nothing, unless it folds to its output;
/// then it is run, for at most `max_steps` steps. It is refused where it has too
/// many operators, where its brackets do not match, and where it has to be run
/// and does not end or writes more than a program can hold.
pub fn folded_output(source: &str, level: OptLevel, tape_len: usize, max_steps: u64) -> (r: Result<
    Vec<u8>,
    Error,
>)
    ensures
        r is Ok ==> tokens_of(source@).len() <= i32::MAX && balanced(tokens_of(source@)) && folds_to(
            program_of(source@),
            level,
            r->Ok_0@,
        ) && r->Ok_0@.len() + PRECOMPUTED_CODE_LEN <= i32::MAX,
        r is Err ==> (r->Err_0 is Parse <==> tokens_of(source@).len() <= i32::MAX && !balanced(
            tokens_of(source@),
        )),
        r is Err && !(r->Err_0 is Parse) ==> r->Err_0 is Other,
        tokens_of(source@).len() <= i32::MAX && balanced(tokens_of(source@)) && fold_of(
            program_of(source@),
            level,
        ) != Fold::Precomputed ==> r is Ok,
        tokens_of(source@).len() <= i32::MAX && balanced(tokens_of(source@)) && fold_of(
            program_of(source@),
            level,
        ) == Fold::Precomputed && !ends_within(
            loaded(bytecode(program_of(source@)), blank()),
            max_steps as nat,
        ) ==> r is Err,
        tokens_of(source@).len() <= i32::MAX && balanced(tokens_of(source@)) && ends_within(
            loaded(bytecode(program_of(source@)), blank()),
            max_steps as nat,
        ) && r is Err ==> forall|n: nat|
            #![trigger machine_after(loaded(bytecode(program_of(source@)), blank()), n)]
            {
                let c = machine_after(loaded(bytecode(program_of(source@)), blank()), n);
                c.halted() ==> written_bytes(c.st.trace).len() + PRECOMPUTED_CODE_LEN > i32::MAX
            },
{
    let tokens = lex(source);
    if tokens.len() > i32::MAX as usize {
        return Err(Error::Other(owned("the source has too many operators")));
    }
    proof {
        lemma_short_runs_fit(tokens@);
    }
    let front = match build_frontend(source) {
        Ok(f) => f,
        Err(e) => {
            return Err(e);
        },
    };
    match choose_fold(&front.hir, level) {
        Fold::Precomputed => {
            let ghost start = loaded(bytecode(program_of(source@)), blank());
            proof {
                lemma_sources_fit(tokens@);
            }
            let out = match output_of(&front.hir, tape_len, max_steps) {
                Some(out) => out,
                None => {
                    return Err(Error::Other(owned("the program does not end")));
                },
            };
            if out.len() > i32::MAX as usize - PRECOMPUTED_CODE_LEN {
                proof {
                    let m = choose|m: nat|
                        {
                            let c = #[trigger] machine_after(start, m);
                            c.halted() && numbers(out@) == written_bytes(c.st.trace)
                        };
                    assert forall|n: nat|
                        #![trigger machine_after(start, n)]
                        machine_after(start, n).halted() implies written_bytes(
                        machine_after(start, n).st.trace,
                    ).len() + PRECOMPUTED_CODE_LEN > i32::MAX by {
                        if m <= n {
                            lemma_stays(start, m, n);
                        } else {
                            lemma_stays(start, n, m);
                        }
                        assert(numbers(out@).len() == out@.len());
                    }
                }
                return Err(Error::Other(owned("the program writes too much")));
            }
            Ok(out)
        },
        _ => Ok(Vec::new()),
    }
}

/// The program of a source that is not too long fits its bytecode.
proof fn lemma_sources_fit(tokens: Seq<Token>)
    requires
        balanced(tokens),
        tokens.len() <= i32::MAX,
    ensures
        block_fits(hirs_of(tree_of(tokens)), Seq::empty()),
{
    lemma_depth(tokens, 0, false);
    lemma_block_end(tokens, 0, false);
    assert(depth(tokens, 0) == 0);
    assert(block_at(tokens, 0, false) is Nodes) by {
        assert(depth_agrees(tokens, 0, false));
    }
    lemma_block_measures(tokens, 0, false);
    lemma_short_program_fits(hirs_of(tree_of(tokens)), Seq::empty());
}

} // verus!
