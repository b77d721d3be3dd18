//! What Brainfuck means, operator by operator, and that parsing keeps it.

use vstd::prelude::*;

use crate::frontend::ast::Node;
use crate::frontend::lexer::Token;
use crate::frontend::parser::{
    add_end, balanced, block_at, depth, depth_agrees, is_add, is_move, lemma_block_end,
    lemma_depth, lemma_run_ends, lemma_run_kinds, move_end, net, tree_of, unit,
};
use crate::interp::machine::{run, run_one, Source, St};
use crate::interp::preserve::{gives_bytes, lemma_solid_set, solid};
use crate::ir::hir::Hir;
use crate::ir::lower::{hir_of, hirs_of, lemma_hirs_of_cons};

verus! {

/// Whether the brackets at `i` and `j` belong together.
pub open spec fn closes(tokens: Seq<Token>, i: int, j: int) -> bool {
    &&& 0 <= i < j < tokens.len()
    &&& tokens[i] == Token::LoopStart
    &&& tokens[j] == Token::LoopEnd
    &&& depth(tokens, j + 1) == depth(tokens, i)
    &&& forall|k: int| i < k <= j ==> #[trigger] depth(tokens, k) > depth(tokens, i)
}

/// The `]` that belongs to the `[` at `i`.
pub open spec fn close_of(tokens: Seq<Token>, i: int) -> int {
    choose|j: int| closes(tokens, i, j)
}

/// The `[` that belongs to the `]` at `j`.
pub open spec fn open_of(tokens: Seq<Token>, j: int) -> int {
    choose|i: int| closes(tokens, i, j)
}

/// One operator of a Brainfuck program: what it does, and where execution
/// goes on. `byte` is what a read gives.
pub open spec fn operate(tokens: Seq<Token>, pc: int, s: St, byte: int) -> (int, St) {
    match tokens[pc] {
        Token::MoveRight => (pc + 1, s.moved(1)),
        Token::MoveLeft => (pc + 1, s.moved(-1)),
        Token::Inc => (pc + 1, s.add_at(0, 1)),
        Token::Dec => (pc + 1, s.add_at(0, -1)),
        Token::Output => (pc + 1, s.wrote()),
        Token::Input => (pc + 1, s.read(byte)),
        Token::LoopStart => if s.cell() == 0 {
            (close_of(tokens, pc) + 1, s)
        } else {
            (pc + 1, s)
        },
        Token::LoopEnd => if s.cell() == 0 {
            (pc + 1, s)
        } else {
            (open_of(tokens, pc) + 1, s)
        },
    }
}

/// Where a Brainfuck program is after `n` operators. It has ended where no
/// operator is left.
pub open spec fn operated(tokens: Seq<Token>, pc: int, s: St, source: Source, n: nat) -> (int, St)
    decreases n,
{
    if n == 0 || pc < 0 || pc >= tokens.len() {
        (pc, s)
    } else {
        let (to, t) = operate(tokens, pc, s, source(s.reads));
        operated(tokens, to, t, source, (n - 1) as nat)
    }
}

pub proof fn lemma_operated_add(tokens: Seq<Token>, pc: int, s: St, source: Source, a: nat, b: nat)
    ensures
        operated(tokens, pc, s, source, a + b) == operated(
            tokens,
            operated(tokens, pc, s, source, a).0,
            operated(tokens, pc, s, source, a).1,
            source,
            b,
        ),
    decreases a,
{
    if a > 0 && 0 <= pc < tokens.len() {
        let (to, t) = operate(tokens, pc, s, source(s.reads));
        lemma_operated_add(tokens, to, t, source, (a - 1) as nat, b);
        assert((a + b - 1) as nat == (a - 1) as nat + b);
    }
}

/// A bracket belongs to one other only.
pub proof fn lemma_partners(tokens: Seq<Token>, i: int, j: int)
    requires
        closes(tokens, i, j),
    ensures
        close_of(tokens, i) == j,
        open_of(tokens, j) == i,
{
    let q = close_of(tokens, i);
    assert(closes(tokens, i, q));
    if q < j {
        assert(depth(tokens, q + 1) > depth(tokens, i));
    } else if j < q {
        assert(depth(tokens, j + 1) > depth(tokens, i));
    }
    let p = open_of(tokens, j);
    assert(closes(tokens, p, j));
    if p < i {
        assert(depth(tokens, i) > depth(tokens, p));
    } else if i < p {
        assert(depth(tokens, p) > depth(tokens, i));
    }
}

/// Running a list is running its first instruction and then the others.
pub proof fn lemma_run_cons(inst: Hir, rest: Seq<Hir>, s: St, source: Source, fuel: nat)
    ensures
        run(seq![inst] + rest, s, source, fuel) == match run_one(inst, s, source, fuel) {
            Some(t) => run(rest, t, source, fuel),
            None => None,
        },
    decreases rest.len(),
{
    let all = seq![inst] + rest;
    if rest.len() == 0 {
        assert(all.drop_last() =~= Seq::<Hir>::empty());
        assert(run(all.drop_last(), s, source, fuel) == Some(s));
    } else {
        lemma_run_cons(inst, rest.drop_last(), s, source, fuel);
        assert(all.drop_last() =~= seq![inst] + rest.drop_last());
        assert(all.last() == rest.last());
    }
}

/// A run of moves.
proof fn lemma_moves(tokens: Seq<Token>, from: int, to: int, s: St, source: Source)
    requires
        0 <= from <= to <= tokens.len(),
        forall|k: int| from <= k < to ==> is_move(#[trigger] tokens[k]),
    ensures
        operated(tokens, from, s, source, (to - from) as nat) == (
            to,
            s.moved(net(tokens, from, to)),
        ),
    decreases to - from,
{
    if from < to {
        lemma_moves(tokens, from, to - 1, s, source);
        let t = s.moved(net(tokens, from, to - 1));
        assert(is_move(tokens[to - 1]));
        lemma_operated_add(tokens, from, s, source, (to - 1 - from) as nat, 1);
        let (p, u) = operate(tokens, to - 1, t, source(t.reads));
        assert(operated(tokens, p, u, source, 0) == (p, u));
        assert(operated(tokens, to - 1, t, source, 1) == (p, u));
        assert(u =~= s.moved(net(tokens, from, to)));
    } else {
        assert(s.moved(0) =~= s);
    }
}

/// A run of cell changes.
proof fn lemma_adds(tokens: Seq<Token>, from: int, to: int, s: St, source: Source)
    requires
        0 <= from <= to <= tokens.len(),
        solid(s),
        forall|k: int| from <= k < to ==> is_add(#[trigger] tokens[k]),
    ensures
        operated(tokens, from, s, source, (to - from) as nat) == (
            to,
            s.add_at(0, net(tokens, from, to)),
        ),
        solid(s.add_at(0, net(tokens, from, to))),
    decreases to - from,
{
    assert(s.cells.dom().contains(s.ptr));
    if from < to {
        lemma_adds(tokens, from, to - 1, s, source);
        let m = net(tokens, from, to - 1);
        let t = s.add_at(0, m);
        assert(is_add(tokens[to - 1]));
        lemma_operated_add(tokens, from, s, source, (to - 1 - from) as nat, 1);
        let (p, u) = operate(tokens, to - 1, t, source(t.reads));
        assert(operated(tokens, p, u, source, 0) == (p, u));
        assert(operated(tokens, to - 1, t, source, 1) == (p, u));
        let c = s.cells[s.ptr];
        let e = unit(tokens[to - 1]);
        assert(((c + m) % 256 + e) % 256 == (c + (m + e)) % 256) by {
            vstd::arithmetic::div_mod::lemma_add_mod_noop_right(e, c + m, 256);
            assert(e + (c + m) == c + (m + e));
        }
        assert(u.cells =~= s.add_at(0, m + e).cells);
        assert(u =~= s.add_at(0, net(tokens, from, to)));
        lemma_solid_set(s, 0, (c + net(tokens, from, to)) % 256);
    } else {
        assert(s.add_at(0, 0).cells =~= s.cells);
        assert(s.add_at(0, 0) =~= s);
    }
}

/// The token behind which the rest of a block is no longer run: the end of the
/// program, or the closing bracket.
spec fn block_stop(tokens: Seq<Token>, pos: int, in_loop: bool) -> int {
    block_at(tokens, pos, in_loop)->Nodes_1 - if in_loop {
        1int
    } else {
        0int
    }
}

/// A loop is run as its body says, from its first bracket and from its last.
proof fn lemma_loop_meaning(
    tokens: Seq<Token>,
    pos: int,
    pc: int,
    s: St,
    source: Source,
    fuel: nat,
) -> (n: nat)
    requires
        0 <= pos < tokens.len() <= usize::MAX,
        tokens[pos] == Token::LoopStart,
        block_at(tokens, pos + 1, true) is Nodes,
        pc == pos || pc == block_at(tokens, pos + 1, true)->Nodes_1 - 1,
        solid(s),
        gives_bytes(source),
    ensures
        ({
            let body = block_at(tokens, pos + 1, true)->Nodes_0;
            let end = block_at(tokens, pos + 1, true)->Nodes_1;
            match run_one(Hir::Loop(hirs_of(body)), s, source, fuel) {
                Some(t) => operated(tokens, pc, s, source, n) == (end, t) && solid(t),
                None => n >= fuel && 0 <= operated(tokens, pc, s, source, n).0 < tokens.len(),
            }
        }),
    decreases fuel, tokens.len() - pos, 0int,
{
    let body = block_at(tokens, pos + 1, true)->Nodes_0;
    let end = block_at(tokens, pos + 1, true)->Nodes_1;
    lemma_depth(tokens, pos + 1, true);
    lemma_block_end(tokens, pos + 1, true);
    lemma_closing(tokens, pos + 1);
    assert(closes(tokens, pos, end - 1)) by {
        assert(depth(tokens, pos + 1) == depth(tokens, pos) + 1);
        assert(depth_agrees(tokens, pos + 1, true));
    }
    lemma_partners(tokens, pos, end - 1);
    let (p, u) = operate(tokens, pc, s, source(s.reads));
    assert(operated(tokens, p, u, source, 0) == (p, u));
    assert(operated(tokens, pc, s, source, 1) == (p, u));
    if s.cell() == 0 {
        1
    } else if fuel == 0 {
        0
    } else {
        let less = (fuel - 1) as nat;
        let n = lemma_block_meaning(tokens, pos + 1, true, s, source, less);
        lemma_operated_add(tokens, pc, s, source, 1, n);
        match run(hirs_of(body), s, source, less) {
            None => 1 + n,
            Some(t) => {
                let m = lemma_loop_meaning(tokens, pos, end - 1, t, source, less);
                lemma_operated_add(tokens, pc, s, source, 1 + n, m);
                1 + n + m
            },
        }
    }
}

/// A block inside a loop ends with a closing bracket.
proof fn lemma_closing(tokens: Seq<Token>, pos: int)
    requires
        0 <= pos <= tokens.len(),
        block_at(tokens, pos, true) is Nodes,
    ensures
        pos < block_at(tokens, pos, true)->Nodes_1 <= tokens.len(),
        tokens[block_at(tokens, pos, true)->Nodes_1 - 1] == Token::LoopEnd,
    decreases tokens.len() - pos,
{
    lemma_run_ends(tokens, pos);
    lemma_block_end(tokens, pos, true);
    if is_move(tokens[pos]) {
        lemma_closing(tokens, move_end(tokens, pos));
    } else if is_add(tokens[pos]) {
        lemma_closing(tokens, add_end(tokens, pos));
    } else if tokens[pos] == Token::LoopStart {
        lemma_block_end(tokens, pos + 1, true);
        lemma_closing(tokens, block_at(tokens, pos + 1, true)->Nodes_1);
    } else if tokens[pos] != Token::LoopEnd {
        lemma_closing(tokens, pos + 1);
    }
}

/// Writing leaves the cells as they are.
proof fn lemma_solid_wrote(s: St)
    requires
        solid(s),
    ensures
        solid(s.wrote()),
{
}

/// Reading sets a cell to a byte.
proof fn lemma_solid_read(s: St, byte: int)
    requires
        solid(s),
        0 <= byte < 256,
    ensures
        solid(s.read(byte)),
{
    lemma_solid_set(s, 0, byte);
    assert(s.read(byte).cells =~= s.set_at(0, byte).cells);
}

/// A block is run as its nodes say.
proof fn lemma_block_meaning(
    tokens: Seq<Token>,
    pos: int,
    in_loop: bool,
    s: St,
    source: Source,
    fuel: nat,
) -> (n: nat)
    requires
        0 <= pos <= tokens.len() <= usize::MAX,
        block_at(tokens, pos, in_loop) is Nodes,
        solid(s),
        gives_bytes(source),
    ensures
        match run(hirs_of(block_at(tokens, pos, in_loop)->Nodes_0), s, source, fuel) {
            Some(t) => operated(tokens, pos, s, source, n) == (
                block_stop(tokens, pos, in_loop),
                t,
            ) && solid(t),
            None => n >= fuel && 0 <= operated(tokens, pos, s, source, n).0 < tokens.len(),
        },
    decreases fuel, tokens.len() - pos, 1int,
{
    lemma_run_ends(tokens, pos);
    lemma_run_kinds(tokens, pos);
    lemma_block_end(tokens, pos, in_loop);
    let nodes = block_at(tokens, pos, in_loop)->Nodes_0;
    if pos >= tokens.len() {
        0
    } else if is_move(tokens[pos]) || is_add(tokens[pos]) {
        let moves = is_move(tokens[pos]);
        let end = if moves {
            move_end(tokens, pos)
        } else {
            add_end(tokens, pos)
        };
        let delta = net(tokens, pos, end);
        let rest = block_at(tokens, end, in_loop)->Nodes_0;
        let t = if moves {
            s.moved(delta)
        } else {
            s.add_at(0, delta)
        };
        if moves {
            lemma_moves(tokens, pos, end, s, source);
        } else {
            lemma_adds(tokens, pos, end, s, source);
        }
        let n = lemma_block_meaning(tokens, end, in_loop, t, source, fuel);
        let k = (end - pos) as nat;
        lemma_operated_add(tokens, pos, s, source, k, n);
        if delta == 0 {
            assert(s.cells.dom().contains(s.ptr));
            assert(t.cells =~= s.cells);
            assert(t =~= s);
        } else {
            let node = if moves {
                Node::Move(delta)
            } else {
                Node::Add(delta)
            };
            lemma_hirs_of_cons(node, rest);
            lemma_run_cons(hir_of(node), hirs_of(rest), s, source, fuel);
        }
        k + n
    } else if tokens[pos] == Token::LoopStart {
        let body = block_at(tokens, pos + 1, true)->Nodes_0;
        let end = block_at(tokens, pos + 1, true)->Nodes_1;
        lemma_block_end(tokens, pos + 1, true);
        let rest = block_at(tokens, end, in_loop)->Nodes_0;
        lemma_hirs_of_cons(Node::Loop(body), rest);
        lemma_run_cons(Hir::Loop(hirs_of(body)), hirs_of(rest), s, source, fuel);
        let n = lemma_loop_meaning(tokens, pos, pos, s, source, fuel);
        match run_one(Hir::Loop(hirs_of(body)), s, source, fuel) {
            None => n,
            Some(t) => {
                let m = lemma_block_meaning(tokens, end, in_loop, t, source, fuel);
                lemma_operated_add(tokens, pos, s, source, n, m);
                n + m
            },
        }
    } else if tokens[pos] == Token::LoopEnd {
        0
    } else {
        let node = if tokens[pos] == Token::Output {
            Node::Output
        } else {
            Node::Input
        };
        let rest = block_at(tokens, pos + 1, in_loop)->Nodes_0;
        lemma_hirs_of_cons(node, rest);
        lemma_run_cons(hir_of(node), hirs_of(rest), s, source, fuel);
        let (p, t) = operate(tokens, pos, s, source(s.reads));
        assert(operated(tokens, p, t, source, 0) == (p, t));
        assert(operated(tokens, pos, s, source, 1) == (p, t));
        if tokens[pos] == Token::Output {
            assert(t == s.wrote());
            lemma_solid_wrote(s);
        } else {
            assert(tokens[pos] == Token::Input);
            let b = source(s.reads);
            assert(t == s.read(b));
            lemma_solid_read(s, b);
        }
        let n = lemma_block_meaning(tokens, pos + 1, in_loop, t, source, fuel);
        lemma_operated_add(tokens, pos, s, source, 1, n);
        1 + n
    }
}

/// The tree of a program means what the program means, operator by operator,
/// whatever it reads. Where the tree ends in a state, the program ends in it;
/// where the tree's loops take more than `fuel` rounds, the program takes at
/// least `fuel` operators.
pub proof fn law_parsing_keeps_meaning(tokens: Seq<Token>, s: St, source: Source, fuel: nat) -> (n:
    nat)
    requires
        balanced(tokens),
        tokens.len() <= usize::MAX,
        solid(s),
        gives_bytes(source),
    ensures
        match run(hirs_of(tree_of(tokens)), s, source, fuel) {
            Some(t) => operated(tokens, 0, s, source, n) == (tokens.len() as int, t),
            None => n >= fuel && 0 <= operated(tokens, 0, s, source, n).0 < tokens.len(),
        },
{
    lemma_depth(tokens, 0, false);
    lemma_block_end(tokens, 0, false);
    assert(depth(tokens, 0) == 0);
    assert(block_at(tokens, 0, false) is Nodes) by {
        assert(depth_agrees(tokens, 0, false));
    }
    lemma_block_meaning(tokens, 0, false, s, source, fuel)
}

} // verus!
