//! Programs of ordinary size fit their bytecode.

use vstd::prelude::*;

use crate::frontend::ast::Node;
use crate::frontend::lexer::Token;
use crate::frontend::parser::{
    add_end, block_at, is_add, is_move, lemma_block_end, lemma_net_bound, lemma_run_ends,
    move_end, net,
};
use crate::interp::bytecode::Op;
use crate::interp::lower::{
    appended, block_fits, block_ops, block_state, displacement, fits32, flushed, insts_fit,
    law_net_writes_ascend, lemma_block_grows, lookup, net_writes, plain_form, put, window_fits,
    window_ops, without, Linear, Pending,
};
use crate::interp::preserve::{exact, exact_moves};
use crate::ir::hir::Hir;
use crate::ir::lower::{hir_of, hirs_of, lemma_hirs_of_cons};

verus! {

/// The distance without its sign.
pub open spec fn far(d: int) -> int {
    if d < 0 {
        -d
    } else {
        d
    }
}

/// How far the moves of an instruction, and of those inside it, go in all.
pub open spec fn travel_one(inst: Hir) -> int
    decreases inst,
{
    match inst {
        Hir::Move(d) => far(d),
        Hir::Loop(body) => travel(body),
        _ => 0,
    }
}

/// How far the moves of a program go in all.
pub open spec fn travel(insts: Seq<Hir>) -> int
    decreases insts,
{
    if insts.len() == 0 {
        0
    } else {
        travel(insts.drop_last()) + travel_one(insts.last())
    }
}

/// How many operations an instruction needs at most.
pub open spec fn weight_one(inst: Hir) -> int
    decreases inst,
{
    match inst {
        Hir::Loop(body) => weight(body) + 2,
        _ => 1,
    }
}

/// How many operations a program needs at most.
pub open spec fn weight(insts: Seq<Hir>) -> int
    decreases insts,
{
    if insts.len() == 0 {
        0
    } else {
        weight(insts.drop_last()) + weight_one(insts.last())
    }
}

/// Whether an instruction stands for Brainfuck operators.
pub open spec fn basic_one(inst: Hir) -> bool
    decreases inst,
{
    match inst {
        Hir::Loop(body) => basic(body),
        Hir::Move(_) => true,
        Hir::Add(_) => true,
        Hir::PutByte => true,
        Hir::GetByte => true,
        _ => false,
    }
}

/// Whether a program stands for Brainfuck operators.
pub open spec fn basic(insts: Seq<Hir>) -> bool
    decreases insts,
{
    insts.len() == 0 || (basic(insts.drop_last()) && basic_one(insts.last()))
}

/// How far the moves of a window go in all.
pub open spec fn raw_travel(raw: Seq<Linear>) -> int
    decreases raw.len(),
{
    if raw.len() == 0 {
        0
    } else {
        raw_travel(raw.drop_last()) + match raw.last() {
            Linear::Move(d) => far(d),
            _ => 0,
        }
    }
}

/// Neither measure is negative.
pub proof fn lemma_measures(insts: Seq<Hir>)
    ensures
        travel(insts) >= 0,
        weight(insts) >= insts.len(),
    decreases insts,
{
    if insts.len() > 0 {
        lemma_measures(insts.drop_last());
        lemma_measures_one(insts.last());
    }
}

pub proof fn lemma_measures_one(inst: Hir)
    ensures
        travel_one(inst) >= 0,
        weight_one(inst) >= 1,
    decreases inst,
{
    if let Hir::Loop(body) = inst {
        lemma_measures(body);
    }
}

/// A window that does not go far is exact and fits.
proof fn lemma_short_window(raw: Seq<Linear>)
    requires
        raw_travel(raw) <= i32::MAX,
    ensures
        raw_travel(raw) >= 0,
        -raw_travel(raw) <= displacement(raw) <= raw_travel(raw),
        exact(raw),
        window_fits(raw),
        forall|i: int|
            0 <= i < net_writes(raw).len() ==> -raw_travel(raw) <= (#[trigger] net_writes(
                raw,
            )[i]).0 <= raw_travel(raw),
    decreases raw.len(),
{
    if raw.len() > 0 {
        let front = raw.drop_last();
        lemma_raw_travel(front);
        lemma_short_window(front);
        let before = net_writes(front);
        let at = displacement(front);
        law_net_writes_ascend(front);
        let all = net_writes(raw);
        let w = raw_travel(front);
        assert forall|i: int| 0 <= i < all.len() implies -w <= (#[trigger] all[i]).0 <= w by {
            match raw.last() {
                Linear::Move(_) => {},
                Linear::Add(k) => {
                    lemma_offsets(before, at, Pending::Add(k % 256), w);
                    match lookup(before, at) {
                        None => {},
                        Some(Pending::Add(prev)) => {
                            lemma_offsets(before, at, Pending::Add((prev + k) % 256), w);
                        },
                        Some(Pending::Store(v)) => {
                            lemma_offsets(before, at, Pending::Store((v + k) % 256), w);
                        },
                    }
                },
                Linear::Zero => {
                    lemma_offsets(before, at, Pending::Store(0), w);
                },
            }
        }
        assert forall|i: int| 0 <= i < raw.len() implies (#[trigger] raw[i] matches Linear::Move(
            d,
        ) ==> fits32(d)) by {
            if i < front.len() {
                assert(raw[i] == front[i]);
            }
        }
    }
}

proof fn lemma_raw_travel(raw: Seq<Linear>)
    ensures
        raw_travel(raw) >= 0,
    decreases raw.len(),
{
    if raw.len() > 0 {
        lemma_raw_travel(raw.drop_last());
    }
}

/// Changing a list of writes at an offset adds no other offset.
proof fn lemma_offsets(writes: Seq<(int, Pending)>, off: int, p: Pending, w: int)
    requires
        -w <= off <= w,
        forall|i: int| 0 <= i < writes.len() ==> -w <= (#[trigger] writes[i]).0 <= w,
    ensures
        forall|i: int|
            0 <= i < put(writes, off, p).len() ==> -w <= (#[trigger] put(writes, off, p)[i]).0 <= w,
        forall|i: int|
            0 <= i < without(writes, off).len() ==> -w <= (#[trigger] without(writes, off)[i]).0
                <= w,
    decreases writes.len(),
{
    if writes.len() > 0 {
        let front = writes.drop_last();
        assert forall|i: int| 0 <= i < front.len() implies -w <= (#[trigger] front[i]).0 <= w by {
            assert(front[i] == writes[i]);
        }
        let last = writes[writes.len() - 1];
        assert(-w <= last.0 <= w);
        lemma_offsets(front, off, p, w);
        let a = put(writes, off, p);
        assert forall|i: int| 0 <= i < a.len() implies -w <= (#[trigger] a[i]).0 <= w by {
            if last.0 < off {
                assert(i < writes.len() ==> a[i] == writes[i]);
            } else if last.0 == off {
                assert(i < front.len() ==> a[i] == front[i]);
            } else {
                assert(i < put(front, off, p).len() ==> a[i] == put(front, off, p)[i]);
            }
        }
        let b = without(writes, off);
        assert forall|i: int| 0 <= i < b.len() implies -w <= (#[trigger] b[i]).0 <= w by {
            assert(i < without(front, off).len() ==> b[i] == without(front, off)[i]);
        }
    }
}

/// Fusing and appending make nothing longer.
proof fn lemma_plain_len(raw: Seq<Linear>)
    ensures
        plain_form(raw).len() <= raw.len(),
    decreases raw.len(),
{
    if raw.len() > 0 {
        lemma_plain_len(raw.drop_last());
    }
}

proof fn lemma_append_len(ops: Seq<Op>, more: Seq<Op>)
    ensures
        appended(ops, more).len() <= ops.len() + more.len(),
    decreases more.len(),
{
    if more.len() > 0 {
        lemma_append_len(ops, more.drop_last());
    }
}

proof fn lemma_flush_len(ops: Seq<Op>, raw: Seq<Linear>)
    ensures
        flushed(ops, raw).len() <= ops.len() + raw.len(),
{
    lemma_plain_len(raw);
    lemma_append_len(ops, window_ops(raw));
}

/// How long a block's operations get, and how far its open window goes.
proof fn lemma_block_len(insts: Seq<Hir>, ops: Seq<Op>)
    ensures
        block_state(insts, ops).0.len() + block_state(insts, ops).1.len() <= ops.len() + weight(
            insts,
        ),
        block_ops(insts, ops).len() <= ops.len() + weight(insts),
        raw_travel(block_state(insts, ops).1) <= travel(insts),
    decreases insts,
{
    if insts.len() > 0 {
        let front = insts.drop_last();
        lemma_measures(front);
        lemma_block_len(front, ops);
        let (done, raw) = block_state(front, ops);
        lemma_flush_len(done, raw);
        lemma_measures_one(insts.last());
        match insts.last() {
            Hir::Loop(body) => {
                assert(weight_one(insts.last()) == weight(body) + 2);
                let opened = flushed(done, raw).push(Op::LoopStart(0));
                lemma_block_len(body, opened);
                lemma_block_grows(body, opened);
                lemma_measures(body);
                assert(block_state(insts, ops).0.len() == block_ops(body, opened).len() + 1);
                assert(block_state(insts, ops).1.len() == 0);
            },
            Hir::Move(d) => {
                assert(raw.push(Linear::Move(d)).drop_last() =~= raw);
            },
            Hir::Add(k) => {
                assert(raw.push(Linear::Add(k)).drop_last() =~= raw);
            },
            Hir::Zero => {
                assert(raw.push(Linear::Zero).drop_last() =~= raw);
            },
            _ => {},
        }
    }
    let (done, raw) = block_state(insts, ops);
    lemma_flush_len(done, raw);
}

/// A program of Brainfuck operators that is not too long and does not go too
/// far fits its operations, and its windows are exact.
pub proof fn lemma_short_program_fits(insts: Seq<Hir>, ops: Seq<Op>)
    requires
        basic(insts),
        travel(insts) <= i32::MAX,
        ops.len() + weight(insts) <= i32::MAX,
    ensures
        insts_fit(insts, ops),
        block_fits(insts, ops),
        exact_moves(insts),
    decreases insts,
{
    lemma_block_len(insts, ops);
    lemma_block_len(insts, Seq::empty());
    lemma_short_window(block_state(insts, ops).1);
    lemma_short_window(block_state(insts, Seq::empty()).1);
    if insts.len() > 0 {
        let front = insts.drop_last();
        lemma_measures(front);
        lemma_measures(insts);
        lemma_measures_one(insts.last());
        lemma_short_program_fits(front, ops);
        let (done, raw) = block_state(front, ops);
        lemma_block_len(front, ops);
        lemma_short_window(raw);
        lemma_flush_len(done, raw);
        assert(basic_one(insts.last()));
        if let Hir::Loop(body) = insts.last() {
            let opened = flushed(done, raw).push(Op::LoopStart(0));
            assert(basic_one(insts.last()));
            assert(basic(body));
            assert(travel_one(insts.last()) == travel(body));
            assert(weight_one(insts.last()) == weight(body) + 2);
            lemma_measures(body);
            lemma_short_program_fits(body, opened);
            lemma_block_len(body, opened);
        }
    }
}

/// The measures of a list with an instruction in front.
proof fn lemma_measures_cons(inst: Hir, rest: Seq<Hir>)
    ensures
        travel(seq![inst] + rest) == travel_one(inst) + travel(rest),
        weight(seq![inst] + rest) == weight_one(inst) + weight(rest),
        basic(seq![inst] + rest) == (basic_one(inst) && basic(rest)),
    decreases rest.len(),
{
    let all = seq![inst] + rest;
    if rest.len() == 0 {
        assert(all.drop_last() =~= Seq::<Hir>::empty());
        assert(travel(all.drop_last()) == 0);
        assert(weight(all.drop_last()) == 0);
        assert(basic(all.drop_last()));
    } else {
        lemma_measures_cons(inst, rest.drop_last());
        assert(all.drop_last() =~= seq![inst] + rest.drop_last());
        assert(all.last() == rest.last());
    }
}

/// The measures of a block are at most the number of its operators.
pub proof fn lemma_block_measures(tokens: Seq<Token>, pos: int, in_loop: bool)
    requires
        0 <= pos <= tokens.len(),
        block_at(tokens, pos, in_loop) is Nodes,
    ensures
        ({
            let insts = hirs_of(block_at(tokens, pos, in_loop)->Nodes_0);
            let used = block_at(tokens, pos, in_loop)->Nodes_1 - pos - if in_loop {
                1int
            } else {
                0int
            };
            &&& travel(insts) <= used
            &&& weight(insts) <= used
            &&& basic(insts)
        }),
    decreases tokens.len() - pos,
{
    lemma_run_ends(tokens, pos);
    lemma_block_end(tokens, pos, in_loop);
    if pos >= tokens.len() {
    } else if is_move(tokens[pos]) || is_add(tokens[pos]) {
        let moves = is_move(tokens[pos]);
        let end = if moves {
            move_end(tokens, pos)
        } else {
            add_end(tokens, pos)
        };
        let delta = net(tokens, pos, end);
        lemma_net_bound(tokens, pos, end);
        lemma_block_measures(tokens, end, in_loop);
        let rest = block_at(tokens, end, in_loop)->Nodes_0;
        let node = if moves {
            Node::Move(delta)
        } else {
            Node::Add(delta)
        };
        lemma_hirs_of_cons(node, rest);
        lemma_measures_cons(hir_of(node), hirs_of(rest));
    } else if tokens[pos] == Token::LoopStart {
        let body = block_at(tokens, pos + 1, true)->Nodes_0;
        let end = block_at(tokens, pos + 1, true)->Nodes_1;
        lemma_block_end(tokens, pos + 1, true);
        lemma_block_measures(tokens, pos + 1, true);
        lemma_block_measures(tokens, end, in_loop);
        let rest = block_at(tokens, end, in_loop)->Nodes_0;
        lemma_hirs_of_cons(Node::Loop(body), rest);
        lemma_measures_cons(Hir::Loop(hirs_of(body)), hirs_of(rest));
    } else if tokens[pos] == Token::LoopEnd {
    } else {
        lemma_block_measures(tokens, pos + 1, in_loop);
        let rest = block_at(tokens, pos + 1, in_loop)->Nodes_0;
        let node = if tokens[pos] == Token::Output {
            Node::Output
        } else {
            Node::Input
        };
        lemma_hirs_of_cons(node, rest);
        lemma_measures_cons(hir_of(node), hirs_of(rest));
    }
}

} // verus!
