//! Compiled BFS programs do what their sources mean.

use vstd::prelude::*;

use crate::bfsc::ast::{Fun, Sm, TypeAnn};
use crate::bfsc::codegen::{emitted, Cg, Env};
use crate::bfsc::effect::blocks::held_n;
use crate::bfsc::effect::cells::all_free;
use crate::bfsc::effect::elements::place;
use crate::bfsc::effect::chunks::all_tidy;
use crate::bfsc::effect::expr::{beside, in_a_row, in_chunks, laid, shows, shows_row};
use crate::bfsc::effect::far::{chunks, room};
use crate::bfsc::effect::flow::goes;
use crate::bfsc::effect::program::all_plain;
use crate::bfsc::effect::simulation::lemma_stmts;
use crate::bfsc::effect::steps::since;
use crate::bfsc::effect::text::{lands, takes};
use crate::bfsc::emitter::Bf;
use crate::bfsc::layout::{
    array_cells, array_layout, binding, index_of_name, lemma_index_of_name, scalar_cells,
    ArrayLayout, CellLayout,
};
use crate::bfsc::lexer::lexed;
use crate::bfsc::meaning::{exec_all, far, row_of, top_level, width_of, BfsState, Store};
use crate::bfsc::parser::program_at;
use crate::bfsc::sound::codegen::law_compiled_text_is_brainfuck;
use crate::bfsc::typeck::{
    checked, declared, decls_from, decls_of, type_of, Checked, Decls,
};
use crate::bfsc::compiled;
use crate::driver::pipeline::law_bytecode_does_what_the_source_says;
use crate::frontend::lexer::{tokens_of, Token};
use crate::frontend::meaning::operated;
use crate::frontend::parser::tree_of;
use crate::interp::lower::bytecode;
use crate::interp::machine::{blank, loaded, steps, written_bytes, Source};
use crate::interp::preserve::{gives_bytes, outcome, solid};
use crate::ir::lower::hirs_of;

verus! {

/// Number of cells of a variable.
spec fn span(ty: TypeAnn) -> int {
    match ty {
        TypeAnn::Scalar(st) => st.cells(),
        TypeAnn::Array(st, len) => array_layout(st, len as int).size(len as int, st.cells()),
    }
}

/// Where a variable lies.
spec fn cells_of(base: int, ty: TypeAnn) -> CellLayout {
    match ty {
        TypeAnn::Scalar(st) => scalar_cells(base, st),
        TypeAnn::Array(st, len) => array_cells(base, st, len as int),
    }
}

/// A variable lies as its type says, in front of the next free cell.
spec fn placed(l: CellLayout, ty: TypeAnn, next: int) -> bool {
    &&& l == cells_of(l.base as int, ty)
    &&& l.width == span(ty)
    &&& l.base + span(ty) <= next
}

/// The declarations of a program: every name once, and the variables one behind
/// the other.
spec fn tidy(d: Decls) -> bool {
    &&& d.types.len() == d.vars.len()
    &&& d.next >= 0
    &&& forall|i: int| 0 <= i < d.types.len() ==> (#[trigger] d.types[i]).0 == d.vars[i].0
    &&& forall|i: int, j: int|
        0 <= i < j < d.types.len() ==> (#[trigger] d.types[i]).0 != (#[trigger] d.types[j]).0
    &&& forall|i: int|
        0 <= i < d.types.len() ==> placed(d.vars[i].1, (#[trigger] d.types[i]).1, d.next)
    &&& forall|i: int, j: int|
        0 <= i < j < d.vars.len() ==> (#[trigger] d.vars[i]).1.base + d.vars[i].1.width <= (
        #[trigger] d.vars[j]).1.base
}

/// Variables take no negative number of cells.
proof fn lemma_span(ty: TypeAnn)
    ensures
        span(ty) >= 0,
{
    if let TypeAnn::Array(st, len) = ty {
        assert(len * st.cells() >= 0) by (nonlinear_arith)
            requires
                len >= 0,
                st.cells() >= 0,
        ;
        if let ArrayLayout::Walk { chunk_size, num_chunks } = array_layout(st, len as int) {
            assert(num_chunks * (4 * chunk_size + 5) >= 0) by (nonlinear_arith)
                requires
                    num_chunks >= 0,
                    chunk_size >= 0,
            ;
        }
    }
}

/// A name that stands nowhere in a list has no type.
proof fn lemma_no_type(types: Seq<(Seq<char>, TypeAnn)>, name: Seq<char>, i: int)
    requires
        type_of(types, name) is None,
        0 <= i < types.len(),
    ensures
        types[i].0 != name,
    decreases types.len(),
{
    if i < types.len() - 1 {
        lemma_no_type(types.drop_last(), name, i);
        assert(types.drop_last()[i] == types[i]);
    }
}

/// The place of a name with a type.
proof fn lemma_typed_at(types: Seq<(Seq<char>, TypeAnn)>, name: Seq<char>) -> (i: int)
    requires
        type_of(types, name) is Some,
    ensures
        0 <= i < types.len(),
        types[i].0 == name,
        type_of(types, name) == Some(types[i].1),
    decreases types.len(),
{
    if types.last().0 == name {
        types.len() - 1
    } else {
        let i = lemma_typed_at(types.drop_last(), name);
        assert(types.drop_last()[i] == types[i]);
        i
    }
}

/// A declaration keeps declarations tidy.
proof fn lemma_tidy_declared(d: Decls, name: Seq<char>, ty: TypeAnn)
    requires
        type_of(d.types, name) is None,
    ensures
        declared(d, name, ty).next >= d.next,
        tidy(d) && declared(d, name, ty).next <= u128::MAX ==> tidy(declared(d, name, ty)),
{
    let e = declared(d, name, ty);
    lemma_span(ty);
    assert(e.next == d.next + span(ty));
    if tidy(d) && e.next <= u128::MAX {
        assert(e.vars.last().1 == cells_of(d.next, ty));
        assert forall|i: int, j: int| 0 <= i < j < e.types.len() implies (#[trigger] e.types[i]).0
            != (#[trigger] e.types[j]).0 by {
            if j == d.types.len() {
                lemma_no_type(d.types, name, i);
                assert(e.types[i] == d.types[i]);
            } else {
                assert(e.types[i] == d.types[i] && e.types[j] == d.types[j]);
            }
        }
        assert forall|i: int| 0 <= i < e.types.len() implies (#[trigger] e.types[i]).0
            == e.vars[i].0 by {
            if i < d.types.len() {
                assert(e.types[i] == d.types[i] && e.vars[i] == d.vars[i]);
            }
        }
        assert forall|i: int| 0 <= i < e.types.len() implies placed(
            e.vars[i].1,
            (#[trigger] e.types[i]).1,
            e.next,
        ) by {
            if i < d.types.len() {
                assert(e.types[i] == d.types[i] && e.vars[i] == d.vars[i]);
            }
        }
        assert forall|i: int, j: int| 0 <= i < j < e.vars.len() implies (#[trigger] e.vars[i]).1.base
            + e.vars[i].1.width <= (#[trigger] e.vars[j]).1.base by {
            assert(e.vars[i] == d.vars[i] && e.types[i] == d.types[i]);
            assert(placed(d.vars[i].1, d.types[i].1, d.next));
            if j < d.types.len() {
                assert(e.vars[j] == d.vars[j]);
            }
        }
    }
}

/// The declarations of a statement keep declarations tidy.
proof fn lemma_tidy_stmt(d: Decls, s: Sm)
    ensures
        decls_of(d, s) matches Checked::Pass(e) ==> e.next >= d.next && (tidy(d) && e.next
            <= u128::MAX ==> tidy(e)),
    decreases s, 0int,
{
    match s {
        Sm::Let(name, ty, _) => {
            if type_of(d.types, name) is None {
                lemma_tidy_declared(d, name, ty);
            }
        },
        Sm::While(_, body) => {
            lemma_tidy_stmts(d, body, 0);
        },
        Sm::If(_, then_, else_) => {
            lemma_tidy_stmts(d, then_, 0);
            if let Checked::Pass(e) = decls_from(d, then_, 0) {
                if let Some(block) = else_ {
                    lemma_tidy_stmts(e, block, 0);
                }
            }
        },
        _ => {},
    }
}

/// The declarations of statements keep declarations tidy.
proof fn lemma_tidy_stmts(d: Decls, ss: Seq<Sm>, i: int)
    ensures
        decls_from(d, ss, i) matches Checked::Pass(e) ==> e.next >= d.next && (tidy(d) && e.next
            <= u128::MAX ==> tidy(e)),
    decreases ss, ss.len() - i,
{
    if 0 <= i < ss.len() {
        lemma_tidy_stmt(d, ss[i]);
        if let Checked::Pass(e) = decls_of(d, ss[i]) {
            lemma_tidy_stmts(e, ss, i + 1);
        }
    }
}

/// The cells of a name are those of its declaration.
proof fn lemma_bound_at(d: Decls, name: Seq<char>) -> (i: int)
    requires
        tidy(d),
        type_of(d.types, name) is Some,
    ensures
        0 <= i < d.types.len(),
        d.types[i].0 == name,
        type_of(d.types, name) == Some(d.types[i].1),
        binding(d.vars, name) == Some(d.vars[i].1),
{
    let i = lemma_typed_at(d.types, name);
    lemma_index_of_name(d.vars, name, 0);
    let j = index_of_name(d.vars, name, 0);
    assert(d.types[i].0 == d.vars[i].0);
    if j < i {
        assert(d.types[j].0 == d.vars[j].0);
    } else if i < j {
        assert(d.vars[i].0 != name);
    }
    i
}

/// The cells of two names lie apart.
proof fn lemma_tidy_beside(d: Decls, p: Seq<char>, q: Seq<char>)
    requires
        tidy(d),
        type_of(d.types, p) is Some,
        type_of(d.types, q) is Some,
        p != q,
    ensures
        beside(d.vars, p, q),
{
    let i = lemma_bound_at(d, p);
    let j = lemma_bound_at(d, q);
    assert(d.vars[i].1.base + d.vars[i].1.width <= d.vars[j].1.base || d.vars[j].1.base
        + d.vars[j].1.width <= d.vars[i].1.base);
}

/// Tidy declarations lie apart.
proof fn lemma_tidy_laid(d: Decls)
    requires
        tidy(d),
    ensures
        laid(d.types, d.vars, Bf::start(d.next)),
{
    assert forall|name: Seq<char>| #[trigger] width_of(d.types, name) is Some implies {
        &&& binding(d.vars, name) is Some
        &&& binding(d.vars, name)->Some_0.width == width_of(d.types, name)->Some_0
        &&& held_n(
            Bf::start(d.next),
            binding(d.vars, name)->Some_0.base as int,
            width_of(d.types, name)->Some_0,
        )
    } by {
        let i = lemma_bound_at(d, name);
        assert(placed(d.vars[i].1, d.types[i].1, d.next));
    }
    assert forall|name: Seq<char>| #[trigger] row_of(d.types, name) is Some implies {
        let (w, n) = row_of(d.types, name)->Some_0;
        let l = binding(d.vars, name)->Some_0;
        let f = far(d.types, name);
        &&& binding(d.vars, name) is Some
        &&& l.width == room(f, w, n)
        &&& held_n(Bf::start(d.next), l.base as int, l.width as int)
        &&& n == 0 ==> l.base <= d.next
        &&& f ==> in_chunks(l, n)
        &&& !f ==> in_a_row(l, w, n)
    } by {
        let i = lemma_bound_at(d, name);
        let (w, n) = row_of(d.types, name)->Some_0;
        assert(placed(d.vars[i].1, d.types[i].1, d.next));
        let m = chunks(n);
        assert(m * (4 * 256 + 5) == 1029 * m) by (nonlinear_arith);
        let l = d.vars[i].1;
        assert(far(d.types, name) ==> in_chunks(l, n) && l.width == 1029 * m);
        assert(n * w == place(0, w, n)) by (nonlinear_arith)
            requires
                place(0, w, n) == if w == 1 {
                    n
                } else if w == 2 {
                    2 * n
                } else {
                    4 * n
                },
                w == 1 || w == 2 || w == 4,
        ;
    }
    assert forall|p: Seq<char>, q: Seq<char>|
        #![trigger width_of(d.types, p), width_of(d.types, q)]
        p != q && width_of(d.types, p) is Some && width_of(d.types, q) is Some implies beside(
        d.vars,
        p,
        q,
    ) by {
        lemma_tidy_beside(d, p, q);
    }
    assert forall|p: Seq<char>, q: Seq<char>|
        #![trigger width_of(d.types, p), row_of(d.types, q)]
        width_of(d.types, p) is Some && row_of(d.types, q) is Some implies beside(d.vars, p, q) by {
        lemma_tidy_beside(d, p, q);
    }
    assert forall|p: Seq<char>, q: Seq<char>|
        #![trigger row_of(d.types, p), row_of(d.types, q)]
        p != q && row_of(d.types, p) is Some && row_of(d.types, q) is Some implies beside(
        d.vars,
        p,
        q,
    ) by {
        lemma_tidy_beside(d, p, q);
    }
}

/// The state that a BFS program starts in: every number is 0.
pub open spec fn first_state(types: Seq<(Seq<char>, TypeAnn)>) -> BfsState {
    BfsState {
        vars: Store {
            nums: Map::new(|n: Seq<char>| true, |n: Seq<char>| 0),
            rows: Map::new(
                |n: Seq<char>| true,
                |n: Seq<char>|
                    match row_of(types, n) {
                        Some((_, len)) => Seq::new(len as nat, |j: int| 0),
                        None => Seq::empty(),
                    },
            ),
        },
        out: Seq::empty(),
        reads: 0,
    }
}

/// The declarations of no program.
pub open spec fn no_decls() -> Decls {
    Decls { types: Seq::empty(), vars: Seq::empty(), next: 0 }
}

/// A program of numbers, of arrays that two bytes can index, and of calls of functions
/// that take arrays and have no variables of their own, that ends, whatever it reads, is
/// emitted as Brainfuck that ends on a blank tape, writes the same bytes and reads as
/// many.
pub proof fn law_emitted_programs_do_what_they_mean(
    top: Seq<Sm>,
    fns: Seq<Fun>,
    d: Decls,
    source: Source,
    fuel: nat,
) -> (n: nat)
    requires
        decls_from(no_decls(), top, 0) == Checked::Pass(d),
        d.next <= u128::MAX,
        all_plain(top_level(fns), d.types, top, 0),
        gives_bytes(source),
        exec_all(top_level(fns), d.types, first_state(d.types), top, 0, source, fuel) is Some,
        emitted(top, fns, d.vars, d.next) is Some,
    ensures
        ({
            let tokens = tokens_of(emitted(top, fns, d.vars, d.next)->Some_0);
            let start = first_state(d.types);
            let end = exec_all(top_level(fns), d.types, start, top, 0, source, fuel)->Some_0;
            let (pc, t) = operated(tokens, 0, blank(), source, n);
            &&& pc == tokens.len()
            &&& written_bytes(t.trace) == end.out
            &&& t.reads == end.reads
        }),
{
    lemma_tidy_stmts(no_decls(), top, 0);
    assert(tidy(no_decls()));
    lemma_tidy_laid(d);
    let bf = Bf::start(d.next);
    let cg = Cg { bf, scopes: Seq::empty(), fault: false };
    let env = Env { vars: d.vars, fns };
    assert(all_free(bf.used, 0));
    let s = blank();
    assert(written_bytes(s.trace) =~= Seq::<int>::empty());
    assert(shows(d.types, d.vars, first_state(d.types).vars, s.cells)) by {
        reveal(shows_row);
        assert forall|name: Seq<char>| #[trigger] row_of(d.types, name) is Some implies all_tidy(
            s.cells,
            binding(d.vars, name)->Some_0.base as int,
            chunks(row_of(d.types, name)->Some_0.1),
        ) by {}
    }
    let t = lemma_stmts(
        top_level(fns),
        cg,
        env,
        fns.len(),
        d.types,
        d.vars,
        first_state(d.types),
        top,
        0,
        s,
        source,
        fuel,
    );
    let c = cg.stmts(env, fns.len(), top, 0);
    let text = c.bf.out;
    assert(since(bf, c.bf) =~= text);
    let tokens = tokens_of(text);
    assert(takes(text, s, t, source)) by {
        reveal(goes);
    }
    assert(lands(tokens, 0, s, source, tokens.len() as int, t)) by {
        reveal(takes);
        let none = Seq::<Token>::empty();
        assert(none + tokens + none =~= tokens);
        assert(lands(
            none + tokens + none,
            none.len() as int,
            s,
            source,
            (none.len() + tokens.len()) as int,
            t,
        ));
    }
    choose|n: nat| #[trigger] operated(tokens, 0, s, source, n) == (tokens.len() as int, t)
}

/// A BFS source of numbers, and of arrays that two bytes can index, whose program
/// ends compiles to Brainfuck whose bytecode ends on a blank tape, writes the same
/// bytes and reads as many.
pub proof fn law_compiled_programs_do_what_they_mean(
    text: Seq<char>,
    top: Seq<Sm>,
    d: Decls,
    source: Source,
    fuel: nat,
) -> (m: nat)
    requires
        lexed(vstd::utf8::encode_utf8(text)) is Tokens,
        program_at(lexed(vstd::utf8::encode_utf8(text))->Tokens_0) is Done,
        program_at(lexed(vstd::utf8::encode_utf8(text))->Tokens_0)->Done_0 == top,
        checked(top, Seq::empty()) == Checked::Pass(d),
        compiled(text) is Text,
        compiled(text)->Text_0.len() <= i32::MAX,
        d.next <= u128::MAX,
        all_plain(top_level(Seq::empty()), d.types, top, 0),
        gives_bytes(source),
        exec_all(
            top_level(Seq::empty()),
            d.types,
            first_state(d.types),
            top,
            0,
            source,
            fuel,
        ) is Some,
    ensures
        ({
            let tokens = tokens_of(compiled(text)->Text_0);
            let start = first_state(d.types);
            let end = exec_all(
                top_level(Seq::empty()),
                d.types,
                start,
                top,
                0,
                source,
                fuel,
            )->Some_0;
            let after = outcome(
                steps(loaded(bytecode(hirs_of(tree_of(tokens))), blank()), source, m),
            );
            &&& after is Some
            &&& written_bytes(after->Some_0.trace) == end.out
            &&& after->Some_0.reads == end.reads
        }),
{
    law_compiled_text_is_brainfuck(text);
    let n = law_emitted_programs_do_what_they_mean(top, Seq::empty(), d, source, fuel);
    let tokens = tokens_of(compiled(text)->Text_0);
    assert(solid(blank()));
    law_bytecode_does_what_the_source_says(tokens, blank(), source, n)
}

} // verus!
