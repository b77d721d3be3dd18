//! The basic steps of the emitter keep a text sound.

use vstd::prelude::*;

use crate::bfsc::emitter::{nth_byte_of, Bf};
use crate::frontend::lexer::{token_of, tokens_of, Token};
use crate::frontend::parser::{depth, never_negative};
use crate::text::repeat;

verus! {

/// How a character changes the nesting depth.
pub open spec fn lift(c: char) -> int {
    if c == '[' {
        1
    } else if c == ']' {
        -1
    } else {
        0
    }
}

/// The text `s` goes on from the text `from` with operators alone, opens every
/// loop before it closes it, and ends inside `d` loops.
#[verifier::opaque]
pub open spec fn sound(from: Seq<char>, s: Seq<char>, d: int) -> bool
    decreases s.len(),
{
    if s.len() <= from.len() {
        s == from && d == 0
    } else {
        token_of(s.last()) is Some && d >= 0 && sound(from, s.drop_last(), d - lift(s.last()))
    }
}

/// The depth behind `t` from its character `i` on, where the depth in front
/// of that character is `d`; none where a character is no operator or closes a
/// loop too many.
pub open spec fn climb(t: Seq<char>, i: int, d: int) -> Option<int>
    decreases t.len() - i,
{
    if i < 0 || i >= t.len() {
        Some(d)
    } else if token_of(t[i]) is None || d + lift(t[i]) < 0 {
        None
    } else {
        climb(t, i + 1, d + lift(t[i]))
    }
}

/// An operator more keeps a text sound.
proof fn lemma_sound_push(from: Seq<char>, s: Seq<char>, c: char, d: int)
    requires
        sound(from, s, d),
        token_of(c) is Some,
        d + lift(c) >= 0,
    ensures
        sound(from, s.push(c), d + lift(c)),
{
    reveal(sound);
    assert(s.push(c).drop_last() =~= s);
}

/// The depth is not negative.
pub proof fn lemma_sound_depth(from: Seq<char>, s: Seq<char>, d: int)
    requires
        sound(from, s, d),
    ensures
        d >= 0,
{
    reveal(sound);
}

/// The rest of a text keeps a text sound.
proof fn lemma_sound_rest(from: Seq<char>, s: Seq<char>, t: Seq<char>, i: int, d: int, e: int)
    requires
        0 <= i <= t.len(),
        sound(from, s, d),
        climb(t, i, d) == Some(e),
    ensures
        sound(from, s + t.skip(i), e),
    decreases t.len() - i,
{
    if i == t.len() {
        assert(s + t.skip(i) =~= s);
    } else {
        lemma_sound_push(from, s, t[i], d);
        lemma_sound_rest(from, s.push(t[i]), t, i + 1, d + lift(t[i]), e);
        assert(s.push(t[i]) + t.skip(i + 1) =~= s + t.skip(i));
    }
}

/// A text keeps a text sound.
proof fn lemma_sound_append(from: Seq<char>, s: Seq<char>, t: Seq<char>, d: int, e: int)
    requires
        sound(from, s, d),
        climb(t, 0, d) == Some(e),
    ensures
        sound(from, s + t, e),
{
    lemma_sound_rest(from, s, t, 0, d, e);
    assert(t.skip(0) =~= t);
}

/// An operator that is no bracket keeps a text sound, however often it comes.
proof fn lemma_sound_repeat(from: Seq<char>, s: Seq<char>, c: char, n: nat, d: int)
    requires
        sound(from, s, d),
        token_of(c) is Some,
        lift(c) == 0,
    ensures
        sound(from, s + repeat(c, n), d),
    decreases n,
{
    if n == 0 {
        assert(s + repeat(c, n) =~= s);
    } else {
        let m = (n - 1) as nat;
        lemma_sound_repeat(from, s, c, m, d);
        lemma_sound_depth(from, s, d);
        lemma_sound_push(from, s + repeat(c, m), c, d);
        assert((s + repeat(c, m)).push(c) =~= s + repeat(c, n));
    }
}

/// The depth in front of a token depends on the tokens before it alone.
proof fn lemma_depth_front(tokens: Seq<Token>, t: Token, n: int)
    requires
        n <= tokens.len(),
    ensures
        depth(tokens.push(t), n) == depth(tokens, n),
    decreases n,
{
    if n > 0 {
        lemma_depth_front(tokens, t, n - 1);
    }
}

/// Every character of a sound text behind its start is an operator, and its
/// brackets match but for the loops that are still open.
pub proof fn lemma_sound_tokens(from: Seq<char>, s: Seq<char>, d: int)
    requires
        sound(from, s, d),
    ensures
        s.len() >= from.len(),
        s == from + s.skip(from.len() as int),
        tokens_of(s.skip(from.len() as int)).len() == s.len() - from.len(),
        never_negative(tokens_of(s.skip(from.len() as int))),
        depth(tokens_of(s.skip(from.len() as int)), s.len() - from.len()) == d,
    decreases s.len(),
{
    reveal(sound);
    let rest = s.skip(from.len() as int);
    if s.len() > from.len() {
        let before = s.drop_last();
        let front = before.skip(from.len() as int);
        let e = d - lift(s.last());
        lemma_sound_tokens(from, before, e);
        let t = token_of(s.last())->Some_0;
        let tokens = tokens_of(front);
        assert(rest.drop_last() =~= front);
        assert(rest.last() == s.last());
        assert(tokens_of(rest) == tokens.push(t));
        lemma_depth_front(tokens, t, tokens.len() as int);
        assert forall|n: int| 0 <= n <= tokens_of(rest).len() implies #[trigger] depth(
            tokens_of(rest),
            n,
        ) >= 0 by {
            if n <= tokens.len() {
                lemma_depth_front(tokens, t, n);
                assert(depth(tokens, n) >= 0);
            }
        }
        assert(rest =~= front.push(s.last()));
        assert(s =~= before.push(s.last()));
        assert(from + rest =~= (from + front).push(s.last()));
    } else {
        assert(s =~= from + rest);
        assert(rest.len() == 0);
    }
}

pub broadcast proof fn sound_pluses(bf: Bf, n: int, from: Seq<char>, nest: int)
    requires
        #[trigger] sound(from, bf.out, nest),
    ensures
        sound(from, (#[trigger] bf.many('+', n)).out, nest),
{
    lemma_sound_repeat(from, bf.out, '+', n as nat, nest);
}

pub broadcast proof fn sound_minuses(bf: Bf, n: int, from: Seq<char>, nest: int)
    requires
        #[trigger] sound(from, bf.out, nest),
    ensures
        sound(from, (#[trigger] bf.many('-', n)).out, nest),
{
    lemma_sound_repeat(from, bf.out, '-', n as nat, nest);
}

pub broadcast proof fn sound_lefts(bf: Bf, n: int, from: Seq<char>, nest: int)
    requires
        #[trigger] sound(from, bf.out, nest),
    ensures
        sound(from, (#[trigger] bf.many('<', n)).out, nest),
{
    lemma_sound_repeat(from, bf.out, '<', n as nat, nest);
}

pub broadcast proof fn sound_rights(bf: Bf, n: int, from: Seq<char>, nest: int)
    requires
        #[trigger] sound(from, bf.out, nest),
    ensures
        sound(from, (#[trigger] bf.many('>', n)).out, nest),
{
    lemma_sound_repeat(from, bf.out, '>', n as nat, nest);
}

pub broadcast proof fn sound_plus(bf: Bf, from: Seq<char>, nest: int)
    requires
        #[trigger] sound(from, bf.out, nest),
    ensures
        sound(from, (#[trigger] bf.raw("+"@)).out, nest),
{
    reveal_strlit("+");
    reveal_with_fuel(climb, 2);
    lemma_sound_depth(from, bf.out, nest);
    lemma_sound_append(from, bf.out, "+"@, nest, nest);
}

pub broadcast proof fn sound_comma(bf: Bf, from: Seq<char>, nest: int)
    requires
        #[trigger] sound(from, bf.out, nest),
    ensures
        sound(from, (#[trigger] bf.raw(","@)).out, nest),
{
    reveal_strlit(",");
    reveal_with_fuel(climb, 2);
    lemma_sound_depth(from, bf.out, nest);
    lemma_sound_append(from, bf.out, ","@, nest, nest);
}

pub broadcast proof fn sound_minus(bf: Bf, from: Seq<char>, nest: int)
    requires
        #[trigger] sound(from, bf.out, nest),
    ensures
        sound(from, (#[trigger] bf.raw("-"@)).out, nest),
{
    reveal_strlit("-");
    reveal_with_fuel(climb, 2);
    lemma_sound_depth(from, bf.out, nest);
    lemma_sound_append(from, bf.out, "-"@, nest, nest);
}

pub broadcast proof fn sound_dot(bf: Bf, from: Seq<char>, nest: int)
    requires
        #[trigger] sound(from, bf.out, nest),
    ensures
        sound(from, (#[trigger] bf.raw("."@)).out, nest),
{
    reveal_strlit(".");
    reveal_with_fuel(climb, 2);
    lemma_sound_depth(from, bf.out, nest);
    lemma_sound_append(from, bf.out, "."@, nest, nest);
}

pub broadcast proof fn sound_left(bf: Bf, from: Seq<char>, nest: int)
    requires
        #[trigger] sound(from, bf.out, nest),
    ensures
        sound(from, (#[trigger] bf.raw("<"@)).out, nest),
{
    reveal_strlit("<");
    reveal_with_fuel(climb, 2);
    lemma_sound_depth(from, bf.out, nest);
    lemma_sound_append(from, bf.out, "<"@, nest, nest);
}

pub broadcast proof fn sound_right(bf: Bf, from: Seq<char>, nest: int)
    requires
        #[trigger] sound(from, bf.out, nest),
    ensures
        sound(from, (#[trigger] bf.raw(">"@)).out, nest),
{
    reveal_strlit(">");
    reveal_with_fuel(climb, 2);
    lemma_sound_depth(from, bf.out, nest);
    lemma_sound_append(from, bf.out, ">"@, nest, nest);
}

pub broadcast proof fn sound_open(bf: Bf, from: Seq<char>, nest: int)
    requires
        #[trigger] sound(from, bf.out, nest),
    ensures
        sound(from, (#[trigger] bf.raw("["@)).out, nest + 1),
{
    reveal_strlit("[");
    reveal_with_fuel(climb, 2);
    lemma_sound_depth(from, bf.out, nest);
    lemma_sound_append(from, bf.out, "["@, nest, nest + 1);
}

pub broadcast proof fn sound_close(bf: Bf, from: Seq<char>, nest: int)
    requires
        #[trigger] sound(from, bf.out, nest),
        nest >= 1,
    ensures
        sound(from, (#[trigger] bf.raw("]"@)).out, nest - 1),
{
    reveal_strlit("]");
    reveal_with_fuel(climb, 2);
    lemma_sound_depth(from, bf.out, nest);
    lemma_sound_append(from, bf.out, "]"@, nest, nest - 1);
}

pub broadcast proof fn sound_minus_close(bf: Bf, from: Seq<char>, nest: int)
    requires
        #[trigger] sound(from, bf.out, nest),
        nest >= 1,
    ensures
        sound(from, (#[trigger] bf.raw("-]"@)).out, nest - 1),
{
    reveal_strlit("-]");
    reveal_with_fuel(climb, 3);
    lemma_sound_depth(from, bf.out, nest);
    lemma_sound_append(from, bf.out, "-]"@, nest, nest - 1);
}

pub broadcast proof fn sound_left_two(bf: Bf, from: Seq<char>, nest: int)
    requires
        #[trigger] sound(from, bf.out, nest),
    ensures
        sound(from, (#[trigger] bf.raw("<<"@)).out, nest),
{
    reveal_strlit("<<");
    reveal_with_fuel(climb, 3);
    lemma_sound_depth(from, bf.out, nest);
    lemma_sound_append(from, bf.out, "<<"@, nest, nest);
}

pub broadcast proof fn sound_right_two(bf: Bf, from: Seq<char>, nest: int)
    requires
        #[trigger] sound(from, bf.out, nest),
    ensures
        sound(from, (#[trigger] bf.raw(">>"@)).out, nest),
{
    reveal_strlit(">>");
    reveal_with_fuel(climb, 3);
    lemma_sound_depth(from, bf.out, nest);
    lemma_sound_append(from, bf.out, ">>"@, nest, nest);
}

pub broadcast proof fn sound_open_minus(bf: Bf, from: Seq<char>, nest: int)
    requires
        #[trigger] sound(from, bf.out, nest),
    ensures
        sound(from, (#[trigger] bf.raw("[-"@)).out, nest + 1),
{
    reveal_strlit("[-");
    reveal_with_fuel(climb, 3);
    lemma_sound_depth(from, bf.out, nest);
    lemma_sound_append(from, bf.out, "[-"@, nest, nest + 1);
}

pub broadcast proof fn sound_right_three(bf: Bf, from: Seq<char>, nest: int)
    requires
        #[trigger] sound(from, bf.out, nest),
    ensures
        sound(from, (#[trigger] bf.raw(">>>"@)).out, nest),
{
    reveal_strlit(">>>");
    reveal_with_fuel(climb, 4);
    lemma_sound_depth(from, bf.out, nest);
    lemma_sound_append(from, bf.out, ">>>"@, nest, nest);
}

pub broadcast proof fn sound_wipe(bf: Bf, from: Seq<char>, nest: int)
    requires
        #[trigger] sound(from, bf.out, nest),
    ensures
        sound(from, (#[trigger] bf.raw("[-]"@)).out, nest),
{
    reveal_strlit("[-]");
    reveal_with_fuel(climb, 4);
    lemma_sound_depth(from, bf.out, nest);
    lemma_sound_append(from, bf.out, "[-]"@, nest, nest);
}

pub broadcast proof fn sound_step_1(bf: Bf, from: Seq<char>, nest: int)
    requires
        #[trigger] sound(from, bf.out, nest),
    ensures
        sound(from, (#[trigger] bf.raw("+>+<"@)).out, nest),
{
    reveal_strlit("+>+<");
    reveal_with_fuel(climb, 5);
    lemma_sound_depth(from, bf.out, nest);
    lemma_sound_append(from, bf.out, "+>+<"@, nest, nest);
}

pub broadcast proof fn sound_step_2(bf: Bf, from: Seq<char>, nest: int)
    requires
        #[trigger] sound(from, bf.out, nest),
    ensures
        sound(from, (#[trigger] bf.raw(">[-]<"@)).out, nest),
{
    reveal_strlit(">[-]<");
    reveal_with_fuel(climb, 6);
    lemma_sound_depth(from, bf.out, nest);
    lemma_sound_append(from, bf.out, ">[-]<"@, nest, nest);
}

pub broadcast proof fn sound_step_3(bf: Bf, from: Seq<char>, nest: int)
    requires
        #[trigger] sound(from, bf.out, nest),
    ensures
        sound(from, (#[trigger] bf.raw(">[-<<+>>]"@)).out, nest),
{
    reveal_strlit(">[-<<+>>]");
    reveal_with_fuel(climb, 10);
    lemma_sound_depth(from, bf.out, nest);
    lemma_sound_append(from, bf.out, ">[-<<+>>]"@, nest, nest);
}

pub broadcast proof fn sound_step_4(bf: Bf, from: Seq<char>, nest: int)
    requires
        #[trigger] sound(from, bf.out, nest),
    ensures
        sound(from, (#[trigger] bf.raw("[-]<[->+<]<"@)).out, nest),
{
    reveal_strlit("[-]<[->+<]<");
    reveal_with_fuel(climb, 12);
    lemma_sound_depth(from, bf.out, nest);
    lemma_sound_append(from, bf.out, "[-]<[->+<]<"@, nest, nest);
}

pub broadcast proof fn sound_step_5(bf: Bf, from: Seq<char>, nest: int)
    requires
        #[trigger] sound(from, bf.out, nest),
    ensures
        sound(from, (#[trigger] bf.raw(">>[-<<+>>]<<"@)).out, nest),
{
    reveal_strlit(">>[-<<+>>]<<");
    reveal_with_fuel(climb, 13);
    lemma_sound_depth(from, bf.out, nest);
    lemma_sound_append(from, bf.out, ">>[-<<+>>]<<"@, nest, nest);
}

pub broadcast proof fn sound_step_6(bf: Bf, from: Seq<char>, nest: int)
    requires
        #[trigger] sound(from, bf.out, nest),
    ensures
        sound(from, (#[trigger] bf.raw(">>[-<+<+>>]<<"@)).out, nest),
{
    reveal_strlit(">>[-<+<+>>]<<");
    reveal_with_fuel(climb, 14);
    lemma_sound_depth(from, bf.out, nest);
    lemma_sound_append(from, bf.out, ">>[-<+<+>>]<<"@, nest, nest);
}

pub broadcast proof fn sound_step_7(bf: Bf, from: Seq<char>, nest: int)
    requires
        #[trigger] sound(from, bf.out, nest),
    ensures
        sound(from, (#[trigger] bf.raw("[-[-<<<<+>>>>]<<<<]"@)).out, nest),
{
    reveal_strlit("[-[-<<<<+>>>>]<<<<]");
    reveal_with_fuel(climb, 20);
    lemma_sound_depth(from, bf.out, nest);
    lemma_sound_append(from, bf.out, "[-[-<<<<+>>>>]<<<<]"@, nest, nest);
}

pub broadcast proof fn sound_step_8(bf: Bf, from: Seq<char>, nest: int)
    requires
        #[trigger] sound(from, bf.out, nest),
    ensures
        sound(from, (#[trigger] bf.raw("[->+>+<<]>>[-<<+>>]<<"@)).out, nest),
{
    reveal_strlit("[->+>+<<]>>[-<<+>>]<<");
    reveal_with_fuel(climb, 22);
    lemma_sound_depth(from, bf.out, nest);
    lemma_sound_append(from, bf.out, "[->+>+<<]>>[-<<+>>]<<"@, nest, nest);
}

pub broadcast proof fn sound_step_9(bf: Bf, from: Seq<char>, nest: int)
    requires
        #[trigger] sound(from, bf.out, nest),
    ensures
        sound(from, (#[trigger] bf.raw("<[-]>[-<+>>+<]>[-<+>]<"@)).out, nest),
{
    reveal_strlit("<[-]>[-<+>>+<]>[-<+>]<");
    reveal_with_fuel(climb, 23);
    lemma_sound_depth(from, bf.out, nest);
    lemma_sound_append(from, bf.out, "<[-]>[-<+>>+<]>[-<+>]<"@, nest, nest);
}

pub broadcast proof fn sound_step_10(bf: Bf, from: Seq<char>, nest: int)
    requires
        #[trigger] sound(from, bf.out, nest),
    ensures
        sound(from, (#[trigger] bf.raw("[->+>>>+<<<<]>>>>[-<<<<+>>>>]<<<<"@)).out, nest),
{
    reveal_strlit("[->+>>>+<<<<]>>>>[-<<<<+>>>>]<<<<");
    reveal_with_fuel(climb, 34);
    lemma_sound_depth(from, bf.out, nest);
    lemma_sound_append(from, bf.out, "[->+>>>+<<<<]>>>>[-<<<<+>>>>]<<<<"@, nest, nest);
}

pub broadcast proof fn sound_step_11(bf: Bf, from: Seq<char>, nest: int)
    requires
        #[trigger] sound(from, bf.out, nest),
    ensures
        sound(from, (#[trigger] bf.raw("[-[-<<<<+>>>>]>[-<<<<+>>>>]<<<<<]"@)).out, nest),
{
    reveal_strlit("[-[-<<<<+>>>>]>[-<<<<+>>>>]<<<<<]");
    reveal_with_fuel(climb, 34);
    lemma_sound_depth(from, bf.out, nest);
    lemma_sound_append(from, bf.out, "[-[-<<<<+>>>>]>[-<<<<+>>>>]<<<<<]"@, nest, nest);
}

pub broadcast proof fn sound_step_12(bf: Bf, from: Seq<char>, nest: int)
    requires
        #[trigger] sound(from, bf.out, nest),
    ensures
        sound(from, (#[trigger] bf.raw("[-[->>>>+<<<<]>[->>>>+<<<<]<>>>>]"@)).out, nest),
{
    reveal_strlit("[-[->>>>+<<<<]>[->>>>+<<<<]<>>>>]");
    reveal_with_fuel(climb, 34);
    lemma_sound_depth(from, bf.out, nest);
    lemma_sound_append(from, bf.out, "[-[->>>>+<<<<]>[->>>>+<<<<]<>>>>]"@, nest, nest);
}

pub broadcast proof fn sound_step_13(bf: Bf, from: Seq<char>, nest: int)
    requires
        #[trigger] sound(from, bf.out, nest),
    ensures
        sound(from, (#[trigger] bf.raw("[->+>>>>>+<<<<<<]>>>>>>[-<<<<<<+>>>>>>]<<<<<<"@)).out, nest),
{
    reveal_strlit("[->+>>>>>+<<<<<<]>>>>>>[-<<<<<<+>>>>>>]<<<<<<");
    reveal_with_fuel(climb, 46);
    lemma_sound_depth(from, bf.out, nest);
    lemma_sound_append(from, bf.out, "[->+>>>>>+<<<<<<]>>>>>>[-<<<<<<+>>>>>>]<<<<<<"@, nest, nest);
}

pub broadcast proof fn sound_step_14(bf: Bf, from: Seq<char>, nest: int)
    requires
        #[trigger] sound(from, bf.out, nest),
    ensures
        sound(from, (#[trigger] bf.raw("[-[->>>>+<<<<]>[->>>>+<<<<]>[->>>>+<<<<]<<>>>>]"@)).out, nest),
{
    reveal_strlit("[-[->>>>+<<<<]>[->>>>+<<<<]>[->>>>+<<<<]<<>>>>]");
    reveal_with_fuel(climb, 48);
    lemma_sound_depth(from, bf.out, nest);
    lemma_sound_append(
        from,
        bf.out,
        "[-[->>>>+<<<<]>[->>>>+<<<<]>[->>>>+<<<<]<<>>>>]"@, nest, nest,
    );
}

pub broadcast proof fn sound_talloc_n(bf: Bf, n: int, from: Seq<char>, nest: int)
    requires
        #[trigger] sound(from, bf.out, nest),
    ensures
        sound(from, (#[trigger] bf.talloc_n(n)).0.out, nest),
{
}

pub broadcast proof fn sound_talloc(bf: Bf, from: Seq<char>, nest: int)
    requires
        #[trigger] sound(from, bf.out, nest),
    ensures
        sound(from, (#[trigger] bf.talloc()).0.out, nest),
{
    broadcast use sound_talloc_n;
}

pub broadcast proof fn sound_tfree_n(bf: Bf, base: int, n: int, from: Seq<char>, nest: int)
    requires
        #[trigger] sound(from, bf.out, nest),
    ensures
        sound(from, (#[trigger] bf.tfree_n(base, n)).out, nest),
{
}

pub broadcast proof fn sound_tfree(bf: Bf, cell: int, from: Seq<char>, nest: int)
    requires
        #[trigger] sound(from, bf.out, nest),
    ensures
        sound(from, (#[trigger] bf.tfree(cell)).out, nest),
{
    broadcast use sound_tfree_n;
}

pub broadcast proof fn sound_reserve(bf: Bf, cell: int, from: Seq<char>, nest: int)
    requires
        #[trigger] sound(from, bf.out, nest),
    ensures
        sound(from, (#[trigger] bf.reserve(cell)).out, nest),
{
}

pub broadcast proof fn sound_trestore(bf: Bf, used: Set<int>, from: Seq<char>, nest: int)
    requires
        #[trigger] sound(from, bf.out, nest),
    ensures
        sound(from, (#[trigger] bf.trestore(used)).out, nest),
{
}

pub broadcast proof fn sound_set_ptr(bf: Bf, c: int, from: Seq<char>, nest: int)
    requires
        #[trigger] sound(from, bf.out, nest),
    ensures
        sound(from, (#[trigger] bf.set_ptr(c)).out, nest),
{
}

pub broadcast proof fn sound_goto(bf: Bf, c: int, from: Seq<char>, nest: int)
    requires
        #[trigger] sound(from, bf.out, nest),
    ensures
        sound(from, (#[trigger] bf.goto(c)).out, nest),
{
    broadcast use {sound_set_ptr, sound_rights, sound_lefts};
}

pub broadcast proof fn sound_clear(bf: Bf, c: int, from: Seq<char>, nest: int)
    requires
        #[trigger] sound(from, bf.out, nest),
    ensures
        sound(from, (#[trigger] bf.clear(c)).out, nest),
{
    broadcast use {sound_goto, sound_wipe};
}

pub broadcast proof fn sound_inc(bf: Bf, c: int, n: int, from: Seq<char>, nest: int)
    requires
        #[trigger] sound(from, bf.out, nest),
    ensures
        sound(from, (#[trigger] bf.inc(c, n)).out, nest),
{
    broadcast use {sound_goto, sound_pluses};
}

pub broadcast proof fn sound_dec(bf: Bf, c: int, n: int, from: Seq<char>, nest: int)
    requires
        #[trigger] sound(from, bf.out, nest),
    ensures
        sound(from, (#[trigger] bf.dec(c, n)).out, nest),
{
    broadcast use {sound_goto, sound_minuses};
}

pub broadcast proof fn sound_setv(bf: Bf, c: int, v: int, from: Seq<char>, nest: int)
    requires
        #[trigger] sound(from, bf.out, nest),
    ensures
        sound(from, (#[trigger] bf.setv(c, v)).out, nest),
{
    broadcast use {sound_clear, sound_inc};
}

pub broadcast proof fn sound_set_bytes(
    bf: Bf,
    base: int,
    val: int,
    n: int,
    i: int,
    from: Seq<char>,
    nest: int,
)
    requires
        #[trigger] sound(from, bf.out, nest),
    ensures
        sound(from, (#[trigger] bf.set_bytes(base, val, n, i)).out, nest),
    decreases n - i,
{
    broadcast use sound_setv;

    if !(i >= n) {
        sound_set_bytes(bf.setv(base + i, nth_byte_of(val, i)), base, val, n, i + 1, from, nest);
    }
}

pub broadcast proof fn sound_set_const_n(
    bf: Bf,
    base: int,
    val: int,
    n: int,
    from: Seq<char>,
    nest: int,
)
    requires
        #[trigger] sound(from, bf.out, nest),
    ensures
        sound(from, (#[trigger] bf.set_const_n(base, val, n)).out, nest),
{
    broadcast use sound_set_bytes;
}

pub broadcast proof fn sound_inp(bf: Bf, c: int, from: Seq<char>, nest: int)
    requires
        #[trigger] sound(from, bf.out, nest),
    ensures
        sound(from, (#[trigger] bf.inp(c)).out, nest),
{
    broadcast use {sound_goto, sound_comma};
}

pub broadcast proof fn sound_out_cell(bf: Bf, c: int, from: Seq<char>, nest: int)
    requires
        #[trigger] sound(from, bf.out, nest),
    ensures
        sound(from, (#[trigger] bf.out_cell(c)).out, nest),
{
    broadcast use {sound_goto, sound_dot};
}

} // verus!
