//! The steps of arithmetic keep a text sound.

use vstd::prelude::*;

use crate::bfsc::ast::BinOp;
use crate::bfsc::emitter::Bf;
use crate::bfsc::sound::steps::{lemma_sound_depth, sound};
use crate::bfsc::sound::steps::{
    sound_clear, sound_close, sound_dec, sound_goto, sound_inc, sound_minus, sound_minus_close,
    sound_open, sound_plus, sound_set_const_n, sound_setv, sound_talloc, sound_talloc_n,
    sound_tfree, sound_tfree_n,
};

verus! {

pub broadcast proof fn sound_copy(bf: Bf, src: int, dst: int, from: Seq<char>, nest: int)
    requires
        #[trigger] sound(from, bf.out, nest),
    ensures
        sound(from, (#[trigger] bf.copy(src, dst)).out, nest),
{
    broadcast use {
        sound_talloc,
        sound_clear,
        sound_goto,
        sound_tfree,
        sound_open,
        sound_plus,
        sound_minus_close,
    };

    lemma_sound_depth(from, bf.out, nest);
    reveal(Bf::copy);
}

pub broadcast proof fn sound_copy_n_rounds(
    bf: Bf,
    src: int,
    dst: int,
    n: int,
    i: int,
    from: Seq<char>,
    nest: int,
)
    requires
        #[trigger] sound(from, bf.out, nest),
    ensures
        sound(from, (#[trigger] bf.copy_n_rounds(src, dst, n, i)).out, nest),
    decreases n - i,
{
    broadcast use sound_copy;

    reveal(Bf::copy_n_rounds);
    if !(i >= n) {
        let bf = bf.copy(src + i, dst + i);
        sound_copy_n_rounds(bf, src, dst, n, i + 1, from, nest);
    }
}

pub broadcast proof fn sound_copy_n(
    bf: Bf,
    src: int,
    dst: int,
    n: int,
    from: Seq<char>,
    nest: int,
)
    requires
        #[trigger] sound(from, bf.out, nest),
    ensures
        sound(from, (#[trigger] bf.copy_n(src, dst, n)).out, nest),
{
    broadcast use sound_copy_n_rounds;

    reveal(Bf::copy_n);
}

pub broadcast proof fn sound_bfmove(bf: Bf, src: int, dst: int, from: Seq<char>, nest: int)
    requires
        #[trigger] sound(from, bf.out, nest),
    ensures
        sound(from, (#[trigger] bf.bfmove(src, dst)).out, nest),
{
    broadcast use {sound_clear, sound_goto, sound_open, sound_plus, sound_minus_close};

    lemma_sound_depth(from, bf.out, nest);
    reveal(Bf::bfmove);
}

pub broadcast proof fn sound_bfmove_n_rounds(
    bf: Bf,
    src: int,
    dst: int,
    n: int,
    i: int,
    from: Seq<char>,
    nest: int,
)
    requires
        #[trigger] sound(from, bf.out, nest),
    ensures
        sound(from, (#[trigger] bf.bfmove_n_rounds(src, dst, n, i)).out, nest),
    decreases n - i,
{
    broadcast use sound_bfmove;

    reveal(Bf::bfmove_n_rounds);
    if !(i >= n) {
        let bf = bf.bfmove(src + i, dst + i);
        sound_bfmove_n_rounds(bf, src, dst, n, i + 1, from, nest);
    }
}

pub broadcast proof fn sound_bfmove_n(
    bf: Bf,
    src: int,
    dst: int,
    n: int,
    from: Seq<char>,
    nest: int,
)
    requires
        #[trigger] sound(from, bf.out, nest),
    ensures
        sound(from, (#[trigger] bf.bfmove_n(src, dst, n)).out, nest),
{
    broadcast use sound_bfmove_n_rounds;

    reveal(Bf::bfmove_n);
}

pub broadcast proof fn sound_clear_range_rounds(
    bf: Bf,
    base: int,
    hi: int,
    i: int,
    from: Seq<char>,
    nest: int,
)
    requires
        #[trigger] sound(from, bf.out, nest),
    ensures
        sound(from, (#[trigger] bf.clear_range_rounds(base, hi, i)).out, nest),
    decreases hi - i,
{
    broadcast use sound_clear;

    reveal(Bf::clear_range_rounds);
    if !(i >= hi) {
        let bf = bf.clear(base + i);
        sound_clear_range_rounds(bf, base, hi, i + 1, from, nest);
    }
}

pub broadcast proof fn sound_clear_range(
    bf: Bf,
    base: int,
    lo: int,
    hi: int,
    from: Seq<char>,
    nest: int,
)
    requires
        #[trigger] sound(from, bf.out, nest),
    ensures
        sound(from, (#[trigger] bf.clear_range(base, lo, hi)).out, nest),
{
    broadcast use sound_clear_range_rounds;

    reveal(Bf::clear_range);
}

pub broadcast proof fn sound_add_to(bf: Bf, src: int, dst: int, from: Seq<char>, nest: int)
    requires
        #[trigger] sound(from, bf.out, nest),
    ensures
        sound(from, (#[trigger] bf.add_to(src, dst)).out, nest),
{
    broadcast use {sound_goto, sound_open, sound_plus, sound_minus_close};

    lemma_sound_depth(from, bf.out, nest);
    reveal(Bf::add_to);
}

pub broadcast proof fn sound_sub_from(bf: Bf, src: int, dst: int, from: Seq<char>, nest: int)
    requires
        #[trigger] sound(from, bf.out, nest),
    ensures
        sound(from, (#[trigger] bf.sub_from(src, dst)).out, nest),
{
    broadcast use {sound_goto, sound_open, sound_minus, sound_minus_close};

    lemma_sound_depth(from, bf.out, nest);
    reveal(Bf::sub_from);
}

pub broadcast proof fn sound_is_nz(bf: Bf, cell: int, from: Seq<char>, nest: int)
    requires
        #[trigger] sound(from, bf.out, nest),
    ensures
        sound(from, (#[trigger] bf.is_nz(cell)).0.out, nest),
{
    broadcast use {
        sound_talloc,
        sound_clear,
        sound_copy,
        sound_goto,
        sound_setv,
        sound_tfree,
        sound_open,
        sound_close,
    };

    lemma_sound_depth(from, bf.out, nest);
    reveal(Bf::is_nz);
}

pub broadcast proof fn sound_negate(bf: Bf, c: int, from: Seq<char>, nest: int)
    requires
        #[trigger] sound(from, bf.out, nest),
    ensures
        sound(from, (#[trigger] bf.negate(c)).0.out, nest),
{
    broadcast use {
        sound_talloc,
        sound_bfmove,
        sound_inc,
        sound_goto,
        sound_clear,
        sound_tfree,
        sound_open,
        sound_close,
    };

    lemma_sound_depth(from, bf.out, nest);
    reveal(Bf::negate);
}

pub broadcast proof fn sound_flag_if(bf: Bf, cell: int, flag: int, from: Seq<char>, nest: int)
    requires
        #[trigger] sound(from, bf.out, nest),
    ensures
        sound(from, (#[trigger] bf.flag_if(cell, flag)).out, nest),
{
    broadcast use {sound_goto, sound_setv, sound_clear, sound_open, sound_close};

    lemma_sound_depth(from, bf.out, nest);
    reveal(Bf::flag_if);
}

pub broadcast proof fn sound_unflag_if(bf: Bf, cell: int, flag: int, from: Seq<char>, nest: int)
    requires
        #[trigger] sound(from, bf.out, nest),
    ensures
        sound(from, (#[trigger] bf.unflag_if(cell, flag)).out, nest),
{
    broadcast use {sound_goto, sound_clear, sound_open, sound_close};

    lemma_sound_depth(from, bf.out, nest);
    reveal(Bf::unflag_if);
}

pub broadcast proof fn sound_flag_if_both(
    bf: Bf,
    a: int,
    b: int,
    flag: int,
    from: Seq<char>,
    nest: int,
)
    requires
        #[trigger] sound(from, bf.out, nest),
    ensures
        sound(from, (#[trigger] bf.flag_if_both(a, b, flag)).out, nest),
{
    broadcast use {sound_goto, sound_flag_if, sound_clear, sound_open, sound_close};

    lemma_sound_depth(from, bf.out, nest);
    reveal(Bf::flag_if_both);
}

pub broadcast proof fn sound_widen(
    bf: Bf,
    src: int,
    from_w: int,
    to_w: int,
    from: Seq<char>,
    nest: int,
)
    requires
        #[trigger] sound(from, bf.out, nest),
    ensures
        sound(from, (#[trigger] bf.widen(src, from_w, to_w)).0.out, nest),
{
    broadcast use {sound_talloc_n, sound_bfmove_n, sound_clear_range, sound_tfree_n};

    reveal(Bf::widen);
}

pub broadcast proof fn sound_widened(
    bf: Bf,
    src: int,
    from_w: int,
    w: int,
    from: Seq<char>,
    nest: int,
)
    requires
        #[trigger] sound(from, bf.out, nest),
    ensures
        sound(from, (#[trigger] bf.widened(src, from_w, w)).0.out, nest),
{
    broadcast use sound_widen;

    reveal(Bf::widened);
}

pub broadcast proof fn sound_gt_count_down(
    bf: Bf,
    a: int,
    b: int,
    flag: int,
    from: Seq<char>,
    nest: int,
)
    requires
        #[trigger] sound(from, bf.out, nest),
    ensures
        sound(from, (#[trigger] bf.gt_count_down(a, b, flag)).0.out, nest),
{
    broadcast use {
        sound_is_nz,
        sound_goto,
        sound_dec,
        sound_clear,
        sound_talloc,
        sound_setv,
        sound_unflag_if,
        sound_tfree,
        sound_open,
        sound_close,
    };

    lemma_sound_depth(from, bf.out, nest);
    reveal(Bf::gt_count_down);
}

pub broadcast proof fn sound_gt_decide(
    bf: Bf,
    a: int,
    b: int,
    flag: int,
    result: int,
    from: Seq<char>,
    nest: int,
)
    requires
        #[trigger] sound(from, bf.out, nest),
    ensures
        sound(from, (#[trigger] bf.gt_decide(a, b, flag, result)).out, nest),
{
    broadcast use {
        sound_talloc,
        sound_setv,
        sound_is_nz,
        sound_unflag_if,
        sound_tfree,
        sound_goto,
        sound_flag_if,
        sound_clear,
        sound_open,
        sound_close,
    };

    lemma_sound_depth(from, bf.out, nest);
    reveal(Bf::gt_decide);
}

pub broadcast proof fn sound_byte_gt(bf: Bf, a: int, b: int, from: Seq<char>, nest: int)
    requires
        #[trigger] sound(from, bf.out, nest),
    ensures
        sound(from, (#[trigger] bf.byte_gt(a, b)).0.out, nest),
{
    broadcast use {
        sound_talloc,
        sound_clear,
        sound_setv,
        sound_goto,
        sound_gt_count_down,
        sound_gt_decide,
        sound_tfree,
        sound_open,
        sound_close,
    };

    lemma_sound_depth(from, bf.out, nest);
    reveal(Bf::byte_gt);
}

pub broadcast proof fn sound_byte_lt(bf: Bf, a: int, b: int, from: Seq<char>, nest: int)
    requires
        #[trigger] sound(from, bf.out, nest),
    ensures
        sound(from, (#[trigger] bf.byte_lt(a, b)).0.out, nest),
{
    broadcast use sound_byte_gt;

    reveal(Bf::byte_lt);
}

pub broadcast proof fn sound_byte_eq(bf: Bf, a: int, b: int, from: Seq<char>, nest: int)
    requires
        #[trigger] sound(from, bf.out, nest),
    ensures
        sound(from, (#[trigger] bf.byte_eq(a, b)).0.out, nest),
{
    broadcast use {sound_sub_from, sound_tfree, sound_negate};

    reveal(Bf::byte_eq);
}

pub broadcast proof fn sound_lt_byte(
    bf: Bf,
    a: int,
    b: int,
    n: int,
    result: int,
    i: int,
    from: Seq<char>,
    nest: int,
)
    requires
        #[trigger] sound(from, bf.out, nest),
    ensures
        sound(from, (#[trigger] bf.lt_byte(a, b, n, result, i)).out, nest),
{
    broadcast use {
        sound_talloc,
        sound_copy,
        sound_byte_lt,
        sound_byte_eq,
        sound_clear,
        sound_flag_if,
        sound_tfree,
        sound_flag_if_both,
        sound_bfmove,
    };

    reveal(Bf::lt_byte);
}

pub broadcast proof fn sound_lt_n_rounds(
    bf: Bf,
    a: int,
    b: int,
    n: int,
    result: int,
    i: int,
    from: Seq<char>,
    nest: int,
)
    requires
        #[trigger] sound(from, bf.out, nest),
    ensures
        sound(from, (#[trigger] bf.lt_n_rounds(a, b, n, result, i)).out, nest),
    decreases n - i,
{
    broadcast use sound_lt_byte;

    reveal(Bf::lt_n_rounds);
    if !(i >= n) {
        let bf = bf.lt_byte(a, b, n, result, i);
        sound_lt_n_rounds(bf, a, b, n, result, i + 1, from, nest);
    }
}

pub broadcast proof fn sound_lt_n(bf: Bf, a: int, b: int, n: int, from: Seq<char>, nest: int)
    requires
        #[trigger] sound(from, bf.out, nest),
    ensures
        sound(from, (#[trigger] bf.lt_n(a, b, n)).0.out, nest),
{
    broadcast use {sound_byte_lt, sound_talloc, sound_clear, sound_lt_n_rounds, sound_tfree_n};

    reveal(Bf::lt_n);
}

pub broadcast proof fn sound_gt_n(bf: Bf, a: int, b: int, n: int, from: Seq<char>, nest: int)
    requires
        #[trigger] sound(from, bf.out, nest),
    ensures
        sound(from, (#[trigger] bf.gt_n(a, b, n)).0.out, nest),
{
    broadcast use sound_lt_n;

    reveal(Bf::gt_n);
}

pub broadcast proof fn sound_le_n(bf: Bf, a: int, b: int, n: int, from: Seq<char>, nest: int)
    requires
        #[trigger] sound(from, bf.out, nest),
    ensures
        sound(from, (#[trigger] bf.le_n(a, b, n)).0.out, nest),
{
    broadcast use {sound_gt_n, sound_negate};

    reveal(Bf::le_n);
}

pub broadcast proof fn sound_ge_n(bf: Bf, a: int, b: int, n: int, from: Seq<char>, nest: int)
    requires
        #[trigger] sound(from, bf.out, nest),
    ensures
        sound(from, (#[trigger] bf.ge_n(a, b, n)).0.out, nest),
{
    broadcast use {sound_lt_n, sound_negate};

    reveal(Bf::ge_n);
}

pub broadcast proof fn sound_eq_byte(
    bf: Bf,
    a: int,
    b: int,
    n: int,
    result: int,
    i: int,
    from: Seq<char>,
    nest: int,
)
    requires
        #[trigger] sound(from, bf.out, nest),
    ensures
        sound(from, (#[trigger] bf.eq_byte(a, b, n, result, i)).out, nest),
{
    broadcast use {
        sound_talloc,
        sound_copy,
        sound_byte_eq,
        sound_bfmove,
        sound_clear,
        sound_flag_if_both,
        sound_tfree,
    };

    reveal(Bf::eq_byte);
}

pub broadcast proof fn sound_eq_n_rounds(
    bf: Bf,
    a: int,
    b: int,
    n: int,
    result: int,
    i: int,
    from: Seq<char>,
    nest: int,
)
    requires
        #[trigger] sound(from, bf.out, nest),
    ensures
        sound(from, (#[trigger] bf.eq_n_rounds(a, b, n, result, i)).out, nest),
    decreases n - i,
{
    broadcast use sound_eq_byte;

    reveal(Bf::eq_n_rounds);
    if !(i >= n) {
        let bf = bf.eq_byte(a, b, n, result, i);
        sound_eq_n_rounds(bf, a, b, n, result, i + 1, from, nest);
    }
}

pub broadcast proof fn sound_eq_n(bf: Bf, a: int, b: int, n: int, from: Seq<char>, nest: int)
    requires
        #[trigger] sound(from, bf.out, nest),
    ensures
        sound(from, (#[trigger] bf.eq_n(a, b, n)).0.out, nest),
{
    broadcast use {sound_byte_eq, sound_talloc, sound_setv, sound_eq_n_rounds, sound_tfree_n};

    reveal(Bf::eq_n);
}

pub broadcast proof fn sound_ne_n(bf: Bf, a: int, b: int, n: int, from: Seq<char>, nest: int)
    requires
        #[trigger] sound(from, bf.out, nest),
    ensures
        sound(from, (#[trigger] bf.ne_n(a, b, n)).0.out, nest),
{
    broadcast use {sound_eq_n, sound_negate};

    reveal(Bf::ne_n);
}

pub broadcast proof fn sound_add_byte(
    bf: Bf,
    dst: int,
    src: int,
    n: int,
    i: int,
    from: Seq<char>,
    nest: int,
)
    requires
        #[trigger] sound(from, bf.out, nest),
    ensures
        sound(from, (#[trigger] bf.add_byte(dst, src, n, i)).out, nest),
{
    broadcast use {sound_talloc, sound_copy, sound_add_to, sound_byte_gt, sound_tfree};

    reveal(Bf::add_byte);
}

pub broadcast proof fn sound_add_wide_byte(
    bf: Bf,
    dst: int,
    src: int,
    n: int,
    i: int,
    pend: int,
    from: Seq<char>,
    nest: int,
)
    requires
        #[trigger] sound(from, bf.out, nest),
    ensures
        sound(from, (#[trigger] bf.add_wide_byte(dst, src, n, i, pend)).out, nest),
{
    broadcast use {
        sound_talloc,
        sound_copy,
        sound_add_to,
        sound_byte_gt,
        sound_is_nz,
        sound_unflag_if,
        sound_tfree,
    };

    reveal(Bf::add_wide_byte);
}

pub broadcast proof fn sound_add_wide_rounds(
    bf: Bf,
    dst: int,
    src: int,
    n: int,
    pend: int,
    i: int,
    from: Seq<char>,
    nest: int,
)
    requires
        #[trigger] sound(from, bf.out, nest),
    ensures
        sound(from, (#[trigger] bf.add_wide_rounds(dst, src, n, pend, i)).out, nest),
    decreases n - i,
{
    broadcast use sound_add_wide_byte;

    reveal(Bf::add_wide_rounds);
    if !(i >= n) {
        let bf = bf.add_wide_byte(dst, src, n, i, pend);
        sound_add_wide_rounds(bf, dst, src, n, pend, i + 1, from, nest);
    }
}

pub broadcast proof fn sound_add_wide(
    bf: Bf,
    dst: int,
    src: int,
    n: int,
    from: Seq<char>,
    nest: int,
)
    requires
        #[trigger] sound(from, bf.out, nest),
    ensures
        sound(from, (#[trigger] bf.add_wide(dst, src, n)).out, nest),
{
    broadcast use {sound_talloc, sound_clear, sound_add_wide_rounds, sound_tfree, sound_tfree_n};

    reveal(Bf::add_wide);
}

pub broadcast proof fn sound_sub_wide_byte(
    bf: Bf,
    dst: int,
    src: int,
    n: int,
    i: int,
    pend: int,
    from: Seq<char>,
    nest: int,
)
    requires
        #[trigger] sound(from, bf.out, nest),
    ensures
        sound(from, (#[trigger] bf.sub_wide_byte(dst, src, n, i, pend)).out, nest),
{
    broadcast use {
        sound_talloc,
        sound_copy,
        sound_add_to,
        sound_sub_from,
        sound_byte_gt,
        sound_is_nz,
        sound_unflag_if,
        sound_tfree,
    };

    reveal(Bf::sub_wide_byte);
}

pub broadcast proof fn sound_sub_wide_rounds(
    bf: Bf,
    dst: int,
    src: int,
    n: int,
    pend: int,
    i: int,
    from: Seq<char>,
    nest: int,
)
    requires
        #[trigger] sound(from, bf.out, nest),
    ensures
        sound(from, (#[trigger] bf.sub_wide_rounds(dst, src, n, pend, i)).out, nest),
    decreases n - i,
{
    broadcast use sound_sub_wide_byte;

    reveal(Bf::sub_wide_rounds);
    if !(i >= n) {
        let bf = bf.sub_wide_byte(dst, src, n, i, pend);
        sound_sub_wide_rounds(bf, dst, src, n, pend, i + 1, from, nest);
    }
}

pub broadcast proof fn sound_sub_wide(
    bf: Bf,
    dst: int,
    src: int,
    n: int,
    from: Seq<char>,
    nest: int,
)
    requires
        #[trigger] sound(from, bf.out, nest),
    ensures
        sound(from, (#[trigger] bf.sub_wide(dst, src, n)).out, nest),
{
    broadcast use {sound_talloc, sound_clear, sound_sub_wide_rounds, sound_tfree, sound_tfree_n};

    reveal(Bf::sub_wide);
}

pub broadcast proof fn sound_add_n(bf: Bf, dst: int, src: int, n: int, from: Seq<char>, nest: int)
    requires
        #[trigger] sound(from, bf.out, nest),
    ensures
        sound(from, (#[trigger] bf.add_n(dst, src, n)).out, nest),
{
    broadcast use {sound_add_to, sound_tfree, sound_addb, sound_add_wide};

    reveal(Bf::add_n);
}

pub broadcast proof fn sound_addb_rounds(
    bf: Bf,
    dst: int,
    src: int,
    n: int,
    i: int,
    from: Seq<char>,
    nest: int,
)
    requires
        #[trigger] sound(from, bf.out, nest),
    ensures
        sound(from, (#[trigger] bf.addb_rounds(dst, src, n, i)).out, nest),
    decreases n - i,
{
    broadcast use sound_add_byte;

    reveal(Bf::addb_rounds);
    if !(i >= n) {
        let bf = bf.add_byte(dst, src, n, i);
        sound_addb_rounds(bf, dst, src, n, i + 1, from, nest);
    }
}

pub broadcast proof fn sound_addb(bf: Bf, dst: int, src: int, n: int, from: Seq<char>, nest: int)
    requires
        #[trigger] sound(from, bf.out, nest),
    ensures
        sound(from, (#[trigger] bf.addb(dst, src, n)).out, nest),
{
    broadcast use {sound_addb_rounds, sound_tfree_n};

    reveal(Bf::addb);
}

pub broadcast proof fn sound_sub_byte(
    bf: Bf,
    dst: int,
    src: int,
    n: int,
    i: int,
    from: Seq<char>,
    nest: int,
)
    requires
        #[trigger] sound(from, bf.out, nest),
    ensures
        sound(from, (#[trigger] bf.sub_byte(dst, src, n, i)).out, nest),
{
    broadcast use {
        sound_talloc,
        sound_copy,
        sound_sub_from,
        sound_byte_gt,
        sound_goto,
        sound_dec,
        sound_clear,
        sound_tfree,
        sound_open,
        sound_close,
    };

    lemma_sound_depth(from, bf.out, nest);
    reveal(Bf::sub_byte);
}

pub broadcast proof fn sound_sub_n(bf: Bf, dst: int, src: int, n: int, from: Seq<char>, nest: int)
    requires
        #[trigger] sound(from, bf.out, nest),
    ensures
        sound(from, (#[trigger] bf.sub_n(dst, src, n)).out, nest),
{
    broadcast use {sound_sub_from, sound_tfree, sound_subb, sound_sub_wide};

    reveal(Bf::sub_n);
}

pub broadcast proof fn sound_subb_rounds(
    bf: Bf,
    dst: int,
    src: int,
    n: int,
    i: int,
    from: Seq<char>,
    nest: int,
)
    requires
        #[trigger] sound(from, bf.out, nest),
    ensures
        sound(from, (#[trigger] bf.subb_rounds(dst, src, n, i)).out, nest),
    decreases n - i,
{
    broadcast use sound_sub_byte;

    reveal(Bf::subb_rounds);
    if !(i >= n) {
        let bf = bf.sub_byte(dst, src, n, i);
        sound_subb_rounds(bf, dst, src, n, i + 1, from, nest);
    }
}

pub broadcast proof fn sound_subb(bf: Bf, dst: int, src: int, n: int, from: Seq<char>, nest: int)
    requires
        #[trigger] sound(from, bf.out, nest),
    ensures
        sound(from, (#[trigger] bf.subb(dst, src, n)).out, nest),
{
    broadcast use {sound_subb_rounds, sound_tfree_n};

    reveal(Bf::subb);
}

pub broadcast proof fn sound_inc_n(bf: Bf, target: int, n: int, from: Seq<char>, nest: int)
    requires
        #[trigger] sound(from, bf.out, nest),
    ensures
        sound(from, (#[trigger] bf.inc_n(target, n)).out, nest),
{
    broadcast use {sound_talloc_n, sound_set_const_n, sound_add_n};

    reveal(Bf::inc_n);
}

pub broadcast proof fn sound_dec_n(bf: Bf, target: int, n: int, from: Seq<char>, nest: int)
    requires
        #[trigger] sound(from, bf.out, nest),
    ensures
        sound(from, (#[trigger] bf.dec_n(target, n)).out, nest),
{
    broadcast use {sound_talloc_n, sound_set_const_n, sound_sub_n};

    reveal(Bf::dec_n);
}

pub broadcast proof fn sound_nz_byte(
    bf: Bf,
    base: int,
    n: int,
    r: int,
    i: int,
    from: Seq<char>,
    nest: int,
)
    requires
        #[trigger] sound(from, bf.out, nest),
    ensures
        sound(from, (#[trigger] bf.nz_byte(base, n, r, i)).out, nest),
{
    broadcast use {sound_talloc, sound_copy, sound_flag_if, sound_tfree};

    reveal(Bf::nz_byte);
}

pub broadcast proof fn sound_is_nz_n_rounds(
    bf: Bf,
    base: int,
    n: int,
    r: int,
    i: int,
    from: Seq<char>,
    nest: int,
)
    requires
        #[trigger] sound(from, bf.out, nest),
    ensures
        sound(from, (#[trigger] bf.is_nz_n_rounds(base, n, r, i)).out, nest),
    decreases n - i,
{
    broadcast use sound_nz_byte;

    reveal(Bf::is_nz_n_rounds);
    if !(i >= n) {
        let bf = bf.nz_byte(base, n, r, i);
        sound_is_nz_n_rounds(bf, base, n, r, i + 1, from, nest);
    }
}

pub broadcast proof fn sound_is_nz_n(bf: Bf, base: int, n: int, from: Seq<char>, nest: int)
    requires
        #[trigger] sound(from, bf.out, nest),
    ensures
        sound(from, (#[trigger] bf.is_nz_n(base, n)).0.out, nest),
{
    broadcast use {sound_is_nz, sound_talloc, sound_clear, sound_is_nz_n_rounds};

    reveal(Bf::is_nz_n);
}

pub broadcast proof fn sound_arith_mul(bf: Bf, a: int, b: int, from: Seq<char>, nest: int)
    requires
        #[trigger] sound(from, bf.out, nest),
    ensures
        sound(from, (#[trigger] bf.arith_mul(a, b)).0.out, nest),
{
    broadcast use {
        sound_talloc,
        sound_clear,
        sound_goto,
        sound_dec,
        sound_copy,
        sound_add_to,
        sound_tfree,
        sound_open,
        sound_close,
    };

    lemma_sound_depth(from, bf.out, nest);
    reveal(Bf::arith_mul);
}

pub broadcast proof fn sound_arith_mul_n(
    bf: Bf,
    a: int,
    b: int,
    n: int,
    from: Seq<char>,
    nest: int,
)
    requires
        #[trigger] sound(from, bf.out, nest),
    ensures
        sound(from, (#[trigger] bf.arith_mul_n(a, b, n)).0.out, nest),
{
    broadcast use {
        sound_arith_mul,
        sound_talloc_n,
        sound_clear_range,
        sound_is_nz_n,
        sound_goto,
        sound_clear,
        sound_dec_n,
        sound_copy_n,
        sound_add_n,
        sound_bfmove,
        sound_tfree,
        sound_tfree_n,
        sound_open,
        sound_close,
    };

    lemma_sound_depth(from, bf.out, nest);
    reveal(Bf::arith_mul_n);
}

pub broadcast proof fn sound_fits_byte(bf: Bf, a: int, b: int, from: Seq<char>, nest: int)
    requires
        #[trigger] sound(from, bf.out, nest),
    ensures
        sound(from, (#[trigger] bf.fits_byte(a, b)).0.out, nest),
{
    broadcast use {sound_talloc, sound_copy, sound_byte_gt, sound_negate};

    reveal(Bf::fits_byte);
}

pub broadcast proof fn sound_take_byte(bf: Bf, a: int, b: int, from: Seq<char>, nest: int)
    requires
        #[trigger] sound(from, bf.out, nest),
    ensures
        sound(from, (#[trigger] bf.take_byte(a, b)).out, nest),
{
    broadcast use {sound_talloc, sound_copy, sound_sub_from, sound_tfree};

    reveal(Bf::take_byte);
}

pub broadcast proof fn sound_arith_div(bf: Bf, a: int, b: int, from: Seq<char>, nest: int)
    requires
        #[trigger] sound(from, bf.out, nest),
    ensures
        sound(from, (#[trigger] bf.arith_div(a, b)).0.out, nest),
{
    broadcast use {
        sound_talloc,
        sound_clear,
        sound_setv,
        sound_goto,
        sound_fits_byte,
        sound_take_byte,
        sound_inc,
        sound_tfree,
        sound_open,
        sound_close,
    };

    lemma_sound_depth(from, bf.out, nest);
    reveal(Bf::arith_div);
}

pub broadcast proof fn sound_arith_mod(bf: Bf, a: int, b: int, from: Seq<char>, nest: int)
    requires
        #[trigger] sound(from, bf.out, nest),
    ensures
        sound(from, (#[trigger] bf.arith_mod(a, b)).0.out, nest),
{
    broadcast use {
        sound_talloc,
        sound_setv,
        sound_goto,
        sound_clear,
        sound_fits_byte,
        sound_take_byte,
        sound_tfree,
        sound_open,
        sound_close,
    };

    lemma_sound_depth(from, bf.out, nest);
    reveal(Bf::arith_mod);
}

pub broadcast proof fn sound_fits_n(bf: Bf, a: int, b: int, n: int, from: Seq<char>, nest: int)
    requires
        #[trigger] sound(from, bf.out, nest),
    ensures
        sound(from, (#[trigger] bf.fits_n(a, b, n)).0.out, nest),
{
    broadcast use {sound_talloc_n, sound_copy_n, sound_gt_n, sound_negate};

    reveal(Bf::fits_n);
}

pub broadcast proof fn sound_take_n(bf: Bf, a: int, b: int, n: int, from: Seq<char>, nest: int)
    requires
        #[trigger] sound(from, bf.out, nest),
    ensures
        sound(from, (#[trigger] bf.take_n(a, b, n)).out, nest),
{
    broadcast use {sound_talloc_n, sound_copy_n, sound_sub_n};

    reveal(Bf::take_n);
}

pub broadcast proof fn sound_arith_div_n(
    bf: Bf,
    a: int,
    b: int,
    n: int,
    from: Seq<char>,
    nest: int,
)
    requires
        #[trigger] sound(from, bf.out, nest),
    ensures
        sound(from, (#[trigger] bf.arith_div_n(a, b, n)).0.out, nest),
{
    broadcast use {
        sound_arith_div,
        sound_talloc_n,
        sound_clear_range,
        sound_talloc,
        sound_setv,
        sound_goto,
        sound_clear,
        sound_fits_n,
        sound_take_n,
        sound_inc_n,
        sound_tfree,
        sound_tfree_n,
        sound_open,
        sound_close,
    };

    lemma_sound_depth(from, bf.out, nest);
    reveal(Bf::arith_div_n);
}

pub broadcast proof fn sound_arith_mod_n(
    bf: Bf,
    a: int,
    b: int,
    n: int,
    from: Seq<char>,
    nest: int,
)
    requires
        #[trigger] sound(from, bf.out, nest),
    ensures
        sound(from, (#[trigger] bf.arith_mod_n(a, b, n)).0.out, nest),
{
    broadcast use {
        sound_arith_mod,
        sound_talloc,
        sound_setv,
        sound_goto,
        sound_clear,
        sound_fits_n,
        sound_take_n,
        sound_tfree,
        sound_tfree_n,
        sound_open,
        sound_close,
    };

    lemma_sound_depth(from, bf.out, nest);
    reveal(Bf::arith_mod_n);
}

pub broadcast proof fn sound_both_n(bf: Bf, a: int, b: int, w: int, from: Seq<char>, nest: int)
    requires
        #[trigger] sound(from, bf.out, nest),
    ensures
        sound(from, (#[trigger] bf.both_n(a, b, w)).0.out, nest),
{
    broadcast use {
        sound_talloc,
        sound_clear,
        sound_is_nz_n,
        sound_flag_if_both,
        sound_tfree,
        sound_tfree_n,
    };

    reveal(Bf::both_n);
}

pub broadcast proof fn sound_either_n(bf: Bf, a: int, b: int, w: int, from: Seq<char>, nest: int)
    requires
        #[trigger] sound(from, bf.out, nest),
    ensures
        sound(from, (#[trigger] bf.either_n(a, b, w)).0.out, nest),
{
    broadcast use {
        sound_talloc,
        sound_clear,
        sound_is_nz_n,
        sound_flag_if,
        sound_tfree,
        sound_tfree_n,
    };

    reveal(Bf::either_n);
}

pub broadcast proof fn sound_binop_w(
    bf: Bf,
    op: BinOp,
    a: int,
    aw: int,
    b: int,
    bw: int,
    from: Seq<char>,
    nest: int,
)
    requires
        #[trigger] sound(from, bf.out, nest),
    ensures
        sound(from, (#[trigger] bf.binop_w(op, a, aw, b, bw)).0.out, nest),
{
    broadcast use {
        sound_widened,
        sound_add_n,
        sound_sub_n,
        sound_arith_mul_n,
        sound_arith_div_n,
        sound_arith_mod_n,
        sound_lt_n,
        sound_gt_n,
        sound_le_n,
        sound_ge_n,
        sound_eq_n,
        sound_ne_n,
        sound_both_n,
        sound_either_n,
    };

    reveal(Bf::binop_w);
}

} // verus!
