//! The steps for decimal numbers keep a text sound.

use vstd::prelude::*;

use crate::bfsc::emitter::Bf;
use crate::bfsc::sound::steps::{lemma_sound_depth, sound};
use crate::bfsc::sound::steps::{
    sound_clear, sound_close, sound_dec, sound_goto, sound_inc, sound_inp, sound_open,
    sound_out_cell, sound_set_const_n, sound_setv, sound_talloc, sound_talloc_n, sound_tfree,
    sound_tfree_n,
};
use crate::bfsc::sound::arith::{
    sound_add_n, sound_add_to, sound_bfmove, sound_byte_gt, sound_clear_range, sound_copy,
    sound_copy_n, sound_flag_if, sound_gt_n, sound_inc_n, sound_is_nz, sound_negate, sound_sub_n,
    sound_widen,
};

verus! {

pub broadcast proof fn sound_out_digit(bf: Bf, cell: int, from: Seq<char>, nest: int)
    requires
        #[trigger] sound(from, bf.out, nest),
    ensures
        sound(from, (#[trigger] bf.out_digit(cell)).out, nest),
{
    broadcast use {sound_talloc, sound_copy, sound_inc, sound_out_cell, sound_tfree};

    reveal(Bf::out_digit);
}

pub broadcast proof fn sound_divconst(
    bf: Bf,
    val: int,
    div: int,
    quot: int,
    from: Seq<char>,
    nest: int,
)
    requires
        #[trigger] sound(from, bf.out, nest),
    ensures
        sound(from, (#[trigger] bf.divconst(val, div, quot)).out, nest),
{
    broadcast use {
        sound_clear,
        sound_talloc,
        sound_setv,
        sound_goto,
        sound_copy,
        sound_byte_gt,
        sound_negate,
        sound_dec,
        sound_inc,
        sound_tfree,
        sound_open,
        sound_close,
    };

    lemma_sound_depth(from, bf.out, nest);
    reveal(Bf::divconst);
}

pub broadcast proof fn sound_print_num(bf: Bf, cell: int, from: Seq<char>, nest: int)
    requires
        #[trigger] sound(from, bf.out, nest),
    ensures
        sound(from, (#[trigger] bf.print_num(cell)).out, nest),
{
    broadcast use {
        sound_talloc,
        sound_copy,
        sound_clear,
        sound_divconst,
        sound_is_nz,
        sound_goto,
        sound_out_digit,
        sound_tfree,
        sound_flag_if,
        sound_inc,
        sound_out_cell,
        sound_open,
        sound_close,
    };

    lemma_sound_depth(from, bf.out, nest);
    reveal(Bf::print_num);
}

pub broadcast proof fn sound_is_digit(bf: Bf, ch: int, from: Seq<char>, nest: int)
    requires
        #[trigger] sound(from, bf.out, nest),
    ensures
        sound(from, (#[trigger] bf.is_digit(ch)).0.out, nest),
{
    broadcast use {
        sound_talloc,
        sound_clear,
        sound_is_nz,
        sound_copy,
        sound_dec,
        sound_tfree,
        sound_goto,
        sound_setv,
        sound_open,
        sound_close,
    };

    lemma_sound_depth(from, bf.out, nest);
    reveal(Bf::is_digit);
}

pub broadcast proof fn sound_mul10_rounds(
    bf: Bf,
    cell: int,
    tc: int,
    i: int,
    from: Seq<char>,
    nest: int,
)
    requires
        #[trigger] sound(from, bf.out, nest),
    ensures
        sound(from, (#[trigger] bf.mul10_rounds(cell, tc, i)).out, nest),
    decreases 10 - i,
{
    broadcast use {sound_talloc, sound_copy, sound_add_to, sound_tfree};

    reveal(Bf::mul10_rounds);
    if !(i >= 10) {
        let (bf, t2) = bf.talloc();
        let bf = bf.copy(tc, t2);
        let bf = bf.add_to(t2, cell);
        let bf = bf.tfree(t2);
        sound_mul10_rounds(bf, cell, tc, i + 1, from, nest);
    }
}

pub broadcast proof fn sound_mul10(bf: Bf, cell: int, from: Seq<char>, nest: int)
    requires
        #[trigger] sound(from, bf.out, nest),
    ensures
        sound(from, (#[trigger] bf.mul10(cell)).out, nest),
{
    broadcast use {sound_talloc, sound_copy, sound_clear, sound_mul10_rounds, sound_tfree};

    reveal(Bf::mul10);
}

pub broadcast proof fn sound_mul10_n(bf: Bf, cell: int, n: int, from: Seq<char>, nest: int)
    requires
        #[trigger] sound(from, bf.out, nest),
    ensures
        sound(from, (#[trigger] bf.mul10_n(cell, n)).out, nest),
{
    broadcast use {sound_mul10, sound_mul10_wide};

    reveal(Bf::mul10_n);
}

pub broadcast proof fn sound_mul10_wide_rounds(
    bf: Bf,
    cell: int,
    n: int,
    tc: int,
    i: int,
    from: Seq<char>,
    nest: int,
)
    requires
        #[trigger] sound(from, bf.out, nest),
    ensures
        sound(from, (#[trigger] bf.mul10_wide_rounds(cell, n, tc, i)).out, nest),
    decreases 10 - i,
{
    broadcast use {sound_talloc_n, sound_copy_n, sound_add_n};

    reveal(Bf::mul10_wide_rounds);
    if !(i >= 10) {
        let (bf, t2) = bf.talloc_n(n);
        let bf = bf.copy_n(tc, t2, n);
        let bf = bf.add_n(cell, t2, n);
        sound_mul10_wide_rounds(bf, cell, n, tc, i + 1, from, nest);
    }
}

pub broadcast proof fn sound_mul10_wide(bf: Bf, cell: int, n: int, from: Seq<char>, nest: int)
    requires
        #[trigger] sound(from, bf.out, nest),
    ensures
        sound(from, (#[trigger] bf.mul10_wide(cell, n)).out, nest),
{
    broadcast use {
        sound_talloc_n,
        sound_copy_n,
        sound_clear_range,
        sound_mul10_wide_rounds,
        sound_tfree_n,
    };

    reveal(Bf::mul10_wide);
}

pub broadcast proof fn sound_next_char(bf: Bf, ch: int, lf: int, from: Seq<char>, nest: int)
    requires
        #[trigger] sound(from, bf.out, nest),
    ensures
        sound(from, (#[trigger] bf.next_char(ch, lf)).out, nest),
{
    broadcast use {sound_clear, sound_inp, sound_is_digit, sound_bfmove, sound_tfree};

    reveal(Bf::next_char);
}

pub broadcast proof fn sound_scan_num(bf: Bf, target: int, from: Seq<char>, nest: int)
    requires
        #[trigger] sound(from, bf.out, nest),
    ensures
        sound(from, (#[trigger] bf.scan_num(target)).out, nest),
{
    broadcast use {
        sound_clear,
        sound_talloc,
        sound_inp,
        sound_is_digit,
        sound_goto,
        sound_mul10,
        sound_copy,
        sound_dec,
        sound_add_to,
        sound_tfree,
        sound_next_char,
        sound_open,
        sound_close,
    };

    lemma_sound_depth(from, bf.out, nest);
    reveal(Bf::scan_num);
}

pub broadcast proof fn sound_scan_wide(bf: Bf, target: int, n: int, from: Seq<char>, nest: int)
    requires
        #[trigger] sound(from, bf.out, nest),
    ensures
        sound(from, (#[trigger] bf.scan_wide(target, n)).out, nest),
{
    broadcast use {
        sound_clear_range,
        sound_talloc,
        sound_clear,
        sound_inp,
        sound_is_digit,
        sound_goto,
        sound_mul10_n,
        sound_copy,
        sound_dec,
        sound_widen,
        sound_add_n,
        sound_next_char,
        sound_tfree,
        sound_open,
        sound_close,
    };

    lemma_sound_depth(from, bf.out, nest);
    reveal(Bf::scan_wide);
}

pub broadcast proof fn sound_divconst_wide(
    bf: Bf,
    val: int,
    n: int,
    div: int,
    quot: int,
    from: Seq<char>,
    nest: int,
)
    requires
        #[trigger] sound(from, bf.out, nest),
    ensures
        sound(from, (#[trigger] bf.divconst_wide(val, n, div, quot)).out, nest),
{
    broadcast use {
        sound_clear_range,
        sound_talloc,
        sound_setv,
        sound_goto,
        sound_clear,
        sound_talloc_n,
        sound_copy_n,
        sound_set_const_n,
        sound_gt_n,
        sound_negate,
        sound_sub_n,
        sound_inc_n,
        sound_tfree,
        sound_open,
        sound_close,
    };

    lemma_sound_depth(from, bf.out, nest);
    reveal(Bf::divconst_wide);
}

pub broadcast proof fn sound_take_digit(
    bf: Bf,
    v: int,
    n: int,
    div: int,
    quot: int,
    from: Seq<char>,
    nest: int,
)
    requires
        #[trigger] sound(from, bf.out, nest),
    ensures
        sound(from, (#[trigger] bf.take_digit(v, n, div, quot)).0.out, nest),
{
    broadcast use {sound_divconst_wide, sound_talloc, sound_copy, sound_clear_range};

    reveal(Bf::take_digit);
}

pub broadcast proof fn sound_print_digit(bf: Bf, d: int, seen_nz: int, from: Seq<char>, nest: int)
    requires
        #[trigger] sound(from, bf.out, nest),
    ensures
        sound(from, (#[trigger] bf.print_digit(d, seen_nz)).out, nest),
{
    broadcast use {
        sound_is_nz,
        sound_talloc,
        sound_clear,
        sound_copy,
        sound_flag_if,
        sound_tfree,
        sound_goto,
        sound_setv,
        sound_inc,
        sound_out_cell,
        sound_open,
        sound_close,
    };

    lemma_sound_depth(from, bf.out, nest);
    reveal(Bf::print_digit);
}

pub broadcast proof fn sound_print_last_digit(bf: Bf, d: int, from: Seq<char>, nest: int)
    requires
        #[trigger] sound(from, bf.out, nest),
    ensures
        sound(from, (#[trigger] bf.print_last_digit(d)).out, nest),
{
    broadcast use {sound_inc, sound_out_cell, sound_tfree};

    reveal(Bf::print_last_digit);
}

pub broadcast proof fn sound_take_digits(
    bf: Bf,
    v: int,
    n: int,
    quot: int,
    divs: Seq<u32>,
    i: int,
    digits: Seq<int>,
    from: Seq<char>,
    nest: int,
)
    requires
        #[trigger] sound(from, bf.out, nest),
    ensures
        sound(from, (#[trigger] bf.take_digits(v, n, quot, divs, i, digits)).0.out, nest),
    decreases divs.len() - i,
{
    broadcast use sound_take_digit;

    reveal(Bf::take_digits);
    if !(i < 0 || i >= divs.len()) {
        let (bf, dg) = bf.take_digit(v, n, divs[i] as int, quot);
        sound_take_digits(bf, v, n, quot, divs, i + 1, digits.push(dg), from, nest);
    }
}

pub broadcast proof fn sound_print_digits(
    bf: Bf,
    digits: Seq<int>,
    seen_nz: int,
    i: int,
    from: Seq<char>,
    nest: int,
)
    requires
        #[trigger] sound(from, bf.out, nest),
    ensures
        sound(from, (#[trigger] bf.print_digits(digits, seen_nz, i)).out, nest),
    decreases digits.len() - i,
{
    broadcast use {sound_print_last_digit, sound_print_digit};

    reveal(Bf::print_digits);
    if i < 0 || i >= digits.len() {
    } else if i == digits.len() - 1 {
        sound_print_digits(bf.print_last_digit(digits[i]), digits, seen_nz, i + 1, from, nest);
    } else {
        sound_print_digits(bf.print_digit(digits[i], seen_nz), digits, seen_nz, i + 1, from, nest);
    }
}

pub broadcast proof fn sound_print_wide(bf: Bf, cell: int, n: int, from: Seq<char>, nest: int)
    requires
        #[trigger] sound(from, bf.out, nest),
    ensures
        sound(from, (#[trigger] bf.print_wide(cell, n)).out, nest),
{
    broadcast use {
        sound_talloc_n,
        sound_copy_n,
        sound_take_digits,
        sound_talloc,
        sound_copy,
        sound_tfree_n,
        sound_clear,
        sound_print_digits,
        sound_tfree,
    };

    reveal(Bf::print_wide);
}

pub broadcast proof fn sound_print_num_n(bf: Bf, cell: int, n: int, from: Seq<char>, nest: int)
    requires
        #[trigger] sound(from, bf.out, nest),
    ensures
        sound(from, (#[trigger] bf.print_num_n(cell, n)).out, nest),
{
    broadcast use {sound_print_num, sound_print_wide};

    reveal(Bf::print_num_n);
}

pub broadcast proof fn sound_scan_num_n(bf: Bf, target: int, n: int, from: Seq<char>, nest: int)
    requires
        #[trigger] sound(from, bf.out, nest),
    ensures
        sound(from, (#[trigger] bf.scan_num_n(target, n)).out, nest),
{
    broadcast use {sound_scan_num, sound_scan_wide};

    reveal(Bf::scan_num_n);
}

} // verus!
