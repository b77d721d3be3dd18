//! The steps for arrays keep a text sound.

use vstd::prelude::*;

use crate::bfsc::emitter::Bf;
use crate::bfsc::sound::steps::{lemma_sound_depth, sound};
use crate::bfsc::sound::steps::{
    sound_clear, sound_close, sound_dec, sound_goto, sound_left, sound_left_two, sound_lefts,
    sound_open, sound_open_minus, sound_plus, sound_right, sound_right_three, sound_right_two,
    sound_rights, sound_set_ptr, sound_setv, sound_step_1, sound_step_10, sound_step_11,
    sound_step_12, sound_step_13, sound_step_14, sound_step_2, sound_step_3, sound_step_4,
    sound_step_5, sound_step_6, sound_step_7, sound_step_8, sound_step_9, sound_talloc,
    sound_talloc_n, sound_tfree, sound_tfree_n,
};
use crate::bfsc::sound::arith::{
    sound_bfmove, sound_bfmove_n, sound_clear_range, sound_copy, sound_copy_n, sound_dec_n,
    sound_is_nz_n, sound_negate, sound_unflag_if, sound_widen,
};

verus! {

pub broadcast proof fn sound_pour(bf: Bf, src: int, dst: int, from: Seq<char>, nest: int)
    requires
        #[trigger] sound(from, bf.out, nest),
    ensures
        sound(from, (#[trigger] bf.pour(src, dst)).out, nest),
{
    broadcast use {sound_goto, sound_open_minus, sound_plus, sound_close};

    lemma_sound_depth(from, bf.out, nest);
    reveal(Bf::pour);
}

pub broadcast proof fn sound_walk_read_chunk(
    bf: Bf,
    chunk_base: int,
    local_offset: int,
    result: int,
    from: Seq<char>,
    nest: int,
)
    requires
        #[trigger] sound(from, bf.out, nest),
    ensures
        sound(from, (#[trigger] bf.walk_read_chunk(chunk_base, local_offset, result)).out, nest),
{
    broadcast use {
        sound_clear,
        sound_pour,
        sound_tfree,
        sound_goto,
        sound_set_ptr,
        sound_step_8,
        sound_step_12,
        sound_right_three,
        sound_step_9,
        sound_left_two,
        sound_step_11,
    };

    reveal(Bf::walk_read_chunk);
}

pub broadcast proof fn sound_walk_write_chunk(
    bf: Bf,
    chunk_base: int,
    local_offset: int,
    val: int,
    from: Seq<char>,
    nest: int,
)
    requires
        #[trigger] sound(from, bf.out, nest),
    ensures
        sound(from, (#[trigger] bf.walk_write_chunk(chunk_base, local_offset, val)).out, nest),
{
    broadcast use {
        sound_clear,
        sound_pour,
        sound_tfree,
        sound_goto,
        sound_set_ptr,
        sound_step_13,
        sound_step_14,
        sound_right_three,
        sound_step_4,
        sound_step_7,
    };

    reveal(Bf::walk_write_chunk);
}

pub broadcast proof fn sound_extract_outer_walk_result(
    bf: Bf,
    base: int,
    result: int,
    from: Seq<char>,
    nest: int,
)
    requires
        #[trigger] sound(from, bf.out, nest),
    ensures
        sound(from, (#[trigger] bf.extract_outer_walk_result(base, result)).out, nest),
{
    broadcast use {sound_clear, sound_pour};

    reveal(Bf::extract_outer_walk_result);
}

pub broadcast proof fn sound_seed_outer_prefix(
    bf: Bf,
    base: int,
    idx: int,
    from: Seq<char>,
    nest: int,
)
    requires
        #[trigger] sound(from, bf.out, nest),
    ensures
        sound(from, (#[trigger] bf.seed_outer_prefix(base, idx)).out, nest),
{
    broadcast use {sound_goto, sound_pour, sound_open_minus, sound_step_1, sound_close};

    lemma_sound_depth(from, bf.out, nest);
    reveal(Bf::seed_outer_prefix);
}

pub broadcast proof fn sound_seed_outer_prefix_2stage(
    bf: Bf,
    base: int,
    idx: int,
    chunk_size: int,
    from: Seq<char>,
    nest: int,
)
    requires
        #[trigger] sound(from, bf.out, nest),
    ensures
        sound(from, (#[trigger] bf.seed_outer_prefix_2stage(base, idx, chunk_size)).out, nest),
{
    broadcast use {sound_goto, sound_pour, sound_open_minus, sound_step_1, sound_close};

    lemma_sound_depth(from, bf.out, nest);
    reveal(Bf::seed_outer_prefix_2stage);
}

pub broadcast proof fn sound_shift_right(bf: Bf, n: int, from: Seq<char>, nest: int)
    requires
        #[trigger] sound(from, bf.out, nest),
    ensures
        sound(from, (#[trigger] bf.shift_right(n)).out, nest),
{
    broadcast use {sound_open_minus, sound_plus, sound_close, sound_rights, sound_lefts};

    lemma_sound_depth(from, bf.out, nest);
    reveal(Bf::shift_right);
}

pub broadcast proof fn sound_shift_left(bf: Bf, n: int, from: Seq<char>, nest: int)
    requires
        #[trigger] sound(from, bf.out, nest),
    ensures
        sound(from, (#[trigger] bf.shift_left(n)).out, nest),
{
    broadcast use {sound_open_minus, sound_plus, sound_close, sound_lefts, sound_rights};

    lemma_sound_depth(from, bf.out, nest);
    reveal(Bf::shift_left);
}

pub broadcast proof fn sound_forward_three(bf: Bf, s: int, from: Seq<char>, nest: int)
    requires
        #[trigger] sound(from, bf.out, nest),
    ensures
        sound(from, (#[trigger] bf.forward_three(s)).out, nest),
{
    broadcast use {
        sound_shift_right,
        sound_open_minus,
        sound_right,
        sound_left_two,
        sound_close,
        sound_rights,
    };

    lemma_sound_depth(from, bf.out, nest);
    reveal(Bf::forward_three);
}

pub broadcast proof fn sound_backward_three(bf: Bf, s: int, from: Seq<char>, nest: int)
    requires
        #[trigger] sound(from, bf.out, nest),
    ensures
        sound(from, (#[trigger] bf.backward_three(s)).out, nest),
{
    broadcast use {
        sound_shift_left,
        sound_open_minus,
        sound_right,
        sound_left_two,
        sound_close,
        sound_lefts,
    };

    lemma_sound_depth(from, bf.out, nest);
    reveal(Bf::backward_three);
}

pub broadcast proof fn sound_restore_chunk_id(bf: Bf, s: int, from: Seq<char>, nest: int)
    requires
        #[trigger] sound(from, bf.out, nest),
    ensures
        sound(from, (#[trigger] bf.restore_chunk_id(s)).out, nest),
{
    broadcast use {sound_shift_left, sound_step_10, sound_rights, sound_lefts};

    reveal(Bf::restore_chunk_id);
}

pub broadcast proof fn sound_emit_outer_walk_read_body(
    bf: Bf,
    chunk_size: int,
    from: Seq<char>,
    nest: int,
)
    requires
        #[trigger] sound(from, bf.out, nest),
    ensures
        sound(from, (#[trigger] bf.emit_outer_walk_read_body(chunk_size)).out, nest),
{
    broadcast use {
        sound_forward_three,
        sound_shift_right,
        sound_restore_chunk_id,
        sound_backward_three,
        sound_right,
        sound_left,
        sound_step_6,
        sound_step_12,
        sound_right_three,
        sound_step_9,
        sound_left_two,
        sound_step_11,
    };

    reveal(Bf::emit_outer_walk_read_body);
}

pub broadcast proof fn sound_emit_outer_walk_write_body(
    bf: Bf,
    chunk_size: int,
    from: Seq<char>,
    nest: int,
)
    requires
        #[trigger] sound(from, bf.out, nest),
    ensures
        sound(from, (#[trigger] bf.emit_outer_walk_write_body(chunk_size)).out, nest),
{
    broadcast use {
        sound_shift_right,
        sound_shift_left,
        sound_restore_chunk_id,
        sound_backward_three,
        sound_open_minus,
        sound_right,
        sound_close,
        sound_left,
        sound_step_5,
        sound_step_13,
        sound_step_14,
        sound_right_three,
        sound_step_4,
        sound_step_7,
        sound_rights,
        sound_lefts,
    };

    lemma_sound_depth(from, bf.out, nest);
    reveal(Bf::emit_outer_walk_write_body);
}

pub broadcast proof fn sound_emit_stage1_macro_walk_forward(
    bf: Bf,
    chunk_size: int,
    with_val: bool,
    from: Seq<char>,
    nest: int,
)
    requires
        #[trigger] sound(from, bf.out, nest),
    ensures
        sound(from, (#[trigger] bf.emit_stage1_macro_walk_forward(chunk_size, with_val)).out, nest),
{
    broadcast use {
        sound_shift_right,
        sound_open_minus,
        sound_right,
        sound_close,
        sound_rights,
        sound_lefts,
    };

    lemma_sound_depth(from, bf.out, nest);
    reveal(Bf::emit_stage1_macro_walk_forward);
}

pub broadcast proof fn sound_emit_stage1_to_stage2_transition(
    bf: Bf,
    chunk_size: int,
    from: Seq<char>,
    nest: int,
)
    requires
        #[trigger] sound(from, bf.out, nest),
    ensures
        sound(from, (#[trigger] bf.emit_stage1_to_stage2_transition(chunk_size)).out, nest),
{
    broadcast use {
        sound_shift_right,
        sound_shift_left,
        sound_right,
        sound_step_3,
        sound_step_13,
        sound_rights,
        sound_lefts,
    };

    reveal(Bf::emit_stage1_to_stage2_transition);
}

pub broadcast proof fn sound_emit_stage2_to_stage1_transition(
    bf: Bf,
    chunk_size: int,
    from: Seq<char>,
    nest: int,
)
    requires
        #[trigger] sound(from, bf.out, nest),
    ensures
        sound(from, (#[trigger] bf.emit_stage2_to_stage1_transition(chunk_size)).out, nest),
{
    broadcast use {sound_shift_left, sound_step_2, sound_rights, sound_lefts};

    reveal(Bf::emit_stage2_to_stage1_transition);
}

pub broadcast proof fn sound_emit_stage1_macro_walk_backward(
    bf: Bf,
    chunk_size: int,
    carry_value: bool,
    from: Seq<char>,
    nest: int,
)
    requires
        #[trigger] sound(from, bf.out, nest),
    ensures
        sound(from, (#[trigger] bf.emit_stage1_macro_walk_backward(chunk_size, carry_value)).out, nest),
{
    broadcast use {
        sound_shift_left,
        sound_open_minus,
        sound_right_two,
        sound_left_two,
        sound_close,
        sound_lefts,
    };

    lemma_sound_depth(from, bf.out, nest);
    reveal(Bf::emit_stage1_macro_walk_backward);
}

pub broadcast proof fn sound_index_is(bf: Bf, idx: int, i: int, from: Seq<char>, nest: int)
    requires
        #[trigger] sound(from, bf.out, nest),
    ensures
        sound(from, (#[trigger] bf.index_is(idx, i)).0.out, nest),
{
    broadcast use {sound_talloc, sound_copy, sound_dec, sound_setv, sound_unflag_if, sound_tfree};

    reveal(Bf::index_is);
}

pub broadcast proof fn sound_read_element(
    bf: Bf,
    idx: int,
    i: int,
    at: int,
    ew: int,
    result: int,
    from: Seq<char>,
    nest: int,
)
    requires
        #[trigger] sound(from, bf.out, nest),
    ensures
        sound(from, (#[trigger] bf.read_element(idx, i, at, ew, result)).out, nest),
{
    broadcast use {
        sound_index_is,
        sound_goto,
        sound_copy_n,
        sound_clear,
        sound_tfree,
        sound_open,
        sound_close,
    };

    lemma_sound_depth(from, bf.out, nest);
    reveal(Bf::read_element);
}

pub broadcast proof fn sound_write_element(
    bf: Bf,
    idx: int,
    i: int,
    at: int,
    ew: int,
    val: int,
    from: Seq<char>,
    nest: int,
)
    requires
        #[trigger] sound(from, bf.out, nest),
    ensures
        sound(from, (#[trigger] bf.write_element(idx, i, at, ew, val)).out, nest),
{
    broadcast use {
        sound_index_is,
        sound_goto,
        sound_store_n,
        sound_clear,
        sound_tfree,
        sound_open,
        sound_close,
    };

    lemma_sound_depth(from, bf.out, nest);
    reveal(Bf::write_element);
}

pub broadcast proof fn sound_store_n_rounds(
    bf: Bf,
    src: int,
    dst: int,
    n: int,
    i: int,
    from: Seq<char>,
    nest: int,
)
    requires
        #[trigger] sound(from, bf.out, nest),
    ensures
        sound(from, (#[trigger] bf.store_n_rounds(src, dst, n, i)).out, nest),
    decreases n - i,
{
    broadcast use {sound_clear, sound_copy};

    reveal(Bf::store_n_rounds);
    if !(i >= n) {
        let bf = bf.clear(dst + i);
        let bf = bf.copy(src + i, dst + i);
        sound_store_n_rounds(bf, src, dst, n, i + 1, from, nest);
    }
}

pub broadcast proof fn sound_store_n(
    bf: Bf,
    src: int,
    dst: int,
    n: int,
    from: Seq<char>,
    nest: int,
)
    requires
        #[trigger] sound(from, bf.out, nest),
    ensures
        sound(from, (#[trigger] bf.store_n(src, dst, n)).out, nest),
{
    broadcast use sound_store_n_rounds;

    reveal(Bf::store_n);
}

pub broadcast proof fn sound_counted_down(bf: Bf, ti: int, i: int, from: Seq<char>, nest: int)
    requires
        #[trigger] sound(from, bf.out, nest),
    ensures
        sound(from, (#[trigger] bf.counted_down(ti, i)).0.out, nest),
{
    broadcast use {sound_dec_n, sound_is_nz_n, sound_negate};

    reveal(Bf::counted_down);
}

pub broadcast proof fn sound_read_counted(
    bf: Bf,
    ti: int,
    i: int,
    at: int,
    ew: int,
    result: int,
    from: Seq<char>,
    nest: int,
)
    requires
        #[trigger] sound(from, bf.out, nest),
    ensures
        sound(from, (#[trigger] bf.read_counted(ti, i, at, ew, result)).out, nest),
{
    broadcast use {
        sound_counted_down,
        sound_goto,
        sound_copy_n,
        sound_clear,
        sound_tfree,
        sound_open,
        sound_close,
    };

    lemma_sound_depth(from, bf.out, nest);
    reveal(Bf::read_counted);
}

pub broadcast proof fn sound_write_counted(
    bf: Bf,
    ti: int,
    i: int,
    at: int,
    ew: int,
    val: int,
    from: Seq<char>,
    nest: int,
)
    requires
        #[trigger] sound(from, bf.out, nest),
    ensures
        sound(from, (#[trigger] bf.write_counted(ti, i, at, ew, val)).out, nest),
{
    broadcast use {
        sound_counted_down,
        sound_goto,
        sound_store_n,
        sound_clear,
        sound_tfree,
        sound_open,
        sound_close,
    };

    lemma_sound_depth(from, bf.out, nest);
    reveal(Bf::write_counted);
}

pub broadcast proof fn sound_truncated(
    bf: Bf,
    base: int,
    ew: int,
    w: int,
    from: Seq<char>,
    nest: int,
)
    requires
        #[trigger] sound(from, bf.out, nest),
    ensures
        sound(from, (#[trigger] bf.truncated(base, ew, w)).0.out, nest),
{
    broadcast use {sound_talloc_n, sound_bfmove_n, sound_clear_range, sound_tfree_n};

    reveal(Bf::truncated);
}

pub broadcast proof fn sound_resized(
    bf: Bf,
    base: int,
    ew: int,
    w: int,
    from: Seq<char>,
    nest: int,
)
    requires
        #[trigger] sound(from, bf.out, nest),
    ensures
        sound(from, (#[trigger] bf.resized(base, ew, w)).0.out, nest),
{
    broadcast use {sound_widen, sound_truncated};

    reveal(Bf::resized);
}

pub broadcast proof fn sound_low_byte(bf: Bf, base: int, w: int, from: Seq<char>, nest: int)
    requires
        #[trigger] sound(from, bf.out, nest),
    ensures
        sound(from, (#[trigger] bf.low_byte(base, w)).0.out, nest),
{
    broadcast use {sound_talloc, sound_bfmove, sound_tfree_n, sound_clear_range};

    reveal(Bf::low_byte);
}

pub broadcast proof fn sound_as_byte(bf: Bf, base: int, w: int, from: Seq<char>, nest: int)
    requires
        #[trigger] sound(from, bf.out, nest),
    ensures
        sound(from, (#[trigger] bf.as_byte(base, w)).0.out, nest),
{
    broadcast use sound_low_byte;

    reveal(Bf::as_byte);
}

pub broadcast proof fn sound_store_byte(bf: Bf, val: int, val_w: int, from: Seq<char>, nest: int)
    requires
        #[trigger] sound(from, bf.out, nest),
    ensures
        sound(from, (#[trigger] bf.store_byte(val, val_w)).0.out, nest),
{
    broadcast use {sound_talloc, sound_bfmove, sound_clear_range, sound_tfree_n};

    reveal(Bf::store_byte);
}

pub broadcast proof fn sound_read_chunks(
    bf: Bf,
    base: int,
    idx: int,
    chunk_size: int,
    result: int,
    from: Seq<char>,
    nest: int,
)
    requires
        #[trigger] sound(from, bf.out, nest),
    ensures
        sound(from, (#[trigger] bf.read_chunks(base, idx, chunk_size, result)).out, nest),
{
    broadcast use {
        sound_seed_outer_prefix,
        sound_tfree_n,
        sound_goto,
        sound_emit_outer_walk_read_body,
        sound_set_ptr,
        sound_extract_outer_walk_result,
    };

    reveal(Bf::read_chunks);
}

pub broadcast proof fn sound_read_groups(
    bf: Bf,
    base: int,
    idx: int,
    chunk_size: int,
    result: int,
    from: Seq<char>,
    nest: int,
)
    requires
        #[trigger] sound(from, bf.out, nest),
    ensures
        sound(from, (#[trigger] bf.read_groups(base, idx, chunk_size, result)).out, nest),
{
    broadcast use {
        sound_seed_outer_prefix_2stage,
        sound_tfree_n,
        sound_goto,
        sound_emit_stage1_macro_walk_forward,
        sound_emit_stage1_to_stage2_transition,
        sound_emit_outer_walk_read_body,
        sound_emit_stage2_to_stage1_transition,
        sound_emit_stage1_macro_walk_backward,
        sound_set_ptr,
        sound_extract_outer_walk_result,
    };

    reveal(Bf::read_groups);
}

pub broadcast proof fn sound_write_chunks(
    bf: Bf,
    base: int,
    idx: int,
    chunk_size: int,
    val: int,
    from: Seq<char>,
    nest: int,
)
    requires
        #[trigger] sound(from, bf.out, nest),
    ensures
        sound(from, (#[trigger] bf.write_chunks(base, idx, chunk_size, val)).out, nest),
{
    broadcast use {
        sound_seed_outer_prefix,
        sound_pour,
        sound_tfree_n,
        sound_tfree,
        sound_goto,
        sound_emit_outer_walk_write_body,
        sound_set_ptr,
        sound_clear,
    };

    reveal(Bf::write_chunks);
}

pub broadcast proof fn sound_write_groups(
    bf: Bf,
    base: int,
    idx: int,
    chunk_size: int,
    val: int,
    from: Seq<char>,
    nest: int,
)
    requires
        #[trigger] sound(from, bf.out, nest),
    ensures
        sound(from, (#[trigger] bf.write_groups(base, idx, chunk_size, val)).out, nest),
{
    broadcast use {
        sound_seed_outer_prefix_2stage,
        sound_pour,
        sound_tfree_n,
        sound_tfree,
        sound_goto,
        sound_emit_stage1_macro_walk_forward,
        sound_emit_stage1_to_stage2_transition,
        sound_emit_outer_walk_write_body,
        sound_emit_stage2_to_stage1_transition,
        sound_emit_stage1_macro_walk_backward,
        sound_set_ptr,
    };

    reveal(Bf::write_groups);
}

pub broadcast proof fn sound_read_all(
    bf: Bf,
    idx: int,
    at: int,
    i: int,
    n: int,
    ew: int,
    result: int,
    from: Seq<char>,
    nest: int,
)
    requires
        #[trigger] sound(from, bf.out, nest),
    ensures
        sound(from, (#[trigger] bf.read_all(idx, at, i, n, ew, result)).out, nest),
    decreases n - i,
{
    broadcast use sound_read_element;

    reveal(Bf::read_all);
    if !(i >= n) {
        sound_read_all(
            bf.read_element(idx, i, at, ew, result),
            idx,
            at + ew,
            i + 1,
            n,
            ew,
            result,
            from,
            nest,
        );
    }
}

pub broadcast proof fn sound_read_all_counted(
    bf: Bf,
    ti: int,
    at: int,
    i: int,
    n: int,
    ew: int,
    result: int,
    from: Seq<char>,
    nest: int,
)
    requires
        #[trigger] sound(from, bf.out, nest),
    ensures
        sound(from, (#[trigger] bf.read_all_counted(ti, at, i, n, ew, result)).out, nest),
    decreases n - i,
{
    broadcast use sound_read_counted;

    reveal(Bf::read_all_counted);
    if !(i >= n) {
        sound_read_all_counted(
            bf.read_counted(ti, i, at, ew, result),
            ti,
            at + ew,
            i + 1,
            n,
            ew,
            result,
            from,
            nest,
        );
    }
}

pub broadcast proof fn sound_write_all(
    bf: Bf,
    idx: int,
    at: int,
    i: int,
    n: int,
    ew: int,
    val: int,
    from: Seq<char>,
    nest: int,
)
    requires
        #[trigger] sound(from, bf.out, nest),
    ensures
        sound(from, (#[trigger] bf.write_all(idx, at, i, n, ew, val)).out, nest),
    decreases n - i,
{
    broadcast use sound_write_element;

    reveal(Bf::write_all);
    if !(i >= n) {
        sound_write_all(
            bf.write_element(idx, i, at, ew, val),
            idx,
            at + ew,
            i + 1,
            n,
            ew,
            val,
            from,
            nest,
        );
    }
}

pub broadcast proof fn sound_write_all_counted(
    bf: Bf,
    ti: int,
    at: int,
    i: int,
    n: int,
    ew: int,
    val: int,
    from: Seq<char>,
    nest: int,
)
    requires
        #[trigger] sound(from, bf.out, nest),
    ensures
        sound(from, (#[trigger] bf.write_all_counted(ti, at, i, n, ew, val)).out, nest),
    decreases n - i,
{
    broadcast use sound_write_counted;

    reveal(Bf::write_all_counted);
    if !(i >= n) {
        sound_write_all_counted(
            bf.write_counted(ti, i, at, ew, val),
            ti,
            at + ew,
            i + 1,
            n,
            ew,
            val,
            from,
            nest,
        );
    }
}

} // verus!
