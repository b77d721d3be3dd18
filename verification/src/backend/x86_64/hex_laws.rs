//! What the hex listing shows.

use vstd::prelude::*;

use crate::backend::asm_ir::AsmInst;
use crate::backend::x86_64::debug::{
    hex_continuation, hex_field, hex_lines, hex_lines_of, inst_text, BYTES_PER_LINE,
};
use crate::backend::x86_64::encode::{encodes, inst_head, inst_len, lemma_offset_monotone, offset_of};
use crate::text::{digit_char, hex, left_aligned, repeat, zero_padded};

verus! {

/// A line of the hex listing: what stands in front of the bytes, the bytes, and
/// what stands behind them.
pub struct HexRow {
    /// The offset, or blanks.
    pub head: Seq<char>,
    /// The bytes of the Hex column.
    pub bytes: Seq<u8>,
    /// The rest of the line.
    pub tail: Seq<char>,
}

/// A line as it is written.
pub open spec fn row_text(row: HexRow) -> Seq<char> {
    row.head + hex_field(row.bytes) + row.tail
}

/// Lines as they are written.
pub open spec fn rows_text(rows: Seq<HexRow>) -> Seq<char>
    decreases rows.len(),
{
    if rows.len() == 0 {
        Seq::empty()
    } else {
        rows_text(rows.drop_last()) + row_text(rows.last())
    }
}

/// The Hex column of lines, read from top to bottom.
pub open spec fn rows_bytes(rows: Seq<HexRow>) -> Seq<u8>
    decreases rows.len(),
{
    if rows.len() == 0 {
        Seq::empty()
    } else {
        rows_bytes(rows.drop_last()) + rows.last().bytes
    }
}

/// The continuation lines for the bytes from `from` on.
pub open spec fn continuation_rows(bytes: Seq<u8>, from: int) -> Seq<HexRow>
    decreases bytes.len() - from,
{
    if from < 0 || from >= bytes.len() {
        Seq::empty()
    } else {
        let to = if from + BYTES_PER_LINE < bytes.len() {
            from + BYTES_PER_LINE
        } else {
            bytes.len() as int
        };
        seq![
            HexRow { head: "         "@, bytes: bytes.subrange(from, to), tail: seq!['\n'] },
        ] + continuation_rows(bytes, to)
    }
}

/// What a first line starts with: the offset in at least four digits, and a
/// colon.
pub open spec fn offset_head(offset: nat) -> Seq<char> {
    "0x"@ + zero_padded(hex(offset), 4) + ":  "@
}

/// The lines of one instruction: a label's holds no bytes, and the first one of
/// another instruction that has bytes starts with its offset.
pub open spec fn rows_of(inst: AsmInst, offset: nat, bytes: Seq<u8>) -> Seq<HexRow> {
    if inst is Label {
        seq![
            HexRow {
                head: "         "@,
                bytes: Seq::empty(),
                tail: repeat(' ', 44) + seq![' '] + inst_text(inst) + seq!['\n'],
            },
        ]
    } else if bytes.len() == 0 {
        Seq::empty()
    } else {
        let first = if bytes.len() < BYTES_PER_LINE {
            bytes.len() as int
        } else {
            BYTES_PER_LINE as int
        };
        let field = hex_field(bytes.take(first));
        seq![
            HexRow {
                head: offset_head(offset),
                bytes: bytes.take(first),
                tail: left_aligned(field, 44).skip(field.len() as int) + seq![' '] + inst_text(inst)
                    + seq!['\n'],
            },
        ] + continuation_rows(bytes, first)
    }
}

/// The lines of the first `n` instructions of a program.
pub open spec fn hex_rows(insts: Seq<AsmInst>, text: Seq<u8>, n: int) -> Seq<HexRow>
    decreases n,
{
    if n <= 0 {
        Seq::empty()
    } else {
        hex_rows(insts, text, n - 1) + rows_of(
            insts[n - 1],
            offset_of(insts, n - 1),
            text.subrange(offset_of(insts, n - 1) as int, offset_of(insts, n) as int),
        )
    }
}

proof fn lemma_rows_add(a: Seq<HexRow>, b: Seq<HexRow>)
    ensures
        rows_text(a + b) == rows_text(a) + rows_text(b),
        rows_bytes(a + b) == rows_bytes(a) + rows_bytes(b),
    decreases b.len(),
{
    if b.len() == 0 {
        assert(a + b =~= a);
        assert(rows_text(a) + rows_text(b) =~= rows_text(a));
        assert(rows_bytes(a) + rows_bytes(b) =~= rows_bytes(a));
    } else {
        assert((a + b).drop_last() =~= a + b.drop_last());
        lemma_rows_add(a, b.drop_last());
        assert(rows_text(a + b) =~= rows_text(a) + rows_text(b));
        assert(rows_bytes(a + b) =~= rows_bytes(a) + rows_bytes(b));
    }
}

proof fn lemma_one_row(row: HexRow)
    ensures
        rows_text(seq![row]) == row_text(row),
        rows_bytes(seq![row]) == row.bytes,
{
    reveal_with_fuel(rows_text, 2);
    reveal_with_fuel(rows_bytes, 2);
    assert(seq![row].drop_last() =~= Seq::<HexRow>::empty());
    assert(rows_text(seq![row]) =~= row_text(row));
    assert(rows_bytes(seq![row]) =~= row.bytes);
}

proof fn lemma_continuation_rows(bytes: Seq<u8>, from: int)
    requires
        0 <= from <= bytes.len(),
    ensures
        rows_text(continuation_rows(bytes, from)) == hex_continuation(bytes, from),
        rows_bytes(continuation_rows(bytes, from)) == bytes.skip(from),
    decreases bytes.len() - from,
{
    if from < bytes.len() {
        let to = if from + BYTES_PER_LINE < bytes.len() {
            from + BYTES_PER_LINE
        } else {
            bytes.len() as int
        };
        let row = HexRow {
            head: "         "@,
            bytes: bytes.subrange(from, to),
            tail: seq!['\n'],
        };
        lemma_continuation_rows(bytes, to);
        lemma_rows_add(seq![row], continuation_rows(bytes, to));
        lemma_one_row(row);
        assert(bytes.subrange(from, to) + bytes.skip(to) =~= bytes.skip(from));
    } else {
        assert(bytes.skip(from) =~= Seq::<u8>::empty());
    }
}

proof fn lemma_rows_of(inst: AsmInst, offset: nat, bytes: Seq<u8>)
    requires
        inst is Label ==> bytes.len() == 0,
    ensures
        rows_text(rows_of(inst, offset, bytes)) == hex_lines_of(inst, offset, bytes),
        rows_bytes(rows_of(inst, offset, bytes)) == bytes,
{
    let rows = rows_of(inst, offset, bytes);
    if inst is Label {
        lemma_one_row(rows[0]);
        assert(rows =~= seq![rows[0]]);
        assert(bytes =~= Seq::<u8>::empty());
        assert(row_text(rows[0]) =~= hex_lines_of(inst, offset, bytes));
    } else if bytes.len() == 0 {
        assert(bytes =~= Seq::<u8>::empty());
    } else {
        let first = if bytes.len() < BYTES_PER_LINE {
            bytes.len() as int
        } else {
            BYTES_PER_LINE as int
        };
        let row = rows[0];
        let field = hex_field(bytes.take(first));
        lemma_continuation_rows(bytes, first);
        lemma_rows_add(seq![row], continuation_rows(bytes, first));
        lemma_one_row(row);
        assert(rows =~= seq![row] + continuation_rows(bytes, first));
        assert(field + left_aligned(field, 44).skip(field.len() as int) =~= left_aligned(field, 44));
        assert(rows_text(rows) =~= hex_lines_of(inst, offset, bytes));
        assert(bytes.take(first) + bytes.skip(first) =~= bytes);
    }
}

/// A label takes no bytes.
proof fn lemma_labels_are_empty(inst: AsmInst, offset: nat)
    ensures
        inst is Label ==> inst_len(inst, offset) == 0,
{
    reveal(inst_head);
}

proof fn lemma_hex_rows(insts: Seq<AsmInst>, text: Seq<u8>, n: int)
    requires
        0 <= n <= insts.len(),
        offset_of(insts, insts.len() as int) <= text.len(),
    ensures
        offset_of(insts, n) <= text.len(),
        rows_text(hex_rows(insts, text, n)) == hex_lines(insts, text, n),
        rows_bytes(hex_rows(insts, text, n)) == text.take(offset_of(insts, n) as int),
    decreases n,
{
    lemma_offset_monotone(insts, n, insts.len() as int);
    if n > 0 {
        lemma_hex_rows(insts, text, n - 1);
        let lo = offset_of(insts, n - 1) as int;
        let hi = offset_of(insts, n) as int;
        assert(lo <= hi);
        lemma_labels_are_empty(insts[n - 1], lo as nat);
        lemma_rows_of(insts[n - 1], lo as nat, text.subrange(lo, hi));
        lemma_rows_add(
            hex_rows(insts, text, n - 1),
            rows_of(insts[n - 1], lo as nat, text.subrange(lo, hi)),
        );
        assert(text.take(lo) + text.subrange(lo, hi) =~= text.take(hi));
    } else {
        assert(text.take(0) =~= Seq::<u8>::empty());
    }
}

/// The Hex column of the listing, read from top to bottom, is the machine code,
/// and the first line of each instruction that has bytes starts with its offset.
pub proof fn law_hex_column_is_the_machine_code(insts: Seq<AsmInst>, text: Seq<u8>)
    requires
        encodes(insts, text),
    ensures
        hex_lines(insts, text, insts.len() as int) == rows_text(
            hex_rows(insts, text, insts.len() as int),
        ),
        rows_bytes(hex_rows(insts, text, insts.len() as int)) == text,
        forall|i: int|
            #![trigger insts[i]]
            0 <= i < insts.len() && offset_of(insts, i) < offset_of(insts, i + 1) ==> {
                let rows = rows_of(
                    insts[i],
                    offset_of(insts, i),
                    text.subrange(offset_of(insts, i) as int, offset_of(insts, i + 1) as int),
                );
                rows.len() > 0 && rows[0].head == offset_head(offset_of(insts, i))
            },
{
    lemma_hex_rows(insts, text, insts.len() as int);
    assert(text.take(text.len() as int) =~= text);
    assert forall|i: int|
        #![trigger insts[i]]
        0 <= i < insts.len() && offset_of(insts, i) < offset_of(insts, i + 1) implies {
        let rows = rows_of(
            insts[i],
            offset_of(insts, i),
            text.subrange(offset_of(insts, i) as int, offset_of(insts, i + 1) as int),
        );
        rows.len() > 0 && rows[0].head == offset_head(offset_of(insts, i))
    } by {
        lemma_offset_monotone(insts, i + 1, insts.len() as int);
        lemma_labels_are_empty(insts[i], offset_of(insts, i));
        assert(offset_of(insts, i + 1) == offset_of(insts, i) + inst_len(
            insts[i],
            offset_of(insts, i),
        ));
    }
}

/// The value of a digit.
pub open spec fn digit_value(c: char) -> int {
    if '0' <= c <= '9' {
        c as int - '0' as int
    } else {
        c as int - 'a' as int + 10
    }
}

/// The bytes that a field of two-digit numbers with blanks between them shows.
pub open spec fn field_bytes(field: Seq<char>) -> Seq<int> {
    Seq::new(
        (field.len() + 1) as nat / 3,
        |i: int| 16 * digit_value(field[3 * i]) + digit_value(field[3 * i + 1]),
    )
}

proof fn lemma_hex_field(bytes: Seq<u8>)
    requires
        bytes.len() > 0,
    ensures
        hex_field(bytes).len() == 3 * bytes.len() - 1,
        forall|i: int|
            #![trigger bytes[i]]
            0 <= i < bytes.len() ==> hex_field(bytes)[3 * i] == digit_char((bytes[i] / 16) as int)
                && hex_field(bytes)[3 * i + 1] == digit_char((bytes[i] % 16) as int),
    decreases bytes.len(),
{
    if bytes.len() > 1 {
        let front = bytes.drop_last();
        lemma_hex_field(front);
        assert forall|i: int| #![trigger bytes[i]] 0 <= i < bytes.len() implies hex_field(bytes)[3
            * i] == digit_char((bytes[i] / 16) as int) && hex_field(bytes)[3 * i + 1] == digit_char(
            (bytes[i] % 16) as int,
        ) by {
            if i < front.len() {
                assert(front[i] == bytes[i]);
            }
        }
    }
}

/// The bytes of a line can be read back from its field.
pub proof fn law_hex_fields_show_their_bytes(bytes: Seq<u8>)
    ensures
        field_bytes(hex_field(bytes)) =~= bytes.map_values(|b: u8| b as int),
{
    if bytes.len() > 0 {
        lemma_hex_field(bytes);
        let shown = field_bytes(hex_field(bytes));
        assert forall|i: int| 0 <= i < bytes.len() implies #[trigger] shown[i] == bytes[i] as int by {
            let b = bytes[i];
            assert(digit_value(digit_char((b / 16) as int)) == b / 16);
            assert(digit_value(digit_char((b % 16) as int)) == b % 16);
        }
    }
}

} // verus!
