//! Every cell of a column is rendered equally wide, so the pipes of a
//! formatted table stand below each other.

use crate::model::{
    blank_row, lemma_column_width_is_max, render_cell, render_row, TableView,
};
use crate::text::{repeat, text_width};
use vstd::prelude::*;
use vstd::utf8::{encode_utf8, is_ascii_chars, is_ascii_chars_encode_utf8};

verus! {

/// A character whose UTF-8 encoding is one byte.
pub open spec fn is_ascii_char(c: char) -> bool {
    '\0' <= c <= '\u{7f}'
}

/// The width of a rendered row whose columns have the given widths: one
/// for the first pipe, and for each column its width, two for the fill on
/// both sides, and one for the pipe.
pub open spec fn row_width(widths: Seq<nat>) -> nat
    decreases widths.len(),
{
    if widths.len() == 0 {
        1
    } else {
        row_width(widths.drop_last()) + widths.last() + 3
    }
}

/// The width of two texts put together is the sum of their widths.
pub proof fn lemma_text_width_concat(a: Seq<char>, b: Seq<char>)
    ensures
        text_width(a + b) == text_width(a) + text_width(b),
    decreases a.len(),
{
    if a.len() == 0 {
        assert(a + b =~= b);
    } else {
        lemma_text_width_concat(a.drop_first(), b);
        assert((a + b).drop_first() =~= a.drop_first() + b);
        assert(encode_utf8(a + b) =~= vstd::utf8::encode_scalar(a[0] as u32) + encode_utf8(
            a.drop_first() + b,
        ));
    }
}

/// An ASCII character repeated `n` times is `n` wide.
pub proof fn lemma_text_width_repeat(c: char, n: nat)
    requires
        is_ascii_char(c),
    ensures
        text_width(repeat(c, n)) == n,
{
    assert(is_ascii_chars(repeat(c, n)));
    is_ascii_chars_encode_utf8(repeat(c, n));
}

/// A cell rendered in a column that is wide enough for it, with an ASCII
/// fill character, is as wide as the column and two more.
pub proof fn lemma_render_cell_width(cell: Seq<char>, width: nat, fill: char)
    requires
        text_width(cell) <= width,
        is_ascii_char(fill),
    ensures
        text_width(render_cell(cell, width, fill)) == width + 2,
{
    let padding = repeat(fill, (width - text_width(cell) + 1) as nat);
    assert(seq![fill] =~= repeat(fill, 1));
    lemma_text_width_repeat(fill, 1);
    lemma_text_width_repeat(fill, (width - text_width(cell) + 1) as nat);
    lemma_text_width_concat(seq![fill], cell);
    lemma_text_width_concat(seq![fill] + cell, padding);
}

/// In a formatted table, the header of a column, its dashes in the
/// separator row and each of its cells are rendered equally wide: as wide as
/// the widest among the header and the cells, and two more.
pub proof fn lemma_column_rendered_evenly(table: TableView, col: int)
    requires
        table.wf(),
        0 <= col < table.headers.len(),
    ensures
        text_width(render_cell(table.headers[col], table.column_width(col), ' '))
            == table.column_width(col) + 2,
        text_width(render_cell(Seq::empty(), table.column_width(col), '-')) == table.column_width(
            col,
        ) + 2,
        forall|r: int|
            0 <= r < table.rows.len() ==> text_width(
                render_cell(#[trigger] table.rows[r][col], table.column_width(col), ' '),
            ) == table.column_width(col) + 2,
{
    let width = table.column_width(col);
    lemma_column_width_is_max(table, col);
    lemma_render_cell_width(table.headers[col], width, ' ');
    assert(text_width(Seq::<char>::empty()) == 0);
    lemma_render_cell_width(Seq::empty(), width, '-');
    assert forall|r: int| 0 <= r < table.rows.len() implies text_width(
        render_cell(#[trigger] table.rows[r][col], width, ' '),
    ) == width + 2 by {
        lemma_render_cell_width(table.rows[r][col], width, ' ');
    }
}

/// A row rendered in columns that are wide enough for its cells, with an
/// ASCII fill character, is as wide as the widths of its columns say.
pub proof fn lemma_render_row_width(cells: Seq<Seq<char>>, widths: Seq<nat>, fill: char)
    requires
        cells.len() <= widths.len(),
        forall|i: int| 0 <= i < cells.len() ==> text_width(#[trigger] cells[i]) <= widths[i],
        is_ascii_char(fill),
    ensures
        text_width(render_row(cells, widths, fill)) == row_width(widths.take(cells.len() as int)),
    decreases cells.len(),
{
    assert(seq!['|'] =~= repeat('|', 1));
    lemma_text_width_repeat('|', 1);
    if cells.len() > 0 {
        let shorter = cells.drop_last();
        let last = cells.len() - 1;
        assert forall|i: int| 0 <= i < shorter.len() implies text_width(#[trigger] shorter[i])
            <= widths[i] by {
            assert(shorter[i] == cells[i]);
        }
        lemma_render_row_width(shorter, widths, fill);
        assert(text_width(cells[last]) <= widths[last]);
        lemma_render_cell_width(cells.last(), widths[last], fill);
        let front = render_row(shorter, widths, fill);
        let segment = render_cell(cells.last(), widths[last], fill);
        lemma_text_width_concat(front, segment);
        lemma_text_width_concat(front + segment, seq!['|']);
        assert(widths.take(cells.len() as int).drop_last() =~= widths.take(shorter.len() as int));
    }
}

/// Every line of a formatted table is equally wide: the header row, the
/// separator row and each data row.
pub proof fn lemma_lines_equally_wide(table: TableView)
    requires
        table.wf(),
    ensures
        text_width(render_row(table.headers, table.column_widths(), ' ')) == row_width(
            table.column_widths(),
        ),
        text_width(render_row(blank_row(table.headers.len()), table.column_widths(), '-'))
            == row_width(table.column_widths()),
        forall|r: int|
            0 <= r < table.rows.len() ==> text_width(
                render_row(#[trigger] table.rows[r], table.column_widths(), ' '),
            ) == row_width(table.column_widths()),
{
    let widths = table.column_widths();
    let blank = blank_row(table.headers.len());
    assert(widths.take(widths.len() as int) =~= widths);
    assert(text_width(Seq::<char>::empty()) == 0);
    assert forall|i: int| 0 <= i < table.headers.len() implies text_width(
        #[trigger] table.headers[i],
    ) <= widths[i] by {
        lemma_column_width_is_max(table, i);
    }
    lemma_render_row_width(table.headers, widths, ' ');
    lemma_render_row_width(blank, widths, '-');
    assert forall|r: int| 0 <= r < table.rows.len() implies text_width(
        render_row(#[trigger] table.rows[r], widths, ' '),
    ) == row_width(widths) by {
        let row = table.rows[r];
        assert forall|i: int| 0 <= i < row.len() implies text_width(#[trigger] row[i])
            <= widths[i] by {
            lemma_column_width_is_max(table, i);
        }
        lemma_render_row_width(row, widths, ' ');
    }
}

} // verus!
