//! Parsing the text that a table was formatted to gives the table back.

use crate::fragment::{
    all_free_of, join, lemma_split_free_of_separator, lemma_split_join, lemma_split_keeps_free,
    split,
};
use crate::model::{
    blank_row, data_lines, fragments, lines_of, parse_line, parse_lines, plain_cell, plain_row,
    render_cell, render_row, render_rows, trim_cells, TableError, TableView,
};
use crate::text::{
    free_of, lemma_trim_idempotent, lemma_trim_keeps_free, lemma_trim_padded, lemma_trim_range,
    repeat, text_width, trim,
};
use vstd::prelude::*;

verus! {

/// The cells of a row as they are rendered, without the pipes.
spec fn segments(cells: Seq<Seq<char>>, widths: Seq<nat>, fill: char) -> Seq<Seq<char>> {
    Seq::new(cells.len(), |i: int| render_cell(cells[i], widths[i], fill))
}

/// The fragments of a rendered row: an empty one, the segments, and an
/// empty one again.
spec fn framed(cells: Seq<Seq<char>>, widths: Seq<nat>, fill: char) -> Seq<Seq<char>> {
    seq![Seq::<char>::empty()] + segments(cells, widths, fill) + seq![Seq::<char>::empty()]
}

/// The data rows as they are rendered, one line each.
spec fn rendered(rows: Seq<Seq<Seq<char>>>, widths: Seq<nat>) -> Seq<Seq<char>> {
    Seq::new(rows.len(), |r: int| render_row(rows[r], widths, ' '))
}

/// The lines of a formatted table.
spec fn rendered_lines(table: TableView) -> Seq<Seq<char>> {
    let widths = table.column_widths();
    seq![
        render_row(table.headers, widths, ' '),
        render_row(blank_row(table.headers.len()), widths, '-'),
    ] + rendered(table.rows, widths)
}

/// A text that starts and ends with a pipe.
spec fn between_pipes(s: Seq<char>) -> bool {
    s.len() >= 1 && s.first() == '|' && s.last() == '|'
}

/// A rendered row is its framed segments joined with pipes.
proof fn lemma_render_row_joins(cells: Seq<Seq<char>>, widths: Seq<nat>, fill: char)
    ensures
        render_row(cells, widths, fill) == join(
            seq![Seq::<char>::empty()] + segments(cells, widths, fill),
            '|',
        ) + seq!['|'],
        render_row(cells, widths, fill) == join(framed(cells, widths, fill), '|'),
    decreases cells.len(),
{
    let open = seq![Seq::<char>::empty()] + segments(cells, widths, fill);
    let all = framed(cells, widths, fill);
    if cells.len() == 0 {
        assert(open =~= seq![Seq::<char>::empty()]);
        assert(join(open, '|') + seq!['|'] =~= seq!['|']);
    } else {
        let shorter = cells.drop_last();
        lemma_render_row_joins(shorter, widths, fill);
        assert(open.drop_last() =~= seq![Seq::<char>::empty()] + segments(shorter, widths, fill));
        assert(open.last() == render_cell(cells.last(), widths[cells.len() - 1], fill));
        assert(render_row(cells, widths, fill) =~= join(open, '|') + seq!['|']);
    }
    assert(all.drop_last() =~= open);
    assert(all.last() == Seq::<char>::empty());
    assert(join(all, '|') =~= join(open, '|') + seq!['|']);
}

/// A rendered cell holds no character that neither the cell nor the fill
/// holds.
proof fn lemma_render_cell_free(cell: Seq<char>, width: nat, fill: char, c: char)
    requires
        free_of(cell, c),
        fill != c,
    ensures
        free_of(render_cell(cell, width, fill), c),
{
}

/// A rendered row starts and ends with a pipe.
proof fn lemma_render_row_between_pipes(cells: Seq<Seq<char>>, widths: Seq<nat>, fill: char)
    ensures
        between_pipes(render_row(cells, widths, fill)),
    decreases cells.len(),
{
    if cells.len() > 0 {
        lemma_render_row_between_pipes(cells.drop_last(), widths, fill);
    }
}

/// A rendered row holds no newline where its cells and its fill hold none.
proof fn lemma_render_row_one_line(cells: Seq<Seq<char>>, widths: Seq<nat>, fill: char)
    requires
        plain_row(cells),
        fill != '\n',
    ensures
        free_of(render_row(cells, widths, fill), '\n'),
    decreases cells.len(),
{
    if cells.len() > 0 {
        let shorter = cells.drop_last();
        assert forall|i: int| 0 <= i < shorter.len() implies plain_cell(#[trigger] shorter[i]) by {
            assert(shorter[i] == cells[i]);
        }
        lemma_render_row_one_line(shorter, widths, fill);
        assert(plain_cell(cells.last()));
        lemma_render_cell_free(cells.last(), widths[cells.len() - 1], fill, '\n');
    }
}

/// Parsing a rendered row gives its cells back, trimmed.
proof fn lemma_parse_rendered_row(cells: Seq<Seq<char>>, widths: Seq<nat>)
    requires
        plain_row(cells),
    ensures
        parse_line(render_row(cells, widths, ' ')) == Ok::<Seq<Seq<char>>, TableError>(
            trim_cells(cells),
        ),
{
    let all = framed(cells, widths, ' ');
    let line = render_row(cells, widths, ' ');
    lemma_render_row_joins(cells, widths, ' ');
    assert forall|i: int| 0 <= i < all.len() implies free_of(#[trigger] all[i], '|') by {
        if 1 <= i <= cells.len() {
            assert(plain_cell(cells[i - 1]));
            lemma_render_cell_free(cells[i - 1], widths[i - 1], ' ', '|');
        }
    }
    lemma_split_join(all, '|');
    let parts = fragments(line);
    assert(parts.len() == cells.len() + 2);
    assert(trim(Seq::<char>::empty()) =~= Seq::<char>::empty());
    assert(parts.first() == trim(all[0]));
    assert(parts.last() == trim(all[all.len() - 1]));
    assert forall|i: int| 0 <= i < cells.len() implies parts[i + 1] == trim(cells[i]) by {
        let pad = repeat(' ', (widths[i] - text_width(cells[i]) + 1) as nat);
        assert(all[i + 1] == seq![' '] + cells[i] + pad);
        lemma_trim_padded(seq![' '], cells[i], pad);
    }
    assert(parts.subrange(1, parts.len() - 1) =~= trim_cells(cells));
}

/// Parsing rendered rows gives the rows back, every cell trimmed.
proof fn lemma_parse_rendered_rows(rows: Seq<Seq<Seq<char>>>, widths: Seq<nat>)
    requires
        forall|r: int| 0 <= r < rows.len() ==> plain_row(#[trigger] rows[r]),
    ensures
        parse_lines(rendered(rows, widths)) == Ok::<Seq<Seq<Seq<char>>>, TableError>(
            rows.map_values(|row: Seq<Seq<char>>| trim_cells(row)),
        ),
    decreases rows.len(),
{
    let lines = rendered(rows, widths);
    let cells = rows.map_values(|row: Seq<Seq<char>>| trim_cells(row));
    if rows.len() == 0 {
        assert(cells =~= Seq::<Seq<Seq<char>>>::empty());
    } else {
        let shorter = rows.drop_last();
        assert forall|r: int| 0 <= r < shorter.len() implies plain_row(#[trigger] shorter[r]) by {
            assert(shorter[r] == rows[r]);
        }
        lemma_parse_rendered_rows(shorter, widths);
        assert(lines.drop_last() =~= rendered(shorter, widths));
        assert(plain_row(rows.last()));
        lemma_parse_rendered_row(rows.last(), widths);
        assert(shorter.map_values(|row: Seq<Seq<char>>| trim_cells(row)).push(
            trim_cells(rows.last()),
        ) =~= cells);
    }
}

/// The rendered data rows after some lines: together, the text is all
/// those lines joined with newlines, and a newline at the end.
proof fn lemma_render_rows_join(head: Seq<Seq<char>>, rows: Seq<Seq<Seq<char>>>, widths: Seq<nat>)
    requires
        head.len() >= 1,
    ensures
        join(head, '\n') + seq!['\n'] + render_rows(rows, widths) == join(
            head + rendered(rows, widths),
            '\n',
        ) + seq!['\n'],
    decreases rows.len(),
{
    let lines = head + rendered(rows, widths);
    if rows.len() == 0 {
        assert(lines =~= head);
        assert(join(head, '\n') + seq!['\n'] + render_rows(rows, widths) =~= join(head, '\n')
            + seq!['\n']);
    } else {
        let shorter = rows.drop_last();
        lemma_render_rows_join(head, shorter, widths);
        assert(lines.drop_last() =~= head + rendered(shorter, widths));
        assert(lines.last() == render_row(rows.last(), widths, ' '));
        assert(join(head, '\n') + seq!['\n'] + render_rows(rows, widths) =~= (join(head, '\n')
            + seq!['\n'] + render_rows(shorter, widths)) + render_row(rows.last(), widths, ' ')
            + seq!['\n']);
        assert(join(lines, '\n') + seq!['\n'] =~= (join(lines.drop_last(), '\n') + seq!['\n'])
            + render_row(rows.last(), widths, ' ') + seq!['\n']);
    }
}

/// Lines that each start and end with a pipe, joined with newlines, make a
/// text that starts and ends with a pipe.
proof fn lemma_join_between_pipes(lines: Seq<Seq<char>>)
    requires
        lines.len() >= 1,
        forall|i: int| 0 <= i < lines.len() ==> between_pipes(#[trigger] lines[i]),
    ensures
        between_pipes(join(lines, '\n')),
    decreases lines.len(),
{
    if lines.len() > 1 {
        let front = lines.drop_last();
        assert forall|i: int| 0 <= i < front.len() implies between_pipes(#[trigger] front[i]) by {
            assert(front[i] == lines[i]);
        }
        lemma_join_between_pipes(front);
        assert(between_pipes(lines.last()));
    }
}

/// The lines of a formatted table are the rendered header row, the
/// separator row and the rendered data rows.
proof fn lemma_lines_of_format(table: TableView)
    requires
        table.plain(),
    ensures
        lines_of(table.format()) == rendered_lines(table),
{
    let widths = table.column_widths();
    let header = render_row(table.headers, widths, ' ');
    let separator = render_row(blank_row(table.headers.len()), widths, '-');
    let head = seq![header, separator];
    let lines = rendered_lines(table);
    let text = join(lines, '\n');
    assert(join(head, '\n') =~= header + seq!['\n'] + separator) by {
        assert(head.drop_last() =~= seq![header]);
        assert(join(head.drop_last(), '\n') == header);
    }
    lemma_render_rows_join(head, table.rows, widths);
    assert(table.format() =~= join(head, '\n') + seq!['\n'] + render_rows(table.rows, widths));
    assert(table.format() == text + seq!['\n']);
    assert(plain_row(blank_row(table.headers.len())));
    assert forall|i: int| 0 <= i < lines.len() implies between_pipes(#[trigger] lines[i])
        && free_of(lines[i], '\n') by {
        if i == 0 {
            lemma_render_row_between_pipes(table.headers, widths, ' ');
            lemma_render_row_one_line(table.headers, widths, ' ');
        } else if i == 1 {
            lemma_render_row_between_pipes(blank_row(table.headers.len()), widths, '-');
            lemma_render_row_one_line(blank_row(table.headers.len()), widths, '-');
        } else {
            assert(plain_row(table.rows[i - 2]));
            lemma_render_row_between_pipes(table.rows[i - 2], widths, ' ');
            lemma_render_row_one_line(table.rows[i - 2], widths, ' ');
        }
    }
    lemma_join_between_pipes(lines);
    let whole = text + seq!['\n'];
    lemma_trim_range(whole, 0, text.len() as int);
    assert(whole.subrange(0, text.len() as int) =~= text);
    lemma_split_join(lines, '\n');
}

/// Formatting a table and parsing the text gives the table back, but for
/// the whitespace around its cells: where no cell holds a pipe or a newline,
/// the text of a table parses to the table with every cell trimmed.
pub proof fn lemma_format_then_parse(table: TableView)
    requires
        table.wf(),
        table.plain(),
    ensures
        TableView::parse(table.format()) == Ok::<TableView, TableError>(table.trimmed()),
{
    let widths = table.column_widths();
    let lines = rendered_lines(table);
    lemma_lines_of_format(table);
    lemma_parse_rendered_row(table.headers, widths);
    lemma_parse_rendered_rows(table.rows, widths);
    assert(data_lines(lines) =~= rendered(table.rows, widths));
    let headers = trim_cells(table.headers);
    let rows = table.rows.map_values(|row: Seq<Seq<char>>| trim_cells(row));
    assert forall|r: int| 0 <= r < rows.len() implies (#[trigger] rows[r]).len()
        == headers.len() by {
        assert(table.rows[r].len() == table.headers.len());
    }
}

/// The cells of a parsed line are trimmed and hold no pipe, and no newline
/// where the line holds none.
proof fn lemma_parsed_line_canonical(line: Seq<char>, cells: Seq<Seq<char>>)
    requires
        free_of(line, '\n'),
        parse_line(line) == Ok::<Seq<Seq<char>>, TableError>(cells),
    ensures
        plain_row(cells),
        trim_cells(cells) == cells,
{
    let raw_parts = split(line, '|');
    let parts = fragments(line);
    lemma_split_free_of_separator(line, '|');
    lemma_split_keeps_free(line, '|', '\n');
    assert forall|i: int| 0 <= i < cells.len() implies plain_cell(#[trigger] cells[i]) && trim(
        cells[i],
    ) == cells[i] by {
        assert(cells[i] == parts[i + 1]);
        assert(parts[i + 1] == trim(raw_parts[i + 1]));
        assert(free_of(raw_parts[i + 1], '|'));
        assert(free_of(raw_parts[i + 1], '\n'));
        lemma_trim_keeps_free(raw_parts[i + 1], '|');
        lemma_trim_keeps_free(raw_parts[i + 1], '\n');
        lemma_trim_idempotent(raw_parts[i + 1]);
    }
    assert(trim_cells(cells) =~= cells);
}

/// The rows of parsed lines are as many as the lines, and their cells are
/// trimmed and hold no pipe, and no newline where the lines hold none.
proof fn lemma_parsed_lines_canonical(lines: Seq<Seq<char>>, rows: Seq<Seq<Seq<char>>>)
    requires
        all_free_of(lines, '\n'),
        parse_lines(lines) == Ok::<Seq<Seq<Seq<char>>>, TableError>(rows),
    ensures
        rows.len() == lines.len(),
        forall|r: int| 0 <= r < rows.len() ==> plain_row(#[trigger] rows[r]),
        rows.map_values(|row: Seq<Seq<char>>| trim_cells(row)) == rows,
    decreases lines.len(),
{
    if lines.len() > 0 {
        let front = lines.drop_last();
        assert forall|i: int| 0 <= i < front.len() implies free_of(#[trigger] front[i], '\n') by {
            assert(front[i] == lines[i]);
        }
        let shorter = parse_lines(front)->Ok_0;
        let cells = parse_line(lines.last())->Ok_0;
        lemma_parsed_lines_canonical(front, shorter);
        assert(free_of(lines.last(), '\n'));
        lemma_parsed_line_canonical(lines.last(), cells);
        assert(rows == shorter.push(cells));
        assert forall|r: int| 0 <= r < rows.len() implies plain_row(#[trigger] rows[r])
            && trim_cells(rows[r]) == rows[r] by {
            if r < shorter.len() {
                assert(rows[r] == shorter[r]);
                assert(shorter.map_values(|row: Seq<Seq<char>>| trim_cells(row))[r]
                    == shorter[r]);
            }
        }
    }
    assert(rows.map_values(|row: Seq<Seq<char>>| trim_cells(row)) =~= rows);
}

/// A parsed table has at least one column and one cell for each column in
/// every row, and its cells are trimmed and hold neither pipe nor newline.
pub proof fn lemma_parsed_table_canonical(raw: Seq<char>, table: TableView)
    requires
        TableView::parse(raw) == Ok::<TableView, TableError>(table),
    ensures
        table.wf(),
        table.plain(),
        table.trimmed() == table,
{
    let lines = lines_of(raw);
    lemma_split_free_of_separator(trim(raw), '\n');
    let data = data_lines(lines);
    assert forall|i: int| 0 <= i < data.len() implies free_of(#[trigger] data[i], '\n') by {
        assert(data[i] == lines[i + 2]);
    }
    assert(free_of(lines[0], '\n'));
    lemma_parsed_line_canonical(lines[0], table.headers);
    lemma_parsed_lines_canonical(data, table.rows);
}

/// Parsing, formatting and parsing again gives what parsing gave: the text
/// of a parsed table parses to that very table.
pub proof fn lemma_parse_format_parse(raw: Seq<char>, table: TableView)
    requires
        TableView::parse(raw) == Ok::<TableView, TableError>(table),
    ensures
        TableView::parse(table.format()) == Ok::<TableView, TableError>(table),
{
    lemma_parsed_table_canonical(raw, table);
    lemma_format_then_parse(table);
}

} // verus!
