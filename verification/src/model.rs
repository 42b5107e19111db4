//! The mathematical model of a table and of its textual form.
//!
//! A table is a row of headers and a sequence of data rows, every cell a
//! sequence of characters. The functions here say, over that model, what
//! parsing a text yields and what text a table is formatted to.

use crate::fragment::split;
use crate::text::{free_of, repeat, text_width, trim};
use vstd::prelude::*;

verus! {

/// Why a text is not a table, or why headers and rows do not make one.
#[derive(Debug, Clone, Copy, PartialEq, Eq, Structural)]
pub enum TableError {
    /// The text holds nothing but whitespace, so there is no header line.
    EmptyInput,
    /// A line holds something other than whitespace before its first pipe.
    MissingLeadingBoundary,
    /// A line holds something other than whitespace after its last pipe, or
    /// has no pipe to end it.
    MissingTrailingBoundary,
    /// The header row has no cell.
    EmptyHeaders,
    /// A data row has more or fewer cells than the header row.
    RowWidthMismatch,
}

/// Column widths as natural numbers.
pub open spec fn widths_of(widths: Seq<usize>) -> Seq<nat> {
    Seq::new(widths.len(), |i: int| widths[i] as nat)
}

/// The fill character that a row is rendered with: the one given, or a
/// space where none is given.
pub open spec fn fill_or_space(fill: Option<char>) -> char {
    match fill {
        Some(c) => c,
        None => ' ',
    }
}

/// A row of `n` empty cells.
pub open spec fn blank_row(n: nat) -> Seq<Seq<char>> {
    Seq::new(n, |i: int| Seq::<char>::empty())
}

impl TableError {
    /// What went wrong, as a sentence.
    pub open spec fn spec_message(self) -> Seq<char> {
        match self {
            TableError::EmptyInput => "A table must have at least a header line."@,
            TableError::MissingLeadingBoundary => "Should not contain any serious characters before the first pipe ('|')."@,
            TableError::MissingTrailingBoundary => "Should not contain any serious characters after the last pipe ('|')."@,
            TableError::EmptyHeaders => "Headers should not be empty."@,
            TableError::RowWidthMismatch => "The first row should be as long as the header."@,
        }
    }

    /// What went wrong, as a sentence.
    pub fn message(&self) -> (message: &'static str)
        ensures
            message@ == self.spec_message(),
    {
        match self {
            TableError::EmptyInput => "A table must have at least a header line.",
            TableError::MissingLeadingBoundary => "Should not contain any serious characters before the first pipe ('|').",
            TableError::MissingTrailingBoundary => "Should not contain any serious characters after the last pipe ('|').",
            TableError::EmptyHeaders => "Headers should not be empty.",
            TableError::RowWidthMismatch => "The first row should be as long as the header.",
        }
    }
}

/// A cell that holds neither a pipe nor a newline, so that it can stand in
/// the text of a table without being taken for a delimiter.
pub open spec fn plain_cell(cell: Seq<char>) -> bool {
    free_of(cell, '|') && free_of(cell, '\n')
}

/// Every cell of the row is a `plain_cell`.
pub open spec fn plain_row(cells: Seq<Seq<char>>) -> bool {
    forall|i: int| 0 <= i < cells.len() ==> plain_cell(#[trigger] cells[i])
}

/// The cells of a row, each one trimmed.
pub open spec fn trim_cells(cells: Seq<Seq<char>>) -> Seq<Seq<char>> {
    cells.map_values(|cell: Seq<char>| trim(cell))
}

/// The fragments of a line between its pipes, each one trimmed.
pub open spec fn fragments(line: Seq<char>) -> Seq<Seq<char>> {
    split(line, '|').map_values(|f: Seq<char>| trim(f))
}

/// The cells of a line. The first and the last fragment must be empty:
/// nothing but whitespace may stand before the first pipe or after the last
/// one. The fragments between those two are the cells.
pub open spec fn parse_line(line: Seq<char>) -> Result<Seq<Seq<char>>, TableError> {
    let parts = fragments(line);
    if parts.first().len() != 0 {
        Err(TableError::MissingLeadingBoundary)
    } else if parts.len() < 2 || parts.last().len() != 0 {
        Err(TableError::MissingTrailingBoundary)
    } else {
        Ok(parts.subrange(1, parts.len() - 1))
    }
}

/// The cells of each of `lines`, in order, or the error of the first line
/// that has one.
pub open spec fn parse_lines(lines: Seq<Seq<char>>) -> Result<Seq<Seq<Seq<char>>>, TableError>
    decreases lines.len(),
{
    if lines.len() == 0 {
        Ok(Seq::empty())
    } else {
        match parse_lines(lines.drop_last()) {
            Err(e) => Err(e),
            Ok(rows) => match parse_line(lines.last()) {
                Err(e) => Err(e),
                Ok(cells) => Ok(rows.push(cells)),
            },
        }
    }
}

/// Once a line has an error and the lines before it have none, that error
/// is the result, whatever follows.
pub proof fn lemma_parse_lines_error(lines: Seq<Seq<char>>, k: int, e: TableError)
    requires
        0 <= k < lines.len(),
        parse_lines(lines.take(k)) is Ok,
        parse_line(lines[k]) == Err::<Seq<Seq<char>>, TableError>(e),
    ensures
        parse_lines(lines) == Err::<Seq<Seq<Seq<char>>>, TableError>(e),
    decreases lines.len(),
{
    let shorter = lines.drop_last();
    if k == lines.len() - 1 {
        assert(shorter =~= lines.take(k));
    } else {
        assert(shorter.take(k) =~= lines.take(k));
        lemma_parse_lines_error(shorter, k, e);
    }
}

/// The lines of a text: those of the trimmed text, split on newlines. A text
/// of whitespace alone has no line.
pub open spec fn lines_of(raw: Seq<char>) -> Seq<Seq<char>> {
    let text = trim(raw);
    if text.len() == 0 {
        Seq::empty()
    } else {
        split(text, '\n')
    }
}

/// The lines that hold data rows: all but the header line and the separator
/// line that follows it.
pub open spec fn data_lines(lines: Seq<Seq<char>>) -> Seq<Seq<char>> {
    if lines.len() > 2 {
        lines.skip(2)
    } else {
        Seq::empty()
    }
}

/// One cell as it is rendered in a column of the given width: a fill
/// character, the cell, and fill characters up to the column's width and one
/// more.
pub open spec fn render_cell(cell: Seq<char>, width: nat, fill: char) -> Seq<char>
    recommends
        text_width(cell) <= width,
{
    seq![fill] + cell + repeat(fill, (width - text_width(cell) + 1) as nat)
}

/// One row as it is rendered: a pipe, then each cell as `render_cell` gives
/// it, followed by a pipe.
pub open spec fn render_row(cells: Seq<Seq<char>>, widths: Seq<nat>, fill: char) -> Seq<char>
    recommends
        cells.len() <= widths.len(),
    decreases cells.len(),
{
    if cells.len() == 0 {
        seq!['|']
    } else {
        render_row(cells.drop_last(), widths, fill) + render_cell(
            cells.last(),
            widths[cells.len() - 1],
            fill,
        ) + seq!['|']
    }
}

/// The data rows as they are rendered: each one space-filled and followed by
/// a newline.
pub open spec fn render_rows(rows: Seq<Seq<Seq<char>>>, widths: Seq<nat>) -> Seq<char>
    decreases rows.len(),
{
    if rows.len() == 0 {
        Seq::empty()
    } else {
        render_rows(rows.drop_last(), widths) + render_row(rows.last(), widths, ' ') + seq![
            '\n',
        ]
    }
}

/// A table as a mathematical value.
pub struct TableView {
    /// The cells of the header row.
    pub headers: Seq<Seq<char>>,
    /// The data rows, each a sequence of cells.
    pub rows: Seq<Seq<Seq<char>>>,
}

impl TableView {
    /// There is at least one column, and every row has one cell per column.
    pub open spec fn wf(self) -> bool {
        &&& self.headers.len() > 0
        &&& forall|r: int|
            0 <= r < self.rows.len() ==> (#[trigger] self.rows[r]).len() == self.headers.len()
    }

    /// No cell of the table holds a pipe or a newline.
    pub open spec fn plain(self) -> bool {
        &&& plain_row(self.headers)
        &&& forall|r: int| 0 <= r < self.rows.len() ==> plain_row(#[trigger] self.rows[r])
    }

    /// The table with every cell trimmed.
    pub open spec fn trimmed(self) -> TableView {
        TableView {
            headers: trim_cells(self.headers),
            rows: self.rows.map_values(|row: Seq<Seq<char>>| trim_cells(row)),
        }
    }

    /// The table of the given headers and rows, where they make one.
    pub open spec fn build(headers: Seq<Seq<char>>, rows: Seq<Seq<Seq<char>>>) -> Result<
        TableView,
        TableError,
    > {
        if headers.len() == 0 {
            Err(TableError::EmptyHeaders)
        } else if exists|r: int| 0 <= r < rows.len() && (#[trigger] rows[r]).len() != headers.len() {
            Err(TableError::RowWidthMismatch)
        } else {
            Ok(TableView { headers, rows })
        }
    }

    /// The table that a text describes. The first line holds the headers,
    /// the second is a separator whose content is ignored, the others are
    /// data rows. The lines are parsed in order, and only then are the
    /// headers and rows checked against each other.
    pub open spec fn parse(raw: Seq<char>) -> Result<TableView, TableError> {
        let lines = lines_of(raw);
        if lines.len() == 0 {
            Err(TableError::EmptyInput)
        } else {
            match parse_line(lines[0]) {
                Err(e) => Err(e),
                Ok(headers) => match parse_lines(data_lines(lines)) {
                    Err(e) => Err(e),
                    Ok(rows) => TableView::build(headers, rows),
                },
            }
        }
    }

    /// The largest width among the header of column `col` and the cells of
    /// that column in the first `n` rows.
    pub open spec fn column_width_upto(self, col: int, n: nat) -> nat
        decreases n,
    {
        if n == 0 {
            text_width(self.headers[col])
        } else {
            let above = self.column_width_upto(col, (n - 1) as nat);
            let here = text_width(self.rows[n - 1][col]);
            if here > above {
                here
            } else {
                above
            }
        }
    }

    /// The width of column `col`: the largest width among its header and
    /// its cells.
    pub open spec fn column_width(self, col: int) -> nat {
        self.column_width_upto(col, self.rows.len())
    }

    /// The width of every column.
    pub open spec fn column_widths(self) -> Seq<nat> {
        Seq::new(self.headers.len(), |col: int| self.column_width(col))
    }

    /// The text of the table: the header row, a row of dashes, and the data
    /// rows, each line ended by a newline.
    pub open spec fn format(self) -> Seq<char> {
        let widths = self.column_widths();
        render_row(self.headers, widths, ' ') + seq!['\n'] + render_row(
            blank_row(self.headers.len()),
            widths,
            '-',
        ) + seq!['\n'] + render_rows(self.rows, widths)
    }
}

/// The width over the first `n` rows is no smaller than the header's width
/// and the width of each cell among those rows.
pub proof fn lemma_column_width_upto_covers(table: TableView, col: int, n: nat)
    ensures
        text_width(table.headers[col]) <= table.column_width_upto(col, n),
        forall|r: int|
            0 <= r < n ==> text_width(#[trigger] table.rows[r][col]) <= table.column_width_upto(
                col,
                n,
            ),
    decreases n,
{
    if n > 0 {
        lemma_column_width_upto_covers(table, col, (n - 1) as nat);
    }
}

/// The width over the first `n` rows is the width of the header or of one
/// cell among those rows.
pub proof fn lemma_column_width_upto_attained(table: TableView, col: int, n: nat)
    ensures
        table.column_width_upto(col, n) == text_width(table.headers[col]) || exists|r: int|
            0 <= r < n && table.column_width_upto(col, n) == text_width(
                #[trigger] table.rows[r][col],
            ),
    decreases n,
{
    if n > 0 {
        let above = table.column_width_upto(col, (n - 1) as nat);
        let here = text_width(table.rows[n - 1][col]);
        if here > above {
            assert(table.column_width_upto(col, n) == text_width(table.rows[n - 1][col]));
        } else {
            lemma_column_width_upto_attained(table, col, (n - 1) as nat);
            if above != text_width(table.headers[col]) {
                let r = choose|r: int|
                    0 <= r < n - 1 && above == text_width(#[trigger] table.rows[r][col]);
                assert(table.column_width_upto(col, n) == text_width(table.rows[r][col]));
            }
        }
    }
}

/// The width of a column is the maximum of the widths of its header and its
/// cells: no smaller than any of them, and equal to one of them.
pub proof fn lemma_column_width_is_max(table: TableView, col: int)
    ensures
        text_width(table.headers[col]) <= table.column_width(col),
        forall|r: int|
            0 <= r < table.rows.len() ==> text_width(#[trigger] table.rows[r][col])
                <= table.column_width(col),
        table.column_width(col) == text_width(table.headers[col]) || exists|r: int|
            0 <= r < table.rows.len() && table.column_width(col) == text_width(
                #[trigger] table.rows[r][col],
            ),
{
    lemma_column_width_upto_covers(table, col, table.rows.len());
    lemma_column_width_upto_attained(table, col, table.rows.len());
}

} // verus!
