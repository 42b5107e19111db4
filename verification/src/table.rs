//! The table itself: built from headers and rows or parsed from a text, and
//! formatted back to a text whose columns are aligned.

use crate::fragment::{lemma_split_nonempty, split, split_chars};
use crate::model::{
    blank_row, data_lines, fill_or_space, fragments, lemma_column_width_is_max,
    lemma_parse_lines_error, lines_of, parse_line, parse_lines, render_cell, render_row,
    render_rows, widths_of, TableError, TableView,
};
use crate::text::{
    measure, push_repeated, repeat, text_width, to_chars, to_string, trim, trim_chars,
};
use vstd::prelude::*;

verus! {

/// A table of text cells: a header row and data rows, each with one cell
/// per column. A value of this type always has at least one column.
#[derive(Debug, PartialEq, Eq)]
pub struct Table {
    headers: Vec<String>,
    column_count: usize,
    rows: Vec<Vec<String>>,
}

impl View for Table {
    type V = TableView;

    /// The table as a mathematical value: its headers and rows as sequences
    /// of characters.
    closed spec fn view(&self) -> TableView {
        TableView { headers: self.headers.deep_view(), rows: self.rows.deep_view() }
    }
}

/// The rows that `Table::new` is given, none standing for no row at all.
pub open spec fn rows_or_none(rows: Option<Vec<Vec<String>>>) -> Seq<Seq<Seq<char>>> {
    match rows {
        Some(rows) => rows.deep_view(),
        None => Seq::empty(),
    }
}

/// A table or an error, with the table as a mathematical value.
pub open spec fn table_result(result: Result<Table, TableError>) -> Result<TableView, TableError> {
    match result {
        Ok(table) => Ok(table@),
        Err(e) => Err(e),
    }
}

/// The cells of a line or an error, with the cells as mathematical values.
pub open spec fn cells_result(result: Result<Vec<String>, TableError>) -> Result<
    Seq<Seq<char>>,
    TableError,
> {
    match result {
        Ok(cells) => Ok(cells.deep_view()),
        Err(e) => Err(e),
    }
}

impl Table {
    #[verifier::type_invariant]
    spec fn inv(&self) -> bool {
        &&& self@.wf()
        &&& self.column_count == self.headers.len()
    }

    /// Builds a table from its headers and rows. It fails where there is no
    /// header, and otherwise where a row has not as many cells as there are
    /// headers.
    pub fn new(headers: Vec<String>, rows: Option<Vec<Vec<String>>>) -> (result: Result<
        Table,
        TableError,
    >)
        ensures
            table_result(result) == TableView::build(headers.deep_view(), rows_or_none(rows)),
            result matches Ok(table) ==> table@.wf(),
            headers.len() == 0 ==> result matches Err(TableError::EmptyHeaders),
            headers.len() > 0 && (exists|r: int|
                0 <= r < rows_or_none(rows).len() && (#[trigger] rows_or_none(rows)[r]).len()
                    != headers.len()) ==> result matches Err(TableError::RowWidthMismatch),
    {
        let ghost given = rows_or_none(rows);
        let data = match rows {
            Some(rows) => rows,
            None => Vec::new(),
        };
        assert(data.deep_view() =~= given);
        if headers.len() == 0 {
            return Err(TableError::EmptyHeaders);
        }
        let column_count = headers.len();
        let mut r: usize = 0;
        while r < data.len()
            invariant
                r <= data.len(),
                column_count == headers.len(),
                column_count > 0,
                data.deep_view() == given,
                given == rows_or_none(rows),
                forall|k: int|
                    0 <= k < r ==> (#[trigger] data.deep_view()[k]).len() == column_count,
            decreases data.len() - r,
        {
            if data[r].len() != column_count {
                assert(data.deep_view()[r as int].len() != headers.deep_view().len());
                return Err(TableError::RowWidthMismatch);
            }
            r += 1;
        }
        Ok(Table { headers, column_count, rows: data })
    }

    /// The cells of one line of a table's text. It fails where something
    /// other than whitespace stands before the first pipe, and otherwise
    /// where no pipe ends the line or something other than whitespace stands
    /// after the last one.
    pub fn parse_line(line: &str) -> (result: Result<Vec<String>, TableError>)
        ensures
            cells_result(result) == parse_line(line@),
    {
        let chars = to_chars(line);
        Self::parse_chars(&chars)
    }

    /// `parse_line` on a line that is held as a vector of characters.
    fn parse_chars(line: &Vec<char>) -> (result: Result<Vec<String>, TableError>)
        ensures
            cells_result(result) == parse_line(line@),
    {
        let parts = split_chars(line, '|');
        let mut elements: Vec<String> = Vec::new();
        let mut k: usize = 0;
        while k < parts.len()
            invariant
                k <= parts.len(),
                parts.deep_view() == split(line@, '|'),
                elements.deep_view() == fragments(line@).take(k as int),
            decreases parts.len() - k,
        {
            let trimmed = trim_chars(&parts[k]);
            let ghost before = elements.deep_view();
            elements.push(to_string(&trimmed));
            proof {
                assert(parts.deep_view()[k as int] =~= parts@[k as int]@);
                assert(elements.deep_view() =~= before.push(trim(parts@[k as int]@)));
                assert(fragments(line@).take(k + 1) =~= fragments(line@).take(k as int).push(
                    fragments(line@)[k as int],
                ));
            }
            k += 1;
        }
        proof {
            lemma_split_nonempty(line@, '|');
            assert(fragments(line@).take(k as int) =~= fragments(line@));
        }
        let ghost all = elements.deep_view();
        let first = elements.remove(0);
        if !first.as_str().is_empty() {
            return Err(TableError::MissingLeadingBoundary);
        }
        match elements.pop() {
            None => Err(TableError::MissingTrailingBoundary),
            Some(last) => {
                if !last.as_str().is_empty() {
                    return Err(TableError::MissingTrailingBoundary);
                }
                assert(elements.deep_view() =~= all.subrange(1, all.len() - 1));
                Ok(elements)
            },
        }
    }

    /// Parses the text of a table. The first line holds the headers, the
    /// second line is skipped, and every further line holds a data row.
    pub fn parse(raw: &String) -> (result: Result<Table, TableError>)
        ensures
            table_result(result) == TableView::parse(raw@),
            result matches Ok(table) ==> table@.wf(),
    {
        let chars = to_chars(raw.as_str());
        let text = trim_chars(&chars);
        if text.len() == 0 {
            return Err(TableError::EmptyInput);
        }
        let lines = split_chars(&text, '\n');
        proof {
            lemma_split_nonempty(text@, '\n');
            assert(lines.deep_view()[0] =~= lines@[0]@);
        }
        let headers = match Self::parse_chars(&lines[0]) {
            Ok(headers) => headers,
            Err(e) => {
                return Err(e);
            },
        };
        let mut rows: Vec<Vec<String>> = Vec::new();
        if lines.len() > 2 {
            let mut i: usize = 2;
            assert(lines.deep_view().skip(2).take(0) =~= Seq::<Seq<char>>::empty());
            assert(rows.deep_view() =~= Seq::<Seq<Seq<char>>>::empty());
            while i < lines.len()
                invariant
                    2 <= i <= lines.len(),
                    lines.deep_view() == lines_of(raw@),
                    parse_line(lines_of(raw@)[0]) == Ok::<Seq<Seq<char>>, TableError>(
                        headers.deep_view(),
                    ),
                    parse_lines(lines.deep_view().skip(2).take(i - 2)) == Ok::<
                        Seq<Seq<Seq<char>>>,
                        TableError,
                    >(rows.deep_view()),
                decreases lines.len() - i,
            {
                let ghost data = lines.deep_view().skip(2);
                let ghost before = rows.deep_view();
                proof {
                    assert(data[i - 2] =~= lines@[i as int]@);
                    assert(data.take(i - 1).drop_last() =~= data.take(i - 2));
                }
                match Self::parse_chars(&lines[i]) {
                    Ok(cells) => {
                        rows.push(cells);
                        assert(rows.deep_view() =~= before.push(cells.deep_view()));
                    },
                    Err(e) => {
                        proof {
                            lemma_parse_lines_error(data, i - 2, e);
                        }
                        return Err(e);
                    },
                }
                i += 1;
            }
            assert(lines.deep_view().skip(2).take(i - 2) =~= data_lines(lines.deep_view()));
        } else {
            assert(rows.deep_view() =~= Seq::<Seq<Seq<char>>>::empty());
        }
        Self::new(headers, Some(rows))
    }

    /// The width of every column: the largest width, in bytes, among the
    /// column's header and its cells.
    pub fn calculate_column_widths(&self) -> (widths: Vec<usize>)
        ensures
            widths.len() == self@.headers.len(),
            forall|col: int|
                0 <= col < widths.len() ==> #[trigger] widths[col] == self@.column_width(col),
            widths_of(widths@) == self@.column_widths(),
    {
        proof {
            use_type_invariant(self);
        }
        let mut column_widths: Vec<usize> = Vec::new();
        let mut i: usize = 0;
        while i < self.column_count
            invariant
                self@.wf(),
                self.column_count == self.headers.len(),
                i <= self.column_count,
                column_widths.len() == i,
                forall|c: int| 0 <= c < i ==> column_widths@[c] == self@.column_width(c),
            decreases self.column_count - i,
        {
            let mut max_width = measure(self.headers[i].as_str());
            let mut r: usize = 0;
            while r < self.rows.len()
                invariant
                    self@.wf(),
                    self.column_count == self.headers.len(),
                    i < self.column_count,
                    r <= self.rows.len(),
                    max_width == self@.column_width_upto(i as int, r as nat),
                decreases self.rows.len() - r,
            {
                assert(self@.rows[r as int].len() == self.rows@[r as int]@.len());
                let cell_length = measure(self.rows[r][i].as_str());
                if cell_length > max_width {
                    max_width = cell_length;
                }
                r += 1;
            }
            column_widths.push(max_width);
            i += 1;
        }
        assert(widths_of(column_widths@) =~= self@.column_widths());
        column_widths
    }

    /// One row as a line of text: a pipe, then for each cell the fill
    /// character, the cell, the fill character up to the column's width and
    /// once more, and a pipe. Without a fill character the row is filled
    /// with spaces.
    pub fn format_row(
        row: &Vec<String>,
        column_widths: &Vec<usize>,
        fill: Option<char>,
    ) -> (line: String)
        requires
            row.len() <= column_widths.len(),
            forall|i: int|
                0 <= i < row.len() ==> text_width(#[trigger] row.deep_view()[i])
                    <= column_widths@[i],
        ensures
            line@ == render_row(row.deep_view(), widths_of(column_widths@), fill_or_space(fill)),
    {
        let ghost cells = row.deep_view();
        let ghost widths = widths_of(column_widths@);
        let fill_char = match fill {
            Some(c) => c,
            None => ' ',
        };
        let mut formatted = String::new();
        formatted.push('|');
        assert(formatted@ =~= seq!['|']);
        assert(cells.take(0).len() == 0);
        let mut i: usize = 0;
        while i < row.len()
            invariant
                i <= row.len() <= column_widths.len(),
                cells == row.deep_view(),
                widths == widths_of(column_widths@),
                fill_char == fill_or_space(fill),
                forall|k: int|
                    0 <= k < row.len() ==> text_width(#[trigger] row.deep_view()[k])
                        <= column_widths@[k],
                formatted@ == render_row(cells.take(i as int), widths, fill_char),
            decreases row.len() - i,
        {
            let ghost before = formatted@;
            let ghost cell = cells[i as int];
            assert(text_width(cell) <= column_widths@[i as int]);
            let padding = column_widths[i] - measure(row[i].as_str());
            formatted.push(fill_char);
            formatted.append(row[i].as_str());
            push_repeated(&mut formatted, fill_char, padding);
            formatted.push(fill_char);
            formatted.push('|');
            proof {
                let upto = cells.take(i + 1);
                assert(upto.drop_last() =~= cells.take(i as int));
                assert(upto.last() == cell);
                assert(repeat(fill_char, padding as nat).push(fill_char) =~= repeat(
                    fill_char,
                    (widths[i as int] - text_width(cell) + 1) as nat,
                ));
                assert(formatted@ =~= before + render_cell(cell, widths[i as int], fill_char)
                    + seq!['|']);
            }
            i += 1;
        }
        assert(cells.take(i as int) =~= cells);
        formatted
    }

    /// The cells of the separator row: one empty cell for each column.
    pub fn get_formatting_row(&self) -> (row: Vec<String>)
        ensures
            row.len() == self@.headers.len(),
            row.deep_view() == blank_row(self@.headers.len()),
    {
        proof {
            use_type_invariant(self);
        }
        let mut row: Vec<String> = Vec::new();
        let mut i: usize = 0;
        while i < self.column_count
            invariant
                i <= self.column_count,
                row.len() == i,
                forall|k: int| 0 <= k < i ==> (#[trigger] row@[k])@ == Seq::<char>::empty(),
            decreases self.column_count - i,
        {
            row.push(String::new());
            i += 1;
        }
        assert(row.deep_view() =~= blank_row(self@.headers.len()));
        row
    }

    /// The text of the table: the header row, a row of dashes and the data
    /// rows, every column as wide as its widest cell and every line ended by
    /// a newline.
    pub fn format(&self) -> (text: String)
        ensures
            text@ == self@.format(),
    {
        proof {
            use_type_invariant(self);
        }
        let column_widths = self.calculate_column_widths();
        let ghost widths = self@.column_widths();
        proof {
            assert forall|i: int| 0 <= i < self.headers.len() implies text_width(
                #[trigger] self.headers.deep_view()[i],
            ) <= column_widths@[i] by {
                lemma_column_width_is_max(self@, i);
                assert(widths_of(column_widths@)[i] == widths[i]);
            }
        }
        let mut buffer_row = String::new();
        buffer_row.append(Self::format_row(&self.headers, &column_widths, None).as_str());
        buffer_row.push('\n');

        let formatting_row = self.get_formatting_row();
        proof {
            assert forall|i: int| 0 <= i < formatting_row.len() implies text_width(
                #[trigger] formatting_row.deep_view()[i],
            ) <= column_widths@[i] by {
                assert(formatting_row.deep_view()[i] == Seq::<char>::empty());
                assert(text_width(Seq::<char>::empty()) == 0);
            }
        }
        buffer_row.append(
            Self::format_row(&formatting_row, &column_widths, Some('-')).as_str(),
        );
        buffer_row.push('\n');

        let ghost head = buffer_row@;
        assert(head =~= render_row(self@.headers, widths, ' ') + seq!['\n'] + render_row(
            blank_row(self@.headers.len()),
            widths,
            '-',
        ) + seq!['\n']);
        assert(head + render_rows(self@.rows.take(0), widths) =~= head);
        let mut r: usize = 0;
        while r < self.rows.len()
            invariant
                self@.wf(),
                r <= self.rows.len(),
                widths == self@.column_widths(),
                widths_of(column_widths@) == widths,
                column_widths.len() == self.headers.len(),
                buffer_row@ == head + render_rows(self@.rows.take(r as int), widths),
            decreases self.rows.len() - r,
        {
            let row = &self.rows[r];
            let ghost before = buffer_row@;
            proof {
                assert(self@.rows[r as int] == row.deep_view());
                assert forall|i: int| 0 <= i < row.len() implies text_width(
                    #[trigger] row.deep_view()[i],
                ) <= column_widths@[i] by {
                    lemma_column_width_is_max(self@, i);
                    assert(widths_of(column_widths@)[i] == widths[i]);
                }
            }
            buffer_row.append(Self::format_row(row, &column_widths, None).as_str());
            buffer_row.push('\n');
            proof {
                let upto = self@.rows.take(r + 1);
                assert(upto.drop_last() =~= self@.rows.take(r as int));
                assert(upto.last() == row.deep_view());
                assert(buffer_row@ =~= head + render_rows(upto, widths));
            }
            r += 1;
        }
        assert(self@.rows.take(r as int) =~= self@.rows);
        buffer_row
    }

    /// The cells of the header row, of which there is at least one.
    pub fn headers(&self) -> (headers: &Vec<String>)
        ensures
            headers.deep_view() == self@.headers,
            self@.wf(),
    {
        proof {
            use_type_invariant(self);
        }
        &self.headers
    }

    /// The data rows, each of which has one cell for each column.
    pub fn rows(&self) -> (rows: &Vec<Vec<String>>)
        ensures
            rows.deep_view() == self@.rows,
            self@.wf(),
    {
        proof {
            use_type_invariant(self);
        }
        &self.rows
    }

    /// The number of columns, which is at least one.
    pub fn column_count(&self) -> (count: usize)
        ensures
            count == self@.headers.len(),
            self@.wf(),
    {
        proof {
            use_type_invariant(self);
        }
        self.column_count
    }
}

} // verus!
