use pipe_table::Table;

fn cells(cells: &[&str]) -> Vec<String> {
    cells.iter().map(|cell| cell.to_string()).collect()
}

fn table(headers: &[&str], rows: &[&[&str]]) -> Table {
    Table::new(cells(headers), Some(rows.iter().map(|row| cells(row)).collect())).unwrap()
}

#[test]
fn format_full_table() {
    let t = table(&["h1", "h2"], &[&["a", "b"]]);
    assert_eq!(t.format(), "| h1 | h2 |\n|----|----|\n| a  | b  |\n");
}

#[test]
fn format_header_only() {
    let t = Table::new(cells(&["name"]), None).unwrap();
    assert_eq!(t.format(), "| name |\n|------|\n");
}

#[test]
fn format_widens_columns_to_the_widest_cell() {
    let t = table(&["k", "value"], &[&["alpha", "1"], &["b", "22"], &["", ""]]);
    assert_eq!(
        t.format(),
        "| k     | value |\n|-------|-------|\n| alpha | 1     |\n| b     | 22    |\n|       |       |\n"
    );
}

#[test]
fn format_empty_column() {
    let t = table(&[""], &[&[""]]);
    assert_eq!(t.format(), "|  |\n|--|\n|  |\n");
}

#[test]
fn format_measures_cells_in_bytes() {
    let t = table(&["\u{e9}"], &[&["abc"]]);
    assert_eq!(t.calculate_column_widths(), [3]);
    assert_eq!(t.format(), "| \u{e9}  |\n|-----|\n| abc |\n");
    let wide = table(&["\u{65e5}\u{672c}"], &[&["abc"]]);
    assert_eq!(wide.calculate_column_widths(), [6]);
    assert_eq!(wide.format(), "| \u{65e5}\u{672c} |\n|--------|\n| abc    |\n");
}

#[test]
fn format_keeps_whitespace_of_cells() {
    let t = table(&[" a "], &[&["b"]]);
    assert_eq!(t.format(), "|  a  |\n|-----|\n| b   |\n");
}

#[test]
fn format_normalizes_parsed_text() {
    let parsed = Table::parse(
        &"   |name|   quantity|\n|-|-|\n|apple|3|\n|   kiwi   |     12   |\n\n".to_string(),
    )
    .unwrap();
    assert_eq!(
        parsed.format(),
        "| name  | quantity |\n|-------|----------|\n| apple | 3        |\n| kiwi  | 12       |\n"
    );
}

#[test]
fn column_widths_are_maxima() {
    let t = table(&["ab", "c", ""], &[&["a", "cccc", ""], &["abc", "", "x"]]);
    assert_eq!(t.calculate_column_widths(), [3, 4, 1]);
    let headers_only = Table::new(cells(&["ab", "", "long header"]), None).unwrap();
    assert_eq!(headers_only.calculate_column_widths(), [2, 0, 11]);
}

#[test]
fn format_row_pads_with_spaces_by_default() {
    let row = cells(&["a", "bcd", ""]);
    assert_eq!(Table::format_row(&row, &vec![1, 3, 0], None), "| a | bcd |  |");
    assert_eq!(Table::format_row(&row, &vec![3, 5, 2], None), "| a   | bcd   |    |");
    assert_eq!(Table::format_row(&row, &vec![3, 5, 2], Some(' ')), "| a   | bcd   |    |");
}

#[test]
fn format_row_uses_the_fill_character() {
    let row = cells(&["x"]);
    assert_eq!(Table::format_row(&row, &vec![3], Some('*')), "|*x***|");
    let blank = cells(&["", ""]);
    assert_eq!(Table::format_row(&blank, &vec![2, 0], Some('-')), "|----|--|");
}

#[test]
fn format_row_without_cells_is_a_pipe() {
    assert_eq!(Table::format_row(&Vec::new(), &Vec::new(), None), "|");
    assert_eq!(Table::format_row(&Vec::new(), &vec![4, 2], Some('-')), "|");
}

#[test]
fn format_row_ignores_widths_of_further_columns() {
    let row = cells(&["a"]);
    assert_eq!(Table::format_row(&row, &vec![2, 7, 9], None), "| a  |");
}

#[test]
fn formatting_row_has_one_empty_cell_per_column() {
    let t = table(&["a", "b", "c"], &[]);
    assert_eq!(t.get_formatting_row(), ["", "", ""]);
    let one = table(&["a"], &[&["1"]]);
    assert_eq!(one.get_formatting_row(), [""]);
}

#[test]
fn parse_gives_back_a_formatted_table() {
    let t = table(&["name", "n", ""], &[&["apple", "3", ""], &["kiwi fruit", "12", "x y"]]);
    let parsed = Table::parse(&t.format()).unwrap();
    assert_eq!(parsed, t);
    assert_eq!(parsed.format(), t.format());
}

#[test]
fn parse_gives_back_a_formatted_table_without_rows() {
    let t = Table::new(cells(&["only", "headers"]), None).unwrap();
    let parsed = Table::parse(&t.format()).unwrap();
    assert_eq!(parsed, t);
}

#[test]
fn parse_gives_back_a_formatted_table_trimmed() {
    let t = table(&[" a ", "\tb"], &[&["  ", "c  d "]]);
    let parsed = Table::parse(&t.format()).unwrap();
    assert_eq!(*parsed.headers(), ["a", "b"]);
    assert_eq!(*parsed.rows(), [["", "c  d"]]);
}

#[test]
fn parse_format_parse_is_parse() {
    let raw = "  |  fruit|count | note |\n|---|\n| apple |  3 | |\n|kiwi| 12|  green  |\n"
        .to_string();
    let first = Table::parse(&raw).unwrap();
    let second = Table::parse(&first.format()).unwrap();
    assert_eq!(second, first);
    assert_eq!(second.format(), first.format());
}

#[test]
fn rendered_cells_of_a_column_are_equally_wide() {
    let t = Table::parse(
        &"| a | bb | \u{e9}\u{e9}\u{e9} |\n|-|-|-|\n| long cell | | x |\n| c | dddd | yy |"
            .to_string(),
    )
    .unwrap();
    let widths = t.calculate_column_widths();
    assert_eq!(widths, [9, 4, 6]);
    let text = t.format();
    let lines: Vec<&str> = text.lines().collect();
    assert_eq!(lines.len(), 4);
    for line in lines.iter() {
        let segments: Vec<&str> = line.split('|').collect();
        assert_eq!(segments.len(), 5);
        assert_eq!(segments[0], "");
        assert_eq!(segments[4], "");
        for col in 0..3 {
            assert_eq!(segments[col + 1].len(), widths[col] + 2);
        }
        assert_eq!(line.len(), 1 + (9 + 3) + (4 + 3) + (6 + 3));
    }
    assert_eq!(lines[1], "|-----------|------|--------|");
}
