use pipe_table::{Table, TableError};

fn strings(cells: &[&str]) -> Vec<String> {
    cells.iter().map(|cell| cell.to_string()).collect()
}

#[test]
fn test_parse_just_header() {
    let table = Table::parse(&"| header |".to_string()).unwrap();
    assert_eq!(*table.headers(), ["header"])
}

#[test]
fn test_parse_just_header_and_buffer_row() {
    let table = Table::parse(&"| header1 | header2 |\n|----|----|".to_string()).unwrap();
    assert_eq!(*table.headers(), ["header1", "header2"]);
    assert_eq!(table.rows().len(), 0);
}

#[test]
fn test_parse_all_three_row_types() {
    let table =
        Table::parse(&"| header1 | header2 |\n|----|----|\n| cell 1 | cell 2|".to_string())
            .unwrap();
    assert_eq!(*table.headers(), ["header1", "header2"]);
    assert_eq!(*table.rows(), [["cell 1", "cell 2"]]);
}

#[test]
fn test_parse_extra_whitespace() {
    let table = Table::parse(
        &"     | header1 | header2 |   \n  |----|----|  \n | cell 1      | cell 2|\n"
            .to_string(),
    )
    .unwrap();
    assert_eq!(*table.headers(), ["header1", "header2"]);
    assert_eq!(*table.rows(), [["cell 1", "cell 2"]]);
}

#[test]
fn parse_header_only() {
    let table = Table::parse(&"| h |".to_string()).unwrap();
    assert_eq!(*table.headers(), ["h"]);
    assert_eq!(table.rows().len(), 0);
    assert_eq!(table.column_count(), 1);
}

#[test]
fn parse_header_and_separator() {
    let table = Table::parse(&"| h1 | h2 |\n|----|----|".to_string()).unwrap();
    assert_eq!(*table.headers(), ["h1", "h2"]);
    assert!(table.rows().is_empty());
    assert_eq!(table.column_count(), 2);
}

#[test]
fn parse_full_table() {
    let table = Table::parse(&"| h1 | h2 |\n|----|----|\n| a | b |".to_string()).unwrap();
    assert_eq!(*table.headers(), ["h1", "h2"]);
    assert_eq!(*table.rows(), [["a", "b"]]);
}

#[test]
fn parse_tolerates_whitespace() {
    let plain = Table::parse(&"| h1 | h2 |\n|----|----|\n| a | b |".to_string()).unwrap();
    let spaced =
        Table::parse(&"  | h1 | h2 |  \n |----|----| \n | a   | b|\n".to_string()).unwrap();
    assert_eq!(spaced, plain);
    assert_eq!(*spaced.headers(), ["h1", "h2"]);
    assert_eq!(*spaced.rows(), [["a", "b"]]);
}

#[test]
fn parse_tolerates_other_whitespace() {
    let table = Table::parse(
        &"\u{a0}\t|\u{2003}h1\r|\u{3000}h2 |\r\n|--|--|\r\n|\ta\u{85}| b\u{2028}|\u{1680}\n\n"
            .to_string(),
    )
    .unwrap();
    assert_eq!(*table.headers(), ["h1", "h2"]);
    assert_eq!(*table.rows(), [["a", "b"]]);
}

#[test]
fn parse_keeps_whitespace_inside_cells() {
    let table = Table::parse(&"| a  b |\n|--|\n| \u{200b} |".to_string()).unwrap();
    assert_eq!(*table.headers(), ["a  b"]);
    assert_eq!(*table.rows(), [["\u{200b}"]]);
}

#[test]
fn parse_keeps_empty_cells() {
    let table = Table::parse(&"| a || c |\n|-|-|-|\n| | 2 |   |".to_string()).unwrap();
    assert_eq!(*table.headers(), ["a", "", "c"]);
    assert_eq!(*table.rows(), [["", "2", ""]]);
}

#[test]
fn parse_never_reads_the_separator() {
    let table = Table::parse(&"| a |\nno pipes here, and | too | many\n| 1 |".to_string()).unwrap();
    assert_eq!(*table.headers(), ["a"]);
    assert_eq!(*table.rows(), [["1"]]);
}

#[test]
fn parse_many_rows_in_order() {
    let table =
        Table::parse(&"| k | v |\n|-|-|\n| a | 1 |\n| b | 2 |\n| c | 3 |".to_string()).unwrap();
    assert_eq!(*table.rows(), [["a", "1"], ["b", "2"], ["c", "3"]]);
}

#[test]
fn parse_rejects_empty_input() {
    assert_eq!(Table::parse(&"".to_string()).unwrap_err(), TableError::EmptyInput);
    assert_eq!(Table::parse(&" \n\t \n".to_string()).unwrap_err(), TableError::EmptyInput);
}

#[test]
fn parse_rejects_missing_leading_pipe() {
    assert_eq!(
        Table::parse(&"h1 | h2 |".to_string()).unwrap_err(),
        TableError::MissingLeadingBoundary
    );
    assert_eq!(
        Table::parse(&"| h1 | h2 |\n|--|--|\n a | b |".to_string()).unwrap_err(),
        TableError::MissingLeadingBoundary
    );
    assert_eq!(
        Table::parse(&"no pipe at all".to_string()).unwrap_err(),
        TableError::MissingLeadingBoundary
    );
}

#[test]
fn parse_rejects_missing_trailing_pipe() {
    assert_eq!(
        Table::parse(&"| h1 | h2".to_string()).unwrap_err(),
        TableError::MissingTrailingBoundary
    );
    assert_eq!(
        Table::parse(&"| h1 | h2 |\n|--|--|\n| a | b | c".to_string()).unwrap_err(),
        TableError::MissingTrailingBoundary
    );
}

#[test]
fn parse_rejects_blank_data_line() {
    assert_eq!(
        Table::parse(&"| h |\n|--|\n\n| a |".to_string()).unwrap_err(),
        TableError::MissingTrailingBoundary
    );
}

#[test]
fn parse_rejects_header_without_cells() {
    assert_eq!(Table::parse(&"|".to_string()).unwrap_err(), TableError::EmptyHeaders);
    assert_eq!(Table::parse(&" | \n|--|\n| a |".to_string()).unwrap_err(), TableError::EmptyHeaders);
}

#[test]
fn parse_rejects_row_width_mismatch() {
    assert_eq!(
        Table::parse(&"| h1 | h2 |\n|--|--|\n| a | b | c |".to_string()).unwrap_err(),
        TableError::RowWidthMismatch
    );
    assert_eq!(
        Table::parse(&"| h1 | h2 |\n|--|--|\n| a | b |\n| c |".to_string()).unwrap_err(),
        TableError::RowWidthMismatch
    );
    assert_eq!(
        Table::parse(&"| h1 | h2 |\n|--|--|\n|".to_string()).unwrap_err(),
        TableError::RowWidthMismatch
    );
}

#[test]
fn parse_reports_the_first_error() {
    assert_eq!(
        Table::parse(&"h |\n|--|\n| a | b |".to_string()).unwrap_err(),
        TableError::MissingLeadingBoundary
    );
    assert_eq!(
        Table::parse(&"| h |\n|--|\n| a | b |\n| c\nd |".to_string()).unwrap_err(),
        TableError::MissingTrailingBoundary
    );
    assert_eq!(
        Table::parse(&"|\n|--|\n| a | b |\nd |".to_string()).unwrap_err(),
        TableError::MissingLeadingBoundary
    );
    assert_eq!(
        Table::parse(&"|\n|--|\n| a | b |".to_string()).unwrap_err(),
        TableError::EmptyHeaders
    );
}

#[test]
fn parse_line_gives_trimmed_cells() {
    assert_eq!(Table::parse_line("| a | b |").unwrap(), ["a", "b"]);
    assert_eq!(Table::parse_line("  |a|  b c  |\t").unwrap(), ["a", "b c"]);
    assert_eq!(Table::parse_line("||").unwrap(), [""]);
    assert_eq!(Table::parse_line("| | |").unwrap(), ["", ""]);
    assert_eq!(Table::parse_line("|").unwrap(), Vec::<String>::new());
    assert_eq!(Table::parse_line("| caf\u{e9} | \u{65e5}\u{672c} |").unwrap(), ["caf\u{e9}", "\u{65e5}\u{672c}"]);
}

#[test]
fn parse_line_rejects_bad_boundaries() {
    assert_eq!(Table::parse_line("a | b |").unwrap_err(), TableError::MissingLeadingBoundary);
    assert_eq!(Table::parse_line("| a | b").unwrap_err(), TableError::MissingTrailingBoundary);
    assert_eq!(Table::parse_line("a | b").unwrap_err(), TableError::MissingLeadingBoundary);
    assert_eq!(Table::parse_line("abc").unwrap_err(), TableError::MissingLeadingBoundary);
    assert_eq!(Table::parse_line("").unwrap_err(), TableError::MissingTrailingBoundary);
    assert_eq!(Table::parse_line("  \t ").unwrap_err(), TableError::MissingTrailingBoundary);
}

#[test]
fn new_accepts_headers_without_rows() {
    let table = Table::new(strings(&["a", "b"]), None).unwrap();
    assert_eq!(*table.headers(), ["a", "b"]);
    assert!(table.rows().is_empty());
    assert_eq!(table.column_count(), 2);
    let same = Table::new(strings(&["a", "b"]), Some(Vec::new())).unwrap();
    assert_eq!(same, table);
}

#[test]
fn new_keeps_headers_and_rows() {
    let rows = vec![strings(&["1", "2"]), strings(&[" 3 ", ""])];
    let table = Table::new(strings(&["a", "b"]), Some(rows)).unwrap();
    assert_eq!(*table.headers(), ["a", "b"]);
    assert_eq!(*table.rows(), [["1", "2"], [" 3 ", ""]]);
}

#[test]
fn new_rejects_empty_headers() {
    assert_eq!(Table::new(Vec::new(), None).unwrap_err(), TableError::EmptyHeaders);
    assert_eq!(Table::new(Vec::new(), Some(Vec::new())).unwrap_err(), TableError::EmptyHeaders);
    assert_eq!(
        Table::new(Vec::new(), Some(vec![Vec::new()])).unwrap_err(),
        TableError::EmptyHeaders
    );
    assert_eq!(
        Table::new(Vec::new(), Some(vec![strings(&["a", "b"])])).unwrap_err(),
        TableError::EmptyHeaders
    );
}

#[test]
fn new_rejects_row_width_mismatch() {
    assert_eq!(
        Table::new(strings(&["a", "b"]), Some(vec![strings(&["1", "2", "3"])])).unwrap_err(),
        TableError::RowWidthMismatch
    );
    assert_eq!(
        Table::new(strings(&["a", "b"]), Some(vec![strings(&["1", "2"]), strings(&["3"])]))
            .unwrap_err(),
        TableError::RowWidthMismatch
    );
    assert_eq!(
        Table::new(strings(&["a"]), Some(vec![Vec::new()])).unwrap_err(),
        TableError::RowWidthMismatch
    );
}

#[test]
fn errors_have_messages() {
    assert_eq!(TableError::EmptyInput.message(), "A table must have at least a header line.");
    assert_eq!(
        TableError::MissingLeadingBoundary.message(),
        "Should not contain any serious characters before the first pipe ('|')."
    );
    assert_eq!(
        TableError::MissingTrailingBoundary.message(),
        "Should not contain any serious characters after the last pipe ('|')."
    );
    assert_eq!(TableError::EmptyHeaders.message(), "Headers should not be empty.");
    assert_eq!(
        TableError::RowWidthMismatch.message(),
        "The first row should be as long as the header."
    );
}
