use pipe_table::fragment::split_chars;
use pipe_table::text::{is_whitespace, measure, push_repeated, to_chars, to_string, trim_chars};

fn chars(s: &str) -> Vec<char> {
    s.chars().collect()
}

fn text(v: &Vec<char>) -> String {
    v.iter().collect()
}

#[test]
fn whitespace_is_the_unicode_white_space_set() {
    let mut count = 0;
    for code in 0..=0x10ffffu32 {
        if let Some(c) = char::from_u32(code) {
            assert_eq!(is_whitespace(c), c.is_whitespace(), "U+{:04X}", code);
            if is_whitespace(c) {
                count += 1;
            }
        }
    }
    assert_eq!(count, 25);
}

#[test]
fn whitespace_examples() {
    for c in [' ', '\t', '\n', '\r', '\u{b}', '\u{c}', '\u{85}', '\u{a0}', '\u{1680}', '\u{2000}',
        '\u{200a}', '\u{2028}', '\u{2029}', '\u{202f}', '\u{205f}', '\u{3000}']
    {
        assert!(is_whitespace(c));
    }
    for c in ['a', '|', '-', '\0', '\u{8}', '\u{e}', '\u{1f}', '\u{84}', '\u{86}', '\u{180e}',
        '\u{1fff}', '\u{200b}', '\u{2027}', '\u{202a}', '\u{2060}', '\u{feff}']
    {
        assert!(!is_whitespace(c));
    }
}

#[test]
fn trim_chars_removes_outer_whitespace() {
    assert_eq!(text(&trim_chars(&chars("  a b \t\n"))), "a b");
    assert_eq!(text(&trim_chars(&chars("a"))), "a");
    assert_eq!(text(&trim_chars(&chars(""))), "");
    assert_eq!(text(&trim_chars(&chars(" \u{3000}\r\n"))), "");
    assert_eq!(text(&trim_chars(&chars("\u{a0}x\u{2003}y\u{85}"))), "x\u{2003}y");
}

#[test]
fn trim_chars_agrees_with_str_trim() {
    for s in ["", " ", "a", " a", "a ", "  a  b  ", "\t\n|x|\r\n", "\u{200b} a \u{200b}",
        "\u{1680}\u{2000}mid dle\u{205f}\u{3000}", "|", " | "]
    {
        assert_eq!(text(&trim_chars(&chars(s))), s.trim());
    }
}

#[test]
fn split_chars_gives_every_fragment() {
    let parts = split_chars(&chars("|a||b|"), '|');
    let parts: Vec<String> = parts.iter().map(text).collect();
    assert_eq!(parts, ["", "a", "", "b", ""]);
    let whole = split_chars(&chars("abc"), '|');
    assert_eq!(whole.len(), 1);
    assert_eq!(text(&whole[0]), "abc");
    let empty = split_chars(&chars(""), '|');
    assert_eq!(empty.len(), 1);
    assert_eq!(text(&empty[0]), "");
}

#[test]
fn split_chars_agrees_with_str_split() {
    for s in ["", "|", "||", "a|b", "|a|b|", "a\nb\n\nc", "\n", "no separator", "x|\u{e9}|y\n|"] {
        for sep in ['|', '\n'] {
            let ours: Vec<String> = split_chars(&chars(s), sep).iter().map(text).collect();
            let theirs: Vec<String> = s.split(sep).map(|part| part.to_string()).collect();
            assert_eq!(ours, theirs);
        }
    }
}

#[test]
fn chars_and_strings_convert_both_ways() {
    assert_eq!(to_chars("a\u{e9}|\n"), ['a', '\u{e9}', '|', '\n']);
    assert_eq!(to_chars(""), Vec::<char>::new());
    assert_eq!(to_string(&vec!['a', '\u{e9}', '|', '\n']), "a\u{e9}|\n");
    assert_eq!(to_string(&Vec::new()), "");
    assert_eq!(to_string(&to_chars("| h1 | h2 |")), "| h1 | h2 |");
}

#[test]
fn measure_counts_bytes() {
    assert_eq!(measure(""), 0);
    assert_eq!(measure("abc"), 3);
    assert_eq!(measure("\u{e9}"), 2);
    assert_eq!(measure("\u{65e5}\u{672c}"), 6);
    assert_eq!(measure("\u{1f600}"), 4);
}

#[test]
fn push_repeated_appends_the_character() {
    let mut s = "ab".to_string();
    push_repeated(&mut s, '-', 3);
    assert_eq!(s, "ab---");
    push_repeated(&mut s, 'x', 0);
    assert_eq!(s, "ab---");
    push_repeated(&mut s, '\u{e9}', 2);
    assert_eq!(s, "ab---\u{e9}\u{e9}");
}
