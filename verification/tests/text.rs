use sniprun::text::{
    chars_of, contains, line_spans, parse_usize, replace_all, split_spans, trim_span,
};

fn cs(s: &str) -> Vec<char> {
    s.chars().collect()
}

#[test]
fn searching_and_replacing() {
    assert!(contains(&cs("import os"), &cs("os")));
    assert!(contains(&cs("abc"), &cs("")));
    assert!(!contains(&cs("ab"), &cs("abc")));
    assert_eq!(replace_all(&cs("a,b,,c"), &cs(","), &cs(" ")), cs("a b  c"));
    assert_eq!(replace_all(&cs("aaa"), &cs("aa"), &cs("b")), cs("ba"));
    assert_eq!(chars_of("dé"), vec!['d', 'é']);
}

#[test]
fn splitting_and_trimming() {
    assert_eq!(split_spans(&cs(" a  b"), ' '), vec![(0, 0), (1, 2), (3, 3), (4, 5)]);
    assert_eq!(trim_span(&cs("\t x y \n")), (2, 5));
    assert_eq!(trim_span(&cs(" \u{a0} ")), (3, 3));
    assert_eq!(line_spans(&cs("a\r\nb\n\nc")), vec![(0, 1), (3, 4), (5, 5), (6, 7)]);
    assert_eq!(line_spans(&cs("a\n")), vec![(0, 1)]);
    assert_eq!(line_spans(&cs("")), vec![]);
    assert_eq!(line_spans(&cs("a\r")), vec![(0, 2)]);
    assert_eq!(parse_usize(&cs("0042")), Some(42));
    assert_eq!(parse_usize(&cs("4 2")), None);
}
