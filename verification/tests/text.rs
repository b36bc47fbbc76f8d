use retention_sweep::text::{chars_of, read_i64, split_pieces};

fn pieces(text: &str, sep: char) -> Vec<String> {
    let chars = chars_of(text);
    split_pieces(&chars, sep, 0, chars.len())
        .iter()
        .map(|p| chars[p.start..p.end].iter().collect())
        .collect()
}

fn number(text: &str) -> Option<i64> {
    let chars = chars_of(text);
    read_i64(&chars, 0, chars.len())
}

#[test]
fn split_gives_one_piece_more_than_separators() {
    assert_eq!(pieces("", ','), vec![""]);
    assert_eq!(pieces("a", ','), vec!["a"]);
    assert_eq!(pieces("a,b", ','), vec!["a", "b"]);
    assert_eq!(pieces(",", ','), vec!["", ""]);
    assert_eq!(pieces("a,,b,", ','), vec!["a", "", "b", ""]);
    assert_eq!(pieces("a:b,c", ':'), vec!["a", "b,c"]);
}

#[test]
fn split_agrees_with_std() {
    for text in ["", "x", ",x", "x,", "ab,cd,,ef", ",,,", "\u{e9},\u{1f600}"] {
        let expected: Vec<String> = text.split(',').map(|s| s.to_string()).collect();
        assert_eq!(pieces(text, ','), expected);
    }
}

#[test]
fn split_within_a_stretch() {
    let chars = chars_of("a:b,c:d");
    let parts = split_pieces(&chars, ':', 4, 7);
    assert_eq!(parts.len(), 2);
    assert_eq!((parts[0].start, parts[0].end), (4, 5));
    assert_eq!((parts[1].start, parts[1].end), (6, 7));
}

#[test]
fn read_i64_agrees_with_std() {
    for text in [
        "", "0", "7", "-7", "+7", "007", "-0", "+", "-", "--1", "+-1", "1-", "12a", " 1", "1 ",
        "9223372036854775807", "9223372036854775808", "-9223372036854775808",
        "-9223372036854775809", "99999999999999999999999999", "\u{661}",
    ] {
        assert_eq!(number(text), text.parse::<i64>().ok());
    }
}

#[test]
fn read_i64_exact_values() {
    assert_eq!(number("42"), Some(42));
    assert_eq!(number("-42"), Some(-42));
    assert_eq!(number("9223372036854775807"), Some(i64::MAX));
    assert_eq!(number("-9223372036854775808"), Some(i64::MIN));
    assert_eq!(number("9223372036854775808"), None);
}

#[test]
fn chars_of_keeps_every_character() {
    assert_eq!(chars_of("a\u{e9}\u{1f600}"), vec!['a', '\u{e9}', '\u{1f600}']);
    assert!(chars_of("").is_empty());
}
