use requester::split::{join_from, split_lines, split_words};
use requester::text::{blank, chars_of, copy_range, is_whitespace, position_from, string_of, trim_range, word_end};

fn chars(s: &str) -> Vec<char> {
    s.chars().collect()
}

fn text(v: &[char]) -> String {
    v.iter().collect()
}

#[test]
fn white_space_is_what_std_calls_white_space() {
    let mut c: u32 = 0;
    while c <= 0x10ffff {
        if let Some(ch) = char::from_u32(c) {
            assert_eq!(is_whitespace(ch), ch.is_whitespace(), "U+{:04X}", c);
        }
        c += 1;
    }
}

#[test]
fn chars_of_gives_the_characters_in_order() {
    assert_eq!(chars_of("a\u{e9}\u{1f600}z"), vec!['a', '\u{e9}', '\u{1f600}', 'z']);
    assert_eq!(chars_of(""), Vec::<char>::new());
}

#[test]
fn string_of_and_copy_range_take_the_range() {
    let v = chars("hello world");
    assert_eq!(string_of(&v, 6, 11), "world");
    assert_eq!(string_of(&v, 3, 3), "");
    assert_eq!(copy_range(&v, 0, 5), chars("hello"));
}

#[test]
fn position_from_finds_the_first_from_the_start_given() {
    let v = chars("a:b:c");
    assert_eq!(position_from(&v, 0, ':'), 1);
    assert_eq!(position_from(&v, 2, ':'), 3);
    assert_eq!(position_from(&v, 4, ':'), 5);
    assert_eq!(position_from(&v, 5, ':'), 5);
}

#[test]
fn word_end_stops_at_white_space() {
    let v = chars("ab\tcd");
    assert_eq!(word_end(&v, 0), 2);
    assert_eq!(word_end(&v, 2), 2);
    assert_eq!(word_end(&v, 3), 5);
}

#[test]
fn blank_is_all_white_space() {
    assert!(blank(&chars("")));
    assert!(blank(&chars(" \t\r\u{3000}")));
    assert!(!blank(&chars("  x ")));
}

#[test]
fn trim_range_agrees_with_trim() {
    for s in ["", "   ", "a", " a", "a ", "  a b  ", "\t\u{a0}x y\u{2003}\n", " : "] {
        let v = chars(s);
        let (a, b) = trim_range(&v, 0, v.len());
        assert_eq!(text(&v[a..b]), s.trim(), "{:?}", s);
    }
    let v = chars("xx  ab  yy");
    assert_eq!(trim_range(&v, 2, 8), (4, 6));
    assert_eq!(trim_range(&v, 2, 4), (4, 4));
}

#[test]
fn split_lines_agrees_with_lines() {
    for s in [
        "", "\n", "a", "a\n", "a\nb", "a\n\nb\n", "a\r\nb\r\n", "a\rb", "a\r", "\r\n", "\n\n\n",
        "a\r\r\nb", "x\n\r",
    ] {
        let got: Vec<String> = split_lines(&chars(s)).iter().map(|l| text(l)).collect();
        let want: Vec<String> = s.lines().map(|l| l.to_string()).collect();
        assert_eq!(got, want, "{:?}", s);
    }
}

#[test]
fn split_words_agrees_with_split_whitespace() {
    for s in ["", "   ", "a", " a ", "a b", "  a \t b\u{a0}c\n", "GET https://x.com/a"] {
        let got: Vec<String> = split_words(&chars(s)).iter().map(|l| text(l)).collect();
        let want: Vec<String> = s.split_whitespace().map(|l| l.to_string()).collect();
        assert_eq!(got, want, "{:?}", s);
    }
}

#[test]
fn join_from_puts_the_separator_between() {
    let pieces = vec![chars("a"), chars("bc"), chars(""), chars("d")];
    assert_eq!(text(&join_from(&pieces, 0, ' ')), "a bc  d");
    assert_eq!(text(&join_from(&pieces, 1, '\n')), "bc\n\nd");
    assert_eq!(text(&join_from(&pieces, 3, ' ')), "d");
    assert_eq!(text(&join_from(&pieces, 4, ' ')), "");
}
