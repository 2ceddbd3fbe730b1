use simfs::text::{
    is_whitespace, push_chars, push_decimal, push_range, read_number, split_range, string_of,
    to_chars, trim_range,
};

fn chars(s: &str) -> Vec<char> {
    s.chars().collect()
}

#[test]
fn characters_of_a_string() {
    assert_eq!(to_chars(""), Vec::<char>::new());
    assert_eq!(to_chars("a/\u{e9}"), vec!['a', '/', '\u{e9}']);
}

#[test]
fn strings_from_characters() {
    let v = chars("hello world");
    assert_eq!(string_of(&v, 0, 5), "hello");
    assert_eq!(string_of(&v, 6, 11), "world");
    assert_eq!(string_of(&v, 3, 3), "");
    let mut out = String::from("> ");
    push_range(&mut out, &v, 4, 7);
    assert_eq!(out, "> o w");
    push_chars(&mut out, &chars("!?"));
    assert_eq!(out, "> o w!?");
}

#[test]
fn blanks() {
    for c in [' ', '\t', '\n', '\u{b}', '\u{c}', '\r', '\u{85}', '\u{a0}', '\u{1680}', '\u{2000}',
        '\u{2005}', '\u{200a}', '\u{2028}', '\u{2029}', '\u{202f}', '\u{205f}', '\u{3000}']
    {
        assert!(is_whitespace(c), "{:?}", c);
        assert!(c.is_whitespace());
    }
    for c in ['a', '0', '/', ',', '\u{8}', '\u{e}', '\u{200b}', '\u{180e}', '\u{feff}', '\u{2060}'] {
        assert!(!is_whitespace(c), "{:?}", c);
        assert!(!c.is_whitespace());
    }
}

#[test]
fn blanks_agree_with_the_standard_library_everywhere() {
    for n in 0..=0x10ffffu32 {
        if let Some(c) = char::from_u32(n) {
            assert_eq!(is_whitespace(c), c.is_whitespace(), "{:?}", c);
        }
    }
}

#[test]
fn trimming() {
    let v = chars("  \t a b \r\n");
    assert_eq!(trim_range(&v, 0, v.len()), (4, 7));
    assert_eq!(trim_range(&v, 4, 7), (4, 7));
    assert_eq!(trim_range(&v, 5, 6), (6, 6));
    let blank = chars(" \n ");
    let (a, b) = trim_range(&blank, 0, 3);
    assert_eq!(a, b);
    assert_eq!(trim_range(&blank, 1, 1), (1, 1));
}

#[test]
fn splitting() {
    let v = chars("a,bc,,d,");
    assert_eq!(split_range(&v, 0, v.len(), ','), vec![(0, 1), (2, 4), (5, 5), (6, 7), (8, 8)]);
    assert_eq!(split_range(&v, 2, 4, ','), vec![(2, 4)]);
    assert_eq!(split_range(&v, 3, 3, ','), vec![(3, 3)]);
    assert_eq!(split_range(&v, 0, v.len(), ' '), vec![(0, 8)]);
}

#[test]
fn numerals() {
    let mut out = String::new();
    push_decimal(&mut out, 0);
    assert_eq!(out, "0");
    push_decimal(&mut out, 7);
    push_decimal(&mut out, 10);
    push_decimal(&mut out, 4096);
    assert_eq!(out, "07104096");
    let mut max = String::new();
    push_decimal(&mut max, usize::MAX);
    assert_eq!(max, usize::MAX.to_string());
}

fn number(s: &str) -> Option<usize> {
    let v = chars(s);
    read_number(&v, 0, v.len())
}

#[test]
fn numbers() {
    assert_eq!(number("0"), Some(0));
    assert_eq!(number("42"), Some(42));
    assert_eq!(number("+42"), Some(42));
    assert_eq!(number("007"), Some(7));
    assert_eq!(number(""), None);
    assert_eq!(number("+"), None);
    assert_eq!(number("-1"), None);
    assert_eq!(number("++1"), None);
    assert_eq!(number("1+"), None);
    assert_eq!(number("12a"), None);
    assert_eq!(number(" 1"), None);
    assert_eq!(number("1_000"), None);
    assert_eq!(number("\u{661}"), None);
    assert_eq!(number(&usize::MAX.to_string()), Some(usize::MAX));
    assert_eq!(number(&format!("{}0", usize::MAX)), None);
    assert_eq!(number(&format!("{}", usize::MAX as u128 + 1)), None);
    assert_eq!(number("99999999999999999999999999x"), None);
    let v = chars("id=315;");
    assert_eq!(read_number(&v, 3, 6), Some(315));
}

#[test]
fn numbers_read_as_the_standard_library_reads_them() {
    for s in ["", "+", "-", "0", "+0", "-0", "00", "18446744073709551615", "18446744073709551616",
        "4294967295", "4294967296", "1e3", "0x10", "١٢٣", "12 ", "٣"]
    {
        assert_eq!(number(s), s.parse::<usize>().ok(), "{:?}", s);
    }
}
