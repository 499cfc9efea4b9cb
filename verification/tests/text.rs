use oxutils::text::{
    char_is_digit, char_is_whitespace, chars_of, copy_range, decimal_of, digit_of, extend_chars,
    find_from, find_space_from, parse_decimal, split_chars, split_words, string_of,
    string_of_range, width_of,
};

fn v(s: &str) -> Vec<char> {
    s.chars().collect()
}

fn strings(pieces: Vec<Vec<char>>) -> Vec<String> {
    pieces.iter().map(|p| p.iter().collect()).collect()
}

#[test]
fn strings_and_characters() {
    assert_eq!(chars_of("h\u{e9}!"), vec!['h', '\u{e9}', '!']);
    assert_eq!(string_of(&v("h\u{e9}!")), "h\u{e9}!");
    assert_eq!(string_of_range(&v("hello"), 1, 3), "el");
    assert_eq!(copy_range(&v("hello"), 2, 5), v("llo"));
    let mut a = v("ab");
    extend_chars(&mut a, &v("cd"));
    assert_eq!(a, v("abcd"));
}

#[test]
fn white_space_is_what_the_standard_library_takes_for_it() {
    for u in 0..=0x2_0000u32 {
        if let Some(c) = char::from_u32(u) {
            assert_eq!(char_is_whitespace(c), c.is_whitespace(), "{:x}", u);
            assert_eq!(char_is_digit(c), c.is_ascii_digit(), "{:x}", u);
            assert_eq!(width_of(c), c.len_utf8(), "{:x}", u);
        }
    }
    assert_eq!(width_of('\u{10ffff}'), 4);
}

#[test]
fn decimal_numerals() {
    assert_eq!(decimal_of(0), v("0"));
    assert_eq!(decimal_of(7), v("7"));
    assert_eq!(decimal_of(1230), v("1230"));
    assert_eq!(decimal_of(usize::MAX), v(&usize::MAX.to_string()));
    assert_eq!(digit_of(9), '9');
    assert_eq!(parse_decimal(&v("x0042y"), 1, 5), Some(42));
    assert_eq!(parse_decimal(&v("42"), 1, 1), None);
    assert_eq!(parse_decimal(&v("4 2"), 0, 3), None);
    assert_eq!(parse_decimal(&v("+42"), 0, 3), None);
    let max = usize::MAX.to_string();
    assert_eq!(parse_decimal(&v(&max), 0, max.len()), Some(usize::MAX));
    let more = format!("{}0", max);
    assert_eq!(parse_decimal(&v(&more), 0, more.len()), None);
    assert_eq!(parse_decimal(&v("18446744073709551616"), 0, 20), None);
}

#[test]
fn pieces_between_separators() {
    for text in ["", ",", "a", "a,b", ",a,,b,", "a,b,c"] {
        let expected: Vec<String> = text.split(',').map(|s| s.to_string()).collect();
        assert_eq!(strings(split_chars(&v(text), ',')), expected, "{:?}", text);
    }
    assert_eq!(find_from(&v("a,b,c"), ',', 2), 3);
    assert_eq!(find_from(&v("a,b,c"), ',', 4), 5);
}

#[test]
fn words_between_white_space() {
    for text in ["", "  ", "a", " a  b\tc\n", "one\u{a0}two\u{3000}three "] {
        let expected: Vec<String> = text.split_whitespace().map(|s| s.to_string()).collect();
        assert_eq!(strings(split_words(&v(text))), expected, "{:?}", text);
    }
    assert_eq!(find_space_from(&v("ab cd"), true, 0), 2);
    assert_eq!(find_space_from(&v("ab cd"), false, 2), 3);
}
