use path_comment::lines::{find_line_end, push_normalized};
use path_comment::text::{
    chars_of, push_range, same_range, skip_leading, skip_trailing, string_of, to_lower,
    trim_bounds, CharClass,
};

#[test]
fn chars_and_string_are_inverse() {
    let v = chars_of("a\u{e9}\u{1f600}z");
    assert_eq!(v, vec!['a', '\u{e9}', '\u{1f600}', 'z']);
    assert_eq!(string_of(&v), "a\u{e9}\u{1f600}z");
    assert_eq!(chars_of(""), Vec::<char>::new());
    assert_eq!(string_of(&Vec::new()), "");
}

#[test]
fn string_of_appends_each_character() {
    assert_eq!(string_of(&vec!['x']), "x");
    assert_eq!(string_of(&vec!['/', '/', ' ', 'a', '\n']), "// a\n");
}

#[test]
fn push_range_appends_the_slice() {
    let mut out = vec!['>'];
    push_range(&mut out, &chars_of("hello"), 1, 4);
    assert_eq!(out, vec!['>', 'e', 'l', 'l']);
    push_range(&mut out, &chars_of("hello"), 2, 2);
    assert_eq!(out, vec!['>', 'e', 'l', 'l']);
}

#[test]
fn same_range_compares_slices() {
    let a = chars_of("xxabcxx");
    let b = chars_of("abcabd");
    assert!(same_range(&a, 2, 5, &b, 0, 3));
    assert!(!same_range(&a, 2, 5, &b, 3, 6));
    assert!(!same_range(&a, 2, 5, &b, 0, 2));
    assert!(same_range(&a, 1, 1, &b, 4, 4));
}

#[test]
fn white_space_is_the_unicode_class() {
    for c in [
        '\t', '\n', '\u{b}', '\u{c}', '\r', ' ', '\u{85}', '\u{a0}', '\u{1680}', '\u{2000}',
        '\u{2005}', '\u{200a}', '\u{2028}', '\u{2029}', '\u{202f}', '\u{205f}', '\u{3000}',
    ] {
        assert!(CharClass::Blank.test(c));
        assert!(c.is_whitespace());
    }
    for c in ['a', '/', '\u{8}', '\u{e}', '\u{1f}', '!', '\u{84}', '\u{86}', '\u{200b}', '\u{feff}'] {
        assert!(!CharClass::Blank.test(c));
        assert!(!c.is_whitespace());
    }
}

#[test]
fn white_space_agrees_with_std_on_every_character() {
    let mut n: u32 = 0;
    while n <= 0x10ffff {
        if let Some(c) = char::from_u32(n) {
            assert_eq!(CharClass::Blank.test(c), c.is_whitespace());
        }
        n += 1;
    }
}

#[test]
fn separator_is_the_slash() {
    assert!(CharClass::Separator.test('/'));
    assert!(!CharClass::Separator.test('\\'));
    assert!(!CharClass::Separator.test(' '));
}

#[test]
fn skip_leading_and_trailing_stop_at_other_characters() {
    let s = chars_of("//a/b//");
    assert_eq!(skip_leading(&s, 0, 7, CharClass::Separator), 2);
    assert_eq!(skip_trailing(&s, 0, 7, CharClass::Separator), 5);
    assert_eq!(skip_leading(&s, 2, 7, CharClass::Separator), 2);
    assert_eq!(skip_leading(&s, 5, 7, CharClass::Separator), 7);
    assert_eq!(skip_trailing(&s, 5, 7, CharClass::Separator), 5);
    assert_eq!(skip_trailing(&s, 0, 2, CharClass::Separator), 0);
}

#[test]
fn trim_bounds_agree_with_std_trim() {
    for text in ["  a b \n", "a", "", " \t\r\n", "\u{a0}x\u{3000}", "x  ", "  x", " \u{200b} "] {
        let v = chars_of(text);
        let (a, b) = trim_bounds(&v, 0, v.len());
        let got: String = v[a..b].iter().collect();
        assert_eq!(got, text.trim());
    }
    let v = chars_of("ab  cd  ef");
    assert_eq!(trim_bounds(&v, 2, 8), (4, 6));
    assert_eq!(trim_bounds(&v, 2, 4), (4, 4));
}

#[test]
fn to_lower_changes_ascii_capitals_only() {
    assert_eq!(to_lower('A'), 'a');
    assert_eq!(to_lower('Z'), 'z');
    assert_eq!(to_lower('M'), 'm');
    assert_eq!(to_lower('a'), 'a');
    assert_eq!(to_lower('@'), '@');
    assert_eq!(to_lower('['), '[');
    assert_eq!(to_lower('5'), '5');
    assert_eq!(to_lower('\u{c9}'), '\u{c9}');
}

#[test]
fn find_line_end_is_past_the_first_newline() {
    let s = chars_of("ab\ncd\n\nef");
    assert_eq!(find_line_end(&s, 0), 3);
    assert_eq!(find_line_end(&s, 1), 3);
    assert_eq!(find_line_end(&s, 2), 3);
    assert_eq!(find_line_end(&s, 3), 6);
    assert_eq!(find_line_end(&s, 6), 7);
    assert_eq!(find_line_end(&s, 7), 9);
    assert_eq!(find_line_end(&s, 9), 9);
    assert_eq!(find_line_end(&Vec::new(), 0), 0);
}

#[test]
fn push_normalized_joins_lines() {
    let mut out = chars_of("[");
    push_normalized(&mut out, &chars_of("a\r\nb\n\nc\n"), 0);
    assert_eq!(string_of(&out), "[a\nb\n\nc");
    let mut out = Vec::new();
    push_normalized(&mut out, &chars_of("a\r\nb\n\nc\n"), 3);
    assert_eq!(string_of(&out), "b\n\nc");
    let mut out = Vec::new();
    push_normalized(&mut out, &chars_of("a\n"), 2);
    assert_eq!(string_of(&out), "");
    let mut out = Vec::new();
    push_normalized(&mut out, &chars_of("\r\n\r\n"), 0);
    assert_eq!(string_of(&out), "\n");
}
