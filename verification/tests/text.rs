use xpub::text::{
    char_is_whitespace, find_index_from, find_index_last, matches_at, string_of, to_chars,
    Element,
};

fn chars(s: &str) -> Vec<char> {
    s.chars().collect()
}

#[test]
fn whitespace_is_what_the_standard_library_takes_for_it() {
    for code in 0..=0x10FFFFu32 {
        if let Some(c) = char::from_u32(code) {
            assert_eq!(char_is_whitespace(c), c.is_whitespace(), "U+{code:04X}");
        }
    }
}

#[test]
fn some_characters_that_are_whitespace_and_some_that_are_not() {
    for c in [' ', '\t', '\n', '\u{b}', '\u{c}', '\r', '\u{85}', '\u{a0}', '\u{1680}', '\u{2000}', '\u{200a}', '\u{2028}', '\u{2029}', '\u{202f}', '\u{205f}', '\u{3000}'] {
        assert!(char_is_whitespace(c));
    }
    for c in ['a', '<', '\u{8}', '\u{e}', '\u{1f}', '!', '\u{84}', '\u{86}', '\u{180e}', '\u{1fff}', '\u{200b}', '\u{202a}', '\u{2060}', '\u{feff}'] {
        assert!(!char_is_whitespace(c));
    }
}

#[test]
fn the_characters_of_a_string() {
    assert_eq!(to_chars(""), Vec::<char>::new());
    assert_eq!(to_chars("aé日"), vec!['a', 'é', '日']);
}

#[test]
fn the_string_of_a_range_of_characters() {
    let text = chars("héllo wörld");
    assert_eq!(string_of(&text, 0, 5), "héllo");
    assert_eq!(string_of(&text, 6, 11), "wörld");
    assert_eq!(string_of(&text, 3, 3), "");
}

#[test]
fn a_match_at_an_index() {
    let hay = chars("abcabc");
    assert!(matches_at(&hay, &chars("bc"), 1));
    assert!(matches_at(&hay, &chars("bc"), 4));
    assert!(!matches_at(&hay, &chars("bc"), 0));
    assert!(matches_at(&hay, &chars(""), 6));
    assert!(matches_at(&b"abcabc"[..], &b"ca"[..], 2));
    assert!(!matches_at(&b"abcabc"[..], &b"ca"[..], 3));
}

#[test]
fn the_first_occurrence_from_an_index() {
    let hay = chars("a<p>b<p>c");
    let needle = chars("<p");
    assert_eq!(find_index_from(&hay, &needle, 0), Some(1));
    assert_eq!(find_index_from(&hay, &needle, 1), Some(1));
    assert_eq!(find_index_from(&hay, &needle, 2), Some(5));
    assert_eq!(find_index_from(&hay, &needle, 6), None);
    assert_eq!(find_index_from(&hay, &needle, 9), None);
    assert_eq!(find_index_from(&hay, &needle, 20), None);
    assert_eq!(find_index_from(&hay, &chars("a<p>b<p>c!"), 0), None);
}

#[test]
fn an_empty_needle_is_found_where_the_search_starts() {
    let hay = chars("abc");
    let none: [char; 0] = [];
    assert_eq!(find_index_from(&hay, &none, 0), Some(0));
    assert_eq!(find_index_from(&hay, &none, 3), Some(3));
    assert_eq!(find_index_from(&hay, &none, 4), None);
    assert_eq!(find_index_last(&hay, &none), Some(3));
    assert_eq!(find_index_last(&none, &none), Some(0));
}

#[test]
fn the_last_occurrence() {
    assert_eq!(find_index_last(&chars("</body></body>x"), &chars("</body>")), Some(7));
    assert_eq!(find_index_last(&chars("aaa"), &chars("aa")), Some(1));
    assert_eq!(find_index_last(&chars("</body"), &chars("</body>")), None);
    assert_eq!(find_index_last(&chars(""), &chars("x")), None);
}

#[test]
fn the_first_and_the_last_occurrence_of_bytes() {
    assert_eq!(find_index_from(&b"xyzxyz"[..], &b"yz"[..], 0), Some(1));
    assert_eq!(find_index_from(&b"xyzxyz"[..], &b"yz"[..], 2), Some(4));
    assert_eq!(find_index_from(&b"xyzxyz"[..], &b"yz"[..], 5), None);
    assert_eq!(find_index_from(&b""[..], &b"y"[..], 0), None);
    assert_eq!(find_index_last(&b"xyzxyz"[..], &b"yz"[..]), Some(4));
}

#[test]
fn elements_are_the_same_where_they_are_equal() {
    assert!('a'.same('a'));
    assert!(!'a'.same('b'));
    assert!(7u8.same(7));
    assert!(!7u8.same(8));
}
