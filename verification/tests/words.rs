use xpub::tokens::{payloads, tokenize, wrap_words, Token, WRAPPER_CLOSE, WRAPPER_OPEN};
use xpub::words::split_words;

#[test]
fn a_text_is_split_at_whitespace() {
    assert_eq!(split_words("Hello world"), vec!["Hello", "world"]);
    assert_eq!(
        split_words("  The quick\tbrown\n\nfox,  jumps! "),
        vec!["The", "quick", "brown", "fox,", "jumps!"]
    );
    assert_eq!(split_words("a<b>c <i>d"), vec!["a<b>c", "<i>d"]);
}

#[test]
fn a_text_of_whitespace_has_no_word() {
    assert_eq!(split_words(""), Vec::<String>::new());
    assert_eq!(split_words(" \n\t\u{3000} "), Vec::<String>::new());
}

#[test]
fn the_words_are_those_of_the_standard_library() {
    for text in [
        "",
        "one",
        " lead and trail ",
        "día\u{a0}日本語\u{2003}ß\r\n<p>x</p>",
        "a\u{200b}b c\u{85}d",
    ] {
        let expected: Vec<&str> = text.split_whitespace().collect();
        assert_eq!(split_words(text), expected);
    }
}

#[test]
fn the_payloads_are_the_texts_of_words_and_existing_spans() {
    let tokens = vec![
        Token::Whitespace(" ".to_string()),
        Token::Word("a".to_string()),
        Token::Tag("<b>".to_string()),
        Token::ExistingSpan("<span>c d</span>".to_string()),
        Token::Word("e".to_string()),
    ];
    assert_eq!(payloads(&tokens), vec!["a", "<span>c d</span>", "e"]);
    assert_eq!(payloads(&[]), Vec::<String>::new());
}

#[test]
fn where_words_and_spans_stand_apart_the_words_are_the_payloads() {
    for text in [
        "Hello world",
        "Hello <span>beautiful</span> world",
        "  <span>only</span>\n",
        "\tuno, dos;\ttres.\n",
        "",
    ] {
        assert_eq!(payloads(&tokenize(text)), split_words(text));
        let expected: String = tokenize(text)
            .iter()
            .map(|token| match token {
                Token::Word(s) | Token::ExistingSpan(s) => {
                    format!("{WRAPPER_OPEN}{s}{WRAPPER_CLOSE}")
                }
                Token::Tag(s) | Token::Whitespace(s) => s.clone(),
            })
            .collect();
        assert_eq!(wrap_words(text), expected);
    }
}

#[test]
fn where_they_do_not_stand_apart_the_words_are_not_the_payloads() {
    for text in ["a<b>c", "x<span>y</span>", "<span>y</span>z", "a <span>b c</span> d"] {
        assert_ne!(payloads(&tokenize(text)), split_words(text));
    }
}
