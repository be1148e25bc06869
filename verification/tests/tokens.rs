use xpub::tokens::{
    next_token, render, render_into, tokenize, tokenize_chars, wrap_words, Token, TAG_END,
    WRAPPER_CLOSE, WRAPPER_OPEN,
};

fn word(s: &str) -> Token {
    Token::Word(s.to_string())
}

fn space(s: &str) -> Token {
    Token::Whitespace(s.to_string())
}

fn tag(s: &str) -> Token {
    Token::Tag(s.to_string())
}

fn span(s: &str) -> Token {
    Token::ExistingSpan(s.to_string())
}

fn raw(token: &Token) -> &str {
    match token {
        Token::Word(s) | Token::Tag(s) | Token::ExistingSpan(s) | Token::Whitespace(s) => s,
    }
}

#[test]
fn the_markup_of_the_wrapper() {
    assert_eq!(WRAPPER_OPEN, "<span onclick=\"window.translate(this)\">");
    assert_eq!(WRAPPER_CLOSE, "</span>");
    assert_eq!(TAG_END, ">");
}

#[test]
fn words_and_whitespace_are_told_apart() {
    assert_eq!(
        tokenize("Hello  world\n"),
        vec![word("Hello"), space("  "), word("world"), space("\n")]
    );
}

#[test]
fn an_empty_text_has_no_token() {
    assert_eq!(tokenize(""), Vec::<Token>::new());
    assert_eq!(wrap_words(""), "");
}

#[test]
fn a_tag_runs_up_to_its_end() {
    assert_eq!(
        tokenize("a<b class=\"x y\">c</b>"),
        vec![word("a"), tag("<b class=\"x y\">"), word("c"), tag("</b>")]
    );
}

#[test]
fn an_existing_span_runs_up_to_its_closing_tag() {
    assert_eq!(
        tokenize("Hello <span>beautiful day</span> world"),
        vec![
            word("Hello"),
            space(" "),
            span("<span>beautiful day</span>"),
            space(" "),
            word("world"),
        ]
    );
}

#[test]
fn any_tag_that_starts_with_s_counts_as_an_existing_span() {
    assert_eq!(
        tokenize("<strong>a</strong> b <span>c</span> d"),
        vec![span("<strong>a</strong> b <span>c</span>"), space(" "), word("d")]
    );
    assert_eq!(tokenize("<s>x</span>"), vec![span("<s>x</span>")]);
}

#[test]
fn a_tag_or_a_span_that_does_not_end_takes_the_rest_of_the_text() {
    assert_eq!(tokenize("a <b c"), vec![word("a"), space(" "), tag("<b c")]);
    assert_eq!(
        tokenize("a <strong>b</strong> c"),
        vec![word("a"), space(" "), tag("<strong>b</strong> c")]
    );
    assert_eq!(tokenize("<"), vec![tag("<")]);
    assert_eq!(tokenize("<s"), vec![tag("<s")]);
}

#[test]
fn a_lone_less_than_before_s_at_the_end_is_a_tag() {
    assert_eq!(tokenize("x<"), vec![word("x"), tag("<")]);
}

#[test]
fn whitespace_of_every_kind_separates_words() {
    assert_eq!(
        tokenize("a\u{a0}b\u{2003}c\u{3000}d\u{85}e\r\n\tf"),
        vec![
            word("a"),
            space("\u{a0}"),
            word("b"),
            space("\u{2003}"),
            word("c"),
            space("\u{3000}"),
            word("d"),
            space("\u{85}"),
            word("e"),
            space("\r\n\t"),
            word("f"),
        ]
    );
}

#[test]
fn a_zero_width_space_is_no_whitespace() {
    assert_eq!(tokenize("a\u{200b}b"), vec![word("a\u{200b}b")]);
}

#[test]
fn the_tokens_cover_the_text() {
    for text in [
        "Hello world",
        "  a<b>c</b> <span>d e</span>f <i",
        "<strong>never closed",
        "\n\t¿Qué? <span>sí</span>\u{3000}",
    ] {
        let joined: String = tokenize(text).iter().map(raw).collect();
        assert_eq!(joined, text);
    }
}

#[test]
fn the_next_token_and_its_length_in_characters() {
    let text: Vec<char> = "día <b>".chars().collect();
    assert_eq!(next_token(&text), (word("día"), 3));
    assert_eq!(next_token(&text[3..]), (space(" "), 1));
    assert_eq!(next_token(&text[4..]), (tag("<b>"), 3));
    let text: Vec<char> = "<span>é</span>x".chars().collect();
    assert_eq!(next_token(&text), (span("<span>é</span>"), 14));
}

#[test]
fn tokens_of_characters_are_those_of_the_string() {
    let text = "a <span>b</span> c<br/>";
    let chars: Vec<char> = text.chars().collect();
    assert_eq!(tokenize_chars(&chars), tokenize(text));
}

#[test]
fn a_word_is_rendered_in_a_wrapper() {
    assert_eq!(
        render(&[word("Hello")]),
        format!("{WRAPPER_OPEN}Hello{WRAPPER_CLOSE}")
    );
}

#[test]
fn whitespace_and_tags_are_rendered_as_they_are() {
    assert_eq!(render(&[space(" \n"), tag("<br/>"), space("\t")]), " \n<br/>\t");
}

#[test]
fn a_tag_closes_the_word_before_it() {
    assert_eq!(
        render(&[word("a"), tag("<b>"), word("c")]),
        format!("{WRAPPER_OPEN}a{WRAPPER_CLOSE}<b>{WRAPPER_OPEN}c{WRAPPER_CLOSE}")
    );
}

#[test]
fn an_existing_span_is_rendered_in_one_wrapper() {
    assert_eq!(
        render(&[span("<span>a b</span>")]),
        format!("{WRAPPER_OPEN}<span>a b</span>{WRAPPER_CLOSE}")
    );
}

#[test]
fn an_existing_span_leaves_the_word_before_it_open() {
    assert_eq!(
        wrap_words("x<span>y</span>z w"),
        format!(
            "{WRAPPER_OPEN}x{WRAPPER_OPEN}<span>y</span>{WRAPPER_CLOSE}z{WRAPPER_CLOSE} {WRAPPER_OPEN}w{WRAPPER_CLOSE}"
        )
    );
}

#[test]
fn a_word_after_an_existing_span_gets_a_wrapper_of_its_own() {
    assert_eq!(
        wrap_words("<span>y</span>z"),
        format!("{WRAPPER_OPEN}<span>y</span>{WRAPPER_CLOSE}{WRAPPER_OPEN}z{WRAPPER_CLOSE}")
    );
}

#[test]
fn what_does_not_end_is_rendered_as_it_is_after_the_word_is_closed() {
    assert_eq!(
        wrap_words("x<b"),
        format!("{WRAPPER_OPEN}x{WRAPPER_CLOSE}<b")
    );
    assert_eq!(
        wrap_words("a <strong>b</strong> c"),
        format!("{WRAPPER_OPEN}a{WRAPPER_CLOSE} <strong>b</strong> c")
    );
}

#[test]
fn rendering_goes_to_the_end_of_what_is_there() {
    let mut out = String::from("<p>");
    render_into(&mut out, &[word("a"), space(" "), word("b")]);
    assert_eq!(
        out,
        format!("<p>{WRAPPER_OPEN}a{WRAPPER_CLOSE} {WRAPPER_OPEN}b{WRAPPER_CLOSE}")
    );
}

#[test]
fn wrapping_is_rendering_the_tokens() {
    for text in ["Hello world", " a<b>c</b> <span>d e</span>f <i", "<s"] {
        assert_eq!(wrap_words(text), render(&tokenize(text)));
    }
}

#[test]
fn in_a_text_without_markup_the_words_are_what_the_wrappers_hold() {
    let text = "  The quick\tbrown\n\nfox,  jumps! ";
    let out = wrap_words(text);
    let words: Vec<&str> = text.split_whitespace().collect();
    let payloads: Vec<&str> = out
        .split(WRAPPER_OPEN)
        .skip(1)
        .map(|piece| piece.split(WRAPPER_CLOSE).next().unwrap())
        .collect();
    assert_eq!(payloads, words);
    assert_eq!(payloads, vec!["The", "quick", "brown", "fox,", "jumps!"]);
    let stripped = out.replace(WRAPPER_OPEN, "").replace(WRAPPER_CLOSE, "");
    assert_eq!(stripped, text);
}

#[test]
fn wrapping_twice_wraps_twice() {
    let once = wrap_words("word");
    assert_eq!(once, format!("{WRAPPER_OPEN}word{WRAPPER_CLOSE}"));
    let twice = wrap_words(&once);
    assert_eq!(
        twice,
        format!("{WRAPPER_OPEN}{WRAPPER_OPEN}word{WRAPPER_CLOSE}{WRAPPER_CLOSE}")
    );
    assert_ne!(twice, once);
}

#[test]
fn wrapping_never_shortens_a_text() {
    for text in ["", "a", "<strong>b", "a <b", " \n ", "<span>x</span>"] {
        assert!(wrap_words(text).chars().count() >= text.chars().count());
    }
}
