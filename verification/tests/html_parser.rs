use xpub::html_parser::{find_substring_from_index, wrap_words_in_paragraphs};
use xpub::paragraphs::{wrap_paragraphs, MarkupError};
use xpub::script::{add_language_to_script, inject_script, SCRIPT};

const OPEN: &str = "<span onclick=\"window.translate(this)\">";
const CLOSE: &str = "</span>";

#[test]
fn a_document_gets_the_block_and_its_words_wrapped() {
    let block = add_language_to_script(SCRIPT, "es");
    assert_eq!(
        wrap_words_in_paragraphs("<html><body><p>Hola mundo</p></body></html>", "es").unwrap(),
        format!("<html><body><p>{OPEN}Hola{CLOSE} {OPEN}mundo{CLOSE}</p>{block}</body></html>")
    );
}

#[test]
fn a_document_without_a_body_gets_the_block_at_its_end() {
    let block = add_language_to_script(SCRIPT, "es");
    assert_eq!(
        wrap_words_in_paragraphs("<p>Hello world</p>", "es").unwrap(),
        format!("<p>{OPEN}Hello{CLOSE} {OPEN}world{CLOSE}</p>{block}")
    );
    assert_eq!(
        wrap_words_in_paragraphs("<div>Unchanged</div>", "es").unwrap(),
        format!("<div>Unchanged</div>{block}")
    );
}

#[test]
fn the_transformation_is_the_block_put_in_and_then_the_paragraphs_rewritten() {
    for html in [
        "",
        "<body><p id=\"last\">Last paragraph.</p></body>",
        "<p>Hello <span>beautiful</span> world</p>",
        "<p>Unclosed paragraph",
        "<p>a</p></body><p>b",
    ] {
        assert_eq!(
            wrap_words_in_paragraphs(html, "fr"),
            wrap_paragraphs(&inject_script(html, "fr"))
        );
    }
}

#[test]
fn an_unclosed_paragraph_gives_no_document() {
    assert_eq!(
        wrap_words_in_paragraphs("<p>Unclosed paragraph", "es"),
        Err(MarkupError::UnclosedParagraph)
    );
    assert_eq!(
        wrap_words_in_paragraphs("<body><p</p></body>", "es"),
        Err(MarkupError::UnclosedOpeningTag)
    );
}

#[test]
fn a_paragraph_that_the_language_brings_is_rewritten_too() {
    let out = wrap_words_in_paragraphs("<div>x</div>", "<p>a b</p>").unwrap();
    assert!(out.contains(&format!(
        "    const language = \"<p>{OPEN}a{CLOSE} {OPEN}b{CLOSE}</p>\";\n"
    )));
    assert_eq!(
        wrap_words_in_paragraphs("<div>x</div>", "<p"),
        Err(MarkupError::UnclosedParagraph)
    );
}

#[test]
fn transforming_twice_wraps_twice() {
    let once = wrap_words_in_paragraphs("<p>word</p>", "es").unwrap();
    let twice = wrap_words_in_paragraphs(&once, "es").unwrap();
    assert!(once.starts_with(&format!("<p>{OPEN}word{CLOSE}</p>")));
    assert!(twice.starts_with(&format!("<p>{OPEN}{OPEN}word{CLOSE}{CLOSE}</p>")));
    assert_eq!(twice.matches("const language = ").count(), 2);
}

#[test]
fn a_substring_is_found_from_an_index() {
    assert_eq!(find_substring_from_index("a<p>b<p>c", "<p", 0), Some(1));
    assert_eq!(find_substring_from_index("a<p>b<p>c", "<p", 2), Some(5));
    assert_eq!(find_substring_from_index("a<p>b<p>c", "<p", 6), None);
    assert_eq!(find_substring_from_index("a<p>b<p>c", "</p>", 0), None);
    assert_eq!(find_substring_from_index("abc", "", 2), Some(2));
    assert_eq!(find_substring_from_index("abc", "c", 3), None);
    assert_eq!(find_substring_from_index("", "", 0), Some(0));
}

#[test]
fn a_substring_is_found_by_its_byte_offset() {
    let text = "é<p>日本</p>";
    assert_eq!(find_substring_from_index(text, "<p", 0), Some(2));
    assert_eq!(find_substring_from_index(text, "</p>", 2), Some(11));
    assert_eq!(find_substring_from_index(text, "本", 5), Some(8));
    for start in [0, 2, 3, 5, 8, 11, 15] {
        for needle in ["<p", "</p>", ">", "日", "本<", "x", ""] {
            assert_eq!(
                find_substring_from_index(text, needle, start),
                text[start..].find(needle).map(|i| i + start)
            );
        }
    }
}

#[test]
fn a_paragraph_without_markup_alone_in_a_document_has_its_words_wrapped() {
    for (text, language) in [
        ("Hello world", "es"),
        ("  The quick\tbrown\n fox,  jumps! ", "de"),
        ("", "fr"),
        ("¿Qué día?", "es"),
    ] {
        let block = add_language_to_script(SCRIPT, language);
        let wrapped: String = text
            .split_inclusive(char::is_whitespace)
            .map(|piece| {
                let word = piece.trim_end();
                let space = &piece[word.len()..];
                if word.is_empty() {
                    space.to_string()
                } else {
                    format!("{OPEN}{word}{CLOSE}{space}")
                }
            })
            .collect();
        assert_eq!(
            wrap_words_in_paragraphs(&format!("<p>{text}</p>"), language).unwrap(),
            format!("<p>{wrapped}</p>{block}")
        );
    }
}

#[test]
fn a_document_of_closed_paragraphs_is_never_found_unclosed() {
    for html in [
        "<html><body><p>a</p><p class=\"x\">b c</p></body></html>",
        "<p>a</p></body><p>b</p>",
        "<p</p>",
        "<body><p>x<</body>/p></p>",
    ] {
        assert_ne!(
            wrap_words_in_paragraphs(html, "es"),
            Err(MarkupError::UnclosedParagraph)
        );
    }
}
