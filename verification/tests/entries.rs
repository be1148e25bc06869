use xpub::entries::{
    first_repeated_name, is_markup, rewrite_entries, rewrite_entry, ArchiveEntry, EntryError,
    EntryFailure, HTML_SUFFIX, XHTML_SUFFIX,
};
use xpub::html_parser::wrap_words_in_paragraphs;
use xpub::paragraphs::MarkupError;

fn entry(name: &str, bytes: &[u8]) -> ArchiveEntry {
    ArchiveEntry::new(name.to_string(), bytes.to_vec())
}

#[test]
fn the_endings_of_markup() {
    assert_eq!(XHTML_SUFFIX, ".xhtml");
    assert_eq!(HTML_SUFFIX, ".html");
}

#[test]
fn markup_is_told_by_the_end_of_the_name() {
    assert!(is_markup("OEBPS/chapter1.xhtml"));
    assert!(is_markup("index.html"));
    assert!(is_markup(".html"));
    assert!(is_markup("a.html.xhtml"));
    assert!(!is_markup("cover.png"));
    assert!(!is_markup("mimetype"));
    assert!(!is_markup("page.htm"));
    assert!(!is_markup("page.HTML"));
    assert!(!is_markup("page.html "));
    assert!(!is_markup("page.xhtml.bak"));
    assert!(!is_markup("html"));
    assert!(!is_markup(""));
}

#[test]
fn an_entry_holds_what_it_was_made_with() {
    let e = entry("text/ch1.xhtml", b"<p>a</p>");
    assert_eq!(e.name(), "text/ch1.xhtml");
    assert_eq!(e.bytes(), &b"<p>a</p>"[..]);
    assert!(e.is_markup());
    let e = entry("images/cover.png", &[0x89, 0x50, 0x4e, 0x47]);
    assert_eq!(e.name(), "images/cover.png");
    assert_eq!(e.bytes(), &[0x89, 0x50, 0x4e, 0x47][..]);
    assert!(!e.is_markup());
}

#[test]
fn an_entry_that_is_not_markup_is_not_changed() {
    let image = entry("cover.png", &[0x89, 0x50, 0xff, 0xfe, 0x00, b'<', b'p']);
    assert_eq!(
        rewrite_entry(&image, "es"),
        Ok(entry("cover.png", &[0x89, 0x50, 0xff, 0xfe, 0x00, b'<', b'p']))
    );
    let css = entry("style.css", b"p { color: red }");
    assert_eq!(rewrite_entry(&css, "es"), Ok(entry("style.css", b"p { color: red }")));
}

#[test]
fn a_markup_entry_is_transformed() {
    let html = "<html><body><p>Dos palabras</p></body></html>";
    let page = entry("ch1.xhtml", html.as_bytes());
    let expected = wrap_words_in_paragraphs(html, "es").unwrap();
    let out = rewrite_entry(&page, "es").unwrap();
    assert_eq!(out.name(), "ch1.xhtml");
    assert!(out.is_markup());
    assert_eq!(out.bytes(), expected.as_bytes());
    assert_ne!(out.bytes(), html.as_bytes());
}

#[test]
fn a_markup_entry_of_several_byte_characters_is_transformed() {
    let html = "<p>日本語 ¿Qué?</p>";
    let out = rewrite_entry(&entry("a.html", html.as_bytes()), "ja").unwrap();
    let text = String::from_utf8(out.bytes().to_vec()).unwrap();
    assert!(text.starts_with(
        "<p><span onclick=\"window.translate(this)\">日本語</span> <span onclick=\"window.translate(this)\">¿Qué?</span></p>"
    ));
}

#[test]
fn markup_that_is_not_utf8_is_an_error() {
    let page = entry("ch1.xhtml", &[b'<', b'p', b'>', 0xff, b'<', b'/', b'p', b'>']);
    assert_eq!(rewrite_entry(&page, "es"), Err(EntryError::NotUtf8));
    let cut = entry("ch1.html", &[0xe6, 0x97]);
    assert_eq!(rewrite_entry(&cut, "es"), Err(EntryError::NotUtf8));
}

#[test]
fn markup_with_an_unclosed_paragraph_is_an_error() {
    let page = entry("ch1.xhtml", b"<p>Unclosed paragraph");
    assert_eq!(
        rewrite_entry(&page, "es"),
        Err(EntryError::Markup(MarkupError::UnclosedParagraph))
    );
    let page = entry("ch1.html", b"<p</p>");
    assert_eq!(
        rewrite_entry(&page, "es"),
        Err(EntryError::Markup(MarkupError::UnclosedOpeningTag))
    );
}

#[test]
fn entries_keep_their_order_and_names_and_the_others_their_bytes() {
    let html = "<p>a b</p>";
    let entries = vec![
        entry("mimetype", b"application/epub+zip"),
        entry("ch2.xhtml", html.as_bytes()),
        entry("img.jpg", &[0xff, 0xd8, 0xff, 0x00]),
        entry("ch1.html", b"<div>x</div>"),
    ];
    let out = rewrite_entries(&entries, "es").unwrap();
    assert_eq!(out.len(), 4);
    for (before, after) in entries.iter().zip(out.iter()) {
        assert_eq!(after.name(), before.name());
        if !before.is_markup() {
            assert_eq!(after.bytes(), before.bytes());
        }
    }
    assert_eq!(
        out[1].bytes(),
        wrap_words_in_paragraphs(html, "es").unwrap().as_bytes()
    );
    assert_eq!(
        out[3].bytes(),
        wrap_words_in_paragraphs("<div>x</div>", "es").unwrap().as_bytes()
    );
}

#[test]
fn no_entries_are_rewritten_to_no_entries() {
    assert_eq!(rewrite_entries(&[], "es"), Ok(vec![]));
}

#[test]
fn the_first_entry_that_cannot_be_rewritten_is_named() {
    let entries = vec![
        entry("a.png", &[1, 2, 3]),
        entry("b.xhtml", b"<p>fine</p>"),
        entry("c.xhtml", &[0xc0]),
        entry("d.xhtml", b"<p>open"),
    ];
    assert_eq!(
        rewrite_entries(&entries, "es"),
        Err(EntryFailure { index: 2, error: EntryError::NotUtf8 })
    );
    let entries = vec![entry("d.xhtml", b"<p>open"), entry("c.xhtml", &[0xc0])];
    assert_eq!(
        rewrite_entries(&entries, "es"),
        Err(EntryFailure {
            index: 0,
            error: EntryError::Markup(MarkupError::UnclosedParagraph),
        })
    );
}

#[test]
fn the_first_entry_with_a_name_that_came_before_is_found() {
    assert_eq!(first_repeated_name(&[]), None);
    assert_eq!(first_repeated_name(&[entry("a", b"")]), None);
    assert_eq!(
        first_repeated_name(&[entry("a", b"1"), entry("b", b"1"), entry("A", b"1")]),
        None
    );
    assert_eq!(
        first_repeated_name(&[entry("a", b"1"), entry("b", b"2"), entry("a", b"3")]),
        Some(2)
    );
    assert_eq!(
        first_repeated_name(&[
            entry("a", b"1"),
            entry("b", b"2"),
            entry("b", b"2"),
            entry("a", b"3"),
        ]),
        Some(2)
    );
}
