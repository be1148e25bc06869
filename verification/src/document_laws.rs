//! What holds of the transformation of a document, block and all.
//!
//! The laws here speak of the document before the block is put in. They ask
//! of the language only that it holds no start of a paragraph.

use crate::html_parser::transformed;
use crate::paragraph_laws::{
    every_opening_tag_ends, every_paragraph_is_closed, lemma_closed_paragraphs_are_found_closed,
    lemma_closed_paragraphs_are_rewritten,
};
use crate::paragraphs::{
    located, located_from, region_from, MarkupError, Region, PARAGRAPH_CLOSE, PARAGRAPH_OPEN,
};
use crate::script::{
    after_first_line, brings_no_paragraph, first_line, holds_no_close, injected,
    is_script_tag_line, language_line, lemma_line_len_bounds, lemma_script_brings_no_paragraph,
    line_len, with_language, BODY_CLOSE, LANGUAGE_PREFIX, LANGUAGE_SUFFIX, SCRIPT,
};
use crate::text::{
    find_from, find_last, lemma_find_from_is_first, lemma_find_last_is_last,
    lemma_first_is_find_from, occurs_at,
};
use crate::tokens::{lexed, wrapped, wrapper_payloads, TAG_END};
use crate::word_laws::{has_no_markup, lemma_words_are_the_wrapper_payloads, rendered_apart};
use crate::words::words;
use vstd::prelude::*;

verus! {

/// Whether no `p` of a text follows a `<`.
pub open spec fn holds_no_paragraph(text: Seq<char>) -> bool {
    forall|i: int| 0 < i < text.len() && #[trigger] text[i] == 'p' ==> text[i - 1] != '<'
}

/// `<p` stands where a `<` and then a `p` stand.
proof fn lemma_paragraph_opens_at(text: Seq<char>, i: int)
    ensures
        occurs_at(text, PARAGRAPH_OPEN@, i) <==> 0 <= i && i + 2 <= text.len() && text[i] == '<'
            && text[i + 1] == 'p',
{
    reveal_strlit("<p");
    let open = PARAGRAPH_OPEN@;
    if 0 <= i && i + 2 <= text.len() {
        let sub = text.subrange(i, i + 2);
        assert(sub[0] == text[i]);
        assert(sub[1] == text[i + 1]);
        if text[i] == '<' && text[i + 1] == 'p' {
            assert(sub =~= open);
        }
    }
}

/// `</p>` stands where its four characters stand.
proof fn lemma_paragraph_closes_at(text: Seq<char>, i: int)
    ensures
        occurs_at(text, PARAGRAPH_CLOSE@, i) <==> 0 <= i && i + 4 <= text.len() && text[i] == '<'
            && text[i + 1] == '/' && text[i + 2] == 'p' && text[i + 3] == '>',
{
    reveal_strlit("</p>");
    let close = PARAGRAPH_CLOSE@;
    if 0 <= i && i + 4 <= text.len() {
        let sub = text.subrange(i, i + 4);
        assert(sub[0] == text[i]);
        assert(sub[1] == text[i + 1]);
        assert(sub[2] == text[i + 2]);
        assert(sub[3] == text[i + 3]);
        if text[i] == '<' && text[i + 1] == '/' && text[i + 2] == 'p' && text[i + 3] == '>' {
            assert(sub =~= close);
        }
    }
}

/// Where `</body>` stands, a `<`, then a `/` and then a `b` stand.
proof fn lemma_body_closes_at(text: Seq<char>, i: int)
    requires
        occurs_at(text, BODY_CLOSE@, i),
    ensures
        0 <= i,
        i + 7 <= text.len(),
        text[i] == '<',
        text[i + 1] == '/',
        text[i + 2] == 'b',
{
    reveal_strlit("</body>");
    let sub = text.subrange(i, i + 7);
    assert(sub[0] == text[i]);
    assert(sub[1] == text[i + 1]);
    assert(sub[2] == text[i + 2]);
}

/// Two texts that hold no start of a paragraph hold none together, unless
/// the first ends with `<` and the second starts with `p`.
proof fn lemma_no_paragraph_in_both(first: Seq<char>, second: Seq<char>)
    requires
        holds_no_paragraph(first),
        holds_no_paragraph(second),
        first.len() == 0 || second.len() == 0 || first.last() != '<' || second[0] != 'p',
    ensures
        holds_no_paragraph(first + second),
{
    let both = first + second;
    assert forall|i: int| 0 < i < both.len() && #[trigger] both[i] == 'p' implies both[i - 1]
        != '<' by {
        if i < first.len() {
            assert(both[i] == first[i]);
            assert(both[i - 1] == first[i - 1]);
        } else if i == first.len() {
            assert(both[i] == second[0]);
            assert(both[i - 1] == first.last());
        } else {
            assert(both[i] == second[i - first.len()]);
            assert(both[i - 1] == second[i - first.len() - 1]);
        }
    }
}

/// A part of a text that holds no start of a paragraph holds none.
proof fn lemma_no_paragraph_in_part(text: Seq<char>, from: int, to: int)
    requires
        holds_no_paragraph(text),
        0 <= from <= to <= text.len(),
    ensures
        holds_no_paragraph(text.subrange(from, to)),
{
    let part = text.subrange(from, to);
    assert forall|i: int| 0 < i < part.len() && #[trigger] part[i] == 'p' implies part[i - 1]
        != '<' by {
        assert(part[i] == text[from + i]);
        assert(part[i - 1] == text[from + i - 1]);
    }
}

/// The script with the language declared holds no start of a paragraph
/// where neither the script nor the language holds one, and ends every
/// line with a line feed.
proof fn lemma_no_paragraph_with_language(script: Seq<char>, language: Seq<char>)
    requires
        holds_no_paragraph(script),
        holds_no_paragraph(language),
    ensures
        holds_no_paragraph(with_language(script, language)),
        script.len() > 0 ==> with_language(script, language).len() > 0 && with_language(
            script,
            language,
        ).last() == '\n',
        script.len() > 0 && script[0] != 'p' ==> with_language(script, language)[0] != 'p',
    decreases script.len(),
{
    if script.len() > 0 {
        reveal_strlit("    const language = \"");
        reveal_strlit("\";");
        lemma_line_len_bounds(script);
        let line = first_line(script);
        let rest = after_first_line(script);
        let feed = seq!['\n'];
        let tail = with_language(rest, language);
        let n = line_len(script);
        lemma_no_paragraph_with_language(rest, language);
        if 0 < n < script.len() && script[n - 1] == '\r' {
            assert(line =~= script.subrange(0, n - 1));
            lemma_no_paragraph_in_part(script, 0, n - 1);
        } else {
            assert(line =~= script.subrange(0, n));
            lemma_no_paragraph_in_part(script, 0, n);
        }
        if n < script.len() {
            assert(rest =~= script.subrange(n + 1, script.len() as int));
            lemma_no_paragraph_in_part(script, n + 1, script.len() as int);
        }
        assert(holds_no_paragraph(feed));
        lemma_no_paragraph_in_both(line, feed);
        let declared = language_line(language) + feed;
        lemma_no_paragraph_in_both(LANGUAGE_PREFIX@, language);
        lemma_no_paragraph_in_both(LANGUAGE_PREFIX@ + language, LANGUAGE_SUFFIX@);
        lemma_no_paragraph_in_both(language_line(language), feed);
        lemma_no_paragraph_in_both(line + feed, declared);
        lemma_no_paragraph_in_both(line + feed, Seq::<char>::empty());
        assert(line + feed + Seq::<char>::empty() =~= line + feed);
        let head = if is_script_tag_line(line) {
            line + feed + declared
        } else {
            line + feed
        };
        assert(head.last() == '\n');
        lemma_no_paragraph_in_both(head, tail);
        assert(with_language(script, language) =~= head + tail);
        if tail.len() == 0 {
            assert(head + tail =~= head);
        }
        if line.len() > 0 {
            assert(line[0] == script[0]);
        }
    }
}

/// A script with the language declared brings no start of a paragraph
/// where the script brings none and the language holds none.
pub proof fn lemma_block_brings_no_paragraph(script: Seq<char>, language: Seq<char>)
    requires
        brings_no_paragraph(script),
        holds_no_paragraph(language),
    ensures
        brings_no_paragraph(with_language(script, language)),
{
    let block = with_language(script, language);
    assert(holds_no_paragraph(script));
    lemma_no_paragraph_with_language(script, language);
    if script.len() > 0 {
        assert(script[0] != 'p');
    }
}

/// Whether a character is one of `</p>` but its last.
spec fn starts_a_close(c: char) -> bool {
    c == '<' || c == '/' || c == 'p'
}

/// Whether a character is one of `</p>` but its first.
spec fn ends_a_close(c: char) -> bool {
    c == '/' || c == 'p' || c == '>'
}

/// Two texts that hold no `</p>` hold none together, unless one could
/// start where the first ends and end where the second starts.
proof fn lemma_no_close_in_both(first: Seq<char>, second: Seq<char>)
    requires
        holds_no_close(first),
        holds_no_close(second),
        first.len() == 0 || second.len() == 0 || !starts_a_close(first.last()) || !ends_a_close(
            second[0],
        ),
    ensures
        holds_no_close(first + second),
{
    let both = first + second;
    let n = first.len() as int;
    assert forall|i: int| 0 <= i && i + 3 < both.len() && #[trigger] both[i] == '<' implies !(
    both[i + 1] == '/' && both[i + 2] == 'p' && both[i + 3] == '>') by {
        assert forall|k: int| 0 <= k < both.len() implies both[k] == (if k < n {
            first[k]
        } else {
            second[k - n]
        }) by {}
        if i + 3 < n {
            assert(first[i] == '<');
        } else if i >= n {
            assert(second[i - n] == '<');
        } else {
            assert(both[n - 1] == first.last());
            assert(both[n] == second[0]);
        }
    }
}

/// A part of a text that holds no `</p>` holds none.
proof fn lemma_no_close_in_part(text: Seq<char>, from: int, to: int)
    requires
        holds_no_close(text),
        0 <= from <= to <= text.len(),
    ensures
        holds_no_close(text.subrange(from, to)),
{
    let part = text.subrange(from, to);
    assert forall|i: int| 0 <= i && i + 3 < part.len() && #[trigger] part[i] == '<' implies !(
    part[i + 1] == '/' && part[i + 2] == 'p' && part[i + 3] == '>') by {
        assert(text[from + i] == '<');
        assert(part[i + 1] == text[from + i + 1]);
        assert(part[i + 2] == text[from + i + 2]);
        assert(part[i + 3] == text[from + i + 3]);
    }
}

/// The line that declares a language that holds no `</p>`, with its line
/// feed, holds none, and no character of `</p>` at its ends.
proof fn lemma_no_close_in_declaration(language: Seq<char>)
    requires
        holds_no_close(language),
    ensures
        holds_no_close(language_line(language) + seq!['\n']),
        !ends_a_close((language_line(language) + seq!['\n'])[0]),
        (language_line(language) + seq!['\n']).last() == '\n',
{
    reveal_strlit("    const language = \"");
    reveal_strlit("\";");
    let feed = seq!['\n'];
    assert(holds_no_close(feed));
    assert(holds_no_close(LANGUAGE_PREFIX@));
    assert(holds_no_close(LANGUAGE_SUFFIX@));
    lemma_no_close_in_both(LANGUAGE_PREFIX@, language);
    lemma_no_close_in_both(LANGUAGE_PREFIX@ + language, LANGUAGE_SUFFIX@);
    lemma_no_close_in_both(language_line(language), feed);
    assert((language_line(language) + feed)[0] == LANGUAGE_PREFIX@[0]);
}

/// A first line and the rest of a script that holds no `</p>` hold none.
proof fn lemma_no_close_in_lines(script: Seq<char>)
    requires
        holds_no_close(script),
        script.len() > 0,
    ensures
        holds_no_close(first_line(script)),
        holds_no_close(after_first_line(script)),
        after_first_line(script).len() < script.len(),
        script[0] == '\n' ==> first_line(script).len() == 0,
{
    lemma_line_len_bounds(script);
    let n = line_len(script);
    if 0 < n < script.len() && script[n - 1] == '\r' {
        assert(first_line(script) =~= script.subrange(0, n - 1));
        lemma_no_close_in_part(script, 0, n - 1);
    } else {
        assert(first_line(script) =~= script.subrange(0, n));
        lemma_no_close_in_part(script, 0, n);
    }
    if n < script.len() {
        assert(after_first_line(script) =~= script.subrange(n + 1, script.len() as int));
        lemma_no_close_in_part(script, n + 1, script.len() as int);
    }
}

/// The script with the language declared holds no `</p>` where neither
/// the script nor the language holds one, and starts with a line feed
/// where the script does.
proof fn lemma_no_close_with_language(script: Seq<char>, language: Seq<char>)
    requires
        holds_no_close(script),
        holds_no_close(language),
    ensures
        holds_no_close(with_language(script, language)),
        script.len() > 0 ==> with_language(script, language).len() > 0 && with_language(
            script,
            language,
        ).last() == '\n',
        script.len() > 0 && script[0] == '\n' ==> with_language(script, language)[0] == '\n',
    decreases script.len(),
{
    if script.len() > 0 {
        let line = first_line(script);
        let rest = after_first_line(script);
        let feed = seq!['\n'];
        let tail = with_language(rest, language);
        let declared = language_line(language) + feed;
        lemma_no_close_in_lines(script);
        lemma_no_close_with_language(rest, language);
        lemma_no_close_in_declaration(language);
        assert(holds_no_close(feed));
        lemma_no_close_in_both(line, feed);
        lemma_no_close_in_both(line + feed, declared);
        let head = if is_script_tag_line(line) {
            line + feed + declared
        } else {
            line + feed
        };
        assert(head.last() == '\n');
        lemma_no_close_in_both(head, tail);
        assert(with_language(script, language) =~= head + tail);
        if tail.len() == 0 {
            assert(head + tail =~= head);
        }
        if script[0] == '\n' {
            assert(head[0] == '\n');
        }
    }
}

/// The block for a language that holds no start of a paragraph brings
/// none.
pub proof fn lemma_the_block_brings_no_paragraph(language: Seq<char>)
    requires
        holds_no_paragraph(language),
    ensures
        brings_no_paragraph(with_language(SCRIPT@, language)),
{
    lemma_script_brings_no_paragraph();
    lemma_block_brings_no_paragraph(SCRIPT@, language);
}

/// Where a `</p>` follows every `<p` of a document, and the language
/// holds no start of a paragraph, a `</p>` follows every `<p` of the
/// document with the block in it.
proof fn lemma_closed_paragraphs_in_document(html: Seq<char>, language: Seq<char>)
    requires
        every_paragraph_is_closed(html),
        holds_no_paragraph(language),
    ensures
        every_paragraph_is_closed(injected(html, language)),
{
    lemma_the_block_brings_no_paragraph(language);
    let block = with_language(SCRIPT@, language);
    let doc = injected(html, language);
    lemma_find_last_is_last(html, BODY_CLOSE@);
    let at: int = match find_last(html, BODY_CLOSE@) {
        Some(b) => b,
        None => html.len() as int,
    };
    if find_last(html, BODY_CLOSE@) is Some {
        lemma_body_closes_at(html, at);
    }
    assert(doc =~= html.take(at) + block + html.skip(at)) by {
        assert(html.take(html.len() as int) =~= html);
        assert(html.skip(html.len() as int) =~= Seq::<char>::empty());
    }
    let size = block.len() as int;
    // What stands in the document, by its place.
    assert forall|k: int| 0 <= k < doc.len() implies #[trigger] doc[k] == (if k < at {
        html[k]
    } else if k < at + size {
        block[k - at]
    } else {
        html[k - size]
    }) by {}
    assert forall|i: int| #[trigger] occurs_at(doc, PARAGRAPH_OPEN@, i) implies exists|j: int|
        i <= j && #[trigger] occurs_at(doc, PARAGRAPH_CLOSE@, j) by {
        lemma_paragraph_opens_at(doc, i);
        // The `p` is not of the block, so the `<p` is of the document.
        let from: int = if i + 1 < at {
            i
        } else {
            i - size
        };
        if at <= i + 1 < at + size {
            assert(block[i + 1 - at] == 'p');
        }
        assert(i + 1 < at || i >= at + size);
        lemma_paragraph_opens_at(html, from);
        assert(occurs_at(html, PARAGRAPH_OPEN@, from));
        let close = choose|j: int| from <= j && #[trigger] occurs_at(html, PARAGRAPH_CLOSE@, j);
        lemma_paragraph_closes_at(html, close);
        let to: int = if close + 4 <= at {
            close
        } else {
            close + size
        };
        assert(close + 4 <= at || close >= at);
        lemma_paragraph_closes_at(doc, to);
        assert(occurs_at(doc, PARAGRAPH_CLOSE@, to));
    }
}

/// Where a `</p>` follows every `<p` of a document, and the language
/// holds no start of a paragraph, the transformation finds no paragraph
/// unclosed.
pub proof fn lemma_closed_document_is_found_closed(html: Seq<char>, language: Seq<char>)
    requires
        every_paragraph_is_closed(html),
        holds_no_paragraph(language),
    ensures
        transformed(html, language) != Err::<Seq<char>, MarkupError>(
            MarkupError::UnclosedParagraph,
        ),
{
    lemma_closed_paragraphs_in_document(html, language);
    lemma_closed_paragraphs_are_found_closed(injected(html, language));
}

/// Where a `</p>` follows every `<p` of a document and a `>` stands
/// between them, and the language holds neither `<p` nor `</p>`, the
/// document is transformed and no error comes.
pub proof fn lemma_closed_document_is_rewritten(html: Seq<char>, language: Seq<char>)
    requires
        every_paragraph_is_closed(html),
        every_opening_tag_ends(html),
        holds_no_paragraph(language),
        holds_no_close(language),
    ensures
        transformed(html, language) is Ok,
{
    lemma_script_brings_no_paragraph();
    lemma_the_block_brings_no_paragraph(language);
    lemma_no_close_with_language(SCRIPT@, language);
    let block = with_language(SCRIPT@, language);
    let doc = injected(html, language);
    lemma_find_last_is_last(html, BODY_CLOSE@);
    let at: int = match find_last(html, BODY_CLOSE@) {
        Some(b) => b,
        None => html.len() as int,
    };
    if find_last(html, BODY_CLOSE@) is Some {
        lemma_body_closes_at(html, at);
    }
    assert(doc =~= html.take(at) + block + html.skip(at)) by {
        assert(html.take(html.len() as int) =~= html);
        assert(html.skip(html.len() as int) =~= Seq::<char>::empty());
    }
    let size = block.len() as int;
    assert(block[0] == '\n');
    assert(block[size - 1] == '\n');
    assert forall|k: int| 0 <= k < doc.len() implies #[trigger] doc[k] == (if k < at {
        html[k]
    } else if k < at + size {
        block[k - at]
    } else {
        html[k - size]
    }) by {}
    lemma_closed_paragraphs_in_document(html, language);
    assert forall|i: int, j: int|
        i <= j && #[trigger] occurs_at(doc, PARAGRAPH_OPEN@, i) && #[trigger] occurs_at(
            doc,
            PARAGRAPH_CLOSE@,
            j,
        ) implies exists|g: int| i <= g < j && #[trigger] doc[g] == '>' by {
        lemma_paragraph_opens_at(doc, i);
        lemma_paragraph_closes_at(doc, j);
        // Neither is of the block.
        if at <= i + 1 < at + size {
            assert(block[i + 1 - at] == 'p');
        }
        assert(i + 1 < at || i >= at + size);
        if at <= j && j + 3 < at + size {
            assert(block[j - at] == '<');
        }
        assert(j + 4 <= at || j >= at + size);
        let from: int = if i + 1 < at {
            i
        } else {
            i - size
        };
        let to: int = if j + 4 <= at {
            j
        } else {
            j - size
        };
        lemma_paragraph_opens_at(html, from);
        lemma_paragraph_closes_at(html, to);
        let end = choose|g: int| from <= g < to && #[trigger] html[g] == '>';
        let g: int = if end < at {
            end
        } else {
            end + size
        };
        assert(doc[g] == '>');
        assert(i <= g < j);
    }
    lemma_closed_paragraphs_are_rewritten(doc);
}

/// A paragraph without markup, alone in a document, has each of its words
/// wrapped, and the block follows it.
///
/// Where no character of the text is `<` and the language holds no start
/// of a paragraph, the document `<p>`, text, `</p>` becomes `<p>`, the
/// text with every word in a wrapper of its own and the whitespace as it
/// was, `</p>`, and the block. What the wrappers hold, from left to right,
/// is the words of the text.
pub proof fn lemma_plain_paragraph_is_wrapped(text: Seq<char>, language: Seq<char>)
    requires
        has_no_markup(text),
        holds_no_paragraph(language),
    ensures
        transformed("<p>"@ + text + PARAGRAPH_CLOSE@, language) == Ok::<Seq<char>, MarkupError>(
            "<p>"@ + rendered_apart(lexed(text)) + PARAGRAPH_CLOSE@ + with_language(
                SCRIPT@,
                language,
            ),
        ),
        wrapper_payloads(lexed(text)) == words(text),
{
    reveal_strlit("<p>");
    reveal_strlit("</p>");
    reveal_strlit(">");
    reveal_strlit("<p");
    lemma_the_block_brings_no_paragraph(language);
    let block = with_language(SCRIPT@, language);
    let html = "<p>"@ + text + PARAGRAPH_CLOSE@;
    let n = text.len() as int;
    let size = block.len() as int;
    lemma_words_are_the_wrapper_payloads(text);
    assert forall|k: int| 0 <= k < html.len() implies #[trigger] html[k] == (if k < 3 {
        "<p>"@[k]
    } else if k < 3 + n {
        text[k - 3]
    } else {
        PARAGRAPH_CLOSE@[k - 3 - n]
    }) by {}
    // No body closes in the document, so the block goes to its end.
    lemma_find_last_is_last(html, BODY_CLOSE@);
    match find_last(html, BODY_CLOSE@) {
        Some(b) => {
            lemma_body_closes_at(html, b);
            if 3 <= b < 3 + n {
                assert(text[b - 3] == '<');
            }
            assert(false);
        },
        None => {},
    }
    let doc = html + block;
    assert(injected(html, language) == doc);
    assert forall|k: int| 0 <= k < doc.len() implies #[trigger] doc[k] == (if k < 3 + n + 4 {
        html[k]
    } else {
        block[k - 7 - n]
    }) by {}
    // The one paragraph.
    lemma_paragraph_opens_at(doc, 0);
    lemma_first_is_find_from(doc, PARAGRAPH_OPEN@, 0, 0);
    lemma_paragraph_closes_at(doc, 3 + n);
    assert forall|j: int| 0 <= j < 3 + n implies !occurs_at(doc, PARAGRAPH_CLOSE@, j) by {
        lemma_paragraph_closes_at(doc, j);
        if 3 <= j {
            assert(text[j - 3] != '<');
        }
    }
    lemma_first_is_find_from(doc, PARAGRAPH_CLOSE@, 0, 3 + n);
    assert(doc.subrange(2, 3) =~= TAG_END@);
    assert forall|j: int| 0 <= j < 2 implies !occurs_at(doc, TAG_END@, j) by {
        if occurs_at(doc, TAG_END@, j) {
            assert(doc.subrange(j, j + 1)[0] == doc[j]);
        }
    }
    lemma_first_is_find_from(doc, TAG_END@, 0, 2);
    // Nothing of the block starts a paragraph.
    lemma_find_from_is_first(doc, PARAGRAPH_OPEN@, 7 + n);
    match find_from(doc, PARAGRAPH_OPEN@, 7 + n) {
        Some(i) => {
            lemma_paragraph_opens_at(doc, i);
            assert(block[i + 1 - 7 - n] == 'p');
            assert(doc[i] == block[i - 7 - n]);
            assert(false);
        },
        None => {},
    }
    assert(region_from(doc, 7 + n) == Ok::<Option<Region>, MarkupError>(None));
    assert(located_from(doc, 7 + n) == Ok::<Seq<char>, MarkupError>(doc.skip(7 + n)));
    assert(doc.skip(7 + n) =~= block);
    assert(doc.subrange(0, 3) =~= "<p>"@);
    assert(doc.subrange(3, 3 + n) =~= text);
    assert(located(doc) == Ok::<Seq<char>, MarkupError>(
        "<p>"@ + wrapped(text) + PARAGRAPH_CLOSE@ + block,
    ));
}

} // verus!
