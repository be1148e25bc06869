//! What holds of the rewriting of paragraphs for every document.

use crate::paragraphs::{
    lemma_region_bounds, located, located_from, region_from, MarkupError, PARAGRAPH_CLOSE,
    PARAGRAPH_OPEN,
};
use crate::text::{find_from, lemma_find_from_is_first, occurs_at};
use crate::tokens::TAG_END;
use crate::word_laws::lemma_wrapped_is_no_shorter;
use vstd::prelude::*;

verus! {

/// Whether a `</p>` follows every `<p` of the document.
pub open spec fn every_paragraph_is_closed(doc: Seq<char>) -> bool {
    forall|i: int| #[trigger]
        occurs_at(doc, PARAGRAPH_OPEN@, i) ==> exists|j: int|
            i <= j && #[trigger] occurs_at(doc, PARAGRAPH_CLOSE@, j)
}

/// Whether a `>` stands between every `<p` of the document and every
/// `</p>` that follows it.
pub open spec fn every_opening_tag_ends(doc: Seq<char>) -> bool {
    forall|i: int, j: int|
        i <= j && #[trigger] occurs_at(doc, PARAGRAPH_OPEN@, i) && #[trigger] occurs_at(
            doc,
            PARAGRAPH_CLOSE@,
            j,
        ) ==> exists|g: int| i <= g < j && #[trigger] doc[g] == '>'
}

/// A document without `<p` is not changed.
pub proof fn lemma_no_paragraph_no_change(doc: Seq<char>)
    requires
        forall|i: int| !occurs_at(doc, PARAGRAPH_OPEN@, i),
    ensures
        located(doc) == Ok::<Seq<char>, MarkupError>(doc),
{
    lemma_find_from_is_first(doc, PARAGRAPH_OPEN@, 0);
    assert(doc.skip(0) =~= doc);
}

/// Where a `</p>` follows every `<p`, no paragraph is found unclosed.
pub proof fn lemma_closed_paragraphs_are_found_closed(doc: Seq<char>)
    requires
        every_paragraph_is_closed(doc),
    ensures
        located(doc) != Err::<Seq<char>, MarkupError>(MarkupError::UnclosedParagraph),
{
    lemma_closed_from(doc, 0);
}

proof fn lemma_closed_from(doc: Seq<char>, cursor: int)
    requires
        every_paragraph_is_closed(doc),
        0 <= cursor,
    ensures
        located_from(doc, cursor) != Err::<Seq<char>, MarkupError>(MarkupError::UnclosedParagraph),
    decreases doc.len() - cursor,
{
    lemma_region_bounds(doc, cursor);
    lemma_find_from_is_first(doc, PARAGRAPH_OPEN@, cursor);
    match find_from(doc, PARAGRAPH_OPEN@, cursor) {
        Some(start) => {
            lemma_find_from_is_first(doc, PARAGRAPH_CLOSE@, start);
            assert(occurs_at(doc, PARAGRAPH_OPEN@, start));
        },
        None => {},
    }
    match region_from(doc, cursor) {
        Ok(Some(region)) => {
            lemma_closed_from(doc, region.close + PARAGRAPH_CLOSE@.len());
        },
        _ => {},
    }
}

/// Where a `</p>` follows every `<p`, and every opening tag ends before
/// it, the document is rewritten and no error comes.
pub proof fn lemma_closed_paragraphs_are_rewritten(doc: Seq<char>)
    requires
        every_paragraph_is_closed(doc),
        every_opening_tag_ends(doc),
    ensures
        located(doc) is Ok,
{
    lemma_rewritten_from(doc, 0);
}

proof fn lemma_rewritten_from(doc: Seq<char>, cursor: int)
    requires
        every_paragraph_is_closed(doc),
        every_opening_tag_ends(doc),
        0 <= cursor,
    ensures
        located_from(doc, cursor) is Ok,
    decreases doc.len() - cursor,
{
    reveal_strlit(">");
    lemma_region_bounds(doc, cursor);
    lemma_find_from_is_first(doc, PARAGRAPH_OPEN@, cursor);
    match find_from(doc, PARAGRAPH_OPEN@, cursor) {
        Some(start) => {
            lemma_find_from_is_first(doc, PARAGRAPH_CLOSE@, start);
            lemma_find_from_is_first(doc, TAG_END@, start);
            assert(occurs_at(doc, PARAGRAPH_OPEN@, start));
            match find_from(doc, PARAGRAPH_CLOSE@, start) {
                Some(close) => {
                    assert(occurs_at(doc, PARAGRAPH_CLOSE@, close));
                    let g = choose|g: int| start <= g < close && #[trigger] doc[g] == '>';
                    assert(doc.subrange(g, g + 1) =~= TAG_END@);
                    assert(occurs_at(doc, TAG_END@, g));
                },
                None => {},
            }
        },
        None => {},
    }
    match region_from(doc, cursor) {
        Ok(Some(region)) => {
            lemma_rewritten_from(doc, region.close + PARAGRAPH_CLOSE@.len());
        },
        _ => {},
    }
}

/// Rewriting never shortens a document.
pub proof fn lemma_located_is_no_shorter(doc: Seq<char>)
    ensures
        match located(doc) {
            Ok(text) => text.len() >= doc.len(),
            Err(_) => true,
        },
{
    lemma_no_shorter_from(doc, 0);
}

proof fn lemma_no_shorter_from(doc: Seq<char>, cursor: int)
    requires
        0 <= cursor <= doc.len(),
    ensures
        match located_from(doc, cursor) {
            Ok(text) => text.len() >= doc.len() - cursor,
            Err(_) => true,
        },
    decreases doc.len() - cursor,
{
    lemma_region_bounds(doc, cursor);
    match region_from(doc, cursor) {
        Ok(Some(region)) => {
            lemma_no_shorter_from(doc, region.close + PARAGRAPH_CLOSE@.len());
            lemma_wrapped_is_no_shorter(doc.subrange(region.open_tag_end, region.close));
        },
        _ => {},
    }
}

} // verus!
