//! The search for the paragraphs of a document and the rewriting of each.
//!
//! A paragraph starts at `<p` and ends at the next `</p>`. Nothing else is
//! tracked: paragraphs are taken not to nest. The opening tag is kept as it
//! stands, with its attributes; the text between it and `</p>` has its words
//! wrapped; everything outside the paragraphs is kept as it stands.

use crate::text::{find_from, find_index_from, lemma_find_from_is_first, push_range, to_chars};
use crate::tokens::{render_into, tokenize_chars, wrapped, TAG_END};
use vstd::prelude::*;
use vstd::slice::slice_subrange;
use vstd::string::StringExecFns;

verus! {

/// The characters with which a paragraph's opening tag starts.
pub const PARAGRAPH_OPEN: &'static str = "<p";

/// The tag that ends a paragraph.
pub const PARAGRAPH_CLOSE: &'static str = "</p>";

/// Why a document cannot be rewritten.
#[derive(Debug, Clone, Copy, PartialEq, Eq, Structural)]
pub enum MarkupError {
    /// A paragraph starts and no `</p>` follows.
    UnclosedParagraph,
    /// A paragraph starts and its opening tag has no `>` before the
    /// paragraph's `</p>`.
    UnclosedOpeningTag,
}

impl MarkupError {
    /// The error in words.
    pub fn message(&self) -> (text: &'static str)
        ensures
            text@ == (match *self {
                MarkupError::UnclosedParagraph => "Malformed html. Could not find closing p tag."@,
                MarkupError::UnclosedOpeningTag =>
                    "Malformed html. Could not find closing '>' for opening p tag."@,
            }),
    {
        match self {
            MarkupError::UnclosedParagraph => "Malformed html. Could not find closing p tag.",
            MarkupError::UnclosedOpeningTag => {
                "Malformed html. Could not find closing '>' for opening p tag."
            },
        }
    }
}

/// Where a paragraph lies in a document, in characters from its start.
#[derive(Debug, Clone, Copy, PartialEq, Eq, Structural)]
pub struct ParagraphRegion {
    /// Where the opening tag starts.
    pub start_offset: usize,
    /// Where the inner text starts, just after the `>` of the opening tag.
    pub open_tag_end_offset: usize,
    /// Where the inner text ends and `</p>` starts.
    pub close_offset: usize,
}

/// A paragraph's place as a mathematical value.
pub struct Region {
    pub start: int,
    pub open_tag_end: int,
    pub close: int,
}

impl View for ParagraphRegion {
    type V = Region;

    open spec fn view(&self) -> Region {
        Region {
            start: self.start_offset as int,
            open_tag_end: self.open_tag_end_offset as int,
            close: self.close_offset as int,
        }
    }
}

/// The first paragraph at or after `cursor`: none where no `<p` follows,
/// an error where one follows and is not closed.
pub open spec fn region_from(doc: Seq<char>, cursor: int) -> Result<Option<Region>, MarkupError> {
    match find_from(doc, PARAGRAPH_OPEN@, cursor) {
        None => Ok(None),
        Some(start) => match find_from(doc, PARAGRAPH_CLOSE@, start) {
            None => Err(MarkupError::UnclosedParagraph),
            Some(close) => match find_from(doc, TAG_END@, start) {
                None => Err(MarkupError::UnclosedOpeningTag),
                Some(end) => if end < close {
                    Ok(Some(Region { start, open_tag_end: end + TAG_END@.len(), close }))
                } else {
                    Err(MarkupError::UnclosedOpeningTag)
                },
            },
        },
    }
}

/// What a text becomes behind a text that is already written.
pub open spec fn prefixed(
    written: Seq<char>,
    rest: Result<Seq<char>, MarkupError>,
) -> Result<Seq<char>, MarkupError> {
    match rest {
        Ok(text) => Ok(written + text),
        Err(e) => Err(e),
    }
}

/// The part of the document from `cursor` on, with each paragraph
/// rewritten, or the error of the first paragraph that is not closed.
pub open spec fn located_from(doc: Seq<char>, cursor: int) -> Result<Seq<char>, MarkupError>
    decreases doc.len() - cursor,
    via located_from_decreases
{
    match region_from(doc, cursor) {
        Err(e) => Err(e),
        Ok(None) => Ok(doc.skip(cursor)),
        Ok(Some(region)) => prefixed(
            doc.subrange(cursor, region.open_tag_end) + wrapped(
                doc.subrange(region.open_tag_end, region.close),
            ) + PARAGRAPH_CLOSE@,
            located_from(doc, region.close + PARAGRAPH_CLOSE@.len()),
        ),
    }
}

#[via_fn]
proof fn located_from_decreases(doc: Seq<char>, cursor: int) {
    if cursor >= 0 {
        lemma_region_bounds(doc, cursor);
    }
}

/// The document with each paragraph rewritten, or the error of the first
/// paragraph that is not closed.
pub open spec fn located(doc: Seq<char>) -> Result<Seq<char>, MarkupError> {
    located_from(doc, 0)
}

/// A result that holds a string, as one that holds its characters.
pub open spec fn result_view(r: Result<String, MarkupError>) -> Result<Seq<char>, MarkupError> {
    match r {
        Ok(text) => Ok(text@),
        Err(e) => Err(e),
    }
}

/// A region as it is handed out, against the one that the document has.
pub open spec fn region_view(
    r: Result<Option<ParagraphRegion>, MarkupError>,
) -> Result<Option<Region>, MarkupError> {
    match r {
        Ok(Some(region)) => Ok(Some(region@)),
        Ok(None) => Ok(None),
        Err(e) => Err(e),
    }
}

/// A region that is found lies within the document, in order, behind the
/// cursor, with `<p` at its start, `>` at the end of its opening tag and
/// `</p>` at its end.
pub proof fn lemma_region_bounds(doc: Seq<char>, cursor: int)
    requires
        0 <= cursor,
    ensures
        match region_from(doc, cursor) {
            Ok(Some(region)) => {
                &&& cursor <= region.start < region.open_tag_end <= region.close
                &&& region.close + PARAGRAPH_CLOSE@.len() <= doc.len()
                &&& PARAGRAPH_CLOSE@.len() == 4
                &&& doc[region.open_tag_end - 1] == '>'
            },
            _ => true,
        },
{
    reveal_strlit("<p");
    reveal_strlit("</p>");
    reveal_strlit(">");
    lemma_find_from_is_first(doc, PARAGRAPH_OPEN@, cursor);
    match find_from(doc, PARAGRAPH_OPEN@, cursor) {
        Some(start) => {
            lemma_find_from_is_first(doc, PARAGRAPH_CLOSE@, start);
            lemma_find_from_is_first(doc, TAG_END@, start);
            match find_from(doc, TAG_END@, start) {
                Some(end) => {
                    assert(doc.subrange(end, end + 1)[0] == '>');
                },
                None => {},
            }
        },
        None => {},
    }
}

/// Finds the first paragraph of a document at or after `cursor`.
pub fn next_paragraph(doc: &[char], cursor: usize) -> (r: Result<
    Option<ParagraphRegion>,
    MarkupError,
>)
    ensures
        region_view(r) == region_from(doc@, cursor as int),
{
    let open = to_chars(PARAGRAPH_OPEN);
    let close = to_chars(PARAGRAPH_CLOSE);
    let tag_end = to_chars(TAG_END);
    proof {
        reveal_strlit(">");
        lemma_region_bounds(doc@, cursor as int);
    }
    match find_index_from(doc, open.as_slice(), cursor) {
        None => Ok(None),
        Some(start) => match find_index_from(doc, close.as_slice(), start) {
            None => Err(MarkupError::UnclosedParagraph),
            Some(close_offset) => match find_index_from(doc, tag_end.as_slice(), start) {
                None => Err(MarkupError::UnclosedOpeningTag),
                Some(end) => {
                    if end < close_offset {
                        Ok(
                            Some(
                                ParagraphRegion {
                                    start_offset: start,
                                    open_tag_end_offset: end + 1,
                                    close_offset,
                                },
                            ),
                        )
                    } else {
                        Err(MarkupError::UnclosedOpeningTag)
                    }
                },
            },
        },
    }
}

/// Rewrites each paragraph of a document that is given by its characters.
pub fn wrap_paragraph_chars(doc: &[char]) -> (r: Result<String, MarkupError>)
    ensures
        result_view(r) == located(doc@),
{
    let mut out = String::new();
    let mut cursor: usize = 0;
    proof {
        assert(prefixed(out@, located_from(doc@, 0)) =~= located_from(doc@, 0)) by {
            match located_from(doc@, 0) {
                Ok(text) => {
                    assert(out@ + text =~= text);
                },
                Err(_) => {},
            }
        }
    }
    loop
        invariant
            cursor <= doc.len(),
            located(doc@) == prefixed(out@, located_from(doc@, cursor as int)),
        decreases doc.len() - cursor,
    {
        let ghost before = out@;
        proof {
            lemma_region_bounds(doc@, cursor as int);
        }
        match next_paragraph(doc, cursor) {
            Err(e) => {
                return Err(e);
            },
            Ok(None) => {
                push_range(&mut out, doc, cursor, doc.len());
                proof {
                    assert(doc@.subrange(cursor as int, doc.len() as int) =~= doc@.skip(
                        cursor as int,
                    ));
                }
                return Ok(out);
            },
            Ok(Some(region)) => {
                push_range(&mut out, doc, cursor, region.open_tag_end_offset);
                let inner = slice_subrange(doc, region.open_tag_end_offset, region.close_offset);
                let tokens = tokenize_chars(inner);
                render_into(&mut out, tokens.as_slice());
                out.append(PARAGRAPH_CLOSE);
                proof {
                    let piece = doc@.subrange(cursor as int, region.open_tag_end_offset as int)
                        + wrapped(
                        doc@.subrange(
                            region.open_tag_end_offset as int,
                            region.close_offset as int,
                        ),
                    ) + PARAGRAPH_CLOSE@;
                    assert(out@ =~= before + piece);
                    let next = located_from(doc@, region.close_offset + 4);
                    match next {
                        Ok(text) => {
                            assert(before + (piece + text) =~= out@ + text);
                        },
                        Err(_) => {},
                    }
                }
                cursor = region.close_offset + 4;
            },
        }
    }
}

/// Rewrites each paragraph of a document: the words of its inner text are
/// wrapped, and the rest of the document stays as it is. A paragraph that
/// is not closed is an error, and nothing is returned for the document.
pub fn wrap_paragraphs(html: &str) -> (r: Result<String, MarkupError>)
    ensures
        result_view(r) == located(html@),
{
    let doc = to_chars(html);
    wrap_paragraph_chars(doc.as_slice())
}

} // verus!
