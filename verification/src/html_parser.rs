//! The transformation of one document: the script block goes in, and then
//! every word of every paragraph is wrapped.

use crate::paragraphs::{located, result_view, wrap_paragraphs, MarkupError};
use crate::script::{inject_script, injected};
use crate::text::{find_from, find_index_from, index_of};
use vstd::prelude::*;
use vstd::string::StringSliceAdditionalSpecFns;
use vstd::utf8::{
    encode_utf8, encode_utf8_valid_utf8, is_char_boundary,
    is_char_boundary_iff_not_is_continuation_byte, is_char_boundary_start_end_of_seq,
};

verus! {

/// What a document becomes for a language: the block is put in first, and
/// the paragraphs of the result are rewritten. The block holds no
/// paragraph of its own unless the language brings one.
pub open spec fn transformed(html: Seq<char>, language: Seq<char>) -> Result<
    Seq<char>,
    MarkupError,
> {
    located(injected(html, language))
}

/// Transforms a document for a language.
///
/// The block of script and style goes before the last `</body>`, or to the
/// end where there is none. Then, in each paragraph, every word is wrapped
/// in a clickable element. A paragraph that is not closed is an error.
pub fn wrap_words_in_paragraphs(html: &str, language: &str) -> (r: Result<String, MarkupError>)
    ensures
        result_view(r) == transformed(html@, language@),
{
    let with_script = inject_script(html, language);
    wrap_paragraphs(with_script.as_str())
}

/// Whether a character of the text starts at the byte offset `index`, or
/// the text ends there.
pub open spec fn is_boundary(bytes: Seq<u8>, index: int) -> bool {
    ||| index == 0
    ||| index == bytes.len()
    ||| 0 < index < bytes.len() && !(0x80 <= bytes[index] <= 0xBF)
}

/// The boundaries of a text's bytes are what the standard library's
/// `is_char_boundary` takes for them.
pub proof fn lemma_boundary_is_char_boundary(text: Seq<char>, index: int)
    ensures
        is_boundary(encode_utf8(text), index) <==> is_char_boundary(encode_utf8(text), index),
{
    let bytes = encode_utf8(text);
    encode_utf8_valid_utf8(text);
    is_char_boundary_start_end_of_seq(bytes);
    if 0 < index < bytes.len() {
        is_char_boundary_iff_not_is_continuation_byte(bytes, index);
    }
}

/// Finds the first occurrence of `substring` in `string` at or after the
/// byte offset `start_index`, and gives its byte offset. The search starts
/// where a character starts.
pub fn find_substring_from_index(string: &str, substring: &str, start_index: usize) -> (r: Option<
    usize,
>)
    requires
        is_boundary(string.spec_bytes(), start_index as int),
    ensures
        index_of(r) == find_from(
            string.spec_bytes(),
            substring.spec_bytes(),
            start_index as int,
        ),
{
    find_index_from(string.as_bytes(), substring.as_bytes(), start_index)
}

} // verus!
