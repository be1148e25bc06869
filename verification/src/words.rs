//! The words of a text, as whitespace splits it.

use crate::text::{char_is_whitespace, is_whitespace, string_of, string_views, to_chars};
use crate::tokens::{lemma_whitespace_run_bounds, whitespace_run, whitespace_run_len};
use vstd::prelude::*;
use vstd::slice::slice_subrange;

verus! {

/// The length of the longest prefix of `text` that holds no whitespace.
pub open spec fn nonspace_run(text: Seq<char>) -> int
    decreases text.len(),
{
    if text.len() > 0 && !is_whitespace(text[0]) {
        1 + nonspace_run(text.skip(1))
    } else {
        0
    }
}

/// The words of a text: its longest runs of characters that are not
/// whitespace, from left to right.
pub open spec fn words(text: Seq<char>) -> Seq<Seq<char>>
    decreases text.len(),
    via words_decreases
{
    if text.len() == 0 {
        Seq::empty()
    } else if is_whitespace(text[0]) {
        words(text.skip(whitespace_run(text)))
    } else {
        seq![text.take(nonspace_run(text))] + words(text.skip(nonspace_run(text)))
    }
}

#[via_fn]
proof fn words_decreases(text: Seq<char>) {
    lemma_whitespace_run_bounds(text);
    lemma_nonspace_run_bounds(text);
}

/// A run without whitespace lies within the text.
pub proof fn lemma_nonspace_run_bounds(text: Seq<char>)
    ensures
        0 <= nonspace_run(text) <= text.len(),
        text.len() > 0 && !is_whitespace(text[0]) ==> nonspace_run(text) >= 1,
    decreases text.len(),
{
    if text.len() > 0 && !is_whitespace(text[0]) {
        lemma_nonspace_run_bounds(text.skip(1));
    }
}

/// The length of the run without whitespace at the start of `text`.
fn nonspace_run_len(text: &[char]) -> (n: usize)
    ensures
        n == nonspace_run(text@),
        n <= text.len(),
{
    let mut n: usize = 0;
    assert(text@.skip(0) =~= text@);
    while n < text.len() && !char_is_whitespace(text[n])
        invariant
            n <= text.len(),
            nonspace_run(text@) == n + nonspace_run(text@.skip(n as int)),
        decreases text.len() - n,
    {
        proof {
            assert(text@.skip(n as int).skip(1) =~= text@.skip(n + 1));
        }
        n += 1;
    }
    n
}

/// Splits a text into its words: the longest runs of characters that are
/// not whitespace, from left to right.
pub fn split_words(text: &str) -> (found: Vec<String>)
    ensures
        string_views(found@) == words(text@),
{
    let chars = to_chars(text);
    let mut found: Vec<String> = Vec::new();
    let mut i: usize = 0;
    assert(chars@.skip(0) =~= chars@);
    assert(string_views(found@) =~= Seq::<Seq<char>>::empty());
    while i < chars.len()
        invariant
            i <= chars.len(),
            chars@ == text@,
            words(text@) == string_views(found@) + words(chars@.skip(i as int)),
        decreases chars.len() - i,
    {
        let rest = slice_subrange(chars.as_slice(), i, chars.len());
        proof {
            assert(rest@ =~= chars@.skip(i as int));
            lemma_whitespace_run_bounds(rest@);
            lemma_nonspace_run_bounds(rest@);
        }
        if char_is_whitespace(rest[0]) {
            let n = whitespace_run_len(rest);
            proof {
                assert(rest@.skip(n as int) =~= chars@.skip(i + n));
            }
            i += n;
        } else {
            let n = nonspace_run_len(rest);
            let word = string_of(rest, 0, n);
            proof {
                let before = string_views(found@);
                assert(rest@.skip(n as int) =~= chars@.skip(i + n));
                assert(rest@.subrange(0, n as int) =~= rest@.take(n as int));
                assert(string_views(found@.push(word)) =~= before.push(word@));
                assert(before + (seq![word@] + words(chars@.skip(i + n))) =~= before.push(word@)
                    + words(chars@.skip(i + n)));
            }
            found.push(word);
            i += n;
        }
    }
    assert(string_views(found@) + words(chars@.skip(i as int)) =~= string_views(found@));
    found
}

} // verus!
