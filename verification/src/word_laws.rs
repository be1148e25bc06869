//! What holds of the tokenizer and of the rendering for every text.

use crate::text::{is_whitespace, lemma_first_is_find_from, occurs_at};
use crate::tokens::{
    closing, first_token, is_word_char, lemma_first_token_is_prefix, lemma_whitespace_run_bounds,
    lemma_word_run_bounds, lexed, rendered, starts_existing_span, whitespace_run, word_run,
    wrapped, wrapper_payloads, TokenView, WRAPPER_CLOSE, WRAPPER_OPEN,
};
use crate::words::{nonspace_run, words};
use vstd::prelude::*;

verus! {

/// The texts that the tokens stand for, one after the other.
pub open spec fn raw_text(tokens: Seq<TokenView>) -> Seq<char>
    decreases tokens.len(),
{
    if tokens.len() == 0 {
        Seq::empty()
    } else {
        tokens[0].raw() + raw_text(tokens.skip(1))
    }
}

/// Whether no character of `text` is `<`.
pub open spec fn has_no_markup(text: Seq<char>) -> bool {
    forall|i: int| 0 <= i < text.len() ==> text[i] != '<'
}

/// The tokens rendered with a wrapper of its own around each word and each
/// existing element, and with whitespace and tags as they are.
pub open spec fn rendered_apart(tokens: Seq<TokenView>) -> Seq<char>
    decreases tokens.len(),
{
    if tokens.len() == 0 {
        Seq::empty()
    } else {
        match tokens[0] {
            TokenView::Word(w) => WRAPPER_OPEN@ + w + WRAPPER_CLOSE@ + rendered_apart(
                tokens.skip(1),
            ),
            TokenView::ExistingSpan(raw) => WRAPPER_OPEN@ + raw + WRAPPER_CLOSE@ + rendered_apart(
                tokens.skip(1),
            ),
            TokenView::Tag(raw) => raw + rendered_apart(tokens.skip(1)),
            TokenView::Whitespace(raw) => raw + rendered_apart(tokens.skip(1)),
        }
    }
}

/// The tokens of a text cover it: their texts, put together, are the text.
/// The tokenizer drops nothing and adds nothing.
pub proof fn lemma_tokens_cover_text(text: Seq<char>)
    ensures
        raw_text(lexed(text)) == text,
    decreases text.len(),
{
    if text.len() == 0 {
        assert(raw_text(lexed(text)) =~= text);
    } else {
        lemma_first_token_is_prefix(text);
        let first = first_token(text);
        let n = first.raw().len() as int;
        let rest = lexed(text.skip(n));
        lemma_tokens_cover_text(text.skip(n));
        assert((seq![first] + rest).skip(1) =~= rest);
        assert(text.take(n) + text.skip(n) =~= text);
    }
}

/// Rendering keeps every character of every token: what is rendered is at
/// least as long as the tokens' texts together.
pub proof fn lemma_rendered_is_no_shorter(tokens: Seq<TokenView>, word_open: bool)
    ensures
        rendered(tokens, word_open).len() >= raw_text(tokens).len(),
    decreases tokens.len(),
{
    if tokens.len() > 0 {
        lemma_rendered_is_no_shorter(tokens.skip(1), true);
        lemma_rendered_is_no_shorter(tokens.skip(1), false);
    }
}

/// Wrapping never shortens a text.
pub proof fn lemma_wrapped_is_no_shorter(text: Seq<char>)
    ensures
        wrapped(text).len() >= text.len(),
{
    lemma_tokens_cover_text(text);
    lemma_rendered_is_no_shorter(lexed(text), false);
}

/// A word run is the longest one: all of it is word characters, and what
/// follows it, if anything, is none.
pub proof fn lemma_word_run_is_longest(text: Seq<char>)
    ensures
        forall|i: int| 0 <= i < word_run(text) ==> is_word_char(#[trigger] text[i]),
        word_run(text) < text.len() ==> !is_word_char(text[word_run(text)]),
    decreases text.len(),
{
    lemma_word_run_bounds(text);
    if text.len() > 0 && is_word_char(text[0]) {
        let rest = text.skip(1);
        lemma_word_run_is_longest(rest);
        lemma_word_run_bounds(rest);
        assert forall|i: int| 0 <= i < word_run(text) implies is_word_char(
            #[trigger] text[i],
        ) by {
            if i > 0 {
                assert(rest[i - 1] == text[i]);
            }
        }
        if word_run(text) < text.len() {
            assert(rest[word_run(rest)] == text[word_run(text)]);
        }
    }
}

/// A whitespace run is the longest one: what follows it, if anything, is
/// no whitespace.
pub proof fn lemma_whitespace_run_is_longest(text: Seq<char>)
    ensures
        forall|i: int| 0 <= i < whitespace_run(text) ==> is_whitespace(#[trigger] text[i]),
        whitespace_run(text) < text.len() ==> !is_whitespace(text[whitespace_run(text)]),
    decreases text.len(),
{
    lemma_whitespace_run_bounds(text);
    if text.len() > 0 && is_whitespace(text[0]) {
        let rest = text.skip(1);
        lemma_whitespace_run_is_longest(rest);
        lemma_whitespace_run_bounds(rest);
        assert forall|i: int| 0 <= i < whitespace_run(text) implies is_whitespace(
            #[trigger] text[i],
        ) by {
            if i > 0 {
                assert(rest[i - 1] == text[i]);
            }
        }
        if whitespace_run(text) < text.len() {
            assert(rest[whitespace_run(rest)] == text[whitespace_run(text)]);
        }
    }
}

/// In a text without `<`, a word ends where whitespace starts.
proof fn lemma_word_run_without_markup(text: Seq<char>)
    requires
        has_no_markup(text),
    ensures
        word_run(text) == nonspace_run(text),
    decreases text.len(),
{
    if text.len() > 0 && !is_whitespace(text[0]) {
        let rest = text.skip(1);
        assert forall|i: int| 0 <= i < rest.len() implies rest[i] != '<' by {
            assert(rest[i] == text[i + 1]);
        }
        lemma_word_run_without_markup(rest);
    }
}

/// Where the tokens start with whitespace or a tag, or there is none, an
/// open wrapper is closed before anything else is rendered.
proof fn lemma_open_wrapper_closes_first(tokens: Seq<TokenView>)
    requires
        tokens.len() == 0 || tokens[0] is Whitespace || tokens[0] is Tag,
    ensures
        rendered(tokens, true) == WRAPPER_CLOSE@ + rendered(tokens, false),
{
    if tokens.len() == 0 {
        assert(rendered(tokens, true) =~= WRAPPER_CLOSE@ + rendered(tokens, false));
    } else {
        let tail = rendered(tokens.skip(1), false);
        let raw = tokens[0].raw();
        assert(closing(true) + raw + tail =~= WRAPPER_CLOSE@ + (closing(false) + raw + tail));
    }
}

/// In a paragraph without markup, the words are what the wrappers hold.
///
/// Where no character of the text is `<`, every word of the text, and
/// nothing else, gets a wrapper of its own: what the wrappers hold, from
/// left to right, is the words of the text, and the whitespace between
/// them stays as it is.
pub proof fn lemma_words_are_the_wrapper_payloads(text: Seq<char>)
    requires
        has_no_markup(text),
    ensures
        wrapper_payloads(lexed(text)) == words(text),
        wrapped(text) == rendered_apart(lexed(text)),
    decreases text.len(),
{
    if text.len() == 0 {
    } else {
        lemma_first_token_is_prefix(text);
        let first = first_token(text);
        let n = first.raw().len() as int;
        let rest = text.skip(n);
        let tail = lexed(rest);
        assert forall|i: int| 0 <= i < rest.len() implies rest[i] != '<' by {
            assert(rest[i] == text[i + n]);
        }
        lemma_words_are_the_wrapper_payloads(rest);
        assert((seq![first] + tail).skip(1) =~= tail);
        assert(text[0] != '<');
        if is_whitespace(text[0]) {
            lemma_whitespace_run_bounds(text);
            assert(rendered(lexed(text), false) =~= rendered_apart(lexed(text)));
        } else {
            lemma_word_run_bounds(text);
            lemma_word_run_without_markup(text);
            lemma_word_run_is_longest(text);
            if rest.len() > 0 {
                assert(rest[0] == text[n]);
                assert(is_whitespace(rest[0]));
                lemma_first_token_is_prefix(rest);
                assert(lexed(rest)[0] == first_token(rest));
            }
            lemma_open_wrapper_closes_first(tail);
            assert(rendered(lexed(text), false) =~= rendered_apart(lexed(text)));
        }
    }
}

/// Whether no character of `text` is whitespace.
pub open spec fn has_no_whitespace(text: Seq<char>) -> bool {
    forall|i: int| 0 <= i < text.len() ==> !is_whitespace(#[trigger] text[i])
}

/// Whether the words and the existing elements among the tokens stand
/// apart: there is no tag, no existing element holds whitespace, and
/// whitespace stands between any two tokens that are not whitespace.
pub open spec fn stand_apart(tokens: Seq<TokenView>) -> bool
    decreases tokens.len(),
{
    tokens.len() == 0 || {
        &&& match tokens[0] {
            TokenView::Tag(_) => false,
            TokenView::ExistingSpan(raw) => has_no_whitespace(raw),
            _ => true,
        }
        &&& (tokens.len() == 1 || tokens[0] is Whitespace || tokens[1] is Whitespace)
        &&& stand_apart(tokens.skip(1))
    }
}

/// A run without whitespace that ends at whitespace, or at the end of the
/// text, is the longest one.
proof fn lemma_nonspace_run_is(text: Seq<char>, n: int)
    requires
        0 <= n <= text.len(),
        forall|i: int| 0 <= i < n ==> !is_whitespace(#[trigger] text[i]),
        n == text.len() || is_whitespace(text[n]),
    ensures
        nonspace_run(text) == n,
    decreases n,
{
    if n > 0 {
        let rest = text.skip(1);
        assert forall|i: int| 0 <= i < n - 1 implies !is_whitespace(#[trigger] rest[i]) by {
            assert(rest[i] == text[i + 1]);
        }
        if n < text.len() {
            assert(rest[n - 1] == text[n]);
        }
        lemma_nonspace_run_is(rest, n - 1);
    }
}

/// Where the words and the existing elements of a paragraph stand apart,
/// the words of the paragraph are what the wrappers hold.
///
/// Each word and each existing element then gets a wrapper of its own, and
/// what the wrappers hold, from left to right, is the words of the text as
/// whitespace splits it. The whitespace stays as it is.
pub proof fn lemma_words_apart_are_the_wrapper_payloads(text: Seq<char>)
    requires
        stand_apart(lexed(text)),
    ensures
        wrapper_payloads(lexed(text)) == words(text),
        wrapped(text) == rendered_apart(lexed(text)),
    decreases text.len(),
{
    if text.len() > 0 {
        lemma_first_token_is_prefix(text);
        let first = first_token(text);
        let n = first.raw().len() as int;
        let rest = text.skip(n);
        let tail = lexed(rest);
        assert((seq![first] + tail).skip(1) =~= tail);
        assert(lexed(text)[0] == first);
        lemma_words_apart_are_the_wrapper_payloads(rest);
        if rest.len() > 0 {
            lemma_first_token_is_prefix(rest);
            assert(tail[0] == first_token(rest));
            assert(lexed(text)[1] == tail[0]);
            assert(rest[0] == text[n]);
        }
        match first {
            TokenView::Whitespace(raw) => {
                lemma_whitespace_run_bounds(text);
                assert(rendered(lexed(text), false) =~= rendered_apart(lexed(text)));
            },
            TokenView::Word(w) => {
                lemma_word_run_bounds(text);
                lemma_word_run_is_longest(text);
                lemma_nonspace_run_is(text, n);
                lemma_open_wrapper_closes_first(tail);
                assert(rendered(lexed(text), false) =~= rendered_apart(lexed(text)));
            },
            TokenView::ExistingSpan(raw) => {
                assert forall|i: int| 0 <= i < n implies !is_whitespace(#[trigger] text[i]) by {
                    assert(raw[i] == text[i]);
                }
                lemma_nonspace_run_is(text, n);
                assert(rendered(lexed(text), false) =~= rendered_apart(lexed(text)));
            },
            TokenView::Tag(raw) => {},
        }
    }
}

/// The number of characters of `text` that are no whitespace.
pub open spec fn nonspace_count(text: Seq<char>) -> nat
    decreases text.len(),
{
    if text.len() == 0 {
        0
    } else if is_whitespace(text[0]) {
        nonspace_count(text.skip(1))
    } else {
        1 + nonspace_count(text.skip(1))
    }
}

/// The number of characters of all the `texts` that are no whitespace.
pub open spec fn nonspace_total(texts: Seq<Seq<char>>) -> nat
    decreases texts.len(),
{
    if texts.len() == 0 {
        0
    } else {
        nonspace_count(texts[0]) + nonspace_total(texts.skip(1))
    }
}

/// The characters of a text are those of its start and those of the rest.
proof fn lemma_nonspace_count_splits(text: Seq<char>, n: int)
    requires
        0 <= n <= text.len(),
    ensures
        nonspace_count(text) == nonspace_count(text.take(n)) + nonspace_count(text.skip(n)),
    decreases n,
{
    if n == 0 {
        assert(text.skip(0) =~= text);
    } else {
        lemma_nonspace_count_splits(text.skip(1), n - 1);
        assert(text.take(n).skip(1) =~= text.skip(1).take(n - 1));
        assert(text.skip(1).skip(n - 1) =~= text.skip(n));
    }
}

/// A text of whitespace holds nothing else.
proof fn lemma_whitespace_counts_nothing(text: Seq<char>)
    requires
        forall|i: int| 0 <= i < text.len() ==> is_whitespace(#[trigger] text[i]),
    ensures
        nonspace_count(text) == 0,
    decreases text.len(),
{
    if text.len() > 0 {
        let rest = text.skip(1);
        assert forall|i: int| 0 <= i < rest.len() implies is_whitespace(#[trigger] rest[i]) by {
            assert(rest[i] == text[i + 1]);
        }
        lemma_whitespace_counts_nothing(rest);
    }
}

/// A run without whitespace is the longest one: all of it is no
/// whitespace, and what follows it, if anything, is whitespace.
proof fn lemma_nonspace_run_is_longest(text: Seq<char>)
    ensures
        0 <= nonspace_run(text) <= text.len(),
        forall|i: int| 0 <= i < nonspace_run(text) ==> !is_whitespace(#[trigger] text[i]),
        nonspace_run(text) < text.len() ==> is_whitespace(text[nonspace_run(text)]),
    decreases text.len(),
{
    if text.len() > 0 && !is_whitespace(text[0]) {
        let rest = text.skip(1);
        lemma_nonspace_run_is_longest(rest);
        assert forall|i: int| 0 <= i < nonspace_run(text) implies !is_whitespace(
            #[trigger] text[i],
        ) by {
            if i > 0 {
                assert(rest[i - 1] == text[i]);
            }
        }
        if nonspace_run(text) < text.len() {
            assert(rest[nonspace_run(rest)] == text[nonspace_run(text)]);
        }
    }
}

/// The words of a text hold all its characters that are no whitespace.
proof fn lemma_words_hold_all_but_whitespace(text: Seq<char>)
    ensures
        nonspace_total(words(text)) == nonspace_count(text),
    decreases text.len(),
{
    if text.len() == 0 {
    } else if is_whitespace(text[0]) {
        let n = whitespace_run(text);
        lemma_whitespace_run_bounds(text);
        lemma_whitespace_run_is_longest(text);
        lemma_words_hold_all_but_whitespace(text.skip(n));
        lemma_nonspace_count_splits(text, n);
        lemma_whitespace_counts_nothing(text.take(n));
    } else {
        let n = nonspace_run(text);
        lemma_nonspace_run_is_longest(text);
        let rest = words(text.skip(n));
        lemma_words_hold_all_but_whitespace(text.skip(n));
        lemma_nonspace_count_splits(text, n);
        assert((seq![text.take(n)] + rest).skip(1) =~= rest);
    }
}

/// What the wrappers hold is no more than the text has.
proof fn lemma_payloads_hold_no_more(text: Seq<char>)
    ensures
        nonspace_total(wrapper_payloads(lexed(text))) <= nonspace_count(text),
    decreases text.len(),
{
    if text.len() > 0 {
        lemma_first_token_is_prefix(text);
        let first = first_token(text);
        let n = first.raw().len() as int;
        let tail = lexed(text.skip(n));
        let held = wrapper_payloads(tail);
        lemma_payloads_hold_no_more(text.skip(n));
        lemma_nonspace_count_splits(text, n);
        assert((seq![first] + tail).skip(1) =~= tail);
        assert((seq![first.raw()] + held).skip(1) =~= held);
    }
}

/// Where the words of a paragraph are what the wrappers hold, its words
/// and existing elements stand apart.
proof fn lemma_payloads_are_words_only_apart(text: Seq<char>)
    requires
        wrapper_payloads(lexed(text)) == words(text),
    ensures
        stand_apart(lexed(text)),
    decreases text.len(),
{
    if text.len() > 0 {
        lemma_first_token_is_prefix(text);
        lemma_whitespace_run_bounds(text);
        lemma_nonspace_run_is_longest(text);
        let first = first_token(text);
        let n = first.raw().len() as int;
        let rest = text.skip(n);
        let tail = lexed(rest);
        let held = wrapper_payloads(tail);
        assert((seq![first] + tail).skip(1) =~= tail);
        assert(lexed(text)[0] == first);
        if rest.len() > 0 {
            lemma_first_token_is_prefix(rest);
            assert(tail[0] == first_token(rest));
            assert(lexed(text)[1] == tail[0]);
            assert(rest[0] == text[n]);
        }
        match first {
            TokenView::Whitespace(raw) => {
                lemma_payloads_are_words_only_apart(rest);
            },
            TokenView::Tag(raw) => {
                lemma_payloads_hold_no_more(rest);
                lemma_words_hold_all_but_whitespace(text);
                lemma_nonspace_count_splits(text, n);
                assert(text.take(n)[0] == '<');
                assert(nonspace_count(text.take(n)) >= 1);
            },
            _ => {
                let m = nonspace_run(text);
                let others = words(text.skip(m));
                assert((seq![first.raw()] + held)[0] == first.raw());
                assert((seq![text.take(m)] + others)[0] == text.take(m));
                assert(text.take(n).len() == text.take(m).len());
                assert((seq![first.raw()] + held).skip(1) =~= held);
                assert((seq![text.take(m)] + others).skip(1) =~= others);
                assert forall|i: int| 0 <= i < n implies !is_whitespace(
                    #[trigger] first.raw()[i],
                ) by {
                    assert(first.raw()[i] == text[i]);
                }
                lemma_payloads_are_words_only_apart(rest);
            },
        }
    }
}

/// The words of a paragraph are what the wrappers hold exactly where its
/// words and existing elements stand apart.
pub proof fn lemma_words_are_payloads_exactly_apart(text: Seq<char>)
    ensures
        wrapper_payloads(lexed(text)) == words(text) <==> stand_apart(lexed(text)),
{
    if stand_apart(lexed(text)) {
        lemma_words_apart_are_the_wrapper_payloads(text);
    }
    if wrapper_payloads(lexed(text)) == words(text) {
        lemma_payloads_are_words_only_apart(text);
    }
}

/// Wrapping twice wraps twice.
///
/// A word that is wrapped starts like an existing element and ends at the
/// first `</span>`, so the second pass takes the whole of it for one and
/// wraps it again: the transformation is not idempotent.
pub proof fn lemma_wrapping_twice_wraps_twice(word: Seq<char>)
    requires
        word.len() > 0,
        forall|i: int| 0 <= i < word.len() ==> is_word_char(#[trigger] word[i]),
    ensures
        wrapped(word) == WRAPPER_OPEN@ + word + WRAPPER_CLOSE@,
        wrapped(wrapped(word)) == WRAPPER_OPEN@ + wrapped(word) + WRAPPER_CLOSE@,
        wrapped(wrapped(word)) != wrapped(word),
{
    reveal_strlit("<span onclick=\"window.translate(this)\">");
    reveal_strlit("</span>");
    let open = WRAPPER_OPEN@;
    let close = WRAPPER_CLOSE@;
    // The first pass: one word, one wrapper.
    lemma_word_run_bounds(word);
    lemma_word_run_is_longest(word);
    assert(word.take(word.len() as int) =~= word);
    assert(word.skip(word.len() as int) =~= Seq::<char>::empty());
    assert(first_token(word) == TokenView::Word(word));
    assert(lexed(word.skip(word.len() as int)) =~= Seq::<TokenView>::empty());
    let once_tokens = seq![TokenView::Word(word)];
    assert(lexed(word) =~= once_tokens);
    assert(once_tokens.skip(1) =~= Seq::<TokenView>::empty());
    assert(rendered(once_tokens.skip(1), true) =~= close);
    let once = open + word + close;
    assert(wrapped(word) =~= once);
    // The second pass: the whole of it is one existing element.
    let end = (open.len() + word.len()) as int;
    assert(once.subrange(end, end + close.len()) =~= close);
    assert(occurs_at(once, close, end));
    assert forall|j: int| 0 <= j < end implies !occurs_at(once, close, j) by {
        if occurs_at(once, close, j) {
            assert(once.subrange(j, j + close.len())[0] == '<');
            assert(once.subrange(j, j + close.len())[1] == '/');
            assert(once[j] == '<');
            assert(once[j + 1] == '/');
            if j >= open.len() {
                assert(once[j] == word[j - open.len()]);
            }
        }
    }
    lemma_first_is_find_from(once, close, 0, end);
    assert(starts_existing_span(once));
    assert(once.take(end + close.len()) =~= once);
    assert(first_token(once) == TokenView::ExistingSpan(once));
    assert(once.skip(once.len() as int) =~= Seq::<char>::empty());
    assert(lexed(once.skip(once.len() as int)) =~= Seq::<TokenView>::empty());
    let twice_tokens = seq![TokenView::ExistingSpan(once)];
    assert(lexed(once) =~= twice_tokens);
    assert(twice_tokens.skip(1) =~= Seq::<TokenView>::empty());
    assert(rendered(twice_tokens.skip(1), false) =~= Seq::<char>::empty());
    assert(wrapped(once) =~= open + once + close);
    assert((open + once + close).len() != once.len());
}

} // verus!
