//! The tokenizer of a paragraph's inner text, and the rendering of its
//! tokens with every word made clickable.
//!
//! The scan is not an HTML parser. It tells four things apart: a run of
//! whitespace, a word, a tag, and an inline element that is already there and
//! is kept whole. Any tag that begins with `<s` counts as the start of such an
//! element, which then runs up to the next `</span>`.

use crate::text::{
    char_is_whitespace, find_from, find_index_from, is_whitespace, lemma_find_from_is_first,
    string_of, string_views, to_chars,
};
use vstd::prelude::*;
use vstd::slice::slice_subrange;
use vstd::string::StringExecFns;

verus! {

/// The markup that opens the wrapper of a word. The handler it names reads
/// the element's own text when it is called.
pub const WRAPPER_OPEN: &'static str = "<span onclick=\"window.translate(this)\">";

/// The markup that closes a wrapper, and that ends an existing element.
pub const WRAPPER_CLOSE: &'static str = "</span>";

/// The character that ends a tag.
pub const TAG_END: &'static str = ">";

/// One piece of a paragraph's inner text.
#[derive(Debug, Clone, PartialEq, Eq)]
pub enum Token {
    /// A run of characters that are neither whitespace nor `<`.
    Word(String),
    /// A tag from `<` up to its `>`, or what is left of the text where the
    /// `>`, or the `</span>` of an existing element, is missing.
    Tag(String),
    /// An existing inline element, from `<s` up to its `</span>`.
    ExistingSpan(String),
    /// A run of whitespace.
    Whitespace(String),
}

/// A token as a mathematical value.
pub enum TokenView {
    Word(Seq<char>),
    Tag(Seq<char>),
    ExistingSpan(Seq<char>),
    Whitespace(Seq<char>),
}

impl TokenView {
    /// The characters of the text that the token stands for.
    pub open spec fn raw(self) -> Seq<char> {
        match self {
            TokenView::Word(s) => s,
            TokenView::Tag(s) => s,
            TokenView::ExistingSpan(s) => s,
            TokenView::Whitespace(s) => s,
        }
    }
}

impl View for Token {
    type V = TokenView;

    open spec fn view(&self) -> TokenView {
        match self {
            Token::Word(s) => TokenView::Word(s@),
            Token::Tag(s) => TokenView::Tag(s@),
            Token::ExistingSpan(s) => TokenView::ExistingSpan(s@),
            Token::Whitespace(s) => TokenView::Whitespace(s@),
        }
    }
}

/// The tokens of a vector as mathematical values.
pub open spec fn token_views(tokens: Seq<Token>) -> Seq<TokenView> {
    tokens.map_values(|t: Token| t@)
}

/// A character that can stand in a word.
pub open spec fn is_word_char(c: char) -> bool {
    c != '<' && !is_whitespace(c)
}

/// The length of the longest prefix of `text` that is all whitespace.
pub open spec fn whitespace_run(text: Seq<char>) -> int
    decreases text.len(),
{
    if text.len() > 0 && is_whitespace(text[0]) {
        1 + whitespace_run(text.skip(1))
    } else {
        0
    }
}

/// The length of the longest prefix of `text` that is all word characters.
pub open spec fn word_run(text: Seq<char>) -> int
    decreases text.len(),
{
    if text.len() > 0 && is_word_char(text[0]) {
        1 + word_run(text.skip(1))
    } else {
        0
    }
}

/// Whether `text` begins like an existing inline element: `<` and then `s`.
pub open spec fn starts_existing_span(text: Seq<char>) -> bool {
    text.len() > 1 && text[0] == '<' && text[1] == 's'
}

/// The token at the start of a text that is not empty.
pub open spec fn first_token(text: Seq<char>) -> TokenView {
    if starts_existing_span(text) {
        match find_from(text, WRAPPER_CLOSE@, 0) {
            Some(k) => TokenView::ExistingSpan(text.take(k + WRAPPER_CLOSE@.len())),
            None => TokenView::Tag(text),
        }
    } else if text[0] == '<' {
        match find_from(text, TAG_END@, 0) {
            Some(g) => TokenView::Tag(text.take(g + TAG_END@.len())),
            None => TokenView::Tag(text),
        }
    } else if is_whitespace(text[0]) {
        TokenView::Whitespace(text.take(whitespace_run(text)))
    } else {
        TokenView::Word(text.take(word_run(text)))
    }
}

/// The tokens of a text, from left to right.
pub open spec fn lexed(text: Seq<char>) -> Seq<TokenView>
    decreases text.len(),
    via lexed_decreases
{
    if text.len() == 0 {
        Seq::empty()
    } else {
        seq![first_token(text)] + lexed(text.skip(first_token(text).raw().len() as int))
    }
}

#[via_fn]
proof fn lexed_decreases(text: Seq<char>) {
    if text.len() > 0 {
        lemma_first_token_is_prefix(text);
    }
}

/// The closing markup where a word is open, nothing where none is.
pub open spec fn closing(word_open: bool) -> Seq<char> {
    if word_open {
        WRAPPER_CLOSE@
    } else {
        Seq::empty()
    }
}

/// The text that the tokens are rendered to, after a text that left a
/// word's wrapper open or not.
///
/// A word opens a wrapper unless one is open. Whitespace and a tag close
/// the open wrapper and follow as they are. An existing element is wrapped
/// once, as a whole, and leaves an open wrapper open. The end closes it.
pub open spec fn rendered(tokens: Seq<TokenView>, word_open: bool) -> Seq<char>
    decreases tokens.len(),
{
    if tokens.len() == 0 {
        closing(word_open)
    } else {
        match tokens[0] {
            TokenView::Word(w) => (if word_open {
                Seq::empty()
            } else {
                WRAPPER_OPEN@
            }) + w + rendered(tokens.skip(1), true),
            TokenView::ExistingSpan(raw) => WRAPPER_OPEN@ + raw + WRAPPER_CLOSE@ + rendered(
                tokens.skip(1),
                word_open,
            ),
            TokenView::Tag(raw) => closing(word_open) + raw + rendered(tokens.skip(1), false),
            TokenView::Whitespace(raw) => closing(word_open) + raw + rendered(
                tokens.skip(1),
                false,
            ),
        }
    }
}

/// A paragraph's inner text with its words wrapped.
pub open spec fn wrapped(text: Seq<char>) -> Seq<char> {
    rendered(lexed(text), false)
}

/// What the wrappers hold where each word and each existing element gets
/// a wrapper of its own: the texts of those tokens, from left to right.
pub open spec fn wrapper_payloads(tokens: Seq<TokenView>) -> Seq<Seq<char>>
    decreases tokens.len(),
{
    if tokens.len() == 0 {
        Seq::empty()
    } else {
        match tokens[0] {
            TokenView::Word(w) => seq![w] + wrapper_payloads(tokens.skip(1)),
            TokenView::ExistingSpan(raw) => seq![raw] + wrapper_payloads(tokens.skip(1)),
            _ => wrapper_payloads(tokens.skip(1)),
        }
    }
}

/// A whitespace run lies within the text.
pub proof fn lemma_whitespace_run_bounds(text: Seq<char>)
    ensures
        0 <= whitespace_run(text) <= text.len(),
        text.len() > 0 && is_whitespace(text[0]) ==> whitespace_run(text) >= 1,
    decreases text.len(),
{
    if text.len() > 0 && is_whitespace(text[0]) {
        lemma_whitespace_run_bounds(text.skip(1));
    }
}

/// A word run lies within the text.
pub proof fn lemma_word_run_bounds(text: Seq<char>)
    ensures
        0 <= word_run(text) <= text.len(),
        text.len() > 0 && is_word_char(text[0]) ==> word_run(text) >= 1,
    decreases text.len(),
{
    if text.len() > 0 && is_word_char(text[0]) {
        lemma_word_run_bounds(text.skip(1));
    }
}

/// The first token of a text that is not empty is a prefix of it, and is
/// not empty.
pub proof fn lemma_first_token_is_prefix(text: Seq<char>)
    requires
        text.len() > 0,
    ensures
        0 < first_token(text).raw().len() <= text.len(),
        first_token(text).raw() == text.take(first_token(text).raw().len() as int),
{
    reveal_strlit("</span>");
    reveal_strlit(">");
    lemma_find_from_is_first(text, WRAPPER_CLOSE@, 0);
    lemma_find_from_is_first(text, TAG_END@, 0);
    lemma_whitespace_run_bounds(text);
    lemma_word_run_bounds(text);
    assert(text.take(text.len() as int) =~= text);
}

/// The length of the whitespace at the start of `text`.
pub(crate) fn whitespace_run_len(text: &[char]) -> (n: usize)
    ensures
        n == whitespace_run(text@),
        n <= text.len(),
{
    let mut n: usize = 0;
    assert(text@.skip(0) =~= text@);
    while n < text.len() && char_is_whitespace(text[n])
        invariant
            n <= text.len(),
            whitespace_run(text@) == n + whitespace_run(text@.skip(n as int)),
        decreases text.len() - n,
    {
        proof {
            assert(text@.skip(n as int).skip(1) =~= text@.skip(n + 1));
        }
        n += 1;
    }
    n
}

/// The length of the word at the start of `text`.
fn word_run_len(text: &[char]) -> (n: usize)
    ensures
        n == word_run(text@),
        n <= text.len(),
{
    let mut n: usize = 0;
    assert(text@.skip(0) =~= text@);
    while n < text.len() && text[n] != '<' && !char_is_whitespace(text[n])
        invariant
            n <= text.len(),
            word_run(text@) == n + word_run(text@.skip(n as int)),
        decreases text.len() - n,
    {
        proof {
            assert(text@.skip(n as int).skip(1) =~= text@.skip(n + 1));
        }
        n += 1;
    }
    n
}

/// Reads the token at the start of a text that is not empty, and says how
/// many characters it takes.
pub fn next_token(text: &[char]) -> (r: (Token, usize))
    requires
        text.len() > 0,
    ensures
        r.0@ == first_token(text@),
        r.1 == first_token(text@).raw().len(),
        0 < r.1 <= text.len(),
{
    proof {
        lemma_first_token_is_prefix(text@);
        reveal_strlit("</span>");
        reveal_strlit(">");
        lemma_find_from_is_first(text@, WRAPPER_CLOSE@, 0);
        lemma_find_from_is_first(text@, TAG_END@, 0);
        assert(text@.take(text@.len() as int) =~= text@);
    }
    if text[0] == '<' {
        if text.len() > 1 && text[1] == 's' {
            let close = to_chars(WRAPPER_CLOSE);
            match find_index_from(text, close.as_slice(), 0) {
                Some(k) => {
                    let n: usize = k + close.len();
                    (Token::ExistingSpan(string_of(text, 0, n)), n)
                },
                None => (Token::Tag(string_of(text, 0, text.len())), text.len()),
            }
        } else {
            let end = to_chars(TAG_END);
            match find_index_from(text, end.as_slice(), 0) {
                Some(g) => {
                    let n: usize = g + end.len();
                    (Token::Tag(string_of(text, 0, n)), n)
                },
                None => (Token::Tag(string_of(text, 0, text.len())), text.len()),
            }
        }
    } else if char_is_whitespace(text[0]) {
        let n: usize = whitespace_run_len(text);
        (Token::Whitespace(string_of(text, 0, n)), n)
    } else {
        let n: usize = word_run_len(text);
        (Token::Word(string_of(text, 0, n)), n)
    }
}

/// Splits a text, given by its characters, into its tokens.
pub fn tokenize_chars(text: &[char]) -> (tokens: Vec<Token>)
    ensures
        token_views(tokens@) == lexed(text@),
{
    let mut tokens: Vec<Token> = Vec::new();
    let mut i: usize = 0;
    assert(text@.skip(0) =~= text@);
    assert(token_views(tokens@) =~= Seq::<TokenView>::empty());
    while i < text.len()
        invariant
            i <= text.len(),
            lexed(text@) == token_views(tokens@) + lexed(text@.skip(i as int)),
        decreases text.len() - i,
    {
        let rest = slice_subrange(text, i, text.len());
        let (token, n) = next_token(rest);
        proof {
            let before = token_views(tokens@);
            assert(rest@ =~= text@.skip(i as int));
            assert(rest@.skip(n as int) =~= text@.skip(i + n));
            assert(token_views(tokens@.push(token)) =~= before.push(token@));
            assert(before + (seq![token@] + lexed(text@.skip(i + n))) =~= before.push(token@)
                + lexed(text@.skip(i + n)));
        }
        tokens.push(token);
        i += n;
    }
    assert(token_views(tokens@) + lexed(text@.skip(i as int)) =~= token_views(tokens@));
    tokens
}

/// Splits a text into its tokens.
pub fn tokenize(text: &str) -> (tokens: Vec<Token>)
    ensures
        token_views(tokens@) == lexed(text@),
{
    let chars = to_chars(text);
    tokenize_chars(chars.as_slice())
}

/// Appends to `out` what the tokens are rendered to.
pub fn render_into(out: &mut String, tokens: &[Token])
    ensures
        final(out)@ == old(out)@ + rendered(token_views(tokens@), false),
{
    let ghost views = token_views(tokens@);
    let mut word_open = false;
    let mut k: usize = 0;
    assert(views.skip(0) =~= views);
    while k < tokens.len()
        invariant
            k <= tokens.len(),
            views == token_views(tokens@),
            old(out)@ + rendered(views, false) == out@ + rendered(views.skip(k as int), word_open),
        decreases tokens.len() - k,
    {
        let ghost before = out@;
        let ghost rest = rendered(views.skip(k + 1), word_open);
        proof {
            assert(views.skip(k as int)[0] == tokens@[k as int]@);
            assert(views.skip(k as int).skip(1) =~= views.skip(k + 1));
        }
        match &tokens[k] {
            Token::Word(w) => {
                if !word_open {
                    out.append(WRAPPER_OPEN);
                }
                out.append(w.as_str());
                proof {
                    let tail = rendered(views.skip(k + 1), true);
                    if word_open {
                        assert(before + (Seq::<char>::empty() + w@ + tail) =~= out@ + tail);
                    } else {
                        assert(before + (WRAPPER_OPEN@ + w@ + tail) =~= out@ + tail);
                    }
                }
                word_open = true;
            },
            Token::ExistingSpan(raw) => {
                out.append(WRAPPER_OPEN);
                out.append(raw.as_str());
                out.append(WRAPPER_CLOSE);
                proof {
                    assert(before + (WRAPPER_OPEN@ + raw@ + WRAPPER_CLOSE@ + rest) =~= out@ + rest);
                }
            },
            Token::Tag(raw) => {
                if word_open {
                    out.append(WRAPPER_CLOSE);
                }
                out.append(raw.as_str());
                proof {
                    let tail = rendered(views.skip(k + 1), false);
                    assert(before + (closing(word_open) + raw@ + tail) =~= out@ + tail);
                }
                word_open = false;
            },
            Token::Whitespace(raw) => {
                if word_open {
                    out.append(WRAPPER_CLOSE);
                }
                out.append(raw.as_str());
                proof {
                    let tail = rendered(views.skip(k + 1), false);
                    assert(before + (closing(word_open) + raw@ + tail) =~= out@ + tail);
                }
                word_open = false;
            },
        }
        k += 1;
    }
    if word_open {
        out.append(WRAPPER_CLOSE);
    }
    proof {
        assert(out@ =~= old(out)@ + rendered(views, false));
    }
}

/// What the tokens are rendered to.
pub fn render(tokens: &[Token]) -> (out: String)
    ensures
        out@ == rendered(token_views(tokens@), false),
{
    let mut out = String::new();
    render_into(&mut out, tokens);
    assert(Seq::<char>::empty() + rendered(token_views(tokens@), false) =~= rendered(
        token_views(tokens@),
        false,
    ));
    out
}

/// What the wrappers hold where the words and the existing elements
/// among the tokens each get a wrapper of their own: the texts of those
/// tokens, from left to right.
pub fn payloads(tokens: &[Token]) -> (found: Vec<String>)
    ensures
        string_views(found@) == wrapper_payloads(token_views(tokens@)),
{
    let ghost views = token_views(tokens@);
    let mut found: Vec<String> = Vec::new();
    let mut k: usize = 0;
    assert(views.skip(0) =~= views);
    assert(string_views(found@) =~= Seq::<Seq<char>>::empty());
    while k < tokens.len()
        invariant
            k <= tokens.len(),
            views == token_views(tokens@),
            wrapper_payloads(views) == string_views(found@) + wrapper_payloads(
                views.skip(k as int),
            ),
        decreases tokens.len() - k,
    {
        proof {
            assert(views.skip(k as int)[0] == tokens@[k as int]@);
            assert(views.skip(k as int).skip(1) =~= views.skip(k + 1));
        }
        match &tokens[k] {
            Token::Word(text) | Token::ExistingSpan(text) => {
                let held = text.clone();
                proof {
                    let before = string_views(found@);
                    let tail = wrapper_payloads(views.skip(k + 1));
                    assert(string_views(found@.push(held)) =~= before.push(held@));
                    assert(before + (seq![held@] + tail) =~= before.push(held@) + tail);
                }
                found.push(held);
            },
            _ => {},
        }
        k += 1;
    }
    assert(string_views(found@) + wrapper_payloads(views.skip(k as int)) =~= string_views(found@));
    found
}

/// Wraps the words of a paragraph's inner text: the text is split into its
/// tokens, and the tokens are rendered.
pub fn wrap_words(text: &str) -> (out: String)
    ensures
        out@ == wrapped(text@),
{
    let tokens = tokenize(text);
    render(tokens.as_slice())
}

} // verus!
