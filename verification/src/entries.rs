//! The entries of an archive and their rewriting.
//!
//! An entry whose name ends in `.xhtml` or `.html` is markup: its bytes are
//! read as UTF-8 and transformed as a document. Every other entry is handed
//! on with the bytes it came with. Either every entry is rewritten, or none
//! is handed out.

use crate::html_parser::{transformed, wrap_words_in_paragraphs};
use crate::paragraphs::MarkupError;
use crate::text::{index_of, matches_at, occurs_at, to_chars};
use vstd::prelude::*;
use vstd::slice::slice_to_vec;
use vstd::string::StrSliceExecFns;
use vstd::utf8::{decode_utf8, encode_utf8, valid_utf8};

verus! {

/// The ending of the name of an XHTML document.
pub const XHTML_SUFFIX: &'static str = ".xhtml";

/// The ending of the name of an HTML document.
pub const HTML_SUFFIX: &'static str = ".html";

/// Whether `text` ends with `suffix`.
pub open spec fn ends_with(text: Seq<char>, suffix: Seq<char>) -> bool {
    occurs_at(text, suffix, text.len() - suffix.len())
}

/// Whether an entry of this name is markup.
pub open spec fn is_markup_name(name: Seq<char>) -> bool {
    ends_with(name, XHTML_SUFFIX@) || ends_with(name, HTML_SUFFIX@)
}

/// Why an entry cannot be rewritten.
#[derive(Debug, Clone, Copy, PartialEq, Eq, Structural)]
pub enum EntryError {
    /// The entry is markup and its bytes are not UTF-8.
    NotUtf8,
    /// The entry is markup and a paragraph of it is not closed.
    Markup(MarkupError),
}

/// The entry that cannot be rewritten, by its place in the archive, and
/// why.
#[derive(Debug, Clone, Copy, PartialEq, Eq, Structural)]
pub struct EntryFailure {
    pub index: usize,
    pub error: EntryError,
}

/// One entry of an archive: its name, its bytes, and whether it is markup.
#[derive(Debug, PartialEq, Eq)]
pub struct ArchiveEntry {
    name: String,
    bytes: Vec<u8>,
    is_markup: bool,
}

impl View for ArchiveEntry {
    type V = (Seq<char>, Seq<u8>);

    /// The name and the bytes. Whether the entry is markup follows from
    /// the name.
    closed spec fn view(&self) -> (Seq<char>, Seq<u8>) {
        (self.name@, self.bytes@)
    }
}

impl ArchiveEntry {
    /// An entry is marked as markup exactly when its name says so.
    #[verifier::type_invariant]
    spec fn is_classified(&self) -> bool {
        self.is_markup == is_markup_name(self.name@)
    }

    /// An entry with this name and these bytes.
    pub fn new(name: String, bytes: Vec<u8>) -> (entry: Self)
        ensures
            entry@ == (name@, bytes@),
    {
        let is_markup = is_markup(name.as_str());
        ArchiveEntry { name, bytes, is_markup }
    }

    /// The entry's name.
    pub fn name(&self) -> (name: &str)
        ensures
            name@ == self@.0,
    {
        self.name.as_str()
    }

    /// The entry's bytes.
    pub fn bytes(&self) -> (bytes: &[u8])
        ensures
            bytes@ == self@.1,
    {
        self.bytes.as_slice()
    }

    /// Whether the entry is markup.
    pub fn is_markup(&self) -> (b: bool)
        ensures
            b == is_markup_name(self@.0),
    {
        proof {
            use_type_invariant(self);
        }
        self.is_markup
    }
}

/// Whether the name of the entry at `index` is that of an entry before it.
pub open spec fn repeats_a_name(entries: Seq<(Seq<char>, Seq<u8>)>, index: int) -> bool {
    exists|j: int| 0 <= j < index && #[trigger] entries[j].0 == entries[index].0
}

/// The first entry at or after `from` whose name is that of an entry before
/// it.
pub open spec fn first_repeated_from(entries: Seq<(Seq<char>, Seq<u8>)>, from: int) -> Option<int>
    decreases entries.len() - from,
{
    if from < 0 || from >= entries.len() {
        None
    } else if repeats_a_name(entries, from) {
        Some(from)
    } else {
        first_repeated_from(entries, from + 1)
    }
}

/// The first entry whose name is that of an entry before it. There is none
/// exactly where no two entries have one name.
pub open spec fn first_repeated(entries: Seq<(Seq<char>, Seq<u8>)>) -> Option<int> {
    first_repeated_from(entries, 0)
}

/// The entries of a vector as names and bytes.
pub open spec fn entry_views(entries: Seq<ArchiveEntry>) -> Seq<(Seq<char>, Seq<u8>)> {
    entries.map_values(|e: ArchiveEntry| e@)
}

/// What an entry becomes for a language.
///
/// An entry that is not markup stays as it is. Markup is decoded,
/// transformed and encoded again, under the same name.
pub open spec fn rewritten_entry(entry: (Seq<char>, Seq<u8>), language: Seq<char>) -> Result<
    (Seq<char>, Seq<u8>),
    EntryError,
> {
    if !is_markup_name(entry.0) {
        Ok(entry)
    } else if !valid_utf8(entry.1) {
        Err(EntryError::NotUtf8)
    } else {
        match transformed(decode_utf8(entry.1), language) {
            Ok(text) => Ok((entry.0, encode_utf8(text))),
            Err(e) => Err(EntryError::Markup(e)),
        }
    }
}

/// What the first `count` entries become, in their order, or the first of
/// them that cannot be rewritten.
pub open spec fn rewritten_upto(
    entries: Seq<(Seq<char>, Seq<u8>)>,
    language: Seq<char>,
    count: int,
) -> Result<Seq<(Seq<char>, Seq<u8>)>, (int, EntryError)>
    decreases count,
{
    if count <= 0 {
        Ok(Seq::empty())
    } else {
        match rewritten_upto(entries, language, count - 1) {
            Err(failure) => Err(failure),
            Ok(done) => match rewritten_entry(entries[count - 1], language) {
                Ok(entry) => Ok(done.push(entry)),
                Err(error) => Err((count - 1, error)),
            },
        }
    }
}

/// What the entries become, in their order, or the first of them that
/// cannot be rewritten.
pub open spec fn rewritten_entries(
    entries: Seq<(Seq<char>, Seq<u8>)>,
    language: Seq<char>,
) -> Result<Seq<(Seq<char>, Seq<u8>)>, (int, EntryError)> {
    rewritten_upto(entries, language, entries.len() as int)
}

/// A result that holds an entry, as one that holds its name and bytes.
pub open spec fn entry_result_view(r: Result<ArchiveEntry, EntryError>) -> Result<
    (Seq<char>, Seq<u8>),
    EntryError,
> {
    match r {
        Ok(entry) => Ok(entry@),
        Err(e) => Err(e),
    }
}

/// A result that holds entries, as one that holds their names and bytes.
pub open spec fn entries_result_view(r: Result<Vec<ArchiveEntry>, EntryFailure>) -> Result<
    Seq<(Seq<char>, Seq<u8>)>,
    (int, EntryError),
> {
    match r {
        Ok(entries) => Ok(entry_views(entries@)),
        Err(failure) => Err((failure.index as int, failure.error)),
    }
}

/// Whether `text` ends with `suffix`.
fn chars_end_with(text: &[char], suffix: &[char]) -> (b: bool)
    ensures
        b == ends_with(text@, suffix@),
{
    if text.len() < suffix.len() {
        return false;
    }
    matches_at(text, suffix, text.len() - suffix.len())
}

/// Whether an entry of this name is markup: whether the name ends in
/// `.xhtml` or in `.html`.
pub fn is_markup(name: &str) -> (b: bool)
    ensures
        b == is_markup_name(name@),
{
    let chars = to_chars(name);
    let xhtml = to_chars(XHTML_SUFFIX);
    let html = to_chars(HTML_SUFFIX);
    chars_end_with(chars.as_slice(), xhtml.as_slice()) || chars_end_with(
        chars.as_slice(),
        html.as_slice(),
    )
}

/// Whether the name of the entry at `index` is that of an entry before it.
fn name_is_repeated(entries: &[ArchiveEntry], index: usize) -> (b: bool)
    requires
        index < entries.len(),
    ensures
        b == repeats_a_name(entry_views(entries@), index as int),
{
    let ghost views = entry_views(entries@);
    let mut j: usize = 0;
    while j < index
        invariant
            j <= index < entries.len(),
            views == entry_views(entries@),
            forall|k: int| 0 <= k < j ==> (#[trigger] views[k]).0 != views[index as int].0,
        decreases index - j,
    {
        if entries[j].name == entries[index].name {
            assert(views[j as int].0 == views[index as int].0);
            return true;
        }
        j += 1;
    }
    false
}

/// Finds the first entry whose name is that of an entry before it.
pub fn first_repeated_name(entries: &[ArchiveEntry]) -> (r: Option<usize>)
    ensures
        index_of(r) == first_repeated(entry_views(entries@)),
{
    let ghost views = entry_views(entries@);
    let mut i: usize = 0;
    while i < entries.len()
        invariant
            i <= entries.len(),
            views == entry_views(entries@),
            first_repeated(views) == first_repeated_from(views, i as int),
        decreases entries.len() - i,
    {
        if name_is_repeated(entries, i) {
            return Some(i);
        }
        i += 1;
    }
    None
}

/// Where no name is repeated, no two entries have one name.
pub proof fn lemma_no_repeat_means_distinct(entries: Seq<(Seq<char>, Seq<u8>)>)
    requires
        first_repeated(entries) is None,
    ensures
        forall|i: int, j: int|
            0 <= i < j < entries.len() ==> (#[trigger] entries[i]).0 != (#[trigger] entries[j]).0,
{
    assert forall|i: int, j: int| 0 <= i < j < entries.len() implies (#[trigger] entries[i]).0 != (
    #[trigger] entries[j]).0 by {
        lemma_no_repeat_from(entries, 0, j);
    }
}

proof fn lemma_no_repeat_from(entries: Seq<(Seq<char>, Seq<u8>)>, from: int, at: int)
    requires
        0 <= from <= at < entries.len(),
        first_repeated_from(entries, from) is None,
    ensures
        !repeats_a_name(entries, at),
    decreases at - from,
{
    if from < at {
        lemma_no_repeat_from(entries, from + 1, at);
    }
}

/// `String::from_utf8`: the string whose UTF-8 encoding is the given bytes,
/// and none only where the bytes are not UTF-8.
#[verifier::external_body]
fn string_from_utf8(bytes: Vec<u8>) -> (r: Option<String>)
    ensures
        match r {
            Some(text) => encode_utf8(text@) == bytes@,
            None => !valid_utf8(bytes@),
        },
{
    String::from_utf8(bytes).ok()
}

/// Rewrites one entry for a language.
pub fn rewrite_entry(entry: &ArchiveEntry, language: &str) -> (r: Result<ArchiveEntry, EntryError>)
    ensures
        entry_result_view(r) == rewritten_entry(entry@, language@),
{
    if !entry.is_markup() {
        return Ok(ArchiveEntry::new(entry.name.clone(), slice_to_vec(entry.bytes.as_slice())));
    }
    match string_from_utf8(slice_to_vec(entry.bytes.as_slice())) {
        None => Err(EntryError::NotUtf8),
        Some(html) => {
            proof {
                vstd::utf8::encode_utf8_valid_utf8(html@);
                vstd::utf8::encode_utf8_decode_utf8(html@);
            }
            match wrap_words_in_paragraphs(html.as_str(), language) {
                Err(e) => Err(EntryError::Markup(e)),
                Ok(text) => Ok(ArchiveEntry::new(entry.name.clone(), text.as_str().as_bytes_vec())),
            }
        },
    }
}

/// Rewrites the entries of an archive for a language, in their order.
///
/// Every entry keeps its name and its place. An entry that is not markup
/// keeps its bytes. Where an entry cannot be rewritten, the first such
/// entry is named, and no entry is handed out.
pub fn rewrite_entries(entries: &[ArchiveEntry], language: &str) -> (r: Result<
    Vec<ArchiveEntry>,
    EntryFailure,
>)
    ensures
        entries_result_view(r) == rewritten_entries(entry_views(entries@), language@),
{
    let ghost views = entry_views(entries@);
    let mut done: Vec<ArchiveEntry> = Vec::new();
    let mut i: usize = 0;
    assert(entry_views(done@) =~= Seq::<(Seq<char>, Seq<u8>)>::empty());
    while i < entries.len()
        invariant
            i <= entries.len(),
            views == entry_views(entries@),
            rewritten_upto(views, language@, i as int) == Ok::<
                Seq<(Seq<char>, Seq<u8>)>,
                (int, EntryError),
            >(entry_views(done@)),
        decreases entries.len() - i,
    {
        match rewrite_entry(&entries[i], language) {
            Err(error) => {
                proof {
                    lemma_failure_stays(views, language@, i + 1, entries.len() as int);
                }
                return Err(EntryFailure { index: i, error });
            },
            Ok(entry) => {
                proof {
                    assert(entry_views(done@.push(entry)) =~= entry_views(done@).push(entry@));
                }
                done.push(entry);
            },
        }
        i += 1;
    }
    Ok(done)
}

/// A failure among the first entries is the failure of the whole.
proof fn lemma_failure_stays(
    entries: Seq<(Seq<char>, Seq<u8>)>,
    language: Seq<char>,
    count: int,
    upto: int,
)
    requires
        0 <= count <= upto,
        rewritten_upto(entries, language, count) is Err,
    ensures
        rewritten_upto(entries, language, upto) == rewritten_upto(entries, language, count),
    decreases upto - count,
{
    if count < upto {
        lemma_failure_stays(entries, language, count, upto - 1);
    }
}

/// Entries that are rewritten keep their number, their order and their
/// names, and each entry that is not markup keeps its bytes.
pub proof fn lemma_other_entries_are_unchanged(
    entries: Seq<(Seq<char>, Seq<u8>)>,
    language: Seq<char>,
)
    ensures
        match rewritten_entries(entries, language) {
            Ok(done) => {
                &&& done.len() == entries.len()
                &&& forall|i: int|
                    0 <= i < entries.len() ==> (#[trigger] done[i]).0 == entries[i].0
                &&& forall|i: int|
                    0 <= i < entries.len() && !is_markup_name(entries[i].0) ==> #[trigger] done[i]
                        == entries[i]
            },
            Err(_) => true,
        },
{
    lemma_unchanged_upto(entries, language, entries.len() as int);
}

proof fn lemma_unchanged_upto(entries: Seq<(Seq<char>, Seq<u8>)>, language: Seq<char>, count: int)
    requires
        0 <= count <= entries.len(),
    ensures
        match rewritten_upto(entries, language, count) {
            Ok(done) => {
                &&& done.len() == count
                &&& forall|i: int| 0 <= i < count ==> (#[trigger] done[i]).0 == entries[i].0
                &&& forall|i: int|
                    0 <= i < count && !is_markup_name(entries[i].0) ==> #[trigger] done[i]
                        == entries[i]
            },
            Err(_) => true,
        },
    decreases count,
{
    if count > 0 {
        lemma_unchanged_upto(entries, language, count - 1);
    }
}

} // verus!
