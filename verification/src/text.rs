//! Character classes and substring search over sequences.
//!
//! Documents are handled as sequences of code points, so that a multi-byte
//! character is never split. Search is stated and written once, for any
//! element type, and run on characters and on bytes.

use vstd::prelude::*;

verus! {

/// Whether `c` has the Unicode property `White_Space`.
pub open spec fn is_whitespace(c: char) -> bool {
    let u = c as u32;
    ||| 0x09 <= u <= 0x0D
    ||| u == 0x20
    ||| u == 0x85
    ||| u == 0xA0
    ||| u == 0x1680
    ||| 0x2000 <= u <= 0x200A
    ||| u == 0x2028
    ||| u == 0x2029
    ||| u == 0x202F
    ||| u == 0x205F
    ||| u == 0x3000
}

/// Tests a character for the Unicode property `White_Space`.
pub fn char_is_whitespace(c: char) -> (b: bool)
    ensures
        b == is_whitespace(c),
{
    let u: u32 = c as u32;
    (0x09 <= u && u <= 0x0D) || u == 0x20 || u == 0x85 || u == 0xA0 || u == 0x1680 || (0x2000 <= u
        && u <= 0x200A) || u == 0x2028 || u == 0x2029 || u == 0x202F || u == 0x205F || u == 0x3000
}

/// Whether `needle` stands in `hay` at index `i`.
pub open spec fn occurs_at<T>(hay: Seq<T>, needle: Seq<T>, i: int) -> bool {
    &&& 0 <= i
    &&& i + needle.len() <= hay.len()
    &&& hay.subrange(i, i + needle.len()) == needle
}

/// The least index at or after `from` at which `needle` stands in `hay`.
pub open spec fn find_from<T>(hay: Seq<T>, needle: Seq<T>, from: int) -> Option<int>
    decreases hay.len() + 1 - from,
{
    if from < 0 || from + needle.len() > hay.len() {
        None
    } else if occurs_at(hay, needle, from) {
        Some(from)
    } else {
        find_from(hay, needle, from + 1)
    }
}

/// The greatest index at or before `upto` at which `needle` stands in `hay`.
pub open spec fn find_last_upto<T>(hay: Seq<T>, needle: Seq<T>, upto: int) -> Option<int>
    decreases upto + 1,
{
    if upto < 0 {
        None
    } else if occurs_at(hay, needle, upto) {
        Some(upto)
    } else {
        find_last_upto(hay, needle, upto - 1)
    }
}

/// The greatest index at which `needle` stands in `hay`.
pub open spec fn find_last<T>(hay: Seq<T>, needle: Seq<T>) -> Option<int> {
    find_last_upto(hay, needle, hay.len() - needle.len())
}

/// An executable index, or its absence, as a mathematical one.
pub open spec fn index_of(r: Option<usize>) -> Option<int> {
    match r {
        Some(i) => Some(i as int),
        None => None,
    }
}

/// `find_from` gives the first occurrence at or after `from`, and `None`
/// exactly when there is none.
pub proof fn lemma_find_from_is_first<T>(hay: Seq<T>, needle: Seq<T>, from: int)
    requires
        0 <= from,
    ensures
        match find_from(hay, needle, from) {
            Some(i) => {
                &&& from <= i
                &&& occurs_at(hay, needle, i)
                &&& forall|j: int| from <= j < i ==> !occurs_at(hay, needle, j)
            },
            None => forall|j: int| from <= j ==> !occurs_at(hay, needle, j),
        },
    decreases hay.len() + 1 - from,
{
    if from + needle.len() > hay.len() {
    } else if occurs_at(hay, needle, from) {
    } else {
        lemma_find_from_is_first(hay, needle, from + 1);
    }
}

/// An occurrence at `i` with none in `from..i` is what `find_from` gives.
pub proof fn lemma_first_is_find_from<T>(hay: Seq<T>, needle: Seq<T>, from: int, i: int)
    requires
        0 <= from <= i,
        occurs_at(hay, needle, i),
        forall|j: int| from <= j < i ==> !occurs_at(hay, needle, j),
    ensures
        find_from(hay, needle, from) == Some(i),
    decreases i - from,
{
    if from < i {
        lemma_first_is_find_from(hay, needle, from + 1, i);
    }
}

/// `find_last` gives the last occurrence, and `None` exactly when there is
/// none.
pub proof fn lemma_find_last_is_last<T>(hay: Seq<T>, needle: Seq<T>)
    ensures
        match find_last(hay, needle) {
            Some(i) => {
                &&& occurs_at(hay, needle, i)
                &&& forall|j: int| i < j ==> !occurs_at(hay, needle, j)
            },
            None => forall|j: int| !occurs_at(hay, needle, j),
        },
{
    lemma_find_last_upto(hay, needle, hay.len() - needle.len());
}

proof fn lemma_find_last_upto<T>(hay: Seq<T>, needle: Seq<T>, upto: int)
    ensures
        match find_last_upto(hay, needle, upto) {
            Some(i) => {
                &&& i <= upto
                &&& occurs_at(hay, needle, i)
                &&& forall|j: int| i < j <= upto ==> !occurs_at(hay, needle, j)
            },
            None => forall|j: int| j <= upto ==> !occurs_at(hay, needle, j),
        },
    decreases upto + 1,
{
    if upto < 0 {
    } else if occurs_at(hay, needle, upto) {
    } else {
        lemma_find_last_upto(hay, needle, upto - 1);
    }
}

/// A value that can be compared with another of its type.
pub trait Element: Copy {
    /// Whether the two are equal.
    fn same(self, other: Self) -> (b: bool)
        ensures
            b == (self == other),
    ;
}

impl Element for char {
    fn same(self, other: char) -> (b: bool) {
        self == other
    }
}

impl Element for u8 {
    fn same(self, other: u8) -> (b: bool) {
        self == other
    }
}

/// Whether `needle` stands in `hay` at index `i`, for `i` within reach of
/// the end.
pub fn matches_at<T: Element>(hay: &[T], needle: &[T], i: usize) -> (b: bool)
    requires
        i + needle.len() <= hay.len(),
    ensures
        b == occurs_at(hay@, needle@, i as int),
{
    let mut k: usize = 0;
    while k < needle.len()
        invariant
            k <= needle.len(),
            i + needle.len() <= hay.len(),
            forall|j: int| 0 <= j < k ==> hay@[i + j] == needle@[j],
        decreases needle.len() - k,
    {
        if !hay[i + k].same(needle[k]) {
            proof {
                let sub = hay@.subrange(i as int, i + needle.len());
                assert(sub[k as int] == hay@[i + k]);
            }
            return false;
        }
        k += 1;
    }
    assert(hay@.subrange(i as int, i + needle.len()) =~= needle@);
    true
}

/// Finds the first occurrence of `needle` in `hay` at or after `from`.
pub fn find_index_from<T: Element>(hay: &[T], needle: &[T], from: usize) -> (r: Option<usize>)
    ensures
        index_of(r) == find_from(hay@, needle@, from as int),
{
    if hay.len() < needle.len() || from > hay.len() - needle.len() {
        return None;
    }
    let limit: usize = hay.len() - needle.len();
    let mut i: usize = from;
    loop
        invariant
            from <= i <= limit,
            limit == hay.len() - needle.len(),
            find_from(hay@, needle@, from as int) == find_from(hay@, needle@, i as int),
        decreases limit - i,
    {
        if matches_at(hay, needle, i) {
            return Some(i);
        }
        if i == limit {
            assert(find_from(hay@, needle@, i + 1) is None);
            return None;
        }
        i += 1;
    }
}

/// Finds the last occurrence of `needle` in `hay`.
pub fn find_index_last<T: Element>(hay: &[T], needle: &[T]) -> (r: Option<usize>)
    ensures
        index_of(r) == find_last(hay@, needle@),
{
    if hay.len() < needle.len() {
        return None;
    }
    let mut i: usize = hay.len() - needle.len();
    loop
        invariant
            i + needle.len() <= hay.len(),
            find_last(hay@, needle@) == find_last_upto(hay@, needle@, i as int),
        decreases i,
    {
        if matches_at(hay, needle, i) {
            return Some(i);
        }
        if i == 0 {
            assert(find_last_upto(hay@, needle@, -1) is None);
            return None;
        }
        i -= 1;
    }
}

/// The strings of a vector as sequences of characters.
pub open spec fn string_views(strings: Seq<String>) -> Seq<Seq<char>> {
    strings.map_values(|s: String| s@)
}

/// The characters of a string, in order.
pub fn to_chars(s: &str) -> (v: Vec<char>)
    ensures
        v@ == s@,
{
    let mut v: Vec<char> = Vec::new();
    for c in it: s.chars()
        invariant
            v@ == it.seq().take(it.index() as int),
            it.seq() == s@,
    {
        v.push(c);
    }
    v
}

/// `String::push`: the string grows by the one character at its end.
#[verifier::external_body]
pub(crate) fn push_char(out: &mut String, c: char)
    ensures
        final(out)@ == old(out)@.push(c),
{
    out.push(c)
}

/// Appends the characters `chars[from..to]` to `out`.
pub(crate) fn push_range(out: &mut String, chars: &[char], from: usize, to: usize)
    requires
        from <= to <= chars.len(),
    ensures
        final(out)@ == old(out)@ + chars@.subrange(from as int, to as int),
{
    let mut i: usize = from;
    while i < to
        invariant
            from <= i <= to <= chars.len(),
            out@ == old(out)@ + chars@.subrange(from as int, i as int),
        decreases to - i,
    {
        push_char(out, chars[i]);
        proof {
            assert(chars@.subrange(from as int, i + 1) =~= chars@.subrange(from as int, i as int).push(
                chars@[i as int],
            ));
        }
        i += 1;
    }
}

/// The string that holds the characters `chars[from..to]`.
pub fn string_of(chars: &[char], from: usize, to: usize) -> (s: String)
    requires
        from <= to <= chars.len(),
    ensures
        s@ == chars@.subrange(from as int, to as int),
{
    let mut s = String::new();
    push_range(&mut s, chars, from, to);
    s
}

} // verus!
