//! Byte-level vocabulary: classes of bytes, searching, trimming and case-insensitive comparison.

use vstd::prelude::*;
use vstd::slice::slice_subrange;
use vstd::string::is_ascii;

verus! {

pub const SINGLE_QUOTE: u8 = 0x27;

pub const DOUBLE_QUOTE: u8 = 0x22;

pub const BACKTICK: u8 = 0x60;

pub const BACKSLASH: u8 = 0x5c;

pub const SEMICOLON: u8 = 0x3b;

pub const COMMA: u8 = 0x2c;

pub const OPEN_PAREN: u8 = 0x28;

pub const CLOSE_PAREN: u8 = 0x29;

pub const DASH: u8 = 0x2d;

pub const PLUS: u8 = 0x2b;

pub const DOT: u8 = 0x2e;

pub const HASH: u8 = 0x23;

pub const SLASH: u8 = 0x2f;

pub const STAR: u8 = 0x2a;

pub const EXCLAMATION: u8 = 0x21;

pub const NEWLINE: u8 = 0x0a;

pub const DIGIT_0: u8 = 0x30;

pub const DIGIT_1: u8 = 0x31;

/// `memchr::memchr` finds the first byte of `haystack` equal to `needle`; `None` when there is none.
pub assume_specification[ memchr::memchr ](needle: u8, haystack: &[u8]) -> (found: Option<usize>)
    ensures
        is_first_match(found, haystack@, |b: u8| b == needle),
;

/// `memchr::memchr2` finds the first byte of `haystack` equal to either needle; `None` when there is
/// none.
pub assume_specification[ memchr::memchr2 ](
    needle1: u8,
    needle2: u8,
    haystack: &[u8],
) -> (found: Option<usize>)
    ensures
        is_first_match(found, haystack@, |b: u8| b == needle1 || b == needle2),
;

/// `memchr::memchr3` finds the first byte of `haystack` equal to one of three needles; `None` when
/// there is none.
pub assume_specification[ memchr::memchr3 ](
    needle1: u8,
    needle2: u8,
    needle3: u8,
    haystack: &[u8],
) -> (found: Option<usize>)
    ensures
        is_first_match(found, haystack@, |b: u8| b == needle1 || b == needle2 || b == needle3),
;

/// `found` is the first index of `s` whose byte satisfies `p`, or `None` when no byte does.
pub open spec fn is_first_match(found: Option<usize>, s: Seq<u8>, p: spec_fn(u8) -> bool) -> bool {
    match found {
        Some(i) => i < s.len() && p(s[i as int]) && forall|j: int|
            0 <= j < i ==> !p(#[trigger] s[j]),
        None => forall|j: int| 0 <= j < s.len() ==> !p(#[trigger] s[j]),
    }
}

/// The least index at or after `from` whose byte satisfies `p`, or the length when there is none.
pub open spec fn index_where(s: Seq<u8>, from: int, p: spec_fn(u8) -> bool) -> int
    decreases s.len() - from,
{
    if from >= s.len() {
        s.len() as int
    } else if p(s[from]) {
        from
    } else {
        index_where(s, from + 1, p)
    }
}

/// An index with no match before it that is itself a match or the end is `index_where`.
pub proof fn lemma_index_where_is(s: Seq<u8>, from: int, p: spec_fn(u8) -> bool, k: int)
    requires
        0 <= from <= k <= s.len(),
        forall|j: int| from <= j < k ==> !p(#[trigger] s[j]),
        k < s.len() ==> p(s[k]),
    ensures
        index_where(s, from, p) == k,
    decreases k - from,
{
    if from < k {
        lemma_index_where_is(s, from + 1, p, k);
    }
}

/// `index_where` lands in range, on a match or at the end, with no match before it.
pub proof fn lemma_index_where(s: Seq<u8>, from: int, p: spec_fn(u8) -> bool)
    requires
        0 <= from <= s.len(),
    ensures
        from <= index_where(s, from, p) <= s.len(),
        index_where(s, from, p) < s.len() ==> p(s[index_where(s, from, p)]),
        forall|j: int| from <= j < index_where(s, from, p) ==> !p(#[trigger] s[j]),
    decreases s.len() - from,
{
    if from < s.len() && !p(s[from]) {
        lemma_index_where(s, from + 1, p);
    }
}

/// The bytes equal to `needle`.
pub open spec fn equal_to(needle: u8) -> spec_fn(u8) -> bool {
    |b: u8| b == needle
}

/// The position of the first `needle` at or after `from`, if there is one.
pub open spec fn byte_index(s: Seq<u8>, from: int, needle: u8) -> Option<int> {
    let i = index_where(s, from, equal_to(needle));
    if i < s.len() {
        Some(i)
    } else {
        None
    }
}

/// A position as a mathematical integer.
pub open spec fn position(found: Option<usize>) -> Option<int> {
    match found {
        Some(i) => Some(i as int),
        None => None,
    }
}

/// The position of the first `needle` at or after `from`, or `None` when it does not occur there.
pub fn find_byte(s: &[u8], from: usize, needle: u8) -> (found: Option<usize>)
    requires
        from <= s@.len(),
    ensures
        position(found) == byte_index(s@, from as int, needle),
        found matches Some(i) ==> from <= i < s@.len() && s@[i as int] == needle,
{
    let tail = slice_subrange(s, from, s.len());
    let found = memchr::memchr(needle, tail);
    proof {
        let k = if found is Some { from + found->0 } else { s@.len() as int };
        assert forall|j: int| from <= j < k implies !equal_to(needle)(#[trigger] s@[j]) by {
            assert(tail@[j - from] == s@[j]);
        }
        lemma_index_where_is(s@, from as int, equal_to(needle), k);
    }
    match found {
        Some(o) => Some(from + o),
        None => None,
    }
}

/// ASCII whitespace: space, tab, newline, form feed and carriage return.
#[verifier::allow_in_spec]
pub fn is_space(b: u8) -> bool
    returns
        b == 0x20 || b == 0x09 || b == 0x0a || b == 0x0c || b == 0x0d,
{
    b == 0x20 || b == 0x09 || b == 0x0a || b == 0x0c || b == 0x0d
}

/// `0` to `9`.
#[verifier::allow_in_spec]
pub fn is_digit(b: u8) -> bool
    returns
        0x30 <= b && b <= 0x39,
{
    0x30 <= b && b <= 0x39
}

/// An ASCII letter of either case.
#[verifier::allow_in_spec]
pub fn is_alphabetic(b: u8) -> bool
    returns
        (0x41 <= b && b <= 0x5a) || (0x61 <= b && b <= 0x7a),
{
    (0x41 <= b && b <= 0x5a) || (0x61 <= b && b <= 0x7a)
}

/// An ASCII letter or digit.
#[verifier::allow_in_spec]
pub fn is_alphanumeric(b: u8) -> bool
    returns
        is_alphabetic(b) || is_digit(b),
{
    is_alphabetic(b) || is_digit(b)
}

/// A digit of base sixteen, in either case.
#[verifier::allow_in_spec]
pub fn is_hex_digit(b: u8) -> bool
    returns
        is_digit(b) || (0x41 <= b && b <= 0x46) || (0x61 <= b && b <= 0x66),
{
    is_digit(b) || (0x41 <= b && b <= 0x46) || (0x61 <= b && b <= 0x66)
}

/// One of the three bytes that open a quoted span.
#[verifier::allow_in_spec]
pub fn is_quote(b: u8) -> bool
    returns
        b == SINGLE_QUOTE || b == DOUBLE_QUOTE || b == BACKTICK,
{
    b == SINGLE_QUOTE || b == DOUBLE_QUOTE || b == BACKTICK
}

/// The lowercase form of an ASCII letter; any other byte is kept.
#[verifier::allow_in_spec]
pub fn lowercase(b: u8) -> u8
    returns
        (if 0x41 <= b && b <= 0x5a {
            (b + 0x20) as u8
        } else {
            b
        }),
{
    if 0x41 <= b && b <= 0x5a {
        b + 0x20
    } else {
        b
    }
}

/// The uppercase form of an ASCII letter; any other byte is kept.
#[verifier::allow_in_spec]
pub fn uppercase(b: u8) -> u8
    returns
        (if 0x61 <= b && b <= 0x7a {
            (b - 0x20) as u8
        } else {
            b
        }),
{
    if 0x61 <= b && b <= 0x7a {
        b - 0x20
    } else {
        b
    }
}

/// `s` without its leading whitespace.
pub open spec fn trim_start(s: Seq<u8>) -> Seq<u8>
    decreases s.len(),
{
    if s.len() > 0 && is_space(s[0]) {
        trim_start(s.skip(1))
    } else {
        s
    }
}

/// `s` without its trailing whitespace.
pub open spec fn trim_end(s: Seq<u8>) -> Seq<u8>
    decreases s.len(),
{
    if s.len() > 0 && is_space(s.last()) {
        trim_end(s.drop_last())
    } else {
        s
    }
}

/// `s` without its leading and trailing whitespace.
pub open spec fn trim(s: Seq<u8>) -> Seq<u8> {
    trim_end(trim_start(s))
}

/// What is left after leading whitespace is a suffix.
pub proof fn lemma_trim_start_suffix(s: Seq<u8>)
    ensures
        trim_start(s).len() <= s.len(),
        trim_start(s) == s.skip(s.len() - trim_start(s).len()),
        trim_start(s).len() > 0 ==> !is_space(trim_start(s)[0]),
    decreases s.len(),
{
    if s.len() > 0 && is_space(s[0]) {
        lemma_trim_start_suffix(s.skip(1));
        assert(s.skip(1).skip(s.len() - 1 - trim_start(s).len()) == s.skip(
            s.len() - trim_start(s).len(),
        ));
    } else {
        assert(s.skip(0) == s);
    }
}

/// What is left before trailing whitespace is a prefix.
pub proof fn lemma_trim_end_prefix(s: Seq<u8>)
    ensures
        trim_end(s).len() <= s.len(),
        trim_end(s) == s.take(trim_end(s).len() as int),
        trim_end(s).len() > 0 ==> !is_space(trim_end(s).last()),
    decreases s.len(),
{
    if s.len() > 0 && is_space(s.last()) {
        lemma_trim_end_prefix(s.drop_last());
        assert(s.drop_last().take(trim_end(s).len() as int) == s.take(trim_end(s).len() as int));
    } else {
        assert(s.take(s.len() as int) == s);
    }
}

/// Drops leading ASCII whitespace.
pub fn trim_ascii_start(s: &[u8]) -> (r: &[u8])
    ensures
        r@ == trim_start(s@),
{
    let mut i: usize = 0;
    assert(s@.skip(0) == s@);
    while i < s.len() && is_space(s[i])
        invariant
            i <= s@.len(),
            trim_start(s@) == trim_start(s@.skip(i as int)),
        decreases s@.len() - i,
    {
        assert(s@.skip(i as int).skip(1) == s@.skip(i + 1));
        i = i + 1;
    }
    assert(s@.skip(i as int) == s@.subrange(i as int, s@.len() as int));
    slice_subrange(s, i, s.len())
}

/// Drops leading and trailing ASCII whitespace.
pub fn trim_ascii(s: &[u8]) -> (r: &[u8])
    ensures
        r@ == trim(s@),
{
    let t = trim_ascii_start(s);
    let mut n: usize = t.len();
    assert(t@.take(n as int) == t@);
    while n > 0 && is_space(t[n - 1])
        invariant
            n <= t@.len(),
            trim_end(t@) == trim_end(t@.take(n as int)),
        decreases n,
    {
        assert(t@.take(n as int).drop_last() == t@.take(n - 1));
        n = n - 1;
    }
    assert(t@.take(n as int) == t@.subrange(0, n as int));
    slice_subrange(t, 0, n)
}

/// The contents of a sequence of slices.
pub open spec fn contents(parts: Seq<&[u8]>) -> Seq<Seq<u8>> {
    parts.map_values(|part: &[u8]| part@)
}

/// The bytes that are no ASCII letters.
pub open spec fn not_alphabetic() -> spec_fn(u8) -> bool {
    |b: u8| !is_alphabetic(b)
}

/// The length of the run of ASCII letters that `s` starts with.
pub fn alphabetic_prefix(s: &[u8]) -> (n: usize)
    ensures
        n == index_where(s@, 0, not_alphabetic()),
        n <= s@.len(),
{
    let mut i: usize = 0;
    while i < s.len() && is_alphabetic(s[i])
        invariant
            i <= s@.len(),
            forall|j: int| 0 <= j < i ==> is_alphabetic(#[trigger] s@[j]),
        decreases s@.len() - i,
    {
        i = i + 1;
    }
    proof {
        lemma_index_where_is(s@, 0, not_alphabetic(), i as int);
    }
    i
}

/// The bytes of an ASCII literal.
pub open spec fn ascii(word: &str) -> Seq<u8> {
    Seq::new(word@.len(), |i: int| word@[i] as u8)
}

/// `s` spells `word` up to the case of ASCII letters.
pub open spec fn eq_ci(s: Seq<u8>, word: Seq<u8>) -> bool {
    s.len() == word.len() && forall|i: int|
        0 <= i < s.len() ==> lowercase(#[trigger] s[i]) == lowercase(word[i])
}

/// `s` begins with `word` up to the case of ASCII letters.
pub open spec fn starts_ci(s: Seq<u8>, word: Seq<u8>) -> bool {
    s.len() >= word.len() && eq_ci(s.take(word.len() as int), word)
}

/// `word` occurs in `s` at `i` up to the case of ASCII letters.
pub open spec fn at_ci(s: Seq<u8>, i: int, word: Seq<u8>) -> bool {
    i + word.len() <= s.len() && eq_ci(s.subrange(i, i + word.len()), word)
}

/// The bytes of an ASCII literal.
pub fn ascii_bytes(word: &str) -> (r: &[u8])
    requires
        is_ascii(word),
    ensures
        r@ == ascii(word),
{
    word.as_bytes()
}

/// Whether two byte strings are equal.
pub fn bytes_eq(a: &[u8], b: &[u8]) -> (r: bool)
    ensures
        r == (a@ == b@),
{
    if a.len() != b.len() {
        return false;
    }
    let mut i: usize = 0;
    while i < a.len()
        invariant
            i <= a@.len(),
            a@.len() == b@.len(),
            forall|j: int| 0 <= j < i ==> #[trigger] a@[j] == b@[j],
        decreases a@.len() - i,
    {
        if a[i] != b[i] {
            return false;
        }
        i = i + 1;
    }
    assert(a@ =~= b@);
    true
}

/// Whether two byte strings are equal up to the case of ASCII letters.
pub fn eq_ignore_ascii_case(s: &[u8], word: &[u8]) -> (r: bool)
    ensures
        r == eq_ci(s@, word@),
{
    if s.len() != word.len() {
        return false;
    }
    let mut i: usize = 0;
    while i < s.len()
        invariant
            i <= s@.len(),
            s@.len() == word@.len(),
            forall|j: int| 0 <= j < i ==> lowercase(#[trigger] s@[j]) == lowercase(word@[j]),
        decreases s@.len() - i,
    {
        if lowercase(s[i]) != lowercase(word[i]) {
            return false;
        }
        i = i + 1;
    }
    true
}

/// Whether `item` begins with `word` up to the case of ASCII letters.
pub fn starts_with_ci(item: &[u8], word: &[u8]) -> (r: bool)
    ensures
        r == starts_ci(item@, word@),
{
    item.len() >= word.len() && eq_ignore_ascii_case(slice_subrange(item, 0, word.len()), word)
}

} // verus!
