//! Splits a dump into top-level statements and tokenizes the bodies of `CREATE TABLE` and
//! `INSERT ... VALUES`. Everything borrows from the dump: slices in, slices out.
//!
//! The functions jump with `memchr` to the next byte that could matter (a quote, a parenthesis, a
//! separator, a comment starter); what they compute is stated by recursive definitions that look
//! at one lexical unit at a time.

use vstd::prelude::*;
use vstd::slice::slice_subrange;

use crate::bytes::{
    alphabetic_prefix, ascii, ascii_bytes, bytes_eq, contents, equal_to, find_byte, index_where,
    is_alphabetic, is_quote, is_space, lemma_index_where, lemma_index_where_is,
    lemma_trim_start_suffix, not_alphabetic, position, starts_ci, starts_with_ci, trim, trim_ascii,
    trim_ascii_start, trim_start, uppercase, BACKSLASH, BACKTICK, CLOSE_PAREN, DASH, DOUBLE_QUOTE,
    HASH, NEWLINE, OPEN_PAREN, SEMICOLON, SINGLE_QUOTE, SLASH, STAR,
};
use crate::text::{ascii_string, ascii_text};

verus! {

/// `b` is one of the needles of one of the groups.
pub open spec fn in_groups(groups: Seq<&[u8]>, b: u8) -> bool {
    exists|g: int| 0 <= g < groups.len() && #[trigger] groups[g]@.contains(b)
}

/// The nearest position at or after `from` that holds a needle of any group, each group being one
/// to three bytes.
///
/// The buffer is searched in bounded windows: a needle that does not occur for a long while then
/// costs no scan beyond the window in which another one is found.
fn find_nearest(data: &[u8], from: usize, groups: &[&[u8]]) -> (found: Option<usize>)
    requires
        forall|g: int| 0 <= g < groups@.len() ==> 1 <= #[trigger] groups@[g]@.len() <= 3,
    ensures
        match found {
            Some(j) => {
                &&& from <= j < data@.len()
                &&& in_groups(groups@, data@[j as int])
                &&& forall|k: int| from <= k < j ==> !in_groups(groups@, #[trigger] data@[k])
            },
            None => forall|k: int|
                from <= k < data@.len() ==> !in_groups(groups@, #[trigger] data@[k]),
        },
{
    let chunk: usize = 65536;
    let len = data.len();
    let mut lo: usize = from;
    while lo < len
        invariant
            from <= lo,
            from <= len ==> lo <= len,
            len == data@.len(),
            chunk > 0,
            forall|g: int| 0 <= g < groups@.len() ==> 1 <= #[trigger] groups@[g]@.len() <= 3,
            forall|k: int| from <= k < lo ==> !in_groups(groups@, #[trigger] data@[k]),
        decreases len - lo,
    {
        let hi = if len - lo > chunk { lo + chunk } else { len };
        let window = slice_subrange(data, lo, hi);
        let mut best: Option<usize> = None;
        let mut g: usize = 0;
        while g < groups.len()
            invariant
                lo < hi <= len,
                len == data@.len(),
                g <= groups@.len(),
                window@ == data@.subrange(lo as int, hi as int),
                forall|x: int| 0 <= x < groups@.len() ==> 1 <= #[trigger] groups@[x]@.len() <= 3,
                match best {
                    Some(o) => {
                        &&& o < window@.len()
                        &&& in_groups(groups@, window@[o as int])
                        &&& forall|k: int, x: int|
                            0 <= k < o && 0 <= x < g ==> !(#[trigger] groups@[x])@.contains(
                                #[trigger] window@[k],
                            )
                    },
                    None => forall|k: int, x: int|
                        0 <= k < window@.len() && 0 <= x < g ==> !(#[trigger] groups@[x])@.contains(
                            #[trigger] window@[k],
                        ),
                },
            decreases groups@.len() - g,
        {
            let needle = groups[g];
            let found = if needle.len() == 1 {
                memchr::memchr(needle[0], window)
            } else if needle.len() == 2 {
                memchr::memchr2(needle[0], needle[1], window)
            } else {
                memchr::memchr3(needle[0], needle[1], needle[2], window)
            };
            proof {
                assert forall|b: u8| #[trigger] needle@.contains(b) <==> (b == needle@[0] || (needle@.len()
                    >= 2 && b == needle@[1]) || (needle@.len() >= 3 && b == needle@[2])) by {
                    if b == needle@[0] {
                    } else if needle@.len() >= 2 && b == needle@[1] {
                    } else if needle@.len() >= 3 && b == needle@[2] {
                    }
                }
                if let Some(o) = found {
                    assert(groups@[g as int]@.contains(window@[o as int]));
                }
            }
            if let Some(o) = found {
                best = match best {
                    Some(b) => if b < o {
                        Some(b)
                    } else {
                        Some(o)
                    },
                    None => Some(o),
                };
            }
            g = g + 1;
        }
        if let Some(o) = best {
            assert forall|k: int| from <= k < lo + o implies !in_groups(groups@, #[trigger] data@[k]) by {
                if k >= lo {
                    assert(window@[k - lo] == data@[k]);
                }
            }
            return Some(lo + o);
        }
        assert forall|k: int| from <= k < hi implies !in_groups(groups@, #[trigger] data@[k]) by {
            if k >= lo {
                assert(window@[k - lo] == data@[k]);
            }
        }
        lo = hi;
    }
    None
}

/// The position just past the closing quote of a span whose body continues at `i`, or the end of
/// the data when the span is not closed.
///
/// A backslash takes the next byte with it, except inside backticks; a doubled quote is a literal
/// quote.
pub open spec fn quoted_end(data: Seq<u8>, quote: u8, i: int) -> int
    decreases data.len() + 1 - i,
{
    if i >= data.len() {
        data.len() as int
    } else if data[i] == BACKSLASH && quote != BACKTICK {
        quoted_end(data, quote, i + 2)
    } else if data[i] == quote {
        if i + 1 < data.len() && data[i + 1] == quote {
            quoted_end(data, quote, i + 2)
        } else {
            i + 1
        }
    } else {
        quoted_end(data, quote, i + 1)
    }
}

/// A quoted span ends inside the data, past where its body was entered.
pub proof fn lemma_quoted_end_bounds(data: Seq<u8>, quote: u8, i: int)
    requires
        0 <= i,
    ensures
        quoted_end(data, quote, i) <= data.len(),
        i <= data.len() ==> i <= quoted_end(data, quote, i),
    decreases data.len() + 1 - i,
{
    if i < data.len() {
        if data[i] == BACKSLASH && quote != BACKTICK {
            lemma_quoted_end_bounds(data, quote, i + 2);
        } else if data[i] == quote {
            lemma_quoted_end_bounds(data, quote, i + 2);
        } else {
            lemma_quoted_end_bounds(data, quote, i + 1);
        }
    }
}

/// Bytes that are neither the quote nor a backslash do not end a span.
pub proof fn lemma_quoted_end_skip(data: Seq<u8>, quote: u8, i: int, j: int)
    requires
        0 <= i <= j <= data.len(),
        forall|k: int|
            i <= k < j ==> #[trigger] data[k] != quote && (data[k] != BACKSLASH || quote
                == BACKTICK),
    ensures
        quoted_end(data, quote, i) == quoted_end(data, quote, j),
    decreases j - i,
{
    if i < j {
        lemma_quoted_end_skip(data, quote, i + 1, j);
    }
}

/// Skips the quoted span that opens at `pos`: the index just past its closing quote.
pub(crate) fn skip_quoted(data: &[u8], pos: usize) -> (end: usize)
    requires
        pos < data@.len(),
        is_quote(data@[pos as int]),
    ensures
        end == quoted_end(data@, data@[pos as int], pos + 1),
        pos < end <= data@.len(),
{
    let quote = data[pos];
    let len = data.len();
    let mut i: usize = pos + 1;
    proof {
        lemma_quoted_end_bounds(data@, quote, pos + 1);
    }
    loop
        invariant
            len == data@.len(),
            quote == data@[pos as int],
            is_quote(quote),
            pos < i <= len,
            quoted_end(data@, quote, i as int) == quoted_end(data@, quote, pos + 1),
            pos < quoted_end(data@, quote, pos + 1) <= len,
        decreases len - i,
    {
        if i >= len {
            return len;
        }
        let tail = slice_subrange(data, i, len);
        let next = if quote == BACKTICK {
            memchr::memchr(BACKTICK, tail)
        } else {
            memchr::memchr2(quote, BACKSLASH, tail)
        };
        proof {
            let stop = if next is Some { i + next->0 } else { len as int };
            assert forall|k: int| i <= k < stop implies #[trigger] data@[k] != quote && (data@[k]
                != BACKSLASH || quote == BACKTICK) by {
                assert(tail@[k - i] == data@[k]);
            }
            lemma_quoted_end_skip(data@, quote, i as int, stop);
        }
        let j = match next {
            Some(o) => i + o,
            None => {
                return len;
            },
        };
        if data[j] == BACKSLASH {
            if j + 1 >= len {
                assert(quoted_end(data@, quote, j + 2) == len);
                return len;
            }
            i = j + 2;
            continue;
        }
        if j + 1 < len && data[j + 1] == quote {
            i = j + 2;
            continue;
        }
        return j + 1;
    }
}

/// The position just past the first `*/` at or after `i`, or the end of the data when there is
/// none.
pub open spec fn comment_end(data: Seq<u8>, i: int) -> int
    decreases data.len() - i,
{
    if i + 1 >= data.len() {
        data.len() as int
    } else if data[i] == STAR && data[i + 1] == SLASH {
        i + 2
    } else {
        comment_end(data, i + 1)
    }
}

/// A comment ends inside the data, past where its body was entered.
pub proof fn lemma_comment_end_bounds(data: Seq<u8>, i: int)
    requires
        0 <= i <= data.len(),
    ensures
        i <= comment_end(data, i) <= data.len(),
    decreases data.len() - i,
{
    if i + 1 < data.len() && !(data[i] == STAR && data[i + 1] == SLASH) {
        lemma_comment_end_bounds(data, i + 1);
    }
}

/// Bytes other than `*` do not end a comment.
proof fn lemma_comment_end_skip(data: Seq<u8>, i: int, j: int)
    requires
        0 <= i <= j <= data.len(),
        forall|k: int| i <= k < j ==> #[trigger] data[k] != STAR,
    ensures
        comment_end(data, i) == comment_end(data, j),
    decreases j - i,
{
    if i < j {
        lemma_comment_end_skip(data, i + 1, j);
    }
}

/// The index just past the end of the block comment whose `/*` stands at `start`.
fn find_block_comment_end(data: &[u8], start: usize) -> (end: usize)
    requires
        start + 2 <= data@.len(),
    ensures
        end == comment_end(data@, start + 2),
        start + 2 <= end <= data@.len(),
{
    let len = data.len();
    let mut i: usize = start + 2;
    proof {
        lemma_comment_end_bounds(data@, start + 2);
    }
    loop
        invariant
            len == data@.len(),
            start + 2 <= i <= len,
            comment_end(data@, i as int) == comment_end(data@, start + 2),
            start + 2 <= comment_end(data@, start + 2) <= len,
        decreases len - i,
    {
        let found = find_byte(data, i, STAR);
        proof {
            lemma_index_where(data@, i as int, equal_to(STAR));
            lemma_comment_end_skip(
                data@,
                i as int,
                index_where(data@, i as int, equal_to(STAR)),
            );
        }
        match found {
            Some(star) => {
                if star + 1 < len && data[star + 1] == SLASH {
                    return star + 2;
                }
                i = star + 1;
            },
            None => {
                return len;
            },
        }
    }
}

/// The position just past the newline that ends the line of `i`, or the end of the data.
pub open spec fn line_end(data: Seq<u8>, i: int) -> int {
    let newline = index_where(data, i, equal_to(NEWLINE));
    if newline < data.len() {
        newline + 1
    } else {
        data.len() as int
    }
}

/// The position just past the newline that ends the line of `i`, or the end of the data.
fn skip_line(data: &[u8], i: usize) -> (end: usize)
    requires
        i < data@.len(),
    ensures
        end == line_end(data@, i as int),
        i < end <= data@.len(),
{
    proof {
        lemma_index_where(data@, i as int, equal_to(NEWLINE));
    }
    let len = data.len();
    match find_byte(data, i, NEWLINE) {
        Some(newline) => newline + 1,
        None => len,
    }
}

/// A `--` or `#` comment starts at `i`.
pub open spec fn starts_line_comment(data: Seq<u8>, i: int) -> bool {
    data[i] == HASH || (data[i] == DASH && i + 1 < data.len() && data[i + 1] == DASH)
}

/// A `/*` comment starts at `i`.
pub open spec fn starts_block_comment(data: Seq<u8>, i: int) -> bool {
    data[i] == SLASH && i + 1 < data.len() && data[i + 1] == STAR
}

/// The end of the lexical unit at `i`: a quoted span, a comment or a single byte.
pub open spec fn unit_end(data: Seq<u8>, i: int) -> int {
    if is_quote(data[i]) {
        quoted_end(data, data[i], i + 1)
    } else if starts_line_comment(data, i) {
        line_end(data, i)
    } else if starts_block_comment(data, i) {
        comment_end(data, i + 2)
    } else {
        i + 1
    }
}

/// A lexical unit takes at least one byte and ends inside the data.
pub proof fn lemma_unit_end_bounds(data: Seq<u8>, i: int)
    requires
        0 <= i < data.len(),
    ensures
        i < unit_end(data, i) <= data.len(),
{
    if is_quote(data[i]) {
        lemma_quoted_end_bounds(data, data[i], i + 1);
    } else if starts_line_comment(data, i) {
        lemma_index_where(data, i, equal_to(NEWLINE));
    } else if starts_block_comment(data, i) {
        lemma_comment_end_bounds(data, i + 2);
    }
}

/// The terminator stands at `i`.
pub open spec fn terminator_at(data: Seq<u8>, terminator: Seq<u8>, i: int) -> bool {
    &&& 0 < terminator.len()
    &&& 0 <= i
    &&& i + terminator.len() <= data.len()
    &&& data.subrange(i, i + terminator.len()) == terminator
}

/// The first terminator at or after `i` that stands outside quotes and comments, reading unit by
/// unit.
pub open spec fn statement_end(data: Seq<u8>, terminator: Seq<u8>, i: int) -> Option<int>
    decreases data.len() - i,
{
    if i < 0 || i >= data.len() {
        None
    } else if terminator_at(data, terminator, i) {
        Some(i)
    } else {
        proof {
            lemma_unit_end_bounds(data, i);
        }
        statement_end(data, terminator, unit_end(data, i))
    }
}

/// Bytes that open no quote and no comment and do not start a terminator do not move the next
/// terminator.
pub proof fn lemma_statement_end_skip(data: Seq<u8>, terminator: Seq<u8>, i: int, j: int)
    requires
        0 < terminator.len(),
        0 <= i <= j <= data.len(),
        forall|k: int|
            i <= k < j ==> !is_quote(#[trigger] data[k]) && data[k] != DASH && data[k] != SLASH
                && data[k] != HASH && data[k] != terminator[0],
    ensures
        statement_end(data, terminator, i) == statement_end(data, terminator, j),
    decreases j - i,
{
    if i < j {
        assert(unit_end(data, i) == i + 1);
        assert(!terminator_at(data, terminator, i)) by {
            if terminator_at(data, terminator, i) {
                assert(data.subrange(i, i + terminator.len())[0] == data[i]);
            }
        }
        lemma_statement_end_skip(data, terminator, i + 1, j);
    }
}

/// Without a terminator nothing ends.
proof fn lemma_no_terminator(data: Seq<u8>, terminator: Seq<u8>, i: int)
    requires
        terminator.len() == 0,
    ensures
        statement_end(data, terminator, i) is None,
    decreases data.len() - i,
{
    if 0 <= i < data.len() {
        lemma_unit_end_bounds(data, i);
        lemma_no_terminator(data, terminator, unit_end(data, i));
    }
}

/// The terminator that was found lies at or after the start of the search.
pub proof fn lemma_statement_end_bounds(data: Seq<u8>, terminator: Seq<u8>, i: int)
    requires
        0 <= i,
    ensures
        statement_end(data, terminator, i) matches Some(j) ==> i <= j && terminator_at(
            data,
            terminator,
            j,
        ),
    decreases data.len() - i,
{
    if i < data.len() && !terminator_at(data, terminator, i) {
        lemma_unit_end_bounds(data, i);
        lemma_statement_end_bounds(data, terminator, unit_end(data, i));
    }
}

/// The bytes that are whitespace.
pub open spec fn whitespace() -> spec_fn(u8) -> bool {
    |b: u8| is_space(b)
}

/// The text starts with the client command `DELIMITER`, which sets what ends a statement.
pub open spec fn is_delimiter_command(s: Seq<u8>) -> bool {
    starts_ci(s, ascii("DELIMITER")) && (s.len() == ascii("DELIMITER").len() || is_space(
        s[ascii("DELIMITER").len() as int],
    ))
}

/// The first word behind the command `DELIMITER`, on the same line.
pub open spec fn delimiter_word(s: Seq<u8>) -> Seq<u8> {
    let n = ascii("DELIMITER").len() as int;
    let t = trim_start(s.subrange(n, index_where(s, n, equal_to(NEWLINE))));
    t.take(index_where(t, 0, whitespace()))
}

/// The `DELIMITER` command at `pos`, past comments and whitespace, if there is one: its word, and
/// where its line ends.
pub open spec fn delimiter_command(data: Seq<u8>, pos: int) -> Option<(Seq<u8>, int)> {
    let s = strip_comments(data.skip(pos));
    if is_delimiter_command(s) {
        Some((delimiter_word(s), data.len() - s.len() + line_end(s, ascii("DELIMITER").len() as int)))
    } else {
        None
    }
}

/// A `DELIMITER` command takes at least one byte and ends inside the data.
pub proof fn lemma_delimiter_command_bounds(data: Seq<u8>, pos: int)
    requires
        0 <= pos <= data.len(),
    ensures
        delimiter_command(data, pos) matches Some((_, end)) ==> pos < end <= data.len(),
{
    reveal_strlit("DELIMITER");
    let s = strip_comments(data.skip(pos));
    lemma_strip_comments_suffix(data.skip(pos));
    if is_delimiter_command(s) {
        lemma_index_where(s, 9, equal_to(NEWLINE));
    }
}

/// What ends statements behind a `DELIMITER` command: its word, or what did so before where it has
/// none.
pub open spec fn changed_terminator(terminator: Seq<u8>, word: Seq<u8>) -> Seq<u8> {
    if word.len() > 0 {
        word
    } else {
        terminator
    }
}

/// A cursor in a buffer.
pub struct Cursor {
    pub data: Seq<u8>,
    pub pos: int,
}

/// A cursor in a buffer of statements, with what ends the next one.
pub struct Scanner {
    pub data: Seq<u8>,
    pub pos: int,
    pub terminator: Seq<u8>,
}

/// Splits a buffer into top-level SQL statements, aware of quotes and comments. A statement ends with
/// a semicolon, or with what a `DELIMITER` command says.
pub struct Statements<'a> {
    data: &'a [u8],
    pos: usize,
    /// What a `DELIMITER` command said; a semicolon where there was none.
    delimiter: Option<&'a [u8]>,
}

impl<'a> View for Statements<'a> {
    type V = Scanner;

    closed spec fn view(&self) -> Scanner {
        Scanner {
            data: self.data@,
            pos: self.pos as int,
            terminator: match self.delimiter {
                Some(word) => word@,
                None => seq![SEMICOLON],
            },
        }
    }
}

/// The statements of `data`, from its start.
pub fn iter_statements(data: &[u8]) -> (r: Statements<'_>)
    ensures
        r@ == (Scanner { data: data@, pos: 0, terminator: seq![SEMICOLON] }),
{
    Statements { data, pos: 0, delimiter: None }
}

/// The first statement at or after `pos` that is not empty, where the search for the one after it
/// continues, and what ends that one. A fragment that nothing terminates is no statement.
pub open spec fn next_statement(data: Seq<u8>, pos: int, terminator: Seq<u8>) -> (
    Option<Seq<u8>>,
    int,
    Seq<u8>,
)
    decreases data.len() - pos,
{
    if pos < 0 || pos > data.len() {
        (None, pos, terminator)
    } else {
        proof {
            lemma_delimiter_command_bounds(data, pos);
            lemma_statement_end_bounds(data, terminator, pos);
        }
        match delimiter_command(data, pos) {
            Some((word, end)) => next_statement(data, end, changed_terminator(terminator, word)),
            None => match statement_end(data, terminator, pos) {
                None => (None, pos, terminator),
                Some(end) => {
                    let statement = trim(data.subrange(pos, end));
                    let next = end + terminator.len();
                    if statement.len() > 0 {
                        (Some(statement), next, terminator)
                    } else {
                        next_statement(data, next, terminator)
                    }
                },
            },
        }
    }
}

/// The next terminator at or after `pos` that stands outside quotes and comments.
fn scan_to_terminator(data: &[u8], terminator: &[u8], pos: usize) -> (r: Option<usize>)
    ensures
        position(r) == statement_end(data@, terminator@, pos as int),
        r matches Some(j) ==> pos <= j && j + terminator@.len() <= data@.len() && 0
            < terminator@.len(),
{
    let len = data.len();
    let n = terminator.len();
    if n == 0 {
        proof {
            lemma_no_terminator(data@, terminator@, pos as int);
        }
        return None;
    }
    let quotes: [u8; 3] = [SINGLE_QUOTE, DOUBLE_QUOTE, BACKTICK];
    let starters: [u8; 3] = [DASH, SLASH, HASH];
    let end: [u8; 1] = [terminator[0]];
    let ghost t0 = terminator@[0];
    let groups: [&[u8]; 3] = [quotes.as_slice(), starters.as_slice(), end.as_slice()];
    assert forall|b: u8| #[trigger] in_groups(groups@, b) <==> (is_quote(b) || b == DASH || b
        == SLASH || b == HASH || b == t0) by {
        if is_quote(b) {
            assert(quotes@[0] == b || quotes@[1] == b || quotes@[2] == b);
            assert(groups@[0]@.contains(b));
        } else if b == t0 {
            assert(end@[0] == b);
            assert(groups@[2]@.contains(b));
        } else if b == DASH || b == SLASH || b == HASH {
            assert(starters@[0] == b || starters@[1] == b || starters@[2] == b);
            assert(groups@[1]@.contains(b));
        }
    }
    let mut i: usize = pos;
    loop
        invariant
            pos <= i,
            len == data@.len(),
            n == terminator@.len(),
            0 < n,
            t0 == terminator@[0],
            groups@.len() == 3,
            forall|g: int| 0 <= g < groups@.len() ==> 1 <= #[trigger] groups@[g]@.len() <= 3,
            forall|b: u8| #[trigger] in_groups(groups@, b) <==> (is_quote(b) || b == DASH || b
                == SLASH || b == HASH || b == t0),
            statement_end(data@, terminator@, i as int) == statement_end(
                data@,
                terminator@,
                pos as int,
            ),
        decreases len - i,
    {
        if i >= len {
            return None;
        }
        let found = find_nearest(data, i, groups.as_slice());
        proof {
            lemma_statement_end_skip(
                data@,
                terminator@,
                i as int,
                if found is Some { found->0 as int } else { len as int },
            );
        }
        let j = match found {
            Some(j) => j,
            None => {
                return None;
            },
        };
        if n <= len - j && bytes_eq(slice_subrange(data, j, j + n), terminator) {
            return Some(j);
        }
        let b = data[j];
        proof {
            lemma_unit_end_bounds(data@, j as int);
        }
        if is_quote(b) {
            i = skip_quoted(data, j);
        } else if b == HASH || (b == DASH && j + 1 < len && data[j + 1] == DASH) {
            i = skip_line(data, j);
        } else if b == SLASH && j + 1 < len && data[j + 1] == STAR {
            i = find_block_comment_end(data, j);
        } else {
            i = j + 1;
        }
    }
}

/// The `DELIMITER` command at `pos`, past comments and whitespace: its word, and where its line ends.
fn find_delimiter_command(data: &[u8], pos: usize) -> (r: Option<(&[u8], usize)>)
    requires
        pos <= data@.len(),
    ensures
        match delimiter_command(data@, pos as int) {
            Some((word, end)) => r matches Some((w, e)) && w@ == word && e == end,
            None => r is None,
        },
{
    proof {
        reveal_strlit("DELIMITER");
        lemma_strip_comments_suffix(data@.skip(pos as int));
        lemma_delimiter_command_bounds(data@, pos as int);
    }
    let len = data.len();
    let tail = slice_subrange(data, pos, len);
    assert(tail@ =~= data@.skip(pos as int));
    let s = strip_leading_comments(tail);
    let n = s.len();
    let word = ascii_bytes("DELIMITER");
    if !starts_with_ci(s, word) || !(n == 9 || is_space(s[9])) {
        return None;
    }
    let (line, line_len) = if n == 9 {
        (slice_subrange(s, 9, 9), 9)
    } else {
        proof {
            lemma_index_where(s@, 9, equal_to(NEWLINE));
        }
        match find_byte(s, 9, NEWLINE) {
            Some(newline) => (slice_subrange(s, 9, newline), newline + 1),
            None => (slice_subrange(s, 9, n), n),
        }
    };
    let t = trim_ascii_start(line);
    let mut k: usize = 0;
    while k < t.len() && !is_space(t[k])
        invariant
            k <= t@.len(),
            forall|j: int| 0 <= j < k ==> !is_space(#[trigger] t@[j]),
        decreases t@.len() - k,
    {
        k = k + 1;
    }
    proof {
        lemma_index_where_is(t@, 0, whitespace(), k as int);
    }
    let found = slice_subrange(t, 0, k);
    assert(found@ =~= t@.take(k as int));
    Some((found, len - n + line_len))
}

impl<'a> Statements<'a> {
    /// The next statement that is not empty, without surrounding whitespace.
    pub fn next(&mut self) -> (r: Option<&'a [u8]>)
        ensures
            ({
                let (statement, pos, terminator) = next_statement(
                    old(self)@.data,
                    old(self)@.pos,
                    old(self)@.terminator,
                );
                &&& final(self)@ == Scanner { data: old(self)@.data, pos, terminator }
                &&& statement is Some <==> r is Some
                &&& r matches Some(s) ==> statement == Some(s@)
            }),
    {
        let data = self.data;
        let len = data.len();
        let semicolon: [u8; 1] = [SEMICOLON];
        assert(semicolon@ =~= seq![SEMICOLON]);
        loop
            invariant
                len == data@.len(),
                semicolon@ == seq![SEMICOLON],
                self.data == data,
                self@.data == old(self)@.data,
                next_statement(self@.data, self@.pos, self@.terminator) == next_statement(
                    old(self)@.data,
                    old(self)@.pos,
                    old(self)@.terminator,
                ),
            decreases self@.data.len() - self@.pos,
        {
            let start = self.pos;
            if start > len {
                return None;
            }
            proof {
                lemma_delimiter_command_bounds(self@.data, self@.pos);
                lemma_statement_end_bounds(self@.data, self@.terminator, self@.pos);
            }
            if let Some((word, end)) = find_delimiter_command(data, start) {
                if word.len() > 0 {
                    self.delimiter = Some(word);
                }
                self.pos = end;
            } else {
                let terminator: &[u8] = match self.delimiter {
                    Some(word) => word,
                    None => semicolon.as_slice(),
                };
                let n = terminator.len();
                let end = match scan_to_terminator(data, terminator, start) {
                    Some(end) => end,
                    None => {
                        return None;
                    },
                };
                self.pos = end + n;
                let statement = trim_ascii(slice_subrange(data, start, end));
                if !statement.is_empty() {
                    return Some(statement);
                }
            }
        }
    }

    /// All statements that are left.
    pub fn collect(self) -> (r: Vec<&'a [u8]>)
        ensures
            contents(r@) == statements(self@.data, self@.pos, self@.terminator),
    {
        let mut rest = self;
        let mut parts: Vec<&'a [u8]> = Vec::new();
        loop
            invariant
                rest@.data == self@.data,
                contents(parts@) + statements(rest@.data, rest@.pos, rest@.terminator)
                    == statements(self@.data, self@.pos, self@.terminator),
            decreases rest@.data.len() - rest@.pos,
        {
            proof {
                lemma_next_statement_bounds(rest@.data, rest@.pos, rest@.terminator);
            }
            match rest.next() {
                Some(statement) => {
                    let ghost before = contents(parts@);
                    parts.push(statement);
                    assert(contents(parts@) == before.push(statement@));
                },
                None => {
                    return parts;
                },
            }
        }
    }
}

/// The statements at or after `pos`, in order.
pub open spec fn statements(data: Seq<u8>, pos: int, terminator: Seq<u8>) -> Seq<Seq<u8>>
    decreases data.len() - pos,
{
    proof {
        lemma_next_statement_bounds(data, pos, terminator);
    }
    match next_statement(data, pos, terminator) {
        (Some(statement), next, after) => seq![statement] + statements(data, next, after),
        _ => Seq::empty(),
    }
}

/// A statement takes at least its terminator.
pub proof fn lemma_next_statement_bounds(data: Seq<u8>, pos: int, terminator: Seq<u8>)
    ensures
        next_statement(data, pos, terminator).0 is Some ==> pos < next_statement(
            data,
            pos,
            terminator,
        ).1 <= data.len(),
    decreases data.len() - pos,
{
    if 0 <= pos <= data.len() {
        lemma_delimiter_command_bounds(data, pos);
        lemma_statement_end_bounds(data, terminator, pos);
        if let Some((word, end)) = delimiter_command(data, pos) {
            lemma_next_statement_bounds(data, end, changed_terminator(terminator, word));
        } else if let Some(end) = statement_end(data, terminator, pos) {
            lemma_next_statement_bounds(data, end + terminator.len(), terminator);
        }
    }
}

/// The block comment that `s` starts with ends at its very end. The `*` that opens it does not end it.
pub open spec fn ends_comment(s: Seq<u8>) -> bool {
    s.len() >= 4 && s[s.len() - 2] == STAR && s[s.len() - 1] == SLASH
}

/// `s` without its leading comments and whitespace. A comment that is not terminated stays,
/// together with the whitespace before it.
pub open spec fn strip_comments(s: Seq<u8>) -> Seq<u8>
    decreases s.len(),
{
    let t = trim_start(s);
    proof {
        lemma_trim_start_suffix(s);
        lemma_index_where(t, 0, equal_to(NEWLINE));
    }
    if t.len() == 0 {
        t
    } else if starts_line_comment(t, 0) {
        let newline = index_where(t, 0, equal_to(NEWLINE));
        if newline < t.len() {
            strip_comments(t.skip(newline + 1))
        } else {
            s
        }
    } else if starts_block_comment(t, 0) {
        proof {
            lemma_comment_end_bounds(t, 2);
        }
        let end = comment_end(t, 2);
        if end < t.len() || ends_comment(t) {
            strip_comments(t.skip(end))
        } else {
            s
        }
    } else {
        t
    }
}

/// What is left without leading comments is a suffix.
pub proof fn lemma_strip_comments_suffix(s: Seq<u8>)
    ensures
        strip_comments(s).len() <= s.len(),
        strip_comments(s) == s.skip(s.len() - strip_comments(s).len()),
    decreases s.len(),
{
    let t = trim_start(s);
    lemma_trim_start_suffix(s);
    let r = strip_comments(s);
    if t.len() == 0 {
    } else if starts_line_comment(t, 0) {
        lemma_index_where(t, 0, equal_to(NEWLINE));
        let newline = index_where(t, 0, equal_to(NEWLINE));
        if newline < t.len() {
            lemma_strip_comments_suffix(t.skip(newline + 1));
            assert(r =~= s.skip(s.len() - r.len()));
        } else {
            assert(r =~= s.skip(0));
        }
    } else if starts_block_comment(t, 0) {
        lemma_comment_end_bounds(t, 2);
        let end = comment_end(t, 2);
        if end < t.len() || ends_comment(t) {
            lemma_strip_comments_suffix(t.skip(end));
            assert(r =~= s.skip(s.len() - r.len()));
        } else {
            assert(r =~= s.skip(0));
        }
    }
}

/// Skips leading `--`, `#` and `/* */` comments and whitespace, so that a statement that starts
/// with decorative comments still shows its keyword.
pub fn strip_leading_comments(stmt: &[u8]) -> (r: &[u8])
    ensures
        r@ == strip_comments(stmt@),
{
    let mut rest = stmt;
    loop
        invariant
            strip_comments(rest@) == strip_comments(stmt@),
        decreases rest@.len(),
    {
        let trimmed = trim_ascii_start(rest);
        let len = trimmed.len();
        proof {
            lemma_trim_start_suffix(rest@);
            lemma_index_where(trimmed@, 0, equal_to(NEWLINE));
        }
        if len == 0 {
            return trimmed;
        }
        if trimmed[0] == HASH || (trimmed[0] == DASH && len > 1 && trimmed[1] == DASH) {
            match find_byte(trimmed, 0, NEWLINE) {
                Some(newline) => {
                    rest = slice_subrange(trimmed, newline + 1, len);
                    assert(rest@ =~= trimmed@.skip(newline + 1));
                },
                None => {
                    return rest;
                },
            }
        } else if trimmed[0] == SLASH && len > 1 && trimmed[1] == STAR {
            let end = find_block_comment_end(trimmed, 0);
            if end < len || (len >= 4 && trimmed[len - 2] == STAR && trimmed[len - 1] == SLASH) {
                rest = slice_subrange(trimmed, end, len);
                assert(rest@ =~= trimmed@.skip(end as int));
            } else {
                return rest;
            }
        } else {
            return trimmed;
        }
    }
}

/// The first keyword of a statement, past its comments, in uppercase.
pub open spec fn keyword(stmt: Seq<u8>) -> Seq<char> {
    let rest = trim_start(strip_comments(stmt));
    let word = rest.take(index_where(rest, 0, not_alphabetic()));
    ascii_text(word.map_values(|b: u8| uppercase(b)))
}

/// The first keyword of `stmt`, past its comments, in uppercase.
pub fn statement_keyword(stmt: &[u8]) -> (r: String)
    ensures
        r@ == keyword(stmt@),
{
    let rest = trim_ascii_start(strip_leading_comments(stmt));
    let end = alphabetic_prefix(rest);
    let mut word: Vec<u8> = Vec::new();
    let mut i: usize = 0;
    proof {
        lemma_index_where(rest@, 0, not_alphabetic());
    }
    while i < end
        invariant
            i <= end <= rest@.len(),
            word@.len() == i,
            forall|j: int| 0 <= j < end ==> is_alphabetic(#[trigger] rest@[j]),
            forall|j: int| 0 <= j < i ==> #[trigger] word@[j] == uppercase(rest@[j]),
        decreases end - i,
    {
        word.push(uppercase(rest[i]));
        i = i + 1;
    }
    assert(word@ =~= rest@.take(end as int).map_values(|b: u8| uppercase(b)));
    ascii_string(word.as_slice())
}

/// The `)` that closes `depth` open parentheses, reading from `i` and passing over quoted spans.
pub open spec fn paren_close(data: Seq<u8>, i: int, depth: int) -> Option<int>
    decreases data.len() - i,
{
    if i < 0 || i >= data.len() {
        None
    } else if is_quote(data[i]) {
        proof {
            lemma_quoted_end_bounds(data, data[i], i + 1);
        }
        paren_close(data, quoted_end(data, data[i], i + 1), depth)
    } else if data[i] == OPEN_PAREN {
        paren_close(data, i + 1, depth + 1)
    } else if data[i] == CLOSE_PAREN {
        if depth == 1 {
            Some(i)
        } else {
            paren_close(data, i + 1, depth - 1)
        }
    } else {
        paren_close(data, i + 1, depth)
    }
}

/// The `)` that matches the `(` at `open`, if the parentheses are balanced.
pub open spec fn matching_paren(data: Seq<u8>, open: int) -> Option<int> {
    paren_close(data, open + 1, 1)
}

/// Bytes that are no quotes and no parentheses do not move the closing parenthesis.
pub proof fn lemma_paren_close_skip(data: Seq<u8>, i: int, j: int, depth: int)
    requires
        0 <= i <= j <= data.len(),
        forall|k: int|
            i <= k < j ==> !is_quote(#[trigger] data[k]) && data[k] != OPEN_PAREN && data[k]
                != CLOSE_PAREN,
    ensures
        paren_close(data, i, depth) == paren_close(data, j, depth),
    decreases j - i,
{
    if i < j {
        lemma_paren_close_skip(data, i + 1, j, depth);
    }
}

/// The closing parenthesis that was found lies at or after the start of the search.
pub proof fn lemma_paren_close_bounds(data: Seq<u8>, i: int, depth: int)
    requires
        0 <= i,
    ensures
        paren_close(data, i, depth) matches Some(j) ==> i <= j < data.len() && data[j]
            == CLOSE_PAREN,
    decreases data.len() - i,
{
    if i < data.len() {
        if is_quote(data[i]) {
            lemma_quoted_end_bounds(data, data[i], i + 1);
            lemma_paren_close_bounds(data, quoted_end(data, data[i], i + 1), depth);
        } else if data[i] == OPEN_PAREN {
            lemma_paren_close_bounds(data, i + 1, depth + 1);
        } else if data[i] == CLOSE_PAREN {
            lemma_paren_close_bounds(data, i + 1, depth - 1);
        } else {
            lemma_paren_close_bounds(data, i + 1, depth);
        }
    }
}

/// The index of the `)` matching the `(` at `open_paren_pos`, or `None` when the parentheses are
/// not balanced.
pub fn try_matching_paren(data: &[u8], open_paren_pos: usize) -> (r: Option<usize>)
    requires
        open_paren_pos < data@.len(),
        data@[open_paren_pos as int] == OPEN_PAREN,
    ensures
        position(r) == matching_paren(data@, open_paren_pos as int),
        r matches Some(close) ==> open_paren_pos < close < data@.len(),
{
    let len = data.len();
    let quotes: [u8; 3] = [SINGLE_QUOTE, DOUBLE_QUOTE, BACKTICK];
    let parens: [u8; 2] = [OPEN_PAREN, CLOSE_PAREN];
    let groups: [&[u8]; 2] = [quotes.as_slice(), parens.as_slice()];
    assert forall|b: u8| #[trigger] in_groups(groups@, b) <==> (is_quote(b) || b == OPEN_PAREN || b
        == CLOSE_PAREN) by {
        if is_quote(b) {
            assert(quotes@[0] == b || quotes@[1] == b || quotes@[2] == b);
            assert(groups@[0]@.contains(b));
        } else if b == OPEN_PAREN || b == CLOSE_PAREN {
            assert(parens@[0] == b || parens@[1] == b);
            assert(groups@[1]@.contains(b));
        }
    }
    let mut depth: usize = 1;
    let mut i: usize = open_paren_pos + 1;
    loop
        invariant
            len == data@.len(),
            groups@.len() == 2,
            forall|g: int| 0 <= g < groups@.len() ==> 1 <= #[trigger] groups@[g]@.len() <= 3,
            forall|b: u8| #[trigger] in_groups(groups@, b) <==> (is_quote(b) || b == OPEN_PAREN
                || b == CLOSE_PAREN),
            open_paren_pos < i <= len,
            1 <= depth <= i,
            paren_close(data@, i as int, depth as int) == matching_paren(
                data@,
                open_paren_pos as int,
            ),
        decreases len - i,
    {
        if i >= len {
            return None;
        }
        let found = find_nearest(data, i, groups.as_slice());
        proof {
            lemma_paren_close_skip(
                data@,
                i as int,
                if found is Some { found->0 as int } else { len as int },
                depth as int,
            );
        }
        let j = match found {
            Some(j) => j,
            None => {
                return None;
            },
        };
        let b = data[j];
        if is_quote(b) {
            i = skip_quoted(data, j);
        } else if b == OPEN_PAREN {
            depth = depth + 1;
            i = j + 1;
        } else {
            if depth == 1 {
                return Some(j);
            }
            depth = depth - 1;
            i = j + 1;
        }
    }
}

/// The index of the `)` matching the `(` at `open_paren_pos`. Parentheses inside quoted spans do
/// not count.
pub fn find_matching_paren(data: &[u8], open_paren_pos: usize) -> (close: usize)
    requires
        open_paren_pos < data@.len(),
        data@[open_paren_pos as int] == OPEN_PAREN,
        matching_paren(data@, open_paren_pos as int) is Some,
    ensures
        matching_paren(data@, open_paren_pos as int) == Some(close as int),
        open_paren_pos < close < data@.len(),
{
    try_matching_paren(data, open_paren_pos).unwrap()
}

/// The parts of `data` between separators at parenthesis depth zero and outside quotes, where `i`
/// is the next unit, the current part began at `last`, and `depth` parentheses are open.
pub open spec fn split_from(data: Seq<u8>, sep: u8, i: int, last: int, depth: int) -> Seq<Seq<u8>>
    decreases data.len() - i,
{
    if i < 0 || i >= data.len() {
        seq![data.skip(last)]
    } else if is_quote(data[i]) {
        proof {
            lemma_quoted_end_bounds(data, data[i], i + 1);
        }
        split_from(data, sep, quoted_end(data, data[i], i + 1), last, depth)
    } else if data[i] == OPEN_PAREN {
        split_from(data, sep, i + 1, last, depth + 1)
    } else if data[i] == CLOSE_PAREN {
        split_from(data, sep, i + 1, last, depth - 1)
    } else if data[i] == sep && depth == 0 {
        seq![data.subrange(last, i)] + split_from(data, sep, i + 1, i + 1, depth)
    } else {
        split_from(data, sep, i + 1, last, depth)
    }
}

/// The parts of `data` between separators that stand at parenthesis depth zero, outside quotes.
pub open spec fn split(data: Seq<u8>, sep: u8) -> Seq<Seq<u8>> {
    split_from(data, sep, 0, 0, 0)
}

/// Bytes that are no quotes, parentheses or separators do not cut.
pub proof fn lemma_split_skip(data: Seq<u8>, sep: u8, i: int, j: int, last: int, depth: int)
    requires
        0 <= i <= j <= data.len(),
        forall|k: int|
            i <= k < j ==> !is_quote(#[trigger] data[k]) && data[k] != OPEN_PAREN && data[k]
                != CLOSE_PAREN && data[k] != sep,
    ensures
        split_from(data, sep, i, last, depth) == split_from(data, sep, j, last, depth),
    decreases j - i,
{
    if i < j {
        lemma_split_skip(data, sep, i + 1, j, last, depth);
    }
}

/// Splits `data` on `sep` at parenthesis depth zero, quote-aware: the column and key definitions
/// of a `CREATE TABLE`, or the value tokens of one row.
pub fn split_toplevel(data: &[u8], sep: u8) -> (r: Vec<&[u8]>)
    ensures
        contents(r@) == split(data@, sep),
{
    let len = data.len();
    let quotes: [u8; 3] = [SINGLE_QUOTE, DOUBLE_QUOTE, BACKTICK];
    let parens: [u8; 2] = [OPEN_PAREN, CLOSE_PAREN];
    let cut: [u8; 1] = [sep];
    let groups: [&[u8]; 3] = [quotes.as_slice(), parens.as_slice(), cut.as_slice()];
    assert forall|b: u8| #[trigger] in_groups(groups@, b) <==> (is_quote(b) || b == OPEN_PAREN || b
        == CLOSE_PAREN || b == sep) by {
        if is_quote(b) {
            assert(quotes@[0] == b || quotes@[1] == b || quotes@[2] == b);
            assert(groups@[0]@.contains(b));
        } else if b == OPEN_PAREN || b == CLOSE_PAREN {
            assert(parens@[0] == b || parens@[1] == b);
            assert(groups@[1]@.contains(b));
        } else if b == sep {
            assert(cut@[0] == b);
            assert(groups@[2]@.contains(b));
        }
    }
    let mut parts: Vec<&[u8]> = Vec::new();
    let mut depth: i128 = 0;
    let mut i: usize = 0;
    let mut last_cut: usize = 0;
    while i < len
        invariant_except_break
            contents(parts@) + split_from(data@, sep, i as int, last_cut as int, depth as int)
                == split(data@, sep),
        invariant
            len == data@.len(),
            groups@.len() == 3,
            forall|g: int| 0 <= g < groups@.len() ==> 1 <= #[trigger] groups@[g]@.len() <= 3,
            forall|b: u8| #[trigger] in_groups(groups@, b) <==> (is_quote(b) || b == OPEN_PAREN
                || b == CLOSE_PAREN || b == sep),
            last_cut <= i <= len,
            -i <= depth <= i,
        ensures
            contents(parts@) + seq![data@.skip(last_cut as int)] == split(data@, sep),
        decreases len - i,
    {
        let found = find_nearest(data, i, groups.as_slice());
        proof {
            lemma_split_skip(
                data@,
                sep,
                i as int,
                if found is Some { found->0 as int } else { len as int },
                last_cut as int,
                depth as int,
            );
        }
        let j = match found {
            Some(j) => j,
            None => {
                break;
            },
        };
        let b = data[j];
        if is_quote(b) {
            i = skip_quoted(data, j);
        } else if b == OPEN_PAREN {
            depth = depth + 1;
            i = j + 1;
        } else if b == CLOSE_PAREN {
            depth = depth - 1;
            i = j + 1;
        } else {
            if depth == 0 {
                let ghost before = contents(parts@);
                parts.push(slice_subrange(data, last_cut, j));
                assert(contents(parts@) =~= before.push(data@.subrange(last_cut as int, j as int)));
                last_cut = j + 1;
            }
            i = j + 1;
        }
    }
    let ghost before = contents(parts@);
    let tail = slice_subrange(data, last_cut, len);
    parts.push(tail);
    assert(tail@ =~= data@.skip(last_cut as int));
    assert(contents(parts@) =~= before + seq![data@.skip(last_cut as int)]);
    parts
}

/// The first `(` at or after `i` that stands outside quotes.
pub open spec fn next_open(data: Seq<u8>, i: int) -> Option<int>
    decreases data.len() - i,
{
    if i < 0 || i >= data.len() {
        None
    } else if is_quote(data[i]) {
        proof {
            lemma_quoted_end_bounds(data, data[i], i + 1);
        }
        next_open(data, quoted_end(data, data[i], i + 1))
    } else if data[i] == OPEN_PAREN {
        Some(i)
    } else {
        next_open(data, i + 1)
    }
}

/// Bytes that are no quotes and no `(` do not move the next `(`.
pub proof fn lemma_next_open_skip(data: Seq<u8>, i: int, j: int)
    requires
        0 <= i <= j <= data.len(),
        forall|k: int| i <= k < j ==> !is_quote(#[trigger] data[k]) && data[k] != OPEN_PAREN,
    ensures
        next_open(data, i) == next_open(data, j),
    decreases j - i,
{
    if i < j {
        lemma_next_open_skip(data, i + 1, j);
    }
}

/// The `(` that was found lies at or after the start of the search.
pub proof fn lemma_next_open_bounds(data: Seq<u8>, i: int)
    requires
        0 <= i,
    ensures
        next_open(data, i) matches Some(j) ==> i <= j < data.len() && data[j] == OPEN_PAREN,
    decreases data.len() - i,
{
    if i < data.len() {
        if is_quote(data[i]) {
            lemma_quoted_end_bounds(data, data[i], i + 1);
            lemma_next_open_bounds(data, quoted_end(data, data[i], i + 1));
        } else if data[i] != OPEN_PAREN {
            lemma_next_open_bounds(data, i + 1);
        }
    }
}

/// The next top-level `(...)` group at or after `pos`, by the positions of its parentheses. `None`
/// is an opening parenthesis that nothing closes; `Some(None)` is the end of the groups.
pub open spec fn next_group(data: Seq<u8>, pos: int) -> Option<Option<(int, int)>> {
    match next_open(data, pos) {
        None => Some(None),
        Some(open) => match matching_paren(data, open) {
            Some(close) => Some(Some((open, close))),
            None => None,
        },
    }
}

/// A group lies inside the data, past where the search began.
pub proof fn lemma_next_group_bounds(data: Seq<u8>, pos: int)
    requires
        0 <= pos,
    ensures
        next_group(data, pos) matches Some(Some((open, close))) ==> pos <= open < close
            < data.len(),
{
    lemma_next_open_bounds(data, pos);
    if let Some(open) = next_open(data, pos) {
        lemma_paren_close_bounds(data, open + 1, 1);
    }
}

/// The inner contents of the top-level groups at or after `pos`, in order, or `None` when one of
/// them is not closed.
pub open spec fn paren_groups(data: Seq<u8>, pos: int) -> Option<Seq<Seq<u8>>>
    decreases data.len() - pos,
{
    if pos < 0 {
        None
    } else {
        proof {
            lemma_next_group_bounds(data, pos);
        }
        match next_group(data, pos) {
            None => None,
            Some(None) => Some(Seq::empty()),
            Some(Some((open, close))) => match paren_groups(data, close + 1) {
                None => None,
                Some(rest) => Some(seq![data.subrange(open + 1, close)] + rest),
            },
        }
    }
}

/// The inner contents of each top-level `(...)` group of a buffer, such as the row tuples of an
/// `INSERT ... VALUES (a,b),(c,d)`.
pub struct ParenGroups<'a> {
    data: &'a [u8],
    pos: usize,
}

impl<'a> View for ParenGroups<'a> {
    type V = Cursor;

    closed spec fn view(&self) -> Cursor {
        Cursor { data: self.data@, pos: self.pos as int }
    }
}

/// The groups of `data` at or after `start`.
pub fn iter_paren_groups(data: &[u8], start: usize) -> (r: ParenGroups<'_>)
    ensures
        r@ == (Cursor { data: data@, pos: start as int }),
{
    ParenGroups { data, pos: start }
}

/// What a search for the next group finds.
pub enum GroupStep<'a> {
    /// The inner content of a group.
    Group(&'a [u8]),
    /// No further group.
    End,
    /// A group that is not closed.
    Unbalanced,
}

impl<'a> ParenGroups<'a> {
    /// The next group, or how the search for it ended.
    pub fn step(&mut self) -> (r: GroupStep<'a>)
        ensures
            final(self)@.data == old(self)@.data,
            match next_group(old(self)@.data, old(self)@.pos) {
                None => r is Unbalanced,
                Some(None) => r is End && next_group(final(self)@.data, final(self)@.pos)
                    == Some(None::<(int, int)>),
                Some(Some((open, close))) => {
                    &&& r matches GroupStep::Group(inner)
                    &&& inner@ == old(self)@.data.subrange(open + 1, close)
                    &&& final(self)@.pos == close + 1
                },
            },
    {
        let data = self.data;
        let len = data.len();
        let quotes: [u8; 3] = [SINGLE_QUOTE, DOUBLE_QUOTE, BACKTICK];
        let parens: [u8; 1] = [OPEN_PAREN];
        let groups: [&[u8]; 2] = [quotes.as_slice(), parens.as_slice()];
        assert forall|b: u8| #[trigger] in_groups(groups@, b) <==> (is_quote(b) || b
            == OPEN_PAREN) by {
            if is_quote(b) {
                assert(quotes@[0] == b || quotes@[1] == b || quotes@[2] == b);
                assert(groups@[0]@.contains(b));
            } else if b == OPEN_PAREN {
                assert(parens@[0] == b);
                assert(groups@[1]@.contains(b));
            }
        }
        loop
            invariant
                self.data == data,
                self.data == old(self).data,
                len == data@.len(),
                groups@.len() == 2,
                forall|g: int| 0 <= g < groups@.len() ==> 1 <= #[trigger] groups@[g]@.len() <= 3,
                forall|b: u8| #[trigger] in_groups(groups@, b) <==> (is_quote(b) || b
                    == OPEN_PAREN),
                next_open(data@, self.pos as int) == next_open(data@, old(self).pos as int),
            decreases len - self.pos,
        {
            if self.pos >= len {
                return GroupStep::End;
            }
            let found = find_nearest(data, self.pos, groups.as_slice());
            proof {
                lemma_next_open_skip(
                    data@,
                    self.pos as int,
                    if found is Some { found->0 as int } else { len as int },
                );
            }
            let j = match found {
                Some(j) => j,
                None => {
                    return GroupStep::End;
                },
            };
            if is_quote(data[j]) {
                self.pos = skip_quoted(data, j);
            } else {
                match try_matching_paren(data, j) {
                    Some(close) => {
                        self.pos = close + 1;
                        return GroupStep::Group(slice_subrange(data, j + 1, close));
                    },
                    None => {
                        return GroupStep::Unbalanced;
                    },
                }
            }
        }
    }

    /// The inner content of the next group.
    pub fn next(&mut self) -> (r: Option<&'a [u8]>)
        requires
            next_group(old(self)@.data, old(self)@.pos) is Some,
        ensures
            final(self)@.data == old(self)@.data,
            match next_group(old(self)@.data, old(self)@.pos)->0 {
                None => r is None && next_group(final(self)@.data, final(self)@.pos) == Some(
                    None::<(int, int)>,
                ),
                Some((open, close)) => {
                    &&& r matches Some(inner)
                    &&& inner@ == old(self)@.data.subrange(open + 1, close)
                    &&& final(self)@.pos == close + 1
                },
            },
    {
        match self.step() {
            GroupStep::Group(inner) => Some(inner),
            _ => None,
        }
    }

    /// The inner contents of all groups that are left, or `None` when one of them is not closed.
    pub fn try_collect(self) -> (r: Option<Vec<&'a [u8]>>)
        ensures
            match paren_groups(self@.data, self@.pos) {
                Some(groups) => r is Some && contents(r->0@) == groups,
                None => r is None,
            },
    {
        let mut rest = self;
        let mut parts: Vec<&'a [u8]> = Vec::new();
        let ghost goal = paren_groups(self@.data, self@.pos);
        loop
            invariant
                rest@.data == self@.data,
                rest@.pos >= 0,
                goal == paren_groups(self@.data, self@.pos),
                match paren_groups(rest@.data, rest@.pos) {
                    Some(groups) => goal == Some(contents(parts@) + groups),
                    None => goal is None,
                },
            decreases rest@.data.len() - rest@.pos,
        {
            proof {
                lemma_next_group_bounds(rest@.data, rest@.pos);
            }
            match rest.step() {
                GroupStep::Group(inner) => {
                    let ghost before = contents(parts@);
                    parts.push(inner);
                    proof {
                        assert(contents(parts@) =~= before.push(inner@));
                        if let Some(groups) = paren_groups(rest@.data, rest@.pos) {
                            assert(contents(parts@) + groups =~= before + (seq![inner@] + groups));
                        }
                    }
                },
                GroupStep::End => {
                    assert(contents(parts@) + Seq::<Seq<u8>>::empty() =~= contents(parts@));
                    return Some(parts);
                },
                GroupStep::Unbalanced => {
                    return None;
                },
            }
        }
    }

    /// The inner contents of all groups that are left.
    pub fn collect(self) -> (r: Vec<&'a [u8]>)
        requires
            paren_groups(self@.data, self@.pos) is Some,
        ensures
            contents(r@) == paren_groups(self@.data, self@.pos)->0,
    {
        self.try_collect().unwrap()
    }
}

} // verus!
