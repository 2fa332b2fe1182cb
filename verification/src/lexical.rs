//! How a buffer is cut up: into statements at its semicolons, and into parts at its separators,
//! without losing anything and without being misled by quotes and comments.

use vstd::prelude::*;

use crate::bytes::{
    ascii, equal_to, index_where, is_quote, is_space, lemma_index_where, lemma_index_where_is,
    lemma_trim_start_suffix, lowercase, starts_ci, trim, trim_start, BACKSLASH, BACKTICK,
    CLOSE_PAREN, NEWLINE, OPEN_PAREN, SEMICOLON, SLASH, STAR,
};
use crate::sqlstream::{
    comment_end, delimiter_command, ends_comment, is_delimiter_command, lemma_comment_end_bounds,
    lemma_quoted_end_bounds, lemma_statement_end_bounds, lemma_unit_end_bounds, line_end,
    next_statement, quoted_end, split, split_from, starts_block_comment, starts_line_comment,
    statement_end, statements, strip_comments, terminator_at, unit_end, whitespace,
};

verus! {

/// `data` holds `s` at `i`.
pub open spec fn holds_at(data: Seq<u8>, i: int, s: Seq<u8>) -> bool {
    &&& 0 <= i
    &&& i + s.len() <= data.len()
    &&& forall|k: int| 0 <= k < s.len() ==> data[i + k] == #[trigger] s[k]
}

/// What holds two texts one after the other holds each.
pub proof fn lemma_holds_parts(data: Seq<u8>, i: int, a: Seq<u8>, b: Seq<u8>)
    requires
        holds_at(data, i, a + b),
    ensures
        holds_at(data, i, a),
        holds_at(data, i + a.len(), b),
{
    assert forall|k: int| 0 <= k < a.len() implies data[i + k] == #[trigger] a[k] by {
        assert((a + b)[k] == a[k]);
    }
    assert forall|k: int| 0 <= k < b.len() implies data[i + a.len() + k] == #[trigger] b[k] by {
        assert((a + b)[a.len() + k] == b[k]);
    }
}

/// The parts one after the other, with the separator between them.
pub open spec fn parts_text(parts: Seq<Seq<u8>>, sep: u8) -> Seq<u8>
    decreases parts.len(),
{
    if parts.len() == 0 {
        Seq::empty()
    } else if parts.len() == 1 {
        parts[0]
    } else {
        parts[0] + seq![sep] + parts_text(parts.skip(1), sep)
    }
}

/// The parts from `last` on, put together, are the data from `last` on.
proof fn lemma_split_from(data: Seq<u8>, sep: u8, i: int, last: int, depth: int)
    requires
        0 <= last <= i <= data.len(),
    ensures
        split_from(data, sep, i, last, depth).len() > 0,
        parts_text(split_from(data, sep, i, last, depth), sep) == data.skip(last),
    decreases data.len() - i,
{
    if i >= data.len() {
    } else if is_quote(data[i]) {
        lemma_quoted_end_bounds(data, data[i], i + 1);
        lemma_split_from(data, sep, quoted_end(data, data[i], i + 1), last, depth);
    } else if data[i] == OPEN_PAREN {
        lemma_split_from(data, sep, i + 1, last, depth + 1);
    } else if data[i] == CLOSE_PAREN {
        lemma_split_from(data, sep, i + 1, last, depth - 1);
    } else if data[i] == sep && depth == 0 {
        lemma_split_from(data, sep, i + 1, i + 1, depth);
        let rest = split_from(data, sep, i + 1, i + 1, depth);
        let parts = seq![data.subrange(last, i)] + rest;
        assert(parts.skip(1) =~= rest);
        assert(parts_text(parts, sep) =~= data.skip(last));
    } else {
        lemma_split_from(data, sep, i + 1, last, depth);
    }
}

/// Splitting loses nothing: the parts, put together with the separator between them, are the data.
pub proof fn split_parts_put_together(data: Seq<u8>, sep: u8)
    ensures
        split(data, sep).len() > 0,
        parts_text(split(data, sep), sep) == data,
{
    lemma_split_from(data, sep, 0, 0, 0);
    assert(data.skip(0) =~= data);
}

/// `b` holds `a` at `off`.
pub open spec fn embedded(a: Seq<u8>, b: Seq<u8>, off: int) -> bool {
    &&& 0 <= off
    &&& off + a.len() <= b.len()
    &&& forall|k: int| 0 <= k < a.len() ==> b[off + k] == #[trigger] a[k]
}

/// A quoted span that ends inside a text ends there wherever the text stands.
proof fn lemma_quoted_end_embedded(a: Seq<u8>, b: Seq<u8>, off: int, quote: u8, i: int)
    requires
        embedded(a, b, off),
        0 <= i,
        quoted_end(a, quote, i) < a.len(),
    ensures
        quoted_end(b, quote, off + i) == off + quoted_end(a, quote, i),
    decreases a.len() + 1 - i,
{
    if i < a.len() {
        assert(b[off + i] == a[i]);
        if i + 1 < a.len() {
            assert(b[off + (i + 1)] == a[i + 1]);
        }
        if a[i] == BACKSLASH && quote != BACKTICK {
            lemma_quoted_end_embedded(a, b, off, quote, i + 2);
        } else if a[i] == quote {
            if i + 1 < a.len() && a[i + 1] == quote {
                lemma_quoted_end_embedded(a, b, off, quote, i + 2);
            }
        } else {
            lemma_quoted_end_embedded(a, b, off, quote, i + 1);
        }
    }
}

/// A block comment that ends inside a text ends there wherever the text stands.
proof fn lemma_comment_end_embedded(a: Seq<u8>, b: Seq<u8>, off: int, i: int)
    requires
        embedded(a, b, off),
        0 <= i,
        comment_end(a, i) < a.len(),
    ensures
        comment_end(b, off + i) == off + comment_end(a, i),
    decreases a.len() - i,
{
    if i + 1 < a.len() {
        assert(b[off + i] == a[i]);
        assert(b[off + (i + 1)] == a[i + 1]);
        if !(a[i] == STAR && a[i + 1] == SLASH) {
            lemma_comment_end_embedded(a, b, off, i + 1);
        }
    }
}

/// A line that ends inside a text ends there wherever the text stands.
proof fn lemma_line_end_embedded(a: Seq<u8>, b: Seq<u8>, off: int, i: int)
    requires
        embedded(a, b, off),
        0 <= i <= a.len(),
        line_end(a, i) < a.len(),
    ensures
        line_end(b, off + i) == off + line_end(a, i),
{
    let p = equal_to(NEWLINE);
    lemma_index_where(a, i, p);
    let k = index_where(a, i, p);
    assert(k < a.len());
    assert(b[off + k] == a[k]);
    assert forall|j: int| off + i <= j < off + k implies !p(#[trigger] b[j]) by {
        assert(b[off + (j - off)] == a[j - off]);
        assert(!p(a[j - off]));
    }
    lemma_index_where_is(b, off + i, p, off + k);
}

/// A lexical unit that ends inside a text ends there wherever the text stands.
proof fn lemma_unit_end_embedded(a: Seq<u8>, b: Seq<u8>, off: int, i: int)
    requires
        embedded(a, b, off),
        0 <= i,
        i + 1 < a.len(),
        unit_end(a, i) < a.len(),
    ensures
        unit_end(b, off + i) == off + unit_end(a, i),
{
    assert(b[off + i] == a[i]);
    assert(b[off + (i + 1)] == a[i + 1]);
    if is_quote(a[i]) {
        lemma_quoted_end_embedded(a, b, off, a[i], i + 1);
    } else if starts_line_comment(a, i) {
        lemma_line_end_embedded(a, b, off, i);
    } else if starts_block_comment(a, i) {
        lemma_comment_end_embedded(a, b, off, i + 2);
    }
}

/// A terminator that ends a text ends it wherever the text stands.
pub proof fn lemma_statement_end_embedded(
    a: Seq<u8>,
    b: Seq<u8>,
    terminator: Seq<u8>,
    off: int,
    i: int,
)
    requires
        embedded(a, b, off),
        0 <= i,
        0 < terminator.len(),
        statement_end(a, terminator, i) == Some(a.len() - terminator.len()),
    ensures
        statement_end(b, terminator, off + i) == Some(off + a.len() - terminator.len()),
    decreases a.len() - i,
{
    let n = terminator.len();
    lemma_statement_end_bounds(a, terminator, i);
    let x = a.subrange(i, i + n);
    let y = b.subrange(off + i, off + i + n);
    assert(y =~= x) by {
        assert forall|k: int| 0 <= k < n implies y[k] == #[trigger] x[k] by {
            assert(b[off + (i + k)] == a[i + k]);
        }
    }
    if !terminator_at(a, terminator, i) {
        let u = unit_end(a, i);
        lemma_unit_end_bounds(a, i);
        lemma_statement_end_bounds(a, terminator, u);
        lemma_unit_end_embedded(a, b, off, i);
        lemma_statement_end_embedded(a, b, terminator, off, u);
        lemma_unit_end_bounds(b, off + i);
    }
}

/// Nothing but whitespace.
pub open spec fn is_blank(s: Seq<u8>) -> bool {
    forall|k: int| 0 <= k < s.len() ==> is_space(#[trigger] s[k])
}

/// Whitespace in front of a text is dropped.
pub proof fn lemma_trim_front(gap: Seq<u8>, text: Seq<u8>)
    requires
        is_blank(gap),
    ensures
        trim_start(gap + text) == trim_start(text),
    decreases gap.len(),
{
    if gap.len() > 0 {
        assert((gap + text).skip(1) =~= gap.skip(1) + text);
        assert(is_space(gap[0]));
        assert forall|k: int| 0 <= k < gap.skip(1).len() implies is_space(
            #[trigger] gap.skip(1)[k],
        ) by {
            assert(gap.skip(1)[k] == gap[k + 1]);
        }
        lemma_trim_front(gap.skip(1), text);
    } else {
        assert(gap + text =~= text);
    }
}

/// A word that can end statements: it holds no whitespace and opens no comment.
pub open spec fn is_terminator(word: Seq<u8>) -> bool {
    &&& 0 < word.len()
    &&& forall|k: int| 0 <= k < word.len() ==> !is_space(#[trigger] word[k])
    &&& !starts_line_comment(word, 0)
    &&& !starts_block_comment(word, 0)
}

/// A text that the terminator behind it ends: it leaves no quote and no comment open, holds no
/// terminator outside of them, and is no `DELIMITER` command.
pub open spec fn is_closed_by(text: Seq<u8>, terminator: Seq<u8>) -> bool {
    &&& statement_end(text + terminator, terminator, 0) == Some(text.len() as int)
    &&& !is_delimiter_command(strip_comments(text + terminator))
}

/// What can follow a terminator without running into it: anything behind a semicolon, else
/// whitespace.
spec fn can_follow(terminator: Seq<u8>, rest: Seq<u8>) -> bool {
    terminator.last() == SEMICOLON || rest.len() == 0 || is_space(rest[0])
}

/// The end of a comment in a suffix.
proof fn lemma_comment_end_suffix(a: Seq<u8>, k: int, i: int)
    requires
        0 <= k <= a.len(),
        0 <= i,
    ensures
        comment_end(a, k + i) == k + comment_end(a.skip(k), i),
    decreases a.len() - k - i,
{
    if i + 1 < a.skip(k).len() {
        lemma_comment_end_suffix(a, k, i + 1);
    }
}

/// The first match in a suffix.
proof fn lemma_index_where_suffix(a: Seq<u8>, k: int, i: int, p: spec_fn(u8) -> bool)
    requires
        0 <= k <= a.len(),
        0 <= i,
    ensures
        k + i <= a.len() ==> index_where(a, k + i, p) == k + index_where(a.skip(k), i, p),
    decreases a.len() - k - i,
{
    if i < a.skip(k).len() {
        lemma_index_where_suffix(a, k, i + 1, p);
    }
}

/// The first match lies at the same place with more text behind it.
proof fn lemma_index_where_more(t: Seq<u8>, rest: Seq<u8>, p: spec_fn(u8) -> bool)
    requires
        index_where(t, 0, p) < t.len(),
    ensures
        index_where(t + rest, 0, p) == index_where(t, 0, p),
{
    lemma_index_where(t, 0, p);
    let k = index_where(t, 0, p);
    assert((t + rest)[k] == t[k]);
    assert forall|j: int| 0 <= j < k implies !p(#[trigger] (t + rest)[j]) by {
        assert((t + rest)[j] == t[j]);
        assert(!p(t[j]));
    }
    lemma_index_where_is(t + rest, 0, p, k);
}

/// Past whitespace the same terminator is found, and there is something left.
proof fn lemma_past_whitespace(a: Seq<u8>, terminator: Seq<u8>, i: int, rest: Seq<u8>) -> (k: int)
    requires
        is_terminator(terminator),
        0 <= i,
        statement_end(a, terminator, i) == Some(a.len() - terminator.len()),
    ensures
        i <= k <= a.len() - terminator.len(),
        statement_end(a, terminator, k) == Some(a.len() - terminator.len()),
        !is_space(a[k]),
        trim_start(a.skip(i)) == a.skip(k),
        trim_start(a.skip(i) + rest) == a.skip(k) + rest,
    decreases a.len() - i,
{
    lemma_statement_end_bounds(a, terminator, i);
    assert(a.skip(i)[0] == a[i]);
    assert((a.skip(i) + rest)[0] == a[i]);
    if is_space(a[i]) {
        assert(!terminator_at(a, terminator, i)) by {
            if terminator_at(a, terminator, i) {
                assert(a.subrange(i, i + terminator.len())[0] == a[i]);
            }
        }
        assert(unit_end(a, i) == i + 1);
        let k = lemma_past_whitespace(a, terminator, i + 1, rest);
        assert(a.skip(i).skip(1) =~= a.skip(i + 1));
        assert((a.skip(i) + rest).skip(1) =~= a.skip(i + 1) + rest);
        k
    } else {
        i
    }
}

/// Comments in front of a statement are stripped without regard to what follows its terminator.
proof fn lemma_strip_stays_inside(a: Seq<u8>, terminator: Seq<u8>, i: int, rest: Seq<u8>)
    requires
        is_terminator(terminator),
        can_follow(terminator, rest),
        0 <= i,
        statement_end(a, terminator, i) == Some(a.len() - terminator.len()),
    ensures
        strip_comments(a.skip(i) + rest) == strip_comments(a.skip(i)) + rest,
        strip_comments(a.skip(i)).len() > 0,
        strip_comments(a.skip(i)).last() == terminator.last(),
    decreases a.len() - i,
{
    let m = a.len() - terminator.len();
    lemma_statement_end_bounds(a, terminator, i);
    let k = lemma_past_whitespace(a, terminator, i, rest);
    let t = a.skip(k);
    let more = t + rest;
    lemma_statement_end_bounds(a, terminator, k);
    assert(a.subrange(m, a.len() as int) == terminator);
    assert(terminator.last() == a[a.len() - 1]) by {
        assert(a.subrange(m, a.len() as int)[terminator.len() - 1] == a[a.len() - 1]);
    }
    assert(t.last() == a[a.len() - 1]);
    if k == m {
        assert(t =~= terminator);
        assert(!starts_line_comment(more, 0) && !starts_block_comment(more, 0)) by {
            if t.len() == 1 && rest.len() > 0 {
                assert(more[1] == rest[0]);
            } else if t.len() > 1 {
                assert(more[1] == t[1]);
            }
        }
    } else {
        let u = unit_end(a, k);
        lemma_unit_end_bounds(a, k);
        assert(!terminator_at(a, terminator, k)) by {
            if terminator_at(a, terminator, k) {
                assert(statement_end(a, terminator, k) == Some(k));
            }
        }
        lemma_statement_end_bounds(a, terminator, u);
        assert(t[0] == a[k] && t[1] == a[k + 1]);
        assert(more[0] == t[0] && more[1] == t[1]);
        if starts_line_comment(t, 0) {
            let p = equal_to(NEWLINE);
            lemma_index_where_suffix(a, k, 0, p);
            lemma_index_where(a, k, p);
            let newline = index_where(t, 0, p);
            assert(u == k + newline + 1);
            lemma_index_where_more(t, rest, p);
            assert(t.skip(newline + 1) =~= a.skip(u));
            assert(more.skip(newline + 1) =~= a.skip(u) + rest);
            lemma_strip_stays_inside(a, terminator, u, rest);
        } else if starts_block_comment(t, 0) {
            lemma_comment_end_suffix(a, k, 2);
            let end = comment_end(t, 2);
            assert(u == k + end);
            lemma_comment_end_embedded(t, more, 0, 2);
            lemma_comment_end_bounds(t, 2);
            assert(t.skip(end) =~= a.skip(u));
            assert(more.skip(end) =~= a.skip(u) + rest);
            lemma_strip_stays_inside(a, terminator, u, rest);
        }
    }
}

/// What is no `DELIMITER` command is none with what may follow its terminator.
proof fn lemma_no_command(s: Seq<u8>, terminator: Seq<u8>, rest: Seq<u8>)
    requires
        0 < s.len(),
        0 < terminator.len(),
        s.last() == terminator.last(),
        can_follow(terminator, rest),
        !is_delimiter_command(s),
    ensures
        !is_delimiter_command(s + rest),
{
    reveal_strlit("DELIMITER");
    let more = s + rest;
    let word = ascii("DELIMITER");
    if is_delimiter_command(more) {
        let n = s.len() as int;
        assert forall|k: int| 0 <= k < 9 implies lowercase(#[trigger] more[k]) == lowercase(
            word[k],
        ) by {
            assert(lowercase(more.take(9)[k]) == lowercase(word[k]));
        }
        assert(more[n - 1] == s[n - 1]);
        if n >= 9 {
            assert(s.take(9) =~= more.take(9));
            if n > 9 {
                assert(more[9] == s[9]);
            }
        } else {
            assert(lowercase(more[n]) == lowercase(word[n]));
            assert(lowercase(more[n - 1]) == lowercase(word[n - 1]));
            if rest.len() > 0 {
                assert(more[n] == rest[0]);
            }
        }
    }
}

/// A text with its terminator behind it is the next statement, wherever it stands.
proof fn lemma_text_is_next(
    data: Seq<u8>,
    i: int,
    text: Seq<u8>,
    terminator: Seq<u8>,
    rest: Seq<u8>,
)
    requires
        0 <= i <= data.len(),
        is_terminator(terminator),
        is_closed_by(text, terminator),
        data.skip(i) == text + terminator + rest,
        can_follow(terminator, rest),
    ensures
        ({
            let next = i + text.len() + terminator.len();
            &&& next <= data.len()
            &&& data.skip(next) == rest
            &&& statements(data, i, terminator) == (if trim(text).len() > 0 {
                seq![trim(text)]
            } else {
                Seq::empty()
            }) + statements(data, next, terminator)
        }),
{
    let a = text + terminator;
    let next = i + a.len();
    assert(data.skip(i).len() == data.len() - i);
    assert forall|k: int| 0 <= k < a.len() implies data[i + k] == #[trigger] a[k] by {
        assert(data.skip(i)[k] == data[i + k]);
    }
    assert(data.skip(next) =~= rest) by {
        assert forall|k: int| 0 <= k < rest.len() implies data.skip(next)[k] == rest[k] by {
            assert(data.skip(i)[a.len() + k] == data[i + a.len() + k]);
        }
    }
    assert(a.skip(0) =~= a);
    lemma_strip_stays_inside(a, terminator, 0, rest);
    lemma_no_command(strip_comments(a), terminator, rest);
    assert(delimiter_command(data, i) is None);
    lemma_statement_end_embedded(a, data, terminator, i, 0);
    let end = i + text.len();
    assert(data.subrange(i, end) =~= text) by {
        assert forall|k: int| 0 <= k < text.len() implies data.subrange(i, end)[k] == text[k] by {
            assert(data[i + k] == a[k]);
        }
    }
    let rest_of = statements(data, next, terminator);
    if trim(text).len() > 0 {
        assert(next_statement(data, i, terminator) == (Some(trim(text)), next, terminator));
    } else {
        assert(next_statement(data, i, terminator) == next_statement(data, next, terminator));
        assert(Seq::<Seq<u8>>::empty() + rest_of =~= rest_of);
    }
}

/// The line of a `DELIMITER` command.
pub open spec fn delimiter_line(word: Seq<u8>) -> Seq<u8> {
    ascii("DELIMITER ") + word + seq![NEWLINE]
}

/// The line of a `DELIMITER` command, past whitespace, changes what ends statements.
proof fn lemma_delimiter_line(
    data: Seq<u8>,
    i: int,
    terminator: Seq<u8>,
    lead: Seq<u8>,
    word: Seq<u8>,
    rest: Seq<u8>,
)
    requires
        0 <= i <= data.len(),
        is_blank(lead),
        is_terminator(word),
        data.skip(i) == lead + delimiter_line(word) + rest,
    ensures
        ({
            let next = i + lead.len() + delimiter_line(word).len();
            &&& next <= data.len()
            &&& data.skip(next) == rest
            &&& statements(data, i, terminator) == statements(data, next, word)
        }),
{
    reveal_strlit("DELIMITER ");
    reveal_strlit("DELIMITER");
    let line = delimiter_line(word);
    let s = line + rest;
    let n = word.len() as int;
    assert(data.skip(i).len() == data.len() - i);
    assert(data.skip(i) =~= lead + s);
    lemma_trim_front(lead, s);
    assert(s[0] == ascii("DELIMITER ")[0]);
    assert(trim_start(s) == s);
    assert(strip_comments(data.skip(i)) == s);
    assert(starts_ci(s, ascii("DELIMITER"))) by {
        assert forall|k: int| 0 <= k < 9 implies s.take(9)[k] == #[trigger] ascii(
            "DELIMITER",
        )[k] by {
            assert(s[k] == ascii("DELIMITER ")[k]);
        }
        assert(s.take(9) =~= ascii("DELIMITER"));
    }
    assert(s[9] == ascii("DELIMITER ")[9]);
    let p = equal_to(NEWLINE);
    assert forall|j: int| 9 <= j < 10 + n implies !p(#[trigger] s[j]) by {
        if j >= 10 {
            assert(s[j] == word[j - 10]);
        }
    }
    assert(s[10 + n] == NEWLINE);
    lemma_index_where_is(s, 9, p, 10 + n);
    let arg = s.subrange(9, 10 + n);
    assert(arg =~= seq![0x20u8] + word);
    assert(arg.skip(1) =~= word);
    assert(trim_start(word) == word);
    assert(trim_start(arg) == word);
    assert forall|j: int| 0 <= j < n implies !whitespace()(#[trigger] word[j]) by {
    }
    lemma_index_where_is(word, 0, whitespace(), n);
    assert(word.take(n) =~= word);
    let next = i + lead.len() + line.len();
    assert(delimiter_command(data, i) == Some((word, next)));
    assert(data.skip(next) =~= rest) by {
        assert forall|k: int| 0 <= k < rest.len() implies data.skip(next)[k] == rest[k] by {
            assert(data.skip(i)[lead.len() + line.len() + k] == data[next + k]);
        }
    }
    assert(next_statement(data, i, terminator) == next_statement(data, next, word));
}

/// Texts one after the other, each with the terminator behind it.
pub open spec fn terminated(texts: Seq<Seq<u8>>, terminator: Seq<u8>) -> Seq<u8>
    decreases texts.len(),
{
    if texts.len() == 0 {
        Seq::empty()
    } else {
        texts[0] + terminator + terminated(texts.skip(1), terminator)
    }
}

/// The texts without surrounding whitespace, but for those that are nothing else.
pub open spec fn trimmed(texts: Seq<Seq<u8>>) -> Seq<Seq<u8>>
    decreases texts.len(),
{
    if texts.len() == 0 {
        Seq::empty()
    } else {
        (if trim(texts[0]).len() > 0 {
            seq![trim(texts[0])]
        } else {
            Seq::empty()
        }) + trimmed(texts.skip(1))
    }
}

/// Each text is ended by the terminator behind it, and none runs into the terminator before it: one
/// that does not end with a semicolon is followed by whitespace.
pub open spec fn are_closed_by(texts: Seq<Seq<u8>>, terminator: Seq<u8>) -> bool {
    &&& forall|k: int| 0 <= k < texts.len() ==> is_closed_by(#[trigger] texts[k], terminator)
    &&& forall|k: int|
        1 <= k < texts.len() ==> terminator.last() == SEMICOLON || ((#[trigger] texts[k]).len() > 0
            && is_space(texts[k][0]))
}

/// Texts with their terminators are read one after the other.
proof fn lemma_terminated(
    data: Seq<u8>,
    i: int,
    texts: Seq<Seq<u8>>,
    terminator: Seq<u8>,
    rest: Seq<u8>,
)
    requires
        0 <= i <= data.len(),
        is_terminator(terminator),
        are_closed_by(texts, terminator),
        data.skip(i) == terminated(texts, terminator) + rest,
        can_follow(terminator, rest),
    ensures
        ({
            let next = i + terminated(texts, terminator).len();
            &&& next <= data.len()
            &&& data.skip(next) == rest
            &&& statements(data, i, terminator) == trimmed(texts) + statements(
                data,
                next,
                terminator,
            )
        }),
    decreases texts.len(),
{
    assert(data.skip(i).len() == data.len() - i);
    if texts.len() == 0 {
        assert(data.skip(i) =~= rest);
        assert(trimmed(texts) + statements(data, i, terminator) =~= statements(
            data,
            i,
            terminator,
        ));
    } else {
        let text = texts[0];
        let more = texts.skip(1);
        let behind = terminated(more, terminator) + rest;
        assert(is_closed_by(text, terminator));
        assert(data.skip(i) =~= text + terminator + behind);
        assert(can_follow(terminator, behind)) by {
            if more.len() > 0 {
                assert(more[0] == texts[1]);
                if terminator.last() != SEMICOLON {
                    assert(behind[0] == texts[1][0]);
                }
            } else {
                assert(behind =~= rest);
            }
        }
        lemma_text_is_next(data, i, text, terminator, behind);
        assert forall|k: int| 0 <= k < more.len() implies is_closed_by(
            #[trigger] more[k],
            terminator,
        ) by {
            assert(more[k] == texts[k + 1]);
        }
        assert forall|k: int| 1 <= k < more.len() implies terminator.last() == SEMICOLON || ((
        #[trigger] more[k]).len() > 0 && is_space(more[k][0])) by {
            assert(more[k] == texts[k + 1]);
        }
        let next = i + text.len() + terminator.len();
        lemma_terminated(data, next, more, terminator, rest);
        let end = i + terminated(texts, terminator).len();
        assert(statements(data, i, terminator) =~= trimmed(texts) + statements(
            data,
            end,
            terminator,
        ));
    }
}

/// A piece of a buffer.
pub enum Piece {
    /// A text with a semicolon behind it.
    Plain(Seq<u8>),
    /// Texts between two `DELIMITER` lines, such as a trigger or a routine: the first line sets a word
    /// that ends them, the second goes back to the semicolon. Whitespace may stand in front.
    Delimited { lead: Seq<u8>, word: Seq<u8>, texts: Seq<Seq<u8>> },
}

impl Piece {
    /// How it stands in the buffer.
    pub open spec fn text(self) -> Seq<u8> {
        match self {
            Piece::Plain(text) => text + seq![SEMICOLON],
            Piece::Delimited { lead, word, texts } => lead + delimiter_line(word) + (terminated(
                texts,
                word,
            ) + (seq![NEWLINE] + delimiter_line(seq![SEMICOLON]))),
        }
    }

    /// Its texts end where their terminators stand.
    pub open spec fn is_valid(self) -> bool {
        match self {
            Piece::Plain(text) => is_closed_by(text, seq![SEMICOLON]),
            Piece::Delimited { lead, word, texts } => is_blank(lead) && is_terminator(word)
                && are_closed_by(texts, word),
        }
    }

    /// The statements that it holds, without surrounding whitespace.
    pub open spec fn statements(self) -> Seq<Seq<u8>> {
        match self {
            Piece::Plain(text) => trimmed(seq![text]),
            Piece::Delimited { texts, .. } => trimmed(texts),
        }
    }
}

/// Pieces one after the other.
pub open spec fn stream_text(pieces: Seq<Piece>) -> Seq<u8>
    decreases pieces.len(),
{
    if pieces.len() == 0 {
        Seq::empty()
    } else {
        pieces[0].text() + stream_text(pieces.skip(1))
    }
}

/// The statements that pieces hold.
pub open spec fn held_statements(pieces: Seq<Piece>) -> Seq<Seq<u8>>
    decreases pieces.len(),
{
    if pieces.len() == 0 {
        Seq::empty()
    } else {
        pieces[0].statements() + held_statements(pieces.skip(1))
    }
}

/// The texts of all pieces end where their terminators stand.
pub open spec fn are_valid_pieces(pieces: Seq<Piece>) -> bool {
    forall|k: int| 0 <= k < pieces.len() ==> (#[trigger] pieces[k]).is_valid()
}

/// One text on its own.
pub proof fn lemma_one_text(text: Seq<u8>)
    ensures
        trimmed(seq![text]) == if trim(text).len() > 0 {
            seq![trim(text)]
        } else {
            Seq::empty()
        },
{
    assert(seq![text].skip(1) =~= Seq::empty());
    assert(trimmed(seq![text].skip(1)) == Seq::<Seq<u8>>::empty());
}

/// One piece is read as its statements.
proof fn lemma_piece(data: Seq<u8>, i: int, piece: Piece, rest: Seq<u8>)
    requires
        0 <= i <= data.len(),
        piece.is_valid(),
        data.skip(i) == piece.text() + rest,
    ensures
        ({
            let next = i + piece.text().len();
            &&& next <= data.len()
            &&& data.skip(next) == rest
            &&& statements(data, i, seq![SEMICOLON]) == piece.statements() + statements(
                data,
                next,
                seq![SEMICOLON],
            )
        }),
{
    let semicolon = seq![SEMICOLON];
    match piece {
        Piece::Plain(text) => {
            lemma_text_is_next(data, i, text, semicolon, rest);
            lemma_one_text(text);
        },
        Piece::Delimited { lead, word, texts } => {
            let back = seq![NEWLINE] + delimiter_line(semicolon);
            let body = terminated(texts, word) + (back + rest);
            assert(data.skip(i) =~= lead + delimiter_line(word) + body);
            lemma_delimiter_line(data, i, semicolon, lead, word, body);
            let at = i + lead.len() + delimiter_line(word).len();
            assert((back + rest)[0] == NEWLINE);
            lemma_terminated(data, at, texts, word, back + rest);
            let behind = at + terminated(texts, word).len();
            assert(back + rest =~= seq![NEWLINE] + delimiter_line(semicolon) + rest);
            assert(is_blank(seq![NEWLINE]));
            lemma_delimiter_line(data, behind, word, seq![NEWLINE], semicolon, rest);
        },
    }
}

/// Pieces at the end of a buffer are its statements.
proof fn lemma_stream(data: Seq<u8>, i: int, pieces: Seq<Piece>)
    requires
        0 <= i <= data.len(),
        data.skip(i) == stream_text(pieces),
        are_valid_pieces(pieces),
    ensures
        statements(data, i, seq![SEMICOLON]) == held_statements(pieces),
    decreases pieces.len(),
{
    assert(data.skip(i).len() == data.len() - i);
    if pieces.len() == 0 {
        reveal_strlit("DELIMITER");
        assert(data.skip(i) =~= Seq::empty());
        assert(strip_comments(data.skip(i)).len() == 0);
        assert(delimiter_command(data, i) is None);
        assert(statement_end(data, seq![SEMICOLON], i) is None);
        assert(next_statement(data, i, seq![SEMICOLON]).0 is None);
    } else {
        let rest = pieces.skip(1);
        assert(pieces[0].is_valid());
        lemma_piece(data, i, pieces[0], stream_text(rest));
        assert forall|k: int| 0 <= k < rest.len() implies (#[trigger] rest[k]).is_valid() by {
            assert(rest[k] == pieces[k + 1]);
        }
        let next = i + pieces[0].text().len();
        lemma_stream(data, next, rest);
    }
}

/// A buffer of pieces is cut into exactly the statements that these hold, whatever semicolons stand
/// in them inside quotes and comments, or between `DELIMITER` lines. Surrounding whitespace is
/// dropped, and so are pieces that hold nothing else.
pub proof fn statements_are_the_pieces(pieces: Seq<Piece>)
    requires
        are_valid_pieces(pieces),
    ensures
        statements(stream_text(pieces), 0, seq![SEMICOLON]) == held_statements(pieces),
{
    let data = stream_text(pieces);
    assert(data.skip(0) =~= data);
    lemma_stream(data, 0, pieces);
}

/// Stripping comments twice is stripping them once: what is left starts with no comment that ends.
pub proof fn stripping_twice_changes_nothing(s: Seq<u8>)
    ensures
        strip_comments(strip_comments(s)) == strip_comments(s),
    decreases s.len(),
{
    let t = trim_start(s);
    lemma_trim_start_suffix(s);
    lemma_trim_start_suffix(t);
    assert(trim_start(t) == t);
    if t.len() == 0 {
    } else if starts_line_comment(t, 0) {
        lemma_index_where(t, 0, equal_to(NEWLINE));
        let newline = index_where(t, 0, equal_to(NEWLINE));
        if newline < t.len() {
            stripping_twice_changes_nothing(t.skip(newline + 1));
        }
    } else if starts_block_comment(t, 0) {
        lemma_comment_end_bounds(t, 2);
        let end = comment_end(t, 2);
        if end < t.len() || ends_comment(t) {
            stripping_twice_changes_nothing(t.skip(end));
        }
    }
}

} // verus!
