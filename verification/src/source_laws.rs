//! How SQL text is read: where quotes, comments and statements end, and what is left without comments.

use vstd::prelude::*;

use crate::bytes::{
    ascii, equal_to, is_alphabetic, is_alphanumeric, is_digit, is_hex_digit, is_quote, is_space,
    lemma_index_where_is, lowercase, not_alphabetic, trim, trim_end, trim_start, uppercase,
    BACKSLASH, BACKTICK, CLOSE_PAREN, DASH, DOUBLE_QUOTE, HASH, NEWLINE, OPEN_PAREN, SEMICOLON,
    SINGLE_QUOTE, SLASH, STAR,
};
use crate::definition_laws::{case_is_ignored_letter_by_letter, is_same_letter};
use crate::lexical::{holds_at, is_blank, lemma_holds_parts, lemma_trim_front};
use crate::readback::{escaped, lemma_escaped_passes, quotes_doubled};
use crate::sqlstream::{
    comment_end, delimiter_command, delimiter_word, ends_comment, keyword, lemma_paren_close_bounds,
    lemma_strip_comments_suffix, next_open, next_statement, paren_close, quoted_end, split_from,
    starts_block_comment, starts_line_comment, statement_end, statements, strip_comments,
    terminator_at, unit_end, whitespace,
};

verus! {

/// The kinds of bytes, by the characters that they stand for in ASCII.
pub proof fn bytes_are_of_their_kind(b: u8)
    ensures
        is_space(b) <==> b as char == ' ' || b as char == '\t' || b as char == '\n' || b as char
            == '\r' || b == 0x0c,
        is_quote(b) <==> b as char == '\'' || b as char == '"' || b as char == '`',
        is_digit(b) <==> '0' <= b as char <= '9',
        is_alphabetic(b) <==> 'a' <= b as char <= 'z' || 'A' <= b as char <= 'Z',
        is_alphanumeric(b) <==> '0' <= b as char <= '9' || 'a' <= b as char <= 'z' || 'A'
            <= b as char <= 'Z',
        is_hex_digit(b) <==> '0' <= b as char <= '9' || 'a' <= b as char <= 'f' || 'A' <= b as char
            <= 'F',
        'A' <= b as char <= 'Z' ==> lowercase(b) == b + 0x20 && uppercase(b) == b,
        'a' <= b as char <= 'z' ==> uppercase(b) == b - 0x20 && lowercase(b) == b,
        !is_alphabetic(b) ==> lowercase(b) == b && uppercase(b) == b,
{
}

/// A quoted text: with a backslash before what needs one, or with each quote in it doubled.
pub enum Quoted {
    Escaped { quote: u8, content: Seq<u8> },
    Doubled { quote: u8, content: Seq<u8> },
}

impl Quoted {
    /// The quote around it.
    pub open spec fn quote(self) -> u8 {
        match self {
            Quoted::Escaped { quote, .. } => quote,
            Quoted::Doubled { quote, .. } => quote,
        }
    }

    /// What stands between the quotes.
    pub open spec fn body(self) -> Seq<u8> {
        match self {
            Quoted::Escaped { content, .. } => escaped(content),
            Quoted::Doubled { quote, content } => quotes_doubled(content, quote),
        }
    }

    /// The text with its quotes.
    pub open spec fn text(self) -> Seq<u8> {
        seq![self.quote()] + self.body() + seq![self.quote()]
    }

    /// The content can be quoted that way. A backslash stands for itself between backticks only.
    pub open spec fn is_valid(self) -> bool {
        match self {
            Quoted::Escaped { quote, .. } => quote == SINGLE_QUOTE || quote == DOUBLE_QUOTE,
            Quoted::Doubled { quote, content } => {
                &&& is_quote(quote)
                &&& quote != BACKTICK ==> forall|k: int|
                    0 <= k < content.len() ==> #[trigger] content[k] != BACKSLASH
            },
        }
    }
}

/// Content with doubled quotes does not end a quoted span.
proof fn lemma_doubled_passes(data: Seq<u8>, i: int, content: Seq<u8>, quote: u8)
    requires
        is_quote(quote),
        quote != BACKTICK ==> forall|k: int|
            0 <= k < content.len() ==> #[trigger] content[k] != BACKSLASH,
        holds_at(data, i, quotes_doubled(content, quote)),
    ensures
        quoted_end(data, quote, i) == quoted_end(
            data,
            quote,
            i + quotes_doubled(content, quote).len(),
        ),
    decreases content.len(),
{
    if content.len() > 0 {
        let b = content[0];
        let head = if b == quote {
            seq![quote, quote]
        } else {
            seq![b]
        };
        let rest = content.skip(1);
        lemma_holds_parts(data, i, head, quotes_doubled(rest, quote));
        if quote != BACKTICK {
            assert forall|k: int| 0 <= k < rest.len() implies #[trigger] rest[k] != BACKSLASH by {
                assert(rest[k] == content[k + 1]);
            }
        }
        lemma_doubled_passes(data, i + head.len(), rest, quote);
        assert(data[i + 0] == head[0]);
        if b == quote {
            assert(data[i + 1] == head[1]);
        }
    }
}

/// A quoted text ends with its closing quote, whatever quotes and backslashes its content holds, wherever
/// it stands; another quote of the same kind would go on with it. Without a closing quote it takes the
/// rest of the data.
pub proof fn quoted_text_ends_with_its_quote(data: Seq<u8>, i: int, q: Quoted)
    requires
        q.is_valid(),
    ensures
        holds_at(data, i, q.text()) && (i + q.text().len() < data.len() ==> data[i + q.text().len()]
            != q.quote()) ==> quoted_end(data, q.quote(), i + 1) == i + q.text().len(),
        holds_at(data, i, seq![q.quote()] + q.body()) && i + 1 + q.body().len() == data.len()
            ==> quoted_end(data, q.quote(), i + 1) == data.len(),
{
    let open = seq![q.quote()];
    let body = q.body();
    if holds_at(data, i, q.text()) {
        lemma_holds_parts(data, i, open + body, open);
        lemma_holds_parts(data, i, open, body);
        let close = i + 1 + body.len();
        assert(data[close + 0] == open[0]);
        match q {
            Quoted::Escaped { quote, content } => {
                lemma_escaped_passes(data, i + 1, content, quote);
            },
            Quoted::Doubled { quote, content } => {
                lemma_doubled_passes(data, i + 1, content, quote);
            },
        }
    }
    if holds_at(data, i, open + body) {
        lemma_holds_parts(data, i, open, body);
        match q {
            Quoted::Escaped { quote, content } => {
                lemma_escaped_passes(data, i + 1, content, quote);
            },
            Quoted::Doubled { quote, content } => {
                lemma_doubled_passes(data, i + 1, content, quote);
            },
        }
    }
}

/// A piece of SQL text.
pub enum Token {
    /// Text without quotes, comments and what ends the statement.
    Plain(Seq<u8>),
    Quoted(Quoted),
    /// A comment behind `#` or `--`, up to the end of the line.
    Line { hash: bool, text: Seq<u8> },
    /// A comment between `/*` and `*/`.
    Block(Seq<u8>),
}

/// Nothing in the text opens a comment.
pub open spec fn opens_no_comment(s: Seq<u8>) -> bool {
    forall|k: int|
        0 <= k < s.len() ==> (#[trigger] s[k]) != HASH && !(s[k] == DASH && (k + 1 == s.len() || s[k
            + 1] == DASH)) && !(s[k] == SLASH && (k + 1 == s.len() || s[k + 1] == STAR))
}

/// The text holds no `*/`, also not with the two bytes behind it.
pub open spec fn closes_no_comment(s: Seq<u8>) -> bool {
    forall|k: int|
        0 <= k < s.len() ==> !((#[trigger] s[k]) == STAR && k + 1 < s.len() && s[k + 1] == SLASH)
}

impl Token {
    /// The text of the piece.
    pub open spec fn text(self) -> Seq<u8> {
        match self {
            Token::Plain(s) => s,
            Token::Quoted(q) => q.text(),
            Token::Line { hash, text } => (if hash {
                seq![HASH]
            } else {
                seq![DASH, DASH]
            }) + text + seq![NEWLINE],
            Token::Block(text) => seq![SLASH, STAR] + text + seq![STAR, SLASH],
        }
    }

    /// The piece can stand that way in a statement that `end` ends.
    pub open spec fn is_valid(self, end: Seq<u8>) -> bool {
        match self {
            Token::Plain(s) => {
                &&& opens_no_comment(s)
                &&& forall|k: int|
                    0 <= k < s.len() ==> !is_quote(#[trigger] s[k]) && (s[k] != end[0] || end.len()
                        > 1 && k + 1 < s.len() && s[k + 1] != end[1])
            },
            Token::Quoted(q) => q.is_valid(),
            Token::Line { text, .. } => forall|k: int|
                0 <= k < text.len() ==> #[trigger] text[k] != NEWLINE,
            Token::Block(text) => closes_no_comment(text),
        }
    }
}

/// Pieces one after the other.
pub open spec fn tokens_text(tokens: Seq<Token>) -> Seq<u8>
    decreases tokens.len(),
{
    if tokens.len() == 0 {
        Seq::empty()
    } else {
        tokens[0].text() + tokens_text(tokens.skip(1))
    }
}

/// What can end a statement: it starts with no quote and no comment, and not with a dash, which could
/// make a comment of a dash ahead of it.
pub open spec fn is_end(end: Seq<u8>) -> bool {
    &&& end.len() > 0
    &&& !is_quote(end[0])
    &&& end[0] != HASH
    &&& end[0] != DASH
    &&& end[0] == SLASH ==> end.len() > 1 && end[1] != STAR
}

/// All pieces can stand that way in a statement that `end` ends, and none but a piece with another quote
/// follows a quoted text.
pub open spec fn are_tokens(tokens: Seq<Token>, end: Seq<u8>) -> bool {
    &&& forall|k: int| 0 <= k < tokens.len() ==> (#[trigger] tokens[k]).is_valid(end)
    &&& forall|k: int|
        0 <= k < tokens.len() - 1 ==> ((#[trigger] tokens[k]) matches Token::Quoted(q) ==> {
            let rest = tokens_text(tokens.skip(k + 1));
            rest.len() > 0 ==> rest[0] != q.quote()
        })
}

/// A comment ends with the first `*/`.
proof fn lemma_comment_end_is(data: Seq<u8>, i: int, end: int)
    requires
        0 <= i <= end,
        end + 1 < data.len(),
        data[end] == STAR,
        data[end + 1] == SLASH,
        forall|k: int| i <= k < end ==> !((#[trigger] data[k]) == STAR && data[k + 1] == SLASH),
    ensures
        comment_end(data, i) == end + 2,
    decreases end - i,
{
    if i < end {
        assert(!(data[i] == STAR && data[i + 1] == SLASH));
        lemma_comment_end_is(data, i + 1, end);
    }
}

/// A piece is passed over by the search for the end.
proof fn lemma_token_passes(data: Seq<u8>, i: int, t: Token, end: Seq<u8>)
    requires
        is_end(end),
        t.is_valid(end),
        holds_at(data, i, t.text()),
        t matches Token::Quoted(q) ==> (i + t.text().len() < data.len() ==> data[i
            + t.text().len()] != q.quote()),
    ensures
        statement_end(data, end, i) == statement_end(data, end, i + t.text().len()),
{
    let s = t.text();
    match t {
        Token::Plain(text) => {
            lemma_plain_passes(data, i, text, 0, end);
        },
        Token::Quoted(q) => {
            assert(data[i + 0] == s[0]);
            quoted_text_ends_with_its_quote(data, i, q);
            lemma_not_at(data, i, end);
        },
        Token::Line { hash, text } => {
            let n = if hash {
                1int
            } else {
                2int
            };
            assert(data[i + 0] == s[0]);
            if !hash {
                assert(data[i + 1] == s[1]);
            }
            lemma_not_at(data, i, end);
            let close = i + n + text.len();
            assert forall|k: int| i <= k < close implies !equal_to(NEWLINE)(#[trigger] data[k]) by {
                assert(data[i + (k - i)] == s[k - i]);
                if k >= i + n {
                    assert(s[k - i] == text[k - i - n]);
                }
            }
            assert(data[i + (n + text.len())] == s[n + text.len()]);
            lemma_index_where_is(data, i, equal_to(NEWLINE), close);
        },
        Token::Block(text) => {
            assert(data[i + 0] == s[0]);
            assert(data[i + 1] == s[1]);
            lemma_not_at(data, i, end);
            let close = i + 2 + text.len();
            let n = text.len() as int;
            assert(data[i + (2 + n)] == s[2 + n]);
            assert(data[i + (3 + n)] == s[3 + n]);
            assert forall|k: int| i + 2 <= k < close implies !((#[trigger] data[k]) == STAR && data[k
                + 1] == SLASH) by {
                let m = k - i - 2;
                assert(data[i + (m + 2)] == s[m + 2]);
                assert(s[m + 2] == text[m]);
                assert(data[i + (m + 3)] == s[m + 3]);
                if m + 1 < n {
                    assert(s[m + 3] == text[m + 1]);
                }
            }
            lemma_comment_end_is(data, i + 2, close);
        },
    }
}

/// Other bytes end nothing.
proof fn lemma_not_at(data: Seq<u8>, i: int, end: Seq<u8>)
    requires
        is_end(end),
        0 <= i < data.len(),
        data[i] != end[0] || end.len() > 1 && i + 1 < data.len() && data[i + 1] != end[1],
    ensures
        !terminator_at(data, end, i),
{
    if terminator_at(data, end, i) {
        let s = data.subrange(i, i + end.len());
        assert(s[0] == data[i]);
        if end.len() > 1 {
            assert(s[1] == data[i + 1]);
        }
    }
}

/// A statement ends where what ends it stands, byte by byte.
pub proof fn statements_end_with_the_whole_word(data: Seq<u8>, end: Seq<u8>, i: int)
    requires
        end.len() > 0,
        0 <= i,
    ensures
        terminator_at(data, end, i) <==> holds_at(data, i, end),
{
    if holds_at(data, i, end) {
        assert(data.subrange(i, i + end.len()) =~= end);
    }
    if terminator_at(data, end, i) {
        assert forall|k: int| 0 <= k < end.len() implies data[i + k] == #[trigger] end[k] by {
            assert(data.subrange(i, i + end.len())[k] == data[i + k]);
        }
    }
}

/// Plain text is passed over.
proof fn lemma_plain_passes(data: Seq<u8>, i: int, s: Seq<u8>, k: int, end: Seq<u8>)
    requires
        is_end(end),
        Token::Plain(s).is_valid(end),
        holds_at(data, i, s),
        0 <= k <= s.len(),
    ensures
        statement_end(data, end, i + k) == statement_end(data, end, i + s.len()),
    decreases s.len() - k,
{
    if k < s.len() {
        assert(data[i + k] == s[k]);
        assert(!is_quote(s[k]));
        if k + 1 < s.len() {
            assert(data[i + (k + 1)] == s[k + 1]);
        }
        lemma_not_at(data, i + k, end);
        assert(unit_end(data, i + k) == i + k + 1);
        lemma_plain_passes(data, i, s, k + 1, end);
    }
}

/// Pieces are passed over.
proof fn lemma_tokens_pass(data: Seq<u8>, i: int, tokens: Seq<Token>, end: Seq<u8>)
    requires
        is_end(end),
        are_tokens(tokens, end),
        holds_at(data, i, tokens_text(tokens)),
        i + tokens_text(tokens).len() < data.len() ==> !is_quote(
            data[i + tokens_text(tokens).len()],
        ),
    ensures
        statement_end(data, end, i) == statement_end(data, end, i + tokens_text(tokens).len()),
    decreases tokens.len(),
{
    if tokens.len() > 0 {
        let t = tokens[0];
        let rest = tokens.skip(1);
        let n = i + t.text().len();
        assert(t.is_valid(end));
        lemma_holds_parts(data, i, t.text(), tokens_text(rest));
        if let Token::Quoted(q) = t {
            if tokens_text(rest).len() > 0 {
                assert(data[n + 0] == tokens_text(rest)[0]);
                assert(rest.len() > 0);
                assert(tokens[0] matches Token::Quoted(_));
            }
            assert(is_quote(q.quote()));
        }
        lemma_token_passes(data, i, t, end);
        assert forall|k: int| 0 <= k < rest.len() implies (#[trigger] rest[k]).is_valid(end) by {
            assert(rest[k] == tokens[k + 1]);
        }
        assert forall|k: int| 0 <= k < rest.len() - 1 implies ((#[trigger] rest[k]) matches Token::Quoted(q)
            ==> {
            let more = tokens_text(rest.skip(k + 1));
            more.len() > 0 ==> more[0] != q.quote()
        }) by {
            assert(rest[k] == tokens[k + 1]);
            assert(rest.skip(k + 1) =~= tokens.skip(k + 2));
        }
        lemma_tokens_pass(data, n, rest, end);
    }
}

/// A statement ends with the first semicolon, or the first of what a `DELIMITER` command said, outside
/// quotes and comments: text made of plain pieces, quoted texts of every kind and comments of every kind
/// holds none, whatever stands inside them. Without one it does not end.
pub proof fn statements_end_outside_quotes_and_comments(
    tokens: Seq<Token>,
    end: Seq<u8>,
    rest: Seq<u8>,
)
    requires
        is_end(end),
        are_tokens(tokens, end),
    ensures
        statement_end(tokens_text(tokens) + end + rest, end, 0) == Some(
            tokens_text(tokens).len() as int,
        ),
        statement_end(tokens_text(tokens), end, 0) is None,
{
    let text = tokens_text(tokens);
    let data = text + end + rest;
    let n = text.len() as int;
    assert(holds_at(data, 0, text));
    assert(data[n] == end[0]);
    lemma_tokens_pass(data, 0, tokens, end);
    assert(data.subrange(n, n + end.len()) =~= end);
    assert(holds_at(text, 0, text));
    lemma_tokens_pass(text, 0, tokens, end);
}

/// A `DELIMITER` line, in any case, makes its first word end statements from the next line on, past
/// comments in front of it and whatever follows the word on its line. Without a word nothing changes.
pub proof fn delimiter_lines_set_their_word(
    data: Seq<u8>,
    pos: int,
    command: Seq<u8>,
    gap: Seq<u8>,
    word: Seq<u8>,
    tail: Seq<u8>,
    rest: Seq<u8>,
    end: Seq<u8>,
)
    requires
        0 <= pos <= data.len(),
        strip_comments(data.skip(pos)) == command + (gap + (word + (tail + (seq![NEWLINE] + rest)))),
        command.len() == 9,
        forall|k: int| 0 <= k < 9 ==> is_same_letter(#[trigger] command[k], ascii("DELIMITER")[k]),
        is_blank(gap),
        gap.len() > 0,
        forall|k: int| 0 <= k < gap.len() ==> #[trigger] gap[k] != NEWLINE,
        forall|k: int| 0 <= k < word.len() ==> !is_space(#[trigger] word[k]),
        word.len() == 0 ==> tail.len() == 0,
        tail.len() > 0 ==> is_space(tail[0]),
        forall|k: int| 0 <= k < tail.len() ==> #[trigger] tail[k] != NEWLINE,
    ensures
        delimiter_command(data, pos) == Some((word, data.len() - rest.len())),
        next_statement(data, pos, end) == next_statement(
            data,
            data.len() - rest.len(),
            if word.len() > 0 {
                word
            } else {
                end
            },
        ),
{
    reveal_strlit("DELIMITER");
    let line = gap + (word + tail);
    let s = command + (gap + (word + (tail + (seq![NEWLINE] + rest))));
    let n = 9 + line.len() as int;
    assert(s =~= command + line + (seq![NEWLINE] + rest));
    assert forall|k: int| 0 <= k < 9 implies is_same_letter(
        #[trigger] s[k],
        ascii("DELIMITER")[k],
    ) by {
        assert(s[k] == command[k]);
    }
    case_is_ignored_letter_by_letter(s, ascii("DELIMITER"));
    assert(s[9] == gap[0]);
    assert(is_space(gap[0]));
    assert(s[n] == NEWLINE);
    assert forall|k: int| 9 <= k < n implies !equal_to(NEWLINE)(#[trigger] s[k]) by {
        assert(s[k] == line[k - 9]);
        if k - 9 >= gap.len() {
            let m = k - 9 - gap.len();
            if m < word.len() {
                assert(line[k - 9] == word[m]);
            } else {
                assert(line[k - 9] == tail[m - word.len()]);
            }
        }
    }
    lemma_index_where_is(s, 9, equal_to(NEWLINE), n);
    assert(s.subrange(9, n) =~= line);
    lemma_trim_front(gap, word + tail);
    if word.len() > 0 {
        let t = word + tail;
        assert(t[0] == word[0]);
        assert(trim_start(t) == t);
        assert forall|k: int| 0 <= k < word.len() implies !whitespace()(#[trigger] t[k]) by {
            assert(t[k] == word[k]);
        }
        if tail.len() > 0 {
            assert(t[word.len() as int] == tail[0]);
        }
        lemma_index_where_is(t, 0, whitespace(), word.len() as int);
        assert(t.take(word.len() as int) =~= word);
    } else {
        assert(word + tail =~= Seq::empty());
        assert(delimiter_word(s) =~= word);
    }
    lemma_strip_comments_suffix(data.skip(pos));
}

/// A comment that does not end stays, with the whitespace in front of it.
pub proof fn comments_that_do_not_end_stay(gap: Seq<u8>, text: Seq<u8>)
    requires
        is_blank(gap),
        forall|k: int| 0 <= k < text.len() ==> #[trigger] text[k] != NEWLINE,
        closes_no_comment(text),
    ensures
        strip_comments(gap + (seq![HASH] + text)) == gap + (seq![HASH] + text),
        strip_comments(gap + (seq![DASH, DASH] + text)) == gap + (seq![DASH, DASH] + text),
        strip_comments(gap + (seq![SLASH, STAR] + text)) == gap + (seq![SLASH, STAR] + text),
{
    assert forall|head: Seq<u8>|
        head == seq![HASH] || head == seq![DASH, DASH] implies #[trigger] strip_comments(
        gap + (head + text),
    ) == gap + (head + text) by {
        let t = head + text;
        lemma_trim_front(gap, t);
        assert(t[0] == head[0]);
        assert(trim_start(t) == t);
        assert forall|k: int| 0 <= k < t.len() implies !equal_to(NEWLINE)(#[trigger] t[k]) by {
            if k >= head.len() {
                assert(t[k] == text[k - head.len()]);
            }
        }
        lemma_index_where_is(t, 0, equal_to(NEWLINE), t.len() as int);
    }
    let t = seq![SLASH, STAR] + text;
    lemma_trim_front(gap, t);
    assert(t[0] == SLASH && t[1] == STAR);
    assert(trim_start(t) == t);
    assert forall|k: int| 2 <= k < t.len() - 1 implies !((#[trigger] t[k]) == STAR && t[k + 1]
        == SLASH) by {
        assert(t[k] == text[k - 2]);
        assert(t[k + 1] == text[k - 1]);
    }
    lemma_no_comment_end(t, 2);
    if ends_comment(t) {
        assert(t[t.len() - 2] == STAR && t[t.len() - 2 + 1] == SLASH);
    }
}

/// Without `*/` a comment takes the rest.
proof fn lemma_no_comment_end(data: Seq<u8>, i: int)
    requires
        0 <= i <= data.len(),
        forall|k: int|
            i <= k < data.len() - 1 ==> !((#[trigger] data[k]) == STAR && data[k + 1] == SLASH),
    ensures
        comment_end(data, i) >= data.len(),
    decreases data.len() - i,
{
    if i + 1 < data.len() {
        assert(!(data[i] == STAR && data[i + 1] == SLASH));
        lemma_no_comment_end(data, i + 1);
    }
}

/// Comments in front of a text are taken off one by one, with whitespace around them, and the text that
/// is left starts with none.
pub proof fn comments_are_taken_off(gap: Seq<u8>, text: Seq<u8>, s: Seq<u8>)
    requires
        is_blank(gap),
    ensures
        Token::Block(text).is_valid(seq![SEMICOLON]) ==> strip_comments(gap + (Token::Block(text).text() + s))
            == strip_comments(s),
        (Token::Line { hash: true, text }).is_valid(seq![SEMICOLON]) ==> strip_comments(
            gap + ((Token::Line { hash: true, text }).text() + s),
        ) == strip_comments(s),
        (Token::Line { hash: false, text }).is_valid(seq![SEMICOLON]) ==> strip_comments(
            gap + ((Token::Line { hash: false, text }).text() + s),
        ) == strip_comments(s),
        s.len() > 0 && !is_space(s[0]) && !starts_line_comment(s, 0) && !starts_block_comment(s, 0)
            ==> strip_comments(gap + s) == s,
{
    if Token::Block(text).is_valid(seq![SEMICOLON]) {
        let t = Token::Block(text).text() + s;
        lemma_trim_front(gap, t);
        assert(t[0] == SLASH && t[1] == STAR);
        assert(trim_start(t) == t);
        let n = text.len() as int;
        assert forall|k: int| 2 <= k < 2 + n implies !((#[trigger] t[k]) == STAR && t[k + 1]
            == SLASH) by {
            assert(t[k] == text[k - 2]);
            if k + 1 < 2 + n {
                assert(t[k + 1] == text[k - 1]);
            }
        }
        lemma_comment_end_is(t, 2, 2 + n);
        assert(t.skip(4 + n) =~= s);
        if s.len() == 0 {
            assert(t[t.len() - 2] == STAR && t[t.len() - 1] == SLASH);
            assert(ends_comment(t));
        }
    }
    assert forall|hash: bool| (Token::Line { hash, text }).is_valid(seq![SEMICOLON]) implies strip_comments(
        gap + ((#[trigger] (Token::Line { hash, text }).text()) + s),
    ) == strip_comments(s) by {
        let t = (Token::Line { hash, text }).text() + s;
        let n = text.len() as int;
        let m = if hash {
            1int
        } else {
            2int
        };
        lemma_trim_front(gap, t);
        assert(t[0] == if hash {
            HASH
        } else {
            DASH
        });
        assert(trim_start(t) == t);
        assert forall|k: int| 0 <= k < m + n implies !equal_to(NEWLINE)(#[trigger] t[k]) by {
            if k >= m {
                assert(t[k] == text[k - m]);
            }
        }
        assert(t[m + n] == NEWLINE);
        lemma_index_where_is(t, 0, equal_to(NEWLINE), m + n);
        assert(t.skip(m + n + 1) =~= s);
    }
    if s.len() > 0 && !is_space(s[0]) {
        lemma_trim_front(gap, s);
        assert(trim_start(s) == s);
    }
}

/// The keyword of a statement is the letters that it starts with, past comments, in uppercase.
pub proof fn keywords_are_the_first_letters(stmt: Seq<u8>, word: Seq<u8>, rest: Seq<u8>, i: int)
    requires
        strip_comments(stmt) == word + rest,
        word.len() > 0,
        forall|k: int| 0 <= k < word.len() ==> is_alphabetic(#[trigger] word[k]),
        rest.len() > 0 ==> !is_alphabetic(rest[0]),
        0 <= i < word.len(),
    ensures
        keyword(stmt).len() == word.len(),
        keyword(stmt)[i] == (if word[i] >= 0x61 {
            word[i] - 0x20
        } else {
            word[i] as int
        }) as u8 as char,
{
    let s = word + rest;
    let n = word.len() as int;
    assert(s[0] == word[0]);
    assert(is_alphabetic(word[0]));
    assert(trim_start(s) == s);
    assert forall|j: int| 0 <= j < n implies !not_alphabetic()(#[trigger] s[j]) by {
        assert(s[j] == word[j]);
        assert(is_alphabetic(word[j]));
    }
    if n < s.len() {
        assert(s[n] == rest[0]);
    }
    lemma_index_where_is(s, 0, not_alphabetic(), n);
    assert(s.take(n) =~= word);
    assert(is_alphabetic(word[i]));
}

/// Trimming takes off all whitespace at both ends, and nothing else.
pub proof fn trimming_takes_off_whitespace_only(before: Seq<u8>, text: Seq<u8>, behind: Seq<u8>)
    requires
        is_blank(before),
        is_blank(behind),
        text.len() > 0 ==> !is_space(text[0]) && !is_space(text.last()),
    ensures
        trim(before + text + behind) == text,
        text.len() > 0 ==> trim_start(before + text) == text,
{
    assert(before + text + behind =~= before + (text + behind));
    lemma_trim_front(before, text + behind);
    lemma_trim_front(before, text);
    if text.len() > 0 {
        assert((text + behind)[0] == text[0]);
        assert(trim_start(text + behind) == text + behind);
        assert(trim_start(text) == text);
        lemma_trim_tail(text, behind);
    } else {
        assert(text + behind =~= behind);
        lemma_trim_blank(behind);
        assert(trim_start(behind) =~= Seq::empty());
        assert(text =~= Seq::empty());
    }
}

/// Whitespace behind a text is taken off.
proof fn lemma_trim_tail(text: Seq<u8>, gap: Seq<u8>)
    requires
        is_blank(gap),
        text.len() > 0,
        !is_space(text.last()),
    ensures
        trim_end(text + gap) == text,
    decreases gap.len(),
{
    if gap.len() > 0 {
        let less = gap.drop_last();
        assert(is_space(gap[gap.len() - 1]));
        assert((text + gap).drop_last() =~= text + less);
        assert forall|k: int| 0 <= k < less.len() implies is_space(#[trigger] less[k]) by {
            assert(less[k] == gap[k]);
        }
        lemma_trim_tail(text, less);
    } else {
        assert(text + gap =~= text);
    }
}

/// Whitespace alone is taken off.
proof fn lemma_trim_blank(gap: Seq<u8>)
    requires
        is_blank(gap),
    ensures
        trim_start(gap).len() == 0,
    decreases gap.len(),
{
    if gap.len() > 0 {
        let less = gap.skip(1);
        assert(is_space(gap[0]));
        assert forall|k: int| 0 <= k < less.len() implies is_space(#[trigger] less[k]) by {
            assert(less[k] == gap[k + 1]);
        }
        lemma_trim_blank(less);
    }
}

/// A parenthesis with no closing one behind it has no match.
pub proof fn open_parentheses_need_a_match(data: Seq<u8>, i: int, depth: int)
    requires
        0 <= i,
        forall|k: int| i <= k < data.len() ==> #[trigger] data[k] != CLOSE_PAREN,
    ensures
        paren_close(data, i, depth) is None,
{
    lemma_paren_close_bounds(data, i, depth);
    if let Some(p) = paren_close(data, i, depth) {
        assert(data[p] != CLOSE_PAREN);
    }
}

/// Parentheses and separators inside quoted text do not count, whatever its content.
pub proof fn quoted_text_holds_no_parentheses(
    data: Seq<u8>,
    i: int,
    q: Quoted,
    sep: u8,
    last: int,
    depth: int,
)
    requires
        q.is_valid(),
        holds_at(data, i, q.text()),
        i + q.text().len() < data.len() ==> data[i + q.text().len()] != q.quote(),
    ensures
        paren_close(data, i, depth) == paren_close(data, i + q.text().len(), depth),
        split_from(data, sep, i, last, depth) == split_from(
            data,
            sep,
            i + q.text().len(),
            last,
            depth,
        ),
        next_open(data, i) == next_open(data, i + q.text().len()),
{
    quoted_text_ends_with_its_quote(data, i, q);
    assert(data[i + 0] == q.text()[0]);
}

/// Inside parentheses separators do not cut, nor do they behind a closing one too many.
pub proof fn separators_cut_outside_parentheses_only(data: Seq<u8>, sep: u8, i: int, last: int, depth: int)
    requires
        0 <= last <= i <= data.len(),
        depth != 0,
        forall|k: int|
            i <= k < data.len() ==> !is_quote(#[trigger] data[k]) && data[k] != OPEN_PAREN && data[k]
                != CLOSE_PAREN,
    ensures
        split_from(data, sep, i, last, depth) == seq![data.skip(last)],
    decreases data.len() - i,
{
    if i < data.len() {
        assert(!is_quote(data[i]));
        separators_cut_outside_parentheses_only(data, sep, i + 1, last, depth);
    }
}

/// Text behind the last statement that nothing ends is no statement.
pub proof fn what_nothing_ends_is_no_statement(tokens: Seq<Token>, end: Seq<u8>)
    requires
        is_end(end),
        are_tokens(tokens, end),
        !begins_like_delimiter(strip_comments(tokens_text(tokens))),
    ensures
        next_statement(tokens_text(tokens), 0, end).0 is None,
        statements(tokens_text(tokens), 0, end) == Seq::<Seq<u8>>::empty(),
{
    let text = tokens_text(tokens);
    statements_end_outside_quotes_and_comments(tokens, end, Seq::empty());
    assert(text.skip(0) =~= text);
    let s = strip_comments(text);
    reveal_strlit("DELIMITER");
    case_is_ignored_letter_by_letter(s, ascii("DELIMITER"));
}

/// The text begins with the word `DELIMITER` in any case, with nothing or whitespace behind it.
pub open spec fn begins_like_delimiter(s: Seq<u8>) -> bool {
    &&& s.len() >= 9
    &&& s.len() > 9 ==> is_space(s[9])
    &&& forall|k: int| 0 <= k < 9 ==> is_same_letter(#[trigger] s[k], ascii("DELIMITER")[k])
}

/// Each statement is the text up to what ends it, without whitespace around it, and the next one is looked
/// for behind that. Text of whitespace alone is no statement.
pub proof fn statements_follow_each_other(tokens: Seq<Token>, end: Seq<u8>, rest: Seq<u8>)
    requires
        is_end(end),
        are_tokens(tokens, end),
        !begins_like_delimiter(strip_comments(tokens_text(tokens) + end + rest)),
    ensures
        ({
            let text = tokens_text(tokens);
            let data = text + end + rest;
            let next = text.len() + end.len();
            &&& trim(text).len() > 0 ==> statements(data, 0, end) == seq![trim(text)] + statements(
                data,
                next as int,
                end,
            )
            &&& trim(text).len() == 0 ==> next_statement(data, 0, end) == next_statement(
                data,
                next as int,
                end,
            )
        }),
{
    let text = tokens_text(tokens);
    let data = text + end + rest;
    statements_end_outside_quotes_and_comments(tokens, end, rest);
    assert(data.skip(0) =~= data);
    let s = strip_comments(data);
    reveal_strlit("DELIMITER");
    case_is_ignored_letter_by_letter(s, ascii("DELIMITER"));
    assert(data.subrange(0, text.len() as int) =~= text);
}

} // verus!
