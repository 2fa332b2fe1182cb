//! What a dump writes is what is read back: the values, rows and statements that a dump spells out
//! come out of the parser as they went in.

use vstd::arithmetic::power2::{lemma2_to64, lemma_pow2_adds, pow2};
use vstd::prelude::*;
use vstd::utf8::{decode_utf8, valid_utf8};

use crate::bytes::{
    ascii, eq_ci, equal_to, is_alphanumeric, is_quote, is_space, lemma_index_where_is, lowercase,
    not_alphabetic, starts_ci, trim, trim_start, BACKSLASH, BACKTICK, CLOSE_PAREN, COMMA, DASH,
    DIGIT_0, DIGIT_1, DOT, DOUBLE_QUOTE, HASH, OPEN_PAREN, PLUS, SEMICOLON, SINGLE_QUOTE, SLASH,
};
use crate::ddl::SchemaModel;
use crate::dumpfile::{
    column_list, column_ref, column_refs, insert_header, insert_target, skip_word, InsertModel,
};
use crate::lexical::{holds_at, is_blank, is_closed_by, lemma_holds_parts};
use crate::name_list::{
    are_plain_names, decoded, is_plain_name, key_list, lemma_backtick, lemma_key_list,
    lemma_name_passes, lemma_part_is_name, name_parts, names_text, quoted_name,
};
use crate::rows::{
    arranged, insert_rows, listed_values, tuple_row, tuple_rows, value_width, RowModel,
};
use crate::sqlstream::{
    keyword, lemma_next_open_skip, lemma_paren_close_skip, lemma_quoted_end_skip, lemma_split_skip,
    lemma_unit_end_bounds, matching_paren, next_group, next_open, paren_close, paren_groups,
    quoted_end, split, split_from, starts_block_comment, starts_line_comment, statement_end,
    strip_comments, terminator_at, unit_end,
};
use crate::values::{
    bit_at, bit_bytes, bit_len, byte_at, hex_bytes, nibble, parse_value, unescape, unescape_char,
    unescape_from,
};

verus! {

/// A byte as it stands between quotes: the bytes that would end the span, and those that have a
/// short form of their own, are written with a backslash.
pub open spec fn escaped_byte(b: u8) -> Seq<u8> {
    if b == 0x00 {
        seq![BACKSLASH, 0x30u8]
    } else if b == 0x0a {
        seq![BACKSLASH, 0x6eu8]
    } else if b == 0x0d {
        seq![BACKSLASH, 0x72u8]
    } else if b == 0x1a {
        seq![BACKSLASH, 0x5au8]
    } else if b == BACKSLASH || b == SINGLE_QUOTE || b == DOUBLE_QUOTE {
        seq![BACKSLASH, b]
    } else {
        seq![b]
    }
}

/// Content as it stands between quotes.
pub open spec fn escaped(content: Seq<u8>) -> Seq<u8>
    decreases content.len(),
{
    if content.len() == 0 {
        Seq::empty()
    } else {
        escaped_byte(content[0]) + escaped(content.skip(1))
    }
}

/// Escaped content does not end a quoted span.
pub proof fn lemma_escaped_passes(data: Seq<u8>, i: int, content: Seq<u8>, quote: u8)
    requires
        quote == SINGLE_QUOTE || quote == DOUBLE_QUOTE,
        holds_at(data, i, escaped(content)),
    ensures
        quoted_end(data, quote, i) == quoted_end(data, quote, i + escaped(content).len()),
    decreases content.len(),
{
    if content.len() > 0 {
        let b = content[0];
        let head = escaped_byte(b);
        let rest = content.skip(1);
        lemma_holds_parts(data, i, head, escaped(rest));
        lemma_escaped_passes(data, i + head.len(), rest, quote);
        assert(data[i + 0] == head[0]);
        if head.len() == 2 {
            assert(data[i + 1] == head[1]);
        }
    }
}

/// Escaped content denotes the content.
proof fn lemma_escaped_denotes(inner: Seq<u8>, i: int, content: Seq<u8>, quote: u8)
    requires
        quote == SINGLE_QUOTE || quote == DOUBLE_QUOTE,
        holds_at(inner, i, escaped(content)),
        i + escaped(content).len() == inner.len(),
    ensures
        unescape_from(inner, quote, i) == content,
    decreases content.len(),
{
    if content.len() > 0 {
        let b = content[0];
        let head = escaped_byte(b);
        let rest = content.skip(1);
        lemma_holds_parts(inner, i, head, escaped(rest));
        lemma_escaped_denotes(inner, i + head.len(), rest, quote);
        assert(inner[i + 0] == head[0]);
        if head.len() == 2 {
            assert(inner[i + 1] == head[1]);
            assert(unescape_char(head[1]) == b);
        }
        assert(content =~= seq![b] + rest);
    } else {
        assert(content =~= Seq::empty());
    }
}

/// Escaping is undone by unescaping, between quotes of either kind.
pub proof fn escaping_is_undone(content: Seq<u8>, quote: u8)
    requires
        quote == SINGLE_QUOTE || quote == DOUBLE_QUOTE,
    ensures
        unescape(escaped(content), quote) == content,
{
    lemma_escaped_denotes(escaped(content), 0, content, quote);
}

/// Content as it stands between quotes where each quote in it is doubled.
pub open spec fn quotes_doubled(content: Seq<u8>, quote: u8) -> Seq<u8>
    decreases content.len(),
{
    if content.len() == 0 {
        Seq::empty()
    } else {
        (if content[0] == quote {
            seq![quote, quote]
        } else {
            seq![content[0]]
        }) + quotes_doubled(content.skip(1), quote)
    }
}

/// Content with doubled quotes denotes the content.
proof fn lemma_doubled_denotes(inner: Seq<u8>, i: int, content: Seq<u8>, quote: u8)
    requires
        forall|k: int|
            0 <= k < content.len() ==> #[trigger] content[k] != BACKSLASH || quote == BACKTICK,
        quote != BACKSLASH,
        holds_at(inner, i, quotes_doubled(content, quote)),
        i + quotes_doubled(content, quote).len() == inner.len(),
    ensures
        unescape_from(inner, quote, i) == content,
    decreases content.len(),
{
    if content.len() > 0 {
        let b = content[0];
        let head = if b == quote {
            seq![quote, quote]
        } else {
            seq![b]
        };
        let rest = content.skip(1);
        lemma_holds_parts(inner, i, head, quotes_doubled(rest, quote));
        assert forall|k: int| 0 <= k < rest.len() implies #[trigger] rest[k] != BACKSLASH || quote
            == BACKTICK by {
            assert(rest[k] == content[k + 1]);
        }
        lemma_doubled_denotes(inner, i + head.len(), rest, quote);
        assert(inner[i + 0] == head[0]);
        if b == quote {
            assert(inner[i + 1] == head[1]);
        }
        assert(content =~= seq![b] + rest);
    } else {
        assert(content =~= Seq::empty());
    }
}

/// Doubling quotes is undone by unescaping, between quotes of any kind. A backslash stands for
/// itself only between backticks, so the content holds none otherwise.
pub proof fn doubling_is_undone(content: Seq<u8>, quote: u8)
    requires
        is_quote(quote),
        forall|k: int|
            0 <= k < content.len() ==> #[trigger] content[k] != BACKSLASH || quote == BACKTICK,
    ensures
        unescape(quotes_doubled(content, quote), quote) == content,
{
    lemma_doubled_denotes(quotes_doubled(content, quote), 0, content, quote);
}

/// The digit of base sixteen for a number below sixteen.
pub open spec fn hex_digit(n: int) -> u8 {
    if n < 10 {
        (0x30 + n) as u8
    } else {
        (0x37 + n) as u8
    }
}

/// Bytes in digits of base sixteen.
pub open spec fn hex_text(content: Seq<u8>) -> Seq<u8> {
    Seq::new(
        2 * content.len(),
        |i: int|
            if i % 2 == 0 {
                hex_digit(content[i / 2] as int / 16)
            } else {
                hex_digit(content[i / 2] as int % 16)
            },
    )
}

/// Digits of base sixteen read back as the bytes that they were made from.
pub proof fn hex_text_reads_back(content: Seq<u8>)
    ensures
        hex_bytes(hex_text(content)) == content,
{
    let hex = hex_text(content);
    assert forall|i: int| 0 <= i < content.len() implies #[trigger] hex_bytes(hex)[i]
        == content[i] by {
        let b = content[i] as int;
        assert((2 * i) % 2 == 0 && (2 * i) / 2 == i);
        assert((2 * i + 1) % 2 == 1 && (2 * i + 1) / 2 == i);
        assert(hex[2 * i] == hex_digit(b / 16));
        assert(hex[2 * i + 1] == hex_digit(b % 16));
        assert(nibble(hex_digit(b / 16)) == b / 16);
        assert(nibble(hex_digit(b % 16)) == b % 16);
    }
    assert(hex_bytes(hex) =~= content);
}

/// A value as a dump spells it.
pub enum Literal {
    Null,
    /// Content between single quotes.
    Quoted(Seq<u8>),
    /// At least one byte, in digits of base sixteen behind `0x`.
    Hex(Seq<u8>),
    /// A number as it stands.
    Bare(Seq<u8>),
    /// Binary digits, as a `BIT` column has them.
    Bits(Seq<u8>),
}

/// A byte of a number, or of a word that stands for one.
pub open spec fn is_bare_byte(b: u8) -> bool {
    is_alphanumeric(b) || b == DOT || b == DASH || b == PLUS
}

impl Literal {
    /// The value can be spelled that way.
    pub open spec fn is_valid(self) -> bool {
        match self {
            Literal::Null | Literal::Quoted(_) => true,
            Literal::Hex(content) => content.len() > 0,
            Literal::Bare(text) => {
                &&& text.len() > 0
                &&& forall|i: int| 0 <= i < text.len() ==> is_bare_byte(#[trigger] text[i])
                &&& forall|i: int|
                    0 < i < text.len() ==> !(text[i - 1] == DASH && #[trigger] text[i] == DASH)
                &&& !eq_ci(text, ascii("NULL"))
                &&& !(text.len() > 2 && text[0] == DIGIT_0 && (text[1] == 0x78 || text[1] == 0x58))
            },
            Literal::Bits(digits) => forall|i: int|
                0 <= i < digits.len() ==> #[trigger] digits[i] == DIGIT_0 || digits[i] == DIGIT_1,
        }
    }

    /// The text of the value.
    pub open spec fn text(self) -> Seq<u8> {
        match self {
            Literal::Null => ascii("NULL"),
            Literal::Quoted(content) => seq![SINGLE_QUOTE] + escaped(content) + seq![SINGLE_QUOTE],
            Literal::Hex(content) => seq![DIGIT_0, 0x78u8] + hex_text(content),
            Literal::Bare(text) => text,
            Literal::Bits(digits) => seq![0x62u8, SINGLE_QUOTE] + digits + seq![SINGLE_QUOTE],
        }
    }

    /// The cell that it denotes in a column, given the width of a `BIT` column. Binary digits are only
    /// decoded for such a column; elsewhere they are text.
    pub open spec fn value(self, bit_width: Option<u32>) -> Option<Seq<u8>> {
        match self {
            Literal::Null => None,
            Literal::Quoted(content) => Some(content),
            Literal::Hex(content) => Some(content),
            Literal::Bare(text) => Some(text),
            Literal::Bits(digits) => match bit_width {
                Some(width) => Some(bit_bytes(digits, width)),
                None => Some(self.text()),
            },
        }
    }
}

/// Text that neither starts nor ends with whitespace has none to trim.
pub proof fn lemma_nothing_to_trim(s: Seq<u8>)
    requires
        s.len() > 0,
        !is_space(s[0]),
        !is_space(s.last()),
    ensures
        trim(s) == s,
{
}

/// A value reads back as it was spelled, in a column of any type.
pub proof fn literal_reads_back(l: Literal, bit_width: Option<u32>)
    requires
        l.is_valid(),
    ensures
        parse_value(l.text(), bit_width) == Some(l.value(bit_width)),
{
    reveal_strlit("NULL");
    let t = l.text();
    match l {
        Literal::Null => {
            lemma_nothing_to_trim(t);
            assert(eq_ci(t, ascii("NULL")));
        },
        Literal::Quoted(content) => {
            lemma_nothing_to_trim(t);
            assert(!eq_ci(t, ascii("NULL"))) by {
                assert(lowercase(t[0]) != lowercase(ascii("NULL")[0]));
            }
            assert(t.subrange(1, t.len() - 1) =~= escaped(content));
            escaping_is_undone(content, SINGLE_QUOTE);
        },
        Literal::Hex(content) => {
            let hex = hex_text(content);
            let last = hex.len() - 1;
            assert(!is_space(hex[last]));
            assert(t.last() == hex[last]);
            lemma_nothing_to_trim(t);
            assert(!eq_ci(t, ascii("NULL"))) by {
                assert(lowercase(t[0]) != lowercase(ascii("NULL")[0]));
            }
            assert(t.skip(2) =~= hex);
            assert(hex.len() % 2 == 0);
            hex_text_reads_back(content);
        },
        Literal::Bare(text) => {
            assert(is_bare_byte(text[0]));
            assert(is_bare_byte(text[text.len() - 1]));
            lemma_nothing_to_trim(t);
            if t.len() > 1 {
                assert(is_bare_byte(text[1]));
            }
        },
        Literal::Bits(digits) => {
            lemma_nothing_to_trim(t);
            assert(!eq_ci(t, ascii("NULL"))) by {
                assert(lowercase(t[0]) != lowercase(ascii("NULL")[0]));
            }
            assert(t.subrange(2, t.len() - 1) =~= digits);
        },
    }
}

/// The quoted part of a bit literal ends with its quote.
pub proof fn lemma_bits_end(data: Seq<u8>, i: int, digits: Seq<u8>)
    requires
        Literal::Bits(digits).is_valid(),
        holds_at(data, i, Literal::Bits(digits).text()),
        i + digits.len() + 3 < data.len() ==> data[i + digits.len() + 3] != SINGLE_QUOTE,
    ensures
        data[i] == 0x62,
        data[i + 1] == SINGLE_QUOTE,
        quoted_end(data, SINGLE_QUOTE, i + 2) == i + digits.len() + 3,
{
    let open = seq![0x62u8, SINGLE_QUOTE];
    let close = i + 2 + digits.len();
    lemma_holds_parts(data, i, open + digits, seq![SINGLE_QUOTE]);
    lemma_holds_parts(data, i, open, digits);
    assert(data[i + 0] == open[0]);
    assert(data[i + 1] == open[1]);
    assert(data[close + 0] == seq![SINGLE_QUOTE][0]);
    assert forall|k: int| i + 2 <= k < close implies #[trigger] data[k] != SINGLE_QUOTE && (data[k]
        != BACKSLASH || SINGLE_QUOTE == BACKTICK) by {
        assert(data[i + 2 + (k - i - 2)] == digits[k - i - 2]);
    }
    lemma_quoted_end_skip(data, SINGLE_QUOTE, i + 2, close);
}

/// Passing over the text of a value does not cut it.
pub proof fn lemma_literal_is_not_cut(data: Seq<u8>, i: int, l: Literal, last: int, depth: int)
    requires
        l.is_valid(),
        holds_at(data, i, l.text()),
        i + l.text().len() < data.len() ==> data[i + l.text().len()] != SINGLE_QUOTE,
    ensures
        split_from(data, COMMA, i, last, depth) == split_from(
            data,
            COMMA,
            i + l.text().len(),
            last,
            depth,
        ),
        paren_close(data, i, depth) == paren_close(data, i + l.text().len(), depth),
{
    let t = l.text();
    reveal_strlit("NULL");
    match l {
        Literal::Quoted(content) => {
            let body = escaped(content);
            lemma_holds_parts(data, i, seq![SINGLE_QUOTE] + body, seq![SINGLE_QUOTE]);
            lemma_holds_parts(data, i, seq![SINGLE_QUOTE], body);
            assert(data[i + 0] == seq![SINGLE_QUOTE][0]);
            let close = i + 1 + body.len();
            assert(data[close + 0] == seq![SINGLE_QUOTE][0]);
            lemma_escaped_passes(data, i + 1, content, SINGLE_QUOTE);
            assert(quoted_end(data, SINGLE_QUOTE, close) == close + 1);
        },
        Literal::Bits(digits) => {
            lemma_bits_end(data, i, digits);
            lemma_split_skip(data, COMMA, i, i + 1, last, depth);
            lemma_paren_close_skip(data, i, i + 1, depth);
        },
        _ => {
            assert forall|k: int| i <= k < i + t.len() implies !is_quote(#[trigger] data[k])
                && data[k] != OPEN_PAREN && data[k] != CLOSE_PAREN && data[k] != COMMA by {
                assert(data[i + (k - i)] == t[k - i]);
                match l {
                    Literal::Bare(text) => {
                        assert(is_bare_byte(text[k - i]));
                    },
                    _ => {},
                }
            }
            lemma_split_skip(data, COMMA, i, i + t.len(), last, depth);
            lemma_paren_close_skip(data, i, i + t.len(), depth);
        },
    }
}

/// The text of a row: its values, with commas between them.
pub open spec fn row_text(row: Seq<Literal>) -> Seq<u8>
    decreases row.len(),
{
    if row.len() == 0 {
        Seq::empty()
    } else if row.len() == 1 {
        row[0].text()
    } else {
        row[0].text() + seq![COMMA] + row_text(row.skip(1))
    }
}

/// The texts of the values of a row.
pub open spec fn value_texts(row: Seq<Literal>) -> Seq<Seq<u8>> {
    row.map_values(|l: Literal| l.text())
}

/// The cells that a row denotes, in the order in which it lists them, under a column list or none.
pub open spec fn row_values(
    schema: SchemaModel,
    names: Option<Seq<Seq<char>>>,
    row: Seq<Literal>,
) -> RowModel {
    Seq::new(row.len(), |k: int| row[k].value(value_width(schema, names, k)))
}

/// A row of at least one value, each of which can be spelled that way.
pub open spec fn is_valid_row(row: Seq<Literal>) -> bool {
    &&& row.len() > 0
    &&& forall|i: int| 0 <= i < row.len() ==> (#[trigger] row[i]).is_valid()
}

/// The text of a row is cut between its values, and closes no parenthesis.
proof fn lemma_row_text(data: Seq<u8>, i: int, row: Seq<Literal>)
    requires
        is_valid_row(row),
        holds_at(data, i, row_text(row)),
        i + row_text(row).len() < data.len() ==> data[i + row_text(row).len()] != SINGLE_QUOTE,
    ensures
        i + row_text(row).len() == data.len() ==> split_from(data, COMMA, i, i, 0) == value_texts(
            row,
        ),
        paren_close(data, i, 1) == paren_close(data, i + row_text(row).len(), 1),
    decreases row.len(),
{
    let first = row[0];
    let t = first.text();
    if row.len() == 1 {
        lemma_literal_is_not_cut(data, i, first, i, 0);
        lemma_literal_is_not_cut(data, i, first, i, 1);
        if i + t.len() == data.len() {
            assert(data.skip(i) =~= t) by {
                assert forall|k: int| 0 <= k < t.len() implies data.skip(i)[k] == t[k] by {
                    assert(data[i + k] == t[k]);
                }
            }
            assert(value_texts(row) =~= seq![t]);
        }
    } else {
        let rest = row.skip(1);
        let comma = i + t.len();
        lemma_holds_parts(data, i, t + seq![COMMA], row_text(rest));
        lemma_holds_parts(data, i, t, seq![COMMA]);
        assert(data[comma + 0] == seq![COMMA][0]);
        lemma_literal_is_not_cut(data, i, first, i, 0);
        lemma_literal_is_not_cut(data, i, first, i, 1);
        assert(rest[0] == row[1]);
        assert forall|k: int| 0 <= k < rest.len() implies (#[trigger] rest[k]).is_valid() by {
            assert(rest[k] == row[k + 1]);
        }
        lemma_row_text(data, comma + 1, rest);
        assert(data.subrange(i, comma) =~= t) by {
            assert forall|k: int| 0 <= k < t.len() implies data.subrange(i, comma)[k] == t[k] by {
                assert(data[i + k] == t[k]);
            }
        }
        assert(value_texts(row) =~= seq![t] + value_texts(rest));
    }
}

/// The text of a row is split into the texts of its values, whatever commas, quotes and parentheses
/// these hold.
pub proof fn row_text_splits_into_its_values(row: Seq<Literal>)
    requires
        is_valid_row(row),
    ensures
        split(row_text(row), COMMA) == value_texts(row),
{
    lemma_row_text(row_text(row), 0, row);
}

/// A row reads back as it was written. Without a column list its values are those of the columns in
/// order; with one they are put where the list says.
pub proof fn row_reads_back(
    schema: SchemaModel,
    names: Option<Seq<Seq<char>>>,
    row: Seq<Literal>,
)
    requires
        is_valid_row(row),
    ensures
        tuple_row(schema, names, row_text(row)) == Some(arranged(schema, names, row_values(schema, names, row))),
        tuple_row(schema, None, row_text(row)) == Some(row_values(schema, None, row)),
{
    row_text_splits_into_its_values(row);
    lemma_values_read_back(schema, names, row);
    lemma_values_read_back(schema, None, row);
}

/// The values of a row read back one by one.
proof fn lemma_values_read_back(
    schema: SchemaModel,
    names: Option<Seq<Seq<char>>>,
    row: Seq<Literal>,
)
    requires
        is_valid_row(row),
    ensures
        listed_values(schema, names, value_texts(row)) == Some(row_values(schema, names, row)),
{
    let tokens = value_texts(row);
    assert forall|k: int| 0 <= k < tokens.len() implies parse_value(
        #[trigger] tokens[k],
        value_width(schema, names, k),
    ) == Some(row_values(schema, names, row)[k]) by {
        literal_reads_back(row[k], value_width(schema, names, k));
    }
    assert(listed_values(schema, names, tokens)->0 =~= row_values(schema, names, row));
}

/// The text of rows: each in parentheses, with commas between them.
pub open spec fn rows_text(list: Seq<Seq<Literal>>) -> Seq<u8>
    decreases list.len(),
{
    if list.len() == 0 {
        Seq::empty()
    } else {
        let tuple = seq![OPEN_PAREN] + row_text(list[0]) + seq![CLOSE_PAREN];
        if list.len() == 1 {
            tuple
        } else {
            tuple + seq![COMMA] + rows_text(list.skip(1))
        }
    }
}

/// The texts of rows, without their parentheses.
pub open spec fn row_texts(list: Seq<Seq<Literal>>) -> Seq<Seq<u8>> {
    list.map_values(|row: Seq<Literal>| row_text(row))
}

/// The rows that a list of rows denotes, under a column list or none.
pub open spec fn rows_values(
    schema: SchemaModel,
    names: Option<Seq<Seq<char>>>,
    list: Seq<Seq<Literal>>,
) -> Seq<RowModel> {
    list.map_values(|row: Seq<Literal>| arranged(schema, names, row_values(schema, names, row)))
}

/// Rows of at least one value each.
pub open spec fn are_valid_rows(list: Seq<Seq<Literal>>) -> bool {
    forall|i: int| 0 <= i < list.len() ==> is_valid_row(#[trigger] list[i])
}

/// The text of rows at the end of a buffer is taken apart into its rows.
proof fn lemma_rows_text(data: Seq<u8>, i: int, list: Seq<Seq<Literal>>)
    requires
        are_valid_rows(list),
        holds_at(data, i, rows_text(list)),
        i + rows_text(list).len() == data.len(),
    ensures
        paren_groups(data, i) == Some(row_texts(list)),
    decreases list.len(),
{
    if list.len() == 0 {
        assert(row_texts(list) =~= Seq::empty());
    } else {
        let row = list[0];
        let t = row_text(row);
        let open = seq![OPEN_PAREN];
        let close = seq![CLOSE_PAREN];
        let tuple = open + t + close;
        let rest = list.skip(1);
        let at = i + 1 + t.len();
        if list.len() > 1 {
            lemma_holds_parts(data, i, tuple + seq![COMMA], rows_text(rest));
            lemma_holds_parts(data, i, tuple, seq![COMMA]);
        }
        lemma_holds_parts(data, i, open + t, close);
        lemma_holds_parts(data, i, open, t);
        assert(data[i + 0] == open[0]);
        assert(data[at + 0] == close[0]);
        lemma_row_text(data, i + 1, row);
        assert(matching_paren(data, i) == Some(at));
        assert(next_open(data, i) == Some(i));
        assert(data.subrange(i + 1, at) =~= t) by {
            assert forall|k: int| 0 <= k < t.len() implies data.subrange(i + 1, at)[k] == t[k] by {
                assert(data[i + 1 + k] == t[k]);
            }
        }
        if list.len() == 1 {
            assert(row_texts(list) =~= seq![t] + Seq::empty());
            assert(paren_groups(data, at + 1) == Some(Seq::<Seq<u8>>::empty()));
        } else {
            assert(data[at + 1 + 0] == seq![COMMA][0]);
            assert forall|k: int| 0 <= k < rest.len() implies is_valid_row(#[trigger] rest[k]) by {
                assert(rest[k] == list[k + 1]);
            }
            lemma_rows_text(data, at + 2, rest);
            assert(next_open(data, at + 1) == next_open(data, at + 2));
            assert(next_group(data, at + 1) == next_group(data, at + 2));
            assert(paren_groups(data, at + 1) == paren_groups(data, at + 2));
            assert(row_texts(list) =~= seq![t] + row_texts(rest));
        }
    }
}

/// Whitespace before the rows does not matter.
proof fn lemma_lead(data: Seq<u8>, i: int, j: int)
    requires
        0 <= i <= j <= data.len(),
        forall|k: int| i <= k < j ==> is_space(#[trigger] data[k]),
    ensures
        paren_groups(data, i) == paren_groups(data, j),
{
    lemma_next_open_skip(data, i, j);
    assert(next_group(data, i) == next_group(data, j));
}

/// Tuples that read back one by one read back as a list.
proof fn lemma_tuple_rows(
    schema: SchemaModel,
    names: Option<Seq<Seq<char>>>,
    list: Seq<Seq<Literal>>,
)
    requires
        are_valid_rows(list),
    ensures
        tuple_rows(schema, names, row_texts(list)) == Some(rows_values(schema, names, list)),
    decreases list.len(),
{
    if list.len() == 0 {
        assert(rows_values(schema, names, list) =~= Seq::empty());
    } else {
        let before = list.drop_last();
        assert forall|k: int| 0 <= k < before.len() implies is_valid_row(#[trigger] before[k]) by {
            assert(before[k] == list[k]);
        }
        lemma_tuple_rows(schema, names, before);
        assert(is_valid_row(list[list.len() - 1]));
        row_reads_back(schema, names, list.last());
        assert(row_texts(list).drop_last() =~= row_texts(before));
        assert(rows_values(schema, names, list) =~= rows_values(schema, names, before).push(
            arranged(schema, names, row_values(schema, names, list.last())),
        ));
    }
}

/// The rows of an `INSERT` statement read back as they were written: every row, in order, with every
/// value as it was.
pub proof fn inserted_rows_read_back(
    schema: SchemaModel,
    names: Option<Seq<Seq<char>>>,
    head: Seq<u8>,
    lead: Seq<u8>,
    list: Seq<Seq<Literal>>,
)
    requires
        are_valid_rows(list),
        forall|k: int| 0 <= k < lead.len() ==> is_space(#[trigger] lead[k]),
    ensures
        insert_rows(
            schema,
            InsertModel {
                data: head + lead + rows_text(list),
                values_start: head.len() as int,
                explicit_columns: names,
            },
        ) == Some(rows_values(schema, names, list)),
{
    let data = head + lead + rows_text(list);
    let start = head.len() as int;
    let at = start + lead.len();
    assert forall|k: int| start <= k < at implies is_space(#[trigger] data[k]) by {
        assert(data[k] == lead[k - start]);
    }
    lemma_lead(data, start, at);
    lemma_rows_text(data, at, list);
    lemma_tuple_rows(schema, names, list);
}

/// The first semicolon at or after `i` that stands outside quotes and comments.
pub open spec fn next_semicolon(data: Seq<u8>, i: int) -> Option<int> {
    statement_end(data, seq![SEMICOLON], i)
}

/// Bytes that open no quote and no comment and are no semicolon do not move the next semicolon.
pub proof fn lemma_plain_units(data: Seq<u8>, i: int, j: int)
    requires
        0 <= i <= j <= data.len(),
        forall|k: int|
            i <= k < j ==> !is_quote(#[trigger] data[k]) && data[k] != SEMICOLON
                && !starts_line_comment(data, k) && !starts_block_comment(data, k),
    ensures
        next_semicolon(data, i) == next_semicolon(data, j),
    decreases j - i,
{
    if i < j {
        assert(!is_quote(data[i]));
        assert(unit_end(data, i) == i + 1);
        lemma_no_semicolon(data, i);
        lemma_plain_units(data, i + 1, j);
    }
}

/// A byte that is no semicolon ends nothing.
proof fn lemma_no_semicolon(data: Seq<u8>, i: int)
    requires
        0 <= i < data.len(),
        data[i] != SEMICOLON,
    ensures
        !terminator_at(data, seq![SEMICOLON], i),
        next_semicolon(data, i) == next_semicolon(data, unit_end(data, i)),
{
    if terminator_at(data, seq![SEMICOLON], i) {
        assert(data.subrange(i, i + 1)[0] == data[i]);
    }
    lemma_unit_end_bounds(data, i);
}

/// The text of a value holds no semicolon outside quotes.
proof fn lemma_literal_hides_semicolons(data: Seq<u8>, i: int, l: Literal)
    requires
        l.is_valid(),
        holds_at(data, i, l.text()),
        i + l.text().len() < data.len(),
        data[i + l.text().len()] == COMMA || data[i + l.text().len()] == CLOSE_PAREN,
    ensures
        next_semicolon(data, i) == next_semicolon(data, i + l.text().len()),
{
    let t = l.text();
    reveal_strlit("NULL");
    match l {
        Literal::Quoted(content) => {
            let body = escaped(content);
            lemma_holds_parts(data, i, seq![SINGLE_QUOTE] + body, seq![SINGLE_QUOTE]);
            lemma_holds_parts(data, i, seq![SINGLE_QUOTE], body);
            assert(data[i + 0] == seq![SINGLE_QUOTE][0]);
            let close = i + 1 + body.len();
            assert(data[close + 0] == seq![SINGLE_QUOTE][0]);
            lemma_escaped_passes(data, i + 1, content, SINGLE_QUOTE);
            assert(quoted_end(data, SINGLE_QUOTE, close) == close + 1);
            assert(unit_end(data, i) == close + 1);
            lemma_no_semicolon(data, i);
        },
        Literal::Bits(digits) => {
            lemma_bits_end(data, i, digits);
            lemma_plain_units(data, i, i + 1);
            lemma_no_semicolon(data, i + 1);
        },
        _ => {
            assert forall|k: int| i <= k < i + t.len() implies !is_quote(#[trigger] data[k])
                && data[k] != SEMICOLON && !starts_line_comment(data, k) && !starts_block_comment(
                data,
                k,
            ) by {
                let n = k - i;
                assert(data[i + n] == t[n]);
                if n + 1 < t.len() {
                    assert(data[i + (n + 1)] == t[n + 1]);
                }
                match l {
                    Literal::Bare(text) => {
                        assert(is_bare_byte(text[n]));
                        if n + 1 < text.len() {
                            assert(!(text[n + 1 - 1] == DASH && text[n + 1] == DASH));
                        }
                    },
                    _ => {},
                }
            }
            lemma_plain_units(data, i, i + t.len());
        },
    }
}

/// The text of a row holds no semicolon outside quotes.
proof fn lemma_row_hides_semicolons(data: Seq<u8>, i: int, row: Seq<Literal>)
    requires
        is_valid_row(row),
        holds_at(data, i, row_text(row)),
        i + row_text(row).len() < data.len(),
        data[i + row_text(row).len()] == CLOSE_PAREN,
    ensures
        next_semicolon(data, i) == next_semicolon(data, i + row_text(row).len()),
    decreases row.len(),
{
    let first = row[0];
    let t = first.text();
    if row.len() == 1 {
        lemma_literal_hides_semicolons(data, i, first);
    } else {
        let rest = row.skip(1);
        let comma = i + t.len();
        lemma_holds_parts(data, i, t + seq![COMMA], row_text(rest));
        lemma_holds_parts(data, i, t, seq![COMMA]);
        assert(data[comma + 0] == seq![COMMA][0]);
        lemma_literal_hides_semicolons(data, i, first);
        lemma_plain_units(data, comma, comma + 1);
        assert forall|k: int| 0 <= k < rest.len() implies (#[trigger] rest[k]).is_valid() by {
            assert(rest[k] == row[k + 1]);
        }
        lemma_row_hides_semicolons(data, comma + 1, rest);
    }
}

/// The text of rows holds no semicolon outside quotes.
proof fn lemma_rows_hide_semicolons(data: Seq<u8>, i: int, list: Seq<Seq<Literal>>)
    requires
        are_valid_rows(list),
        holds_at(data, i, rows_text(list)),
        i + rows_text(list).len() < data.len(),
    ensures
        next_semicolon(data, i) == next_semicolon(data, i + rows_text(list).len()),
    decreases list.len(),
{
    if list.len() > 0 {
        let row = list[0];
        let t = row_text(row);
        let open = seq![OPEN_PAREN];
        let close = seq![CLOSE_PAREN];
        let tuple = open + t + close;
        let rest = list.skip(1);
        let at = i + 1 + t.len();
        if list.len() > 1 {
            lemma_holds_parts(data, i, tuple + seq![COMMA], rows_text(rest));
            lemma_holds_parts(data, i, tuple, seq![COMMA]);
        }
        lemma_holds_parts(data, i, open + t, close);
        lemma_holds_parts(data, i, open, t);
        assert(data[i + 0] == open[0]);
        assert(data[at + 0] == close[0]);
        lemma_plain_units(data, i, i + 1);
        lemma_row_hides_semicolons(data, i + 1, row);
        lemma_plain_units(data, at, at + 1);
        if list.len() > 1 {
            assert(data[at + 1 + 0] == seq![COMMA][0]);
            lemma_plain_units(data, at + 1, at + 2);
            assert forall|k: int| 0 <= k < rest.len() implies is_valid_row(#[trigger] rest[k]) by {
                assert(rest[k] == list[k + 1]);
            }
            lemma_rows_hide_semicolons(data, at + 2, rest);
        }
    }
}

/// The text of an `INSERT` statement up to its rows.
pub struct InsertHead {
    pub ignore: bool,
    pub name: Seq<u8>,
    /// The column list, if there is one.
    pub columns: Option<Seq<Seq<u8>>>,
    /// The whitespace behind the commas of the column list.
    pub sep: Seq<u8>,
}

impl InsertHead {
    /// The word `IGNORE`, if it is there.
    pub open spec fn option(self) -> Seq<u8> {
        if self.ignore {
            ascii("IGNORE ")
        } else {
            Seq::empty()
        }
    }

    /// The column list, if it is there.
    pub open spec fn list(self) -> Seq<u8> {
        match self.columns {
            Some(names) => seq![0x20u8] + key_list(self.sep, names),
            None => Seq::empty(),
        }
    }

    /// The text.
    pub open spec fn text(self) -> Seq<u8> {
        ascii("INSERT ") + (self.option() + (ascii("INTO ") + (quoted_name(self.name) + (self.list()
            + ascii(" VALUES")))))
    }

    /// The names of the column list.
    pub open spec fn names(self) -> Option<Seq<Seq<char>>> {
        match self.columns {
            Some(names) => Some(decoded(names)),
            None => None,
        }
    }

    /// The head can be spelled that way.
    pub open spec fn is_valid(self) -> bool {
        &&& is_plain_name(self.name)
        &&& is_blank(self.sep)
        &&& self.columns matches Some(names) ==> names.len() > 0 && are_plain_names(names)
    }
}

/// The text of an `INSERT` statement.
pub open spec fn insert_text(head: InsertHead, lead: Seq<u8>, list: Seq<Seq<Literal>>) -> Seq<u8> {
    head.text() + lead + rows_text(list)
}

/// A name between backticks holds no semicolon outside of them.
proof fn lemma_name_hides_semicolons(data: Seq<u8>, i: int, name: Seq<u8>)
    requires
        is_plain_name(name),
        holds_at(data, i, quoted_name(name)),
        i + name.len() + 2 < data.len(),
        data[i + name.len() + 2] != BACKTICK,
    ensures
        next_semicolon(data, i) == next_semicolon(data, i + name.len() + 2),
{
    let close = i + 1 + name.len();
    lemma_holds_parts(data, i, seq![BACKTICK] + name, seq![BACKTICK]);
    lemma_holds_parts(data, i, seq![BACKTICK], name);
    assert(data[i + 0] == seq![BACKTICK][0]);
    assert(data[close + 0] == seq![BACKTICK][0]);
    assert forall|k: int| i + 1 <= k < close implies #[trigger] data[k] != BACKTICK by {
        assert(data[i + 1 + (k - i - 1)] == name[k - i - 1]);
    }
    lemma_name_passes(data, i + 1, close);
    lemma_no_semicolon(data, i);
}

/// Bytes that open nothing and end nothing.
spec fn is_calm(s: Seq<u8>) -> bool {
    forall|k: int|
        0 <= k < s.len() ==> !is_quote(#[trigger] s[k]) && s[k] != SEMICOLON && s[k] != DASH && s[k]
            != HASH && s[k] != SLASH
}

/// Such bytes do not move the next semicolon.
proof fn lemma_calm(data: Seq<u8>, i: int, s: Seq<u8>)
    requires
        is_calm(s),
        holds_at(data, i, s),
    ensures
        next_semicolon(data, i) == next_semicolon(data, i + s.len()),
{
    assert forall|k: int| i <= k < i + s.len() implies !is_quote(#[trigger] data[k]) && data[k]
        != SEMICOLON && !starts_line_comment(data, k) && !starts_block_comment(data, k) by {
        assert(data[i + (k - i)] == s[k - i]);
    }
    lemma_plain_units(data, i, i + s.len());
}

/// Whitespace opens nothing and ends nothing.
proof fn lemma_blank_is_calm(s: Seq<u8>)
    requires
        is_blank(s),
    ensures
        is_calm(s),
{
    assert forall|k: int| 0 <= k < s.len() implies !is_quote(#[trigger] s[k]) && s[k] != SEMICOLON
        && s[k] != DASH && s[k] != HASH && s[k] != SLASH by {
        assert(is_space(s[k]));
    }
}

/// A list of names holds no semicolon outside backticks.
proof fn lemma_names_hide_semicolons(
    data: Seq<u8>,
    i: int,
    lead: Seq<u8>,
    sep: Seq<u8>,
    names: Seq<Seq<u8>>,
)
    requires
        is_blank(lead),
        is_blank(sep),
        are_plain_names(names),
        holds_at(data, i, names_text(lead, sep, names)),
        i + names_text(lead, sep, names).len() < data.len(),
        data[i + names_text(lead, sep, names).len()] == CLOSE_PAREN,
    ensures
        next_semicolon(data, i) == next_semicolon(data, i + names_text(lead, sep, names).len()),
    decreases names.len(),
{
    if names.len() > 0 {
        let q = quoted_name(names[0]);
        let at = i + lead.len();
        let comma = at + q.len();
        assert(is_plain_name(names[0]));
        assert(q.len() == names[0].len() + 2);
        lemma_blank_is_calm(lead);
        if names.len() == 1 {
            lemma_holds_parts(data, i, lead, q);
            lemma_calm(data, i, lead);
            lemma_name_hides_semicolons(data, at, names[0]);
        } else {
            let rest = names.skip(1);
            lemma_holds_parts(data, i, lead + q + seq![COMMA], names_text(sep, sep, rest));
            lemma_holds_parts(data, i, lead + q, seq![COMMA]);
            lemma_holds_parts(data, i, lead, q);
            assert(data[comma + 0] == seq![COMMA][0]);
            lemma_calm(data, i, lead);
            lemma_name_hides_semicolons(data, at, names[0]);
            lemma_calm(data, comma, seq![COMMA]);
            assert forall|k: int| 0 <= k < rest.len() implies is_plain_name(#[trigger] rest[k]) by {
                assert(rest[k] == names[k + 1]);
            }
            lemma_names_hide_semicolons(data, comma + 1, sep, sep, rest);
        }
    }
}

/// The column list of a head holds no semicolon outside backticks.
proof fn lemma_list_hides_semicolons(data: Seq<u8>, i: int, head: InsertHead)
    requires
        head.is_valid(),
        holds_at(data, i, head.list()),
    ensures
        next_semicolon(data, i) == next_semicolon(data, i + head.list().len()),
{
    if let Some(names) = head.columns {
        let t = names_text(Seq::empty(), head.sep, names);
        let open = seq![0x20u8, OPEN_PAREN];
        assert(head.list() =~= open + t + seq![CLOSE_PAREN]);
        lemma_holds_parts(data, i, open + t, seq![CLOSE_PAREN]);
        lemma_holds_parts(data, i, open, t);
        let close = i + 2 + t.len();
        assert(data[close + 0] == seq![CLOSE_PAREN][0]);
        lemma_calm(data, i, open);
        assert(is_blank(Seq::empty()));
        lemma_names_hide_semicolons(data, i + 2, Seq::empty(), head.sep, names);
        lemma_calm(data, close, seq![CLOSE_PAREN]);
    }
}

/// The head of an `INSERT` statement holds no semicolon outside backticks.
proof fn lemma_head_hides_semicolons(data: Seq<u8>, head: InsertHead)
    requires
        head.is_valid(),
        holds_at(data, 0, head.text()),
    ensures
        next_semicolon(data, 0) == next_semicolon(data, head.text().len() as int),
{
    reveal_strlit("INSERT ");
    reveal_strlit("IGNORE ");
    reveal_strlit("INTO ");
    reveal_strlit(" VALUES");
    let a = ascii("INSERT ");
    let b = head.option();
    let c = ascii("INTO ");
    let q = quoted_name(head.name);
    let l = head.list();
    let v = ascii(" VALUES");
    lemma_holds_parts(data, 0, a, b + (c + (q + (l + v))));
    let at_b = a.len() as int;
    lemma_holds_parts(data, at_b, b, c + (q + (l + v)));
    let at_c = at_b + b.len();
    lemma_holds_parts(data, at_c, c, q + (l + v));
    let at_q = at_c + c.len();
    lemma_holds_parts(data, at_q, q, l + v);
    let at_l = at_q + q.len();
    lemma_holds_parts(data, at_l, l, v);
    let at_v = at_l + l.len();
    lemma_calm(data, 0, a);
    lemma_calm(data, at_b, b);
    lemma_calm(data, at_c, c);
    assert(q.len() == head.name.len() + 2);
    assert((l + v)[0] == 0x20) by {
        if head.columns is None {
            assert((l + v)[0] == v[0]);
        } else {
            assert((l + v)[0] == l[0]);
        }
    }
    assert(data[at_l + 0] == (l + v)[0]);
    lemma_name_hides_semicolons(data, at_q, head.name);
    lemma_list_hides_semicolons(data, at_l, head);
    lemma_calm(data, at_v, v);
}

/// An `INSERT` statement is ended by the semicolon behind it and by none inside it.
pub proof fn lemma_insert_is_closed(head: InsertHead, lead: Seq<u8>, list: Seq<Seq<Literal>>)
    requires
        head.is_valid(),
        is_blank(lead),
        are_valid_rows(list),
    ensures
        is_closed_by(insert_text(head, lead, list), seq![SEMICOLON]),
{
    let text = insert_text(head, lead, list);
    let semicolon = seq![SEMICOLON];
    let data = text + semicolon;
    let h = head.text();
    let r = rows_text(list);
    assert(data =~= h + (lead + (r + semicolon)));
    assert(holds_at(data, 0, h + (lead + (r + semicolon))));
    lemma_holds_parts(data, 0, h, lead + (r + semicolon));
    let at_lead = h.len() as int;
    lemma_holds_parts(data, at_lead, lead, r + semicolon);
    let at_rows = at_lead + lead.len();
    lemma_holds_parts(data, at_rows, r, semicolon);
    lemma_head_hides_semicolons(data, head);
    lemma_blank_is_calm(lead);
    lemma_calm(data, at_lead, lead);
    lemma_rows_hide_semicolons(data, at_rows, list);
    let end = text.len() as int;
    assert(data.subrange(end, end + 1) =~= semicolon);
    assert(next_semicolon(data, end) == Some(end));
    // No command.
    reveal_strlit("INSERT ");
    reveal_strlit("DELIMITER");
    assert(data[0] == ascii("INSERT ")[0]);
    assert(trim_start(data) == data);
    assert(strip_comments(data) == data);
    if starts_ci(data, ascii("DELIMITER")) {
        assert(lowercase(data.take(9)[0]) == lowercase(ascii("DELIMITER")[0]));
    }
}

/// A text begins with the word that it is made from.
proof fn lemma_starts_with_word(word: Seq<u8>, rest: Seq<u8>)
    ensures
        starts_ci(word + rest, word),
        skip_word(word + rest, word) == rest,
        (word + rest).skip(word.len() as int) == rest,
{
    assert((word + rest).take(word.len() as int) =~= word);
    assert((word + rest).skip(word.len() as int) =~= rest);
}

/// A text with another letter does not begin with a word.
proof fn lemma_other_word(text: Seq<u8>, word: Seq<u8>, k: int)
    requires
        0 <= k < word.len(),
        k < text.len(),
        lowercase(text[k]) != lowercase(word[k]),
    ensures
        !starts_ci(text, word),
        skip_word(text, word) == text,
{
    if starts_ci(text, word) {
        assert(lowercase(text.take(word.len() as int)[k]) == lowercase(word[k]));
    }
}

/// The names of a column list read back.
proof fn lemma_column_refs(sep: Seq<u8>, names: Seq<Seq<u8>>)
    requires
        is_blank(sep),
        are_plain_names(names),
    ensures
        column_refs(name_parts(Seq::empty(), sep, names)) == Some(decoded(names)),
{
    let parts = name_parts(Seq::empty(), sep, names);
    assert forall|k: int| 0 <= k < parts.len() implies column_ref(#[trigger] parts[k])
        == names[k] by {
        let lead = if k == 0 {
            Seq::empty()
        } else {
            sep
        };
        assert(is_blank(lead));
        lemma_part_is_name(lead, names[k]);
        let q = quoted_name(names[k]);
        assert(q.skip(1).drop_last() =~= names[k]);
        assert(q.skip(1).last() == BACKTICK);
    }
    assert forall|k: int| 0 <= k < parts.len() implies valid_utf8(
        column_ref(#[trigger] parts[k]),
    ) by {
        assert(is_plain_name(names[k]));
    }
    assert(column_refs(parts)->0 =~= decoded(names));
}

/// What follows the table's name reads back: the column list, and where the rows begin.
proof fn lemma_list_reads_back(head: InsertHead, rest: Seq<u8>)
    requires
        head.is_valid(),
    ensures
        column_list(trim_start(head.list() + (ascii(" VALUES") + rest))) matches Some((names, after))
            && names == head.names() && trim_start(after) == ascii("VALUES") + rest,
{
    reveal_strlit(" VALUES");
    reveal_strlit("VALUES");
    let tail = ascii(" VALUES") + rest;
    let v = ascii("VALUES") + rest;
    assert(tail[0] == ascii(" VALUES")[0]);
    assert(ascii(" VALUES").skip(1) =~= ascii("VALUES"));
    assert(tail.skip(1) =~= v);
    assert(v[0] == ascii("VALUES")[0]);
    assert(trim_start(v) == v);
    assert(trim_start(tail) == v);
    match head.columns {
        None => {
            assert(head.list() + tail =~= tail);
        },
        Some(names) => {
            let l = key_list(head.sep, names);
            let t = l + tail;
            let all = head.list() + tail;
            assert(all =~= seq![0x20u8] + t);
            assert(all.skip(1) =~= t);
            assert(t[0] == l[0]);
            assert(trim_start(t) == t);
            assert(trim_start(all) == t);
            assert(holds_at(t, 0, l));
            lemma_key_list(t, 0, head.sep, names);
            lemma_column_refs(head.sep, names);
            assert(t.skip(l.len() as int) =~= tail);
        },
    }
}

/// The words in front of the table's name are passed over.
proof fn lemma_insert_words(head: InsertHead, named: Seq<u8>)
    requires
        named.len() > 0,
        named[0] == BACKTICK,
    ensures
        ({
            let s = ascii("INSERT ") + (head.option() + (ascii("INTO ") + named));
            let into = trim_start(skip_word(skip_word(s, ascii("INSERT ")), ascii("IGNORE ")));
            &&& into == ascii("INTO ") + named
            &&& starts_ci(into, ascii("INTO "))
            &&& trim_start(into.skip(ascii("INTO ").len() as int)) == named
        }),
{
    reveal_strlit("IGNORE ");
    reveal_strlit("INTO ");
    let into = ascii("INTO ") + named;
    let body = head.option() + into;
    lemma_starts_with_word(ascii("INSERT "), body);
    assert(into[0] == ascii("INTO ")[0] && into[1] == ascii("INTO ")[1]);
    if head.ignore {
        lemma_starts_with_word(ascii("IGNORE "), into);
    } else {
        assert(body =~= into);
        lemma_other_word(into, ascii("IGNORE "), 1);
    }
    assert(trim_start(into) == into);
    lemma_starts_with_word(ascii("INTO "), named);
    assert(trim_start(named) == named);
}

/// A statement that begins with `INSERT ` has that keyword and no comments in front.
proof fn lemma_insert_keyword(body: Seq<u8>)
    ensures
        strip_comments(ascii("INSERT ") + body) == ascii("INSERT ") + body,
        keyword(ascii("INSERT ") + body) == "INSERT"@,
{
    reveal_strlit("INSERT ");
    reveal_strlit("INSERT");
    let s = ascii("INSERT ") + body;
    assert forall|k: int| 0 <= k < 7 implies #[trigger] s[k] == ascii("INSERT ")[k] by {
    }
    assert(trim_start(s) == s);
    assert(strip_comments(s) == s);
    assert forall|j: int| 0 <= j < 6 implies !not_alphabetic()(#[trigger] s[j]) by {
    }
    lemma_index_where_is(s, 0, not_alphabetic(), 6);
    assert(keyword(s) =~= "INSERT"@);
}

/// What follows the words of an `INSERT` statement reads back.
proof fn lemma_target_reads_back(head: InsertHead, s: Seq<u8>, rest: Seq<u8>)
    requires
        head.is_valid(),
        s == head.text() + rest,
    ensures
        insert_target(s, quoted_name(head.name) + (head.list() + (ascii(" VALUES") + rest))) == Some(
            (
                decode_utf8(head.name),
                InsertModel {
                    data: s,
                    values_start: head.text().len() as int,
                    explicit_columns: head.names(),
                },
            ),
        ),
{
    let after_name = head.list() + (ascii(" VALUES") + rest);
    let named = quoted_name(head.name) + after_name;
    assert(named[0] == BACKTICK);
    lemma_index_where_is(named, 0, equal_to(BACKTICK), 0);
    assert(named.skip(0) =~= named);
    lemma_backtick(head.name, after_name);
    lemma_list_reads_back(head, rest);
    let v = ascii("VALUES") + rest;
    lemma_starts_with_word(ascii("VALUES"), rest);
    assert(s.len() - v.len() + ascii("VALUES").len() == head.text().len());
}

/// The head of an `INSERT` statement reads back: the table it fills, the column list, and where its
/// rows begin.
pub proof fn insert_head_reads_back(head: InsertHead, lead: Seq<u8>, list: Seq<Seq<Literal>>)
    requires
        head.is_valid(),
    ensures
        keyword(insert_text(head, lead, list)) == "INSERT"@,
        insert_header(insert_text(head, lead, list)) == Some(
            (
                decode_utf8(head.name),
                InsertModel {
                    data: insert_text(head, lead, list),
                    values_start: head.text().len() as int,
                    explicit_columns: head.names(),
                },
            ),
        ),
{
    let s = insert_text(head, lead, list);
    let rest = lead + rows_text(list);
    let named = quoted_name(head.name) + (head.list() + (ascii(" VALUES") + rest));
    let body = head.option() + (ascii("INTO ") + named);
    assert(s =~= ascii("INSERT ") + body);
    assert(s =~= head.text() + rest);
    lemma_insert_keyword(body);
    lemma_insert_words(head, named);
    lemma_target_reads_back(head, s, rest);
}

/// The number that bytes denote, the most significant one first.
pub open spec fn number(bytes: Seq<u8>) -> nat
    decreases bytes.len(),
{
    if bytes.len() == 0 {
        0
    } else {
        bytes[0] as nat * pow2((8 * (bytes.len() - 1)) as nat) + number(bytes.skip(1))
    }
}

/// The number that binary digits denote, the most significant one first.
pub open spec fn binary_number(digits: Seq<u8>) -> nat
    decreases digits.len(),
{
    if digits.len() == 0 {
        0
    } else {
        (if digits[0] == DIGIT_1 {
            pow2((digits.len() - 1) as nat)
        } else {
            0
        }) + binary_number(digits.skip(1))
    }
}

/// The number that the `n` least significant binary digits denote.
spec fn low_number(digits: Seq<u8>, n: nat) -> nat
    decreases n,
{
    if n == 0 {
        0
    } else {
        low_number(digits, (n - 1) as nat) + (bit_at(digits, n - 1) * pow2((n - 1) as nat)) as nat
    }
}

/// The low digits of a number do not depend on its first digit.
proof fn lemma_low_skip(digits: Seq<u8>, n: nat)
    requires
        n < digits.len(),
    ensures
        low_number(digits, n) == low_number(digits.skip(1), n),
    decreases n,
{
    if n > 0 {
        lemma_low_skip(digits, (n - 1) as nat);
        assert(bit_at(digits, n - 1) == bit_at(digits.skip(1), n - 1));
    }
}

/// A number is that of all its digits.
proof fn lemma_low_all(digits: Seq<u8>)
    ensures
        low_number(digits, digits.len()) == binary_number(digits),
    decreases digits.len(),
{
    if digits.len() > 0 {
        let n = (digits.len() - 1) as nat;
        lemma_low_all(digits.skip(1));
        lemma_low_skip(digits, n);
        let b = bit_at(digits, n as int);
        let p = pow2(n) as int;
        assert(b * p == (if digits[0] == DIGIT_1 {
            p
        } else {
            0
        })) by (nonlinear_arith)
            requires
                b == (if digits[0] == DIGIT_1 {
                    1int
                } else {
                    0int
                }),
        ;
    }
}

/// Beyond its digits a number has zeros.
proof fn lemma_low_beyond(digits: Seq<u8>, n: nat)
    requires
        n >= digits.len(),
    ensures
        low_number(digits, n) == low_number(digits, digits.len()),
    decreases n,
{
    if n > digits.len() {
        lemma_low_beyond(digits, (n - 1) as nat);
        let p = pow2((n - 1) as nat) as int;
        assert(0 * p == 0) by (nonlinear_arith);
    }
}

/// Eight more digits are one more byte.
proof fn lemma_low_byte(digits: Seq<u8>, i: nat)
    ensures
        low_number(digits, 8 * (i + 1)) == byte_at(digits, i as int) * pow2(8 * i) + low_number(
            digits,
            8 * i,
        ),
{
    let a = 8 * i;
    reveal_with_fuel(low_number, 9);
    lemma2_to64();
    lemma_pow2_adds(a, 1);
    lemma_pow2_adds(a, 2);
    lemma_pow2_adds(a, 3);
    lemma_pow2_adds(a, 4);
    lemma_pow2_adds(a, 5);
    lemma_pow2_adds(a, 6);
    lemma_pow2_adds(a, 7);
    let p = pow2(a) as int;
    let b0 = bit_at(digits, a as int);
    let b1 = bit_at(digits, a as int + 1);
    let b2 = bit_at(digits, a as int + 2);
    let b3 = bit_at(digits, a as int + 3);
    let b4 = bit_at(digits, a as int + 4);
    let b5 = bit_at(digits, a as int + 5);
    let b6 = bit_at(digits, a as int + 6);
    let b7 = bit_at(digits, a as int + 7);
    assert(low_number(digits, a + 8) == low_number(digits, a) + b0 * p + b1 * (p * 2) + b2 * (p * 4)
        + b3 * (p * 8) + b4 * (p * 16) + b5 * (p * 32) + b6 * (p * 64) + b7 * (p * 128)) by {
        lemma_term_is_natural(b0, p);
        lemma_term_is_natural(b1, p * 2);
        lemma_term_is_natural(b2, p * 4);
        lemma_term_is_natural(b3, p * 8);
        lemma_term_is_natural(b4, p * 16);
        lemma_term_is_natural(b5, p * 32);
        lemma_term_is_natural(b6, p * 64);
        lemma_term_is_natural(b7, p * 128);
    }
    lemma_add_term(b0, b1, 2, p);
    lemma_add_term(b0 + 2 * b1, b2, 4, p);
    lemma_add_term(b0 + 2 * b1 + 4 * b2, b3, 8, p);
    lemma_add_term(b0 + 2 * b1 + 4 * b2 + 8 * b3, b4, 16, p);
    lemma_add_term(b0 + 2 * b1 + 4 * b2 + 8 * b3 + 16 * b4, b5, 32, p);
    lemma_add_term(b0 + 2 * b1 + 4 * b2 + 8 * b3 + 16 * b4 + 32 * b5, b6, 64, p);
    lemma_add_term(b0 + 2 * b1 + 4 * b2 + 8 * b3 + 16 * b4 + 32 * b5 + 64 * b6, b7, 128, p);
}

/// One more term of a weighted sum.
proof fn lemma_add_term(sum: int, b: int, weight: int, p: int)
    ensures
        (sum + weight * b) * p == sum * p + b * (p * weight),
{
    assert((sum + weight * b) * p == sum * p + b * (p * weight)) by (nonlinear_arith);
}

/// A product of natural numbers is one.
proof fn lemma_term_is_natural(b: int, p: int)
    requires
        0 <= b,
        0 <= p,
    ensures
        0 <= b * p,
{
    assert(0 <= b * p) by (nonlinear_arith)
        requires
            0 <= b,
            0 <= p,
    ;
}

/// The lowest `n` bytes denote the lowest digits.
proof fn lemma_bytes_number(digits: Seq<u8>, n: nat)
    ensures
        number(Seq::new(n, |k: int| byte_at(digits, n - 1 - k) as u8)) == low_number(digits, 8 * n),
    decreases n,
{
    let bytes = Seq::new(n, |k: int| byte_at(digits, n - 1 - k) as u8);
    if n > 0 {
        let m = (n - 1) as nat;
        lemma_bytes_number(digits, m);
        let rest = Seq::new(m, |k: int| byte_at(digits, m - 1 - k) as u8);
        assert(bytes.skip(1) =~= rest);
        lemma_low_byte(digits, m);
        assert(bytes[0] == byte_at(digits, m as int));
    }
}

/// A bit literal that fits its column is stored as the number that its digits denote, big-endian.
pub proof fn bit_literals_denote_their_number(digits: Seq<u8>, width: u32)
    requires
        digits.len() <= 8 * bit_len(width),
    ensures
        bit_bytes(digits, width).len() == bit_len(width),
        number(bit_bytes(digits, width)) == binary_number(digits),
{
    lemma_bytes_number(digits, bit_len(width));
    lemma_low_beyond(digits, 8 * bit_len(width));
    lemma_low_all(digits);
    assert(bit_bytes(digits, width) =~= Seq::new(
        bit_len(width),
        |k: int| byte_at(digits, bit_len(width) - 1 - k) as u8,
    ));
}

} // verus!
