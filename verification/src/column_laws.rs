//! What the clauses of a column definition denote, in every spelling.

use vstd::prelude::*;

use crate::balance::{is_balanced, lemma_balanced_passes};
use crate::bytes::{
    ascii, eq_ci, index_where, is_alphanumeric, is_hex_digit, is_quote, is_space, lemma_index_where,
    lemma_index_where_is, trim_start, BACKTICK, CLOSE_PAREN, DASH, DIGIT_0, DOT, DOUBLE_QUOTE,
    OPEN_PAREN, PLUS, SINGLE_QUOTE,
};
use crate::ddl::{
    column_definition, default_clause, default_value, not_alphanumeric, not_hex, not_numeric,
    outer_word_from, word_at, word_from, DefaultModel,
};
use crate::definition_laws::{case_is_ignored_letter_by_letter, is_same_letter};
use crate::lexical::{holds_at, is_blank, lemma_trim_front};
use crate::name_list::{is_plain_name, quoted_name};
use crate::readback::quotes_doubled;
use crate::row_laws::quoted_text_reads_back;
use crate::source_laws::{quoted_text_ends_with_its_quote, Quoted};
use crate::sqlstream::{lemma_quoted_end_bounds, matching_paren, paren_close, quoted_end};
use crate::values::parse_value;

verus! {

/// `word` stands at `i` with no letter or digit on either side, letter by letter up to case.
pub open spec fn stands_at(data: Seq<u8>, word: Seq<u8>, i: int) -> bool {
    &&& 0 <= i
    &&& i + word.len() <= data.len()
    &&& forall|k: int| 0 <= k < word.len() ==> is_same_letter(#[trigger] data[i + k], word[k])
    &&& i > 0 ==> !is_alphanumeric(data[i - 1])
    &&& i + word.len() < data.len() ==> !is_alphanumeric(data[i + word.len()])
}

/// A whole word at a place.
proof fn lemma_stands_at(data: Seq<u8>, word: Seq<u8>, i: int)
    requires
        0 <= i < data.len(),
    ensures
        word_at(data, word, i) <==> stands_at(data, word, i),
{
    if i + word.len() <= data.len() {
        let s = data.subrange(i, i + word.len());
        case_is_ignored_letter_by_letter(s, word);
        if stands_at(data, word, i) {
            assert forall|k: int| 0 <= k < s.len() implies is_same_letter(#[trigger] s[k], word[k]) by {
                assert(s[k] == data[i + k]);
            }
        }
        if word_at(data, word, i) {
            assert forall|k: int| 0 <= k < word.len() implies is_same_letter(
                #[trigger] data[i + k],
                word[k],
            ) by {
                assert(s[k] == data[i + k]);
            }
        }
    }
}

/// In text without quotes and parentheses, a word is found exactly at the first place where it stands as a
/// whole word, in any case.
pub proof fn words_are_found_at_their_first_place(data: Seq<u8>, word: Seq<u8>, i: int)
    requires
        0 <= i <= data.len(),
        forall|k: int|
            0 <= k < data.len() ==> !is_quote(#[trigger] data[k]) && data[k] != OPEN_PAREN && data[k]
                != CLOSE_PAREN,
    ensures
        outer_word_from(data, word, i, 0) == word_from(data, word, i),
        word_from(data, word, i) matches Some(j) ==> i <= j < data.len() && stands_at(data, word, j),
        forall|k: int|
            i <= k < data.len() && #[trigger] stands_at(data, word, k) ==> (word_from(data, word, i)
                matches Some(j) && j <= k),
    decreases data.len() - i,
{
    if i < data.len() {
        assert(!is_quote(data[i]));
        lemma_stands_at(data, word, i);
        if !word_at(data, word, i) {
            words_are_found_at_their_first_place(data, word, i + 1);
        }
    }
}

/// Quoted text holds no words, whatever its content.
pub proof fn quoted_text_holds_no_words(data: Seq<u8>, word: Seq<u8>, i: int, q: Quoted, depth: nat)
    requires
        q.is_valid(),
        holds_at(data, i, q.text()),
        i + q.text().len() < data.len() ==> data[i + q.text().len()] != q.quote(),
    ensures
        word_from(data, word, i) == word_from(data, word, i + q.text().len()),
        outer_word_from(data, word, i, depth) == outer_word_from(
            data,
            word,
            i + q.text().len(),
            depth,
        ),
{
    quoted_text_ends_with_its_quote(data, i, q);
    assert(data[i + 0] == q.text()[0]);
}

/// Inside parentheses nothing is found until the one that closes them.
proof fn lemma_inside(data: Seq<u8>, word: Seq<u8>, i: int, depth: nat)
    requires
        0 <= i,
        depth > 0,
    ensures
        paren_close(data, i, depth as int) matches Some(close) ==> outer_word_from(
            data,
            word,
            i,
            depth,
        ) == outer_word_from(data, word, close + 1, 0),
    decreases data.len() - i,
{
    if i < data.len() {
        if is_quote(data[i]) {
            lemma_quoted_end_bounds(data, data[i], i + 1);
            lemma_inside(data, word, quoted_end(data, data[i], i + 1), depth);
        } else if data[i] == OPEN_PAREN {
            lemma_inside(data, word, i + 1, depth + 1);
        } else if data[i] == CLOSE_PAREN {
            if depth > 1 {
                lemma_inside(data, word, i + 1, (depth - 1) as nat);
            }
        } else {
            lemma_inside(data, word, i + 1, depth);
        }
    }
}

/// `NOT NULL` does not count inside parentheses, as in the expression of a generated column: the search
/// goes on behind the one that closes them.
pub proof fn parentheses_hold_no_words(data: Seq<u8>, word: Seq<u8>, open: int, close: int)
    requires
        0 <= open < data.len(),
        data[open] == OPEN_PAREN,
        matching_paren(data, open) == Some(close),
    ensures
        outer_word_from(data, word, open, 0) == outer_word_from(data, word, close + 1, 0),
{
    lemma_inside(data, word, open + 1, 1);
}

/// Nothing in the text opens or closes quotes or parentheses.
pub open spec fn is_flat(s: Seq<u8>) -> bool {
    forall|k: int|
        0 <= k < s.len() ==> !is_quote(#[trigger] s[k]) && s[k] != OPEN_PAREN && s[k] != CLOSE_PAREN
}

/// In a flat stretch of a text a word is found where it stands, and else behind the stretch.
proof fn lemma_stretch(data: Seq<u8>, word: Seq<u8>, i: int, j: int)
    requires
        0 <= i <= j <= data.len(),
        is_flat(data.subrange(i, j)),
    ensures
        (exists|k: int| i <= k < j && #[trigger] stands_at(data, word, k)) ==> outer_word_from(
            data,
            word,
            i,
            0,
        ) is Some,
        (forall|k: int| i <= k < j ==> !#[trigger] stands_at(data, word, k)) ==> outer_word_from(
            data,
            word,
            i,
            0,
        ) == outer_word_from(data, word, j, 0),
    decreases j - i,
{
    if i < j {
        let s = data.subrange(i, j);
        let t = data.subrange(i + 1, j);
        assert(s[0] == data[i]);
        assert forall|k: int| 0 <= k < t.len() implies !is_quote(#[trigger] t[k]) && t[k]
            != OPEN_PAREN && t[k] != CLOSE_PAREN by {
            assert(t[k] == s[k + 1]);
        }
        lemma_stands_at(data, word, i);
        lemma_stretch(data, word, i + 1, j);
    }
}

/// A column takes NULL unless the words `NOT NULL` stand behind its name outside parentheses, in any case:
/// what the parentheses of a type, of a generated column or of a check hold does not count.
pub proof fn not_null_counts_outside_parentheses(
    name: Seq<u8>,
    head: Seq<u8>,
    inner: Seq<u8>,
    tail: Seq<u8>,
    known: Seq<char>,
    after: Seq<u8>,
)
    requires
        is_plain_name(name),
        is_flat(head),
        head.len() > 0,
        is_balanced(inner),
        is_flat(tail),
    ensures
        ({
            let item = quoted_name(name) + (head + (seq![OPEN_PAREN] + (inner + (seq![CLOSE_PAREN]
                + tail))));
            let open = quoted_name(name).len() + head.len();
            let close = open + 1 + inner.len();
            column_definition(item, known, after) matches Some(column) ==> (!column.nullable
                <==> exists|k: int|
                (quoted_name(name).len() <= k < open || close < k < item.len())
                    && #[trigger] stands_at(item, ascii("NOT NULL"), k))
        }),
{
    let word = ascii("NOT NULL");
    let q = Quoted::Doubled { quote: BACKTICK, content: name };
    let group = seq![OPEN_PAREN] + (inner + (seq![CLOSE_PAREN] + tail));
    let item = quoted_name(name) + (head + group);
    let start = quoted_name(name).len() as int;
    let open = start + head.len();
    let close = open + 1 + inner.len();
    lemma_plain_is_not_doubled(name);
    assert(q.text() =~= quoted_name(name));
    assert(item[start] == head[0]);
    assert(!is_quote(head[0]));
    assert(holds_at(item, 0, q.text()));
    quoted_text_holds_no_words(item, word, 0, q, 0);
    assert(item.subrange(start, open) =~= head);
    lemma_stretch(item, word, start, open);
    // The parentheses.
    assert(item[open] == OPEN_PAREN);
    assert(item[close] == CLOSE_PAREN);
    assert forall|k: int| 0 <= k < inner.len() implies item[open + 1 + k] == #[trigger] inner[k] by {
    }
    assert(holds_at(item, open + 1, inner));
    lemma_balanced_passes(item, open + 1, inner);
    assert(matching_paren(item, open) == Some(close));
    parentheses_hold_no_words(item, word, open, close);
    // What follows them.
    assert(item.subrange(close + 1, item.len() as int) =~= tail);
    lemma_stretch(item, word, close + 1, item.len() as int);
    assert(outer_word_from(item, word, item.len() as int, 0) is None);
}

/// A plain name needs no doubling.
proof fn lemma_plain_is_not_doubled(name: Seq<u8>)
    requires
        forall|k: int| 0 <= k < name.len() ==> #[trigger] name[k] != BACKTICK,
    ensures
        quotes_doubled(name, BACKTICK) == name,
    decreases name.len(),
{
    if name.len() > 0 {
        let rest = name.skip(1);
        assert forall|k: int| 0 <= k < rest.len() implies #[trigger] rest[k] != BACKTICK by {
            assert(rest[k] == name[k + 1]);
        }
        lemma_plain_is_not_doubled(rest);
        assert(seq![name[0]] + rest =~= name);
    }
}

/// Text that starts with another byte is not `NULL`.
proof fn lemma_not_null(after: Seq<u8>)
    requires
        after.len() > 0,
        after[0] != 0x4e && after[0] != 0x6e,
    ensures
        !eq_ci(after.take(index_where(after, 0, not_alphanumeric())), ascii("NULL")),
{
    reveal_strlit("NULL");
    lemma_index_where(after, 0, not_alphanumeric());
    let t = after.take(index_where(after, 0, not_alphanumeric()));
    if eq_ci(t, ascii("NULL")) {
        case_is_ignored_letter_by_letter(t, ascii("NULL"));
        assert(is_same_letter(t[0], ascii("NULL")[0]));
    }
}

/// A default between quotes of either kind is its content, whatever follows it.
pub proof fn quoted_defaults_are_their_content(
    content: Seq<u8>,
    quote: u8,
    rest: Seq<u8>,
    bit_width: Option<u32>,
)
    requires
        quote == SINGLE_QUOTE || quote == DOUBLE_QUOTE,
        rest.len() > 0 ==> rest[0] != quote,
    ensures
        default_value((Quoted::Escaped { quote, content }).text() + rest, bit_width) == Some(
            DefaultModel::Literal(Some(content)),
        ),
        (Quoted::Doubled { quote, content }).is_valid() ==> default_value(
            (Quoted::Doubled { quote, content }).text() + rest,
            bit_width,
        ) == Some(DefaultModel::Literal(Some(content))),
{
    quoted_text_reads_back(content, quote, bit_width);
    lemma_quoted_default((Quoted::Escaped { quote, content }), rest, bit_width);
    if (Quoted::Doubled { quote, content }).is_valid() {
        lemma_quoted_default((Quoted::Doubled { quote, content }), rest, bit_width);
    }
}

/// A quoted default is its token.
proof fn lemma_quoted_default(q: Quoted, rest: Seq<u8>, bit_width: Option<u32>)
    requires
        q.is_valid(),
        q.quote() == SINGLE_QUOTE || q.quote() == DOUBLE_QUOTE,
        rest.len() > 0 ==> rest[0] != q.quote(),
        parse_value(q.text(), bit_width) is Some,
    ensures
        default_value(q.text() + rest, bit_width) == Some(
            DefaultModel::Literal(parse_value(q.text(), bit_width)->0),
        ),
{
    let after = q.text() + rest;
    let n = q.text().len() as int;
    assert(after[0] == q.quote());
    assert(holds_at(after, 0, q.text()));
    if n < after.len() {
        assert(after[n] == rest[0]);
    }
    quoted_text_ends_with_its_quote(after, 0, q);
    lemma_not_null(after);
    assert(after.take(n) =~= q.text());
}

/// The word `NULL` in any case, with no letter or digit behind it, is NULL.
pub proof fn null_defaults_are_null(word: Seq<u8>, rest: Seq<u8>, bit_width: Option<u32>)
    requires
        word.len() == 4,
        forall|i: int| 0 <= i < 4 ==> is_same_letter(#[trigger] word[i], ascii("NULL")[i]),
        rest.len() > 0 ==> !is_alphanumeric(rest[0]),
    ensures
        default_value(word + rest, bit_width) == Some(DefaultModel::Literal(None)),
{
    reveal_strlit("NULL");
    let after = word + rest;
    assert forall|j: int| 0 <= j < 4 implies !not_alphanumeric()(#[trigger] after[j]) by {
        assert(after[j] == word[j]);
        assert(is_same_letter(word[j], ascii("NULL")[j]));
    }
    if rest.len() > 0 {
        assert(after[4] == rest[0]);
    }
    lemma_index_where_is(after, 0, not_alphanumeric(), 4);
    assert(after.take(4) =~= word);
    case_is_ignored_letter_by_letter(word, ascii("NULL"));
}

/// A number, a hexadecimal or a bit literal as default denotes what it denotes as a value, whatever
/// follows it.
pub proof fn literal_defaults_are_values(
    text: Seq<u8>,
    rest: Seq<u8>,
    bit_width: Option<u32>,
)
    requires
        is_number(text, rest) || is_hexadecimal(text, rest) || is_bits(text, rest),
    ensures
        default_value(text + rest, bit_width) == (match parse_value(text, bit_width) {
            Some(value) => Some(DefaultModel::Literal(value)),
            None => None,
        }),
{
    let after = text + rest;
    let n = text.len() as int;
    assert(after[0] == text[0]);
    lemma_not_null(after);
    assert(after.take(n) =~= text);
    if n < after.len() {
        assert(after[n] == rest[0]);
    }
    if is_number(text, rest) {
        assert forall|j: int| 0 <= j < n implies !not_numeric()(#[trigger] after[j]) by {
            assert(after[j] == text[j]);
        }
        if n > 1 {
            assert(after[1] == text[1]);
        }
        lemma_index_where_is(after, 0, not_numeric(), n);
    } else if is_hexadecimal(text, rest) {
        assert(after[1] == text[1]);
        assert forall|j: int| 2 <= j < n implies !not_hex()(#[trigger] after[j]) by {
            assert(after[j] == text[j]);
        }
        lemma_index_where_is(after, 2, not_hex(), n);
    } else {
        assert(after[1] == text[1]);
        assert(after[n - 1] == text[n - 1]);
        assert forall|j: int| 2 <= j < n - 1 implies after[j] == DIGIT_0 || #[trigger] after[j]
            == 0x31 by {
            assert(after[j] == text[j]);
        }
        lemma_bits_end(after, 2, n - 1);
    }
}

/// Bits end with the quote.
proof fn lemma_bits_end(data: Seq<u8>, i: int, close: int)
    requires
        0 <= i <= close < data.len(),
        data[close] == SINGLE_QUOTE,
        close + 1 < data.len() ==> data[close + 1] != SINGLE_QUOTE,
        forall|j: int| i <= j < close ==> data[j] == DIGIT_0 || #[trigger] data[j] == 0x31,
    ensures
        quoted_end(data, SINGLE_QUOTE, i) == close + 1,
    decreases close - i,
{
    if i < close {
        assert(data[i] == DIGIT_0 || data[i] == 0x31);
        lemma_bits_end(data, i + 1, close);
    }
}

/// `text` is a decimal number, which `rest` does not go on with: it starts with a digit, a sign or a point
/// and holds digits, signs, points and exponent marks only.
pub open spec fn is_number(text: Seq<u8>, rest: Seq<u8>) -> bool {
    &&& text.len() > 0
    &&& text[0] == DASH || text[0] == PLUS || text[0] == DOT || 0x30 <= text[0] <= 0x39
    &&& forall|i: int|
        0 <= i < text.len() ==> {
            ||| 0x30 <= #[trigger] text[i] <= 0x39
            ||| text[i] == 0x2e
            ||| text[i] == 0x2d
            ||| text[i] == 0x2b
            ||| text[i] == 0x65
            ||| text[i] == 0x45
        }
    &&& rest.len() > 0 ==> {
        &&& !(0x30 <= rest[0] <= 0x39)
        &&& rest[0] != 0x2e
        &&& rest[0] != 0x2d
        &&& rest[0] != 0x2b
        &&& rest[0] != 0x65
        &&& rest[0] != 0x45
        &&& text.len() == 1 ==> rest[0] != 0x78 && rest[0] != 0x58
    }
}

/// `text` is a hexadecimal literal, which `rest` does not go on with.
pub open spec fn is_hexadecimal(text: Seq<u8>, rest: Seq<u8>) -> bool {
    &&& text.len() >= 2
    &&& text[0] == DIGIT_0
    &&& text[1] == 0x78 || text[1] == 0x58
    &&& forall|i: int| 2 <= i < text.len() ==> is_hex_digit(#[trigger] text[i])
    &&& rest.len() > 0 ==> !is_hex_digit(rest[0])
}

/// `text` is a bit literal, which `rest` does not go on with.
pub open spec fn is_bits(text: Seq<u8>, rest: Seq<u8>) -> bool {
    &&& text.len() >= 3
    &&& text[0] == 0x62 || text[0] == 0x42
    &&& text[1] == SINGLE_QUOTE
    &&& text.last() == SINGLE_QUOTE
    &&& forall|i: int| 2 <= i < text.len() - 1 ==> text[i] == DIGIT_0 || #[trigger] text[i] == 0x31
    &&& rest.len() > 0 ==> rest[0] != SINGLE_QUOTE
}

/// A default that starts with a parenthesis, or with a letter of a word other than `NULL`, is an
/// expression, whose value is not known.
pub proof fn other_defaults_are_expressions(after: Seq<u8>, bit_width: Option<u32>)
    requires
        after.len() > 0,
        after[0] == OPEN_PAREN || 0x41 <= after[0] <= 0x5a || 0x61 <= after[0] <= 0x7a,
        after[0] != 0x4e && after[0] != 0x6e,
        (after[0] == 0x42 || after[0] == 0x62) && after.len() > 1 ==> after[1] != SINGLE_QUOTE,
    ensures
        default_value(after, bit_width) == Some(DefaultModel::Expression),
{
    lemma_not_null(after);
}

/// A column without the word `DEFAULT` has no default. What stands behind the word, past whitespace, is the
/// default of a column that has it.
pub proof fn defaults_stand_behind_their_word(
    before: Seq<u8>,
    word: Seq<u8>,
    gap: Seq<u8>,
    after: Seq<u8>,
    bit_width: Option<u32>,
)
    requires
        forall|k: int| 0 <= k < before.len() ==> !is_quote(#[trigger] before[k]),
        word.len() == 7,
        forall|k: int| 0 <= k < 7 ==> is_same_letter(#[trigger] word[k], ascii("DEFAULT")[k]),
        is_blank(gap),
        gap.len() > 0,
        after.len() > 0 && !is_space(after[0]),
        before.len() > 0 ==> !is_alphanumeric(before.last()),
        forall|i: int|
            0 <= i < before.len() ==> !stands_at(
                before + word + (gap + after),
                ascii("DEFAULT"),
                i,
            ),
    ensures
        (forall|i: int| 0 <= i < before.len() ==> !stands_at(before, ascii("DEFAULT"), i))
            ==> default_clause(before, bit_width) == Some(DefaultModel::Absent),
        default_clause(before + word + (gap + after), bit_width) == default_value(after, bit_width),
{
    reveal_strlit("DEFAULT");
    let rest = before + word + (gap + after);
    let n = before.len() as int;
    if forall|i: int| 0 <= i < before.len() ==> !stands_at(before, ascii("DEFAULT"), i) {
        lemma_word_is_missing(before, ascii("DEFAULT"), 0);
    }
    assert(is_space(gap[0]));
    assert(rest[n + 7] == gap[0]);
    if n > 0 {
        assert(rest[n - 1] == before.last());
    }
    assert forall|k: int| 0 <= k < 7 implies is_same_letter(
        #[trigger] rest[n + k],
        ascii("DEFAULT")[k],
    ) by {
        assert(rest[n + k] == word[k]);
    }
    assert(stands_at(rest, ascii("DEFAULT"), n));
    lemma_word_at_last(rest, ascii("DEFAULT"), 0, n);
    assert(rest.skip(n + 7) =~= gap + after);
    lemma_trim_front(gap, after);
    assert(trim_start(after) == after);
}

/// A word that stands nowhere is not found.
proof fn lemma_word_is_missing(data: Seq<u8>, word: Seq<u8>, i: int)
    requires
        0 <= i <= data.len(),
        forall|k: int| i <= k < data.len() ==> !is_quote(#[trigger] data[k]),
        forall|k: int| i <= k < data.len() ==> !stands_at(data, word, k),
    ensures
        word_from(data, word, i) is None,
    decreases data.len() - i,
{
    if i < data.len() {
        assert(!is_quote(data[i]));
        lemma_stands_at(data, word, i);
        lemma_word_is_missing(data, word, i + 1);
    }
}

/// The search passes over bytes at which the word does not stand.
proof fn lemma_word_at_last(data: Seq<u8>, word: Seq<u8>, i: int, n: int)
    requires
        0 <= i <= n < data.len(),
        word.len() > 0,
        is_same_letter(data[n], word[0]),
        !is_quote(word[0]),
        0x41 <= word[0] <= 0x5a,
        stands_at(data, word, n),
        forall|k: int| i <= k < n ==> !is_quote(#[trigger] data[k]) && !stands_at(data, word, k),
    ensures
        word_from(data, word, i) == Some(n),
    decreases n - i,
{
    lemma_stands_at(data, word, i);
    if i < n {
        assert(!is_quote(data[i]));
        lemma_word_at_last(data, word, i + 1, n);
    }
}

} // verus!
