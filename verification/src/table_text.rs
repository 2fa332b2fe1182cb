//! The columns of a `CREATE TABLE` statement read back.

use vstd::prelude::*;
use vstd::utf8::decode_utf8;

use crate::bytes::{
    ascii, at_ci, eq_ci, equal_to, index_where, is_alphabetic, is_alphanumeric, is_digit, is_quote,
    is_space, lemma_index_where, lemma_index_where_is, lowercase, not_alphabetic, starts_ci,
    trim_start, BACKTICK, CLOSE_PAREN, COMMA, DASH, DOT, OPEN_PAREN, PLUS, SINGLE_QUOTE,
};
use crate::ddl::{
    bit_width, column_definition, default_clause, default_value, is_numeric, literal_end,
    not_alphanumeric, not_hex, not_numeric, outer_word_from, type_keyword, word_at, word_from,
    ColumnModel, DefaultModel,
};
use crate::lexical::{holds_at, lemma_holds_parts};
use crate::name_list::{is_plain_name, lemma_name_passes, quoted_name};
use crate::readback::{
    escaped, hex_text, is_bare_byte, lemma_bits_end, lemma_escaped_passes, literal_reads_back,
    row_text, Literal,
};
use crate::sqlstream::{lemma_quoted_end_bounds, quoted_end};
use crate::text::ascii_text;

verus! {

/// A word of a column definition: letters, digits and underscores, from a letter on. No part of it
/// between underscores starts like the words `DEFAULT` and `NOT`, which have a meaning of their own.
pub open spec fn is_plain_word(w: Seq<u8>) -> bool {
    &&& w.len() > 0
    &&& is_alphabetic(w[0])
    &&& forall|k: int| 0 <= k < w.len() ==> is_alphanumeric(#[trigger] w[k]) || w[k] == 0x5f
    &&& forall|k: int|
        0 <= k < w.len() && (k == 0 || w[k - 1] == 0x5f) ==> !starts_ci(
            #[trigger] w.skip(k),
            ascii("DEFAULT"),
        ) && !starts_ci(w.skip(k), ascii("NOT"))
}

/// The value of a `DEFAULT` clause.
pub enum DefaultText {
    Literal(Literal),
    /// An expression: a word, such as `CURRENT_TIMESTAMP`, perhaps with parentheses.
    Expression { word: Seq<u8>, call: Option<Seq<u8>> },
}

/// The parentheses behind a word, with digits in them or with nothing, or no parentheses.
pub open spec fn call_text(call: Option<Seq<u8>>) -> Seq<u8> {
    match call {
        Some(digits) => seq![OPEN_PAREN] + digits + seq![CLOSE_PAREN],
        None => Seq::empty(),
    }
}

/// What stands in the parentheses are digits.
pub open spec fn is_call(call: Option<Seq<u8>>) -> bool {
    call matches Some(digits) ==> forall|i: int|
        0 <= i < digits.len() ==> is_digit(#[trigger] digits[i])
}

impl DefaultText {
    /// The text of the value.
    pub open spec fn text(self) -> Seq<u8> {
        match self {
            DefaultText::Literal(l) => l.text(),
            DefaultText::Expression { word, call } => word + call_text(call),
        }
    }

    /// The value can be spelled that way: a number is recognized by its first byte, and an expression
    /// does not start like `NULL`.
    pub open spec fn is_valid(self) -> bool {
        match self {
            DefaultText::Literal(l) => l.is_valid() && (l matches Literal::Bare(text) ==> {
                &&& is_digit(text[0]) || text[0] == DASH || text[0] == PLUS || text[0] == DOT
                &&& forall|i: int| 0 <= i < text.len() ==> is_numeric(#[trigger] text[i])
            }),
            DefaultText::Expression { word, call } => is_plain_word(word) && is_call(call)
                && !starts_ci(word, ascii("NULL")),
        }
    }

    /// What it denotes.
    pub open spec fn model(self, bit_width: Option<u32>) -> DefaultModel {
        match self {
            DefaultText::Literal(l) => DefaultModel::Literal(l.value(bit_width)),
            DefaultText::Expression { .. } => DefaultModel::Expression,
        }
    }
}

/// An attribute of a column.
pub enum Attribute {
    /// A word, perhaps with parentheses: `unsigned`, `AUTO_INCREMENT`, `NULL`, the words of
    /// `ON UPDATE CURRENT_TIMESTAMP(6)`, of `CHARACTER SET utf8mb4`, and so on.
    Word { word: Seq<u8>, call: Option<Seq<u8>> },
    NotNull,
    Default(DefaultText),
    /// A comment with its content.
    Comment(Seq<u8>),
}

impl Attribute {
    /// The text of the attribute.
    pub open spec fn text(self) -> Seq<u8> {
        match self {
            Attribute::Word { word, call } => seq![0x20u8] + (word + call_text(call)),
            Attribute::NotNull => ascii(" NOT NULL"),
            Attribute::Default(d) => ascii(" DEFAULT ") + d.text(),
            Attribute::Comment(c) => seq![0x20u8] + ascii("COMMENT") + (seq![0x20u8]
                + Literal::Quoted(c).text()),
        }
    }

    /// The attribute can be spelled that way.
    pub open spec fn is_valid(self) -> bool {
        match self {
            Attribute::Word { word, call } => is_plain_word(word) && is_call(call),
            Attribute::Default(d) => d.is_valid(),
            _ => true,
        }
    }
}

/// The texts of attributes one after the other.
pub open spec fn attributes_text(list: Seq<Attribute>) -> Seq<u8>
    decreases list.len(),
{
    if list.len() == 0 {
        Seq::empty()
    } else {
        list[0].text() + attributes_text(list.skip(1))
    }
}

/// All attributes can be spelled that way.
pub open spec fn are_valid_attributes(list: Seq<Attribute>) -> bool {
    forall|i: int| 0 <= i < list.len() ==> (#[trigger] list[i]).is_valid()
}

/// The value of the first `DEFAULT` clause.
pub open spec fn first_default(list: Seq<Attribute>) -> Option<DefaultText>
    decreases list.len(),
{
    if list.len() == 0 {
        None
    } else {
        match list[0] {
            Attribute::Default(d) => Some(d),
            _ => first_default(list.skip(1)),
        }
    }
}

/// One of the attributes is `NOT NULL`.
pub open spec fn has_not_null(list: Seq<Attribute>) -> bool
    decreases list.len(),
{
    list.len() > 0 && (list[0] is NotNull || has_not_null(list.skip(1)))
}

/// The arguments of a type, such as the length of a `varchar` or the members of an `enum`: numbers and
/// quoted texts in parentheses, or nothing.
pub open spec fn arguments_text(arguments: Seq<Literal>) -> Seq<u8> {
    if arguments.len() == 0 {
        Seq::empty()
    } else {
        seq![OPEN_PAREN] + row_text(arguments) + seq![CLOSE_PAREN]
    }
}

/// A number or a quoted text.
pub open spec fn is_argument(l: Literal) -> bool {
    match l {
        Literal::Quoted(_) => true,
        Literal::Bare(text) => l.is_valid() && forall|i: int|
            0 <= i < text.len() ==> is_digit(#[trigger] text[i]),
        _ => false,
    }
}

/// All of them are arguments.
pub open spec fn are_arguments(list: Seq<Literal>) -> bool {
    forall|i: int| 0 <= i < list.len() ==> is_argument(#[trigger] list[i])
}

/// The text of a column.
pub struct ColumnText {
    pub name: Seq<u8>,
    /// The base type.
    pub keyword: Seq<u8>,
    pub arguments: Seq<Literal>,
    pub attributes: Seq<Attribute>,
}

impl ColumnText {
    /// What follows the name.
    pub open spec fn definition(self) -> Seq<u8> {
        self.keyword + (arguments_text(self.arguments) + attributes_text(self.attributes))
    }

    /// The text of the column.
    pub open spec fn text(self) -> Seq<u8> {
        quoted_name(self.name) + (seq![0x20u8] + self.definition())
    }

    /// The column can be spelled that way.
    pub open spec fn is_valid(self) -> bool {
        &&& is_plain_name(self.name)
        &&& is_plain_word(self.keyword)
        &&& forall|i: int| 0 <= i < self.keyword.len() ==> is_alphabetic(#[trigger] self.keyword[i])
        &&& are_arguments(self.arguments)
        &&& are_valid_attributes(self.attributes)
    }

    /// The width of a `BIT` column.
    pub open spec fn width(self) -> Option<u32> {
        if ascii_text(self.keyword.map_values(|b: u8| lowercase(b))) == "bit"@ {
            Some(bit_width(arguments_text(self.arguments)))
        } else {
            None
        }
    }

    /// The column that it declares.
    pub open spec fn column(self) -> ColumnModel {
        ColumnModel {
            name: decode_utf8(self.name),
            data_type: ascii_text(self.keyword.map_values(|b: u8| lowercase(b))),
            nullable: !has_not_null(self.attributes),
            bit_width: self.width(),
            default: match first_default(self.attributes) {
                Some(d) => d.model(self.width()),
                None => DefaultModel::Absent,
            },
        }
    }
}

/// A word that is searched for, with the letters that it starts with.
spec fn is_sought(word: Seq<u8>, letters: Seq<u8>) -> bool {
    &&& 0 < letters.len() <= word.len()
    &&& forall|k: int| 0 <= k < letters.len() ==> word[k] == #[trigger] letters[k]
    &&& forall|k: int| 0 <= k < letters.len() ==> is_alphabetic(#[trigger] letters[k])
    &&& letters == ascii("DEFAULT") || letters == ascii("NOT")
}

/// The words that are searched for.
proof fn lemma_sought()
    ensures
        is_sought(ascii("DEFAULT"), ascii("DEFAULT")),
        is_sought(ascii("NOT NULL"), ascii("NOT")),
        ascii("DEFAULT").len() == 7,
        ascii("NOT NULL").len() == 8,
        lowercase(ascii("DEFAULT")[0]) == 0x64,
        lowercase(ascii("NOT NULL")[0]) == 0x6e,
{
    reveal_strlit("DEFAULT");
    reveal_strlit("NOT NULL");
    reveal_strlit("NOT");
}

/// Searching from `i` on is searching from `j` on.
spec fn is_quiet(data: Seq<u8>, word: Seq<u8>, i: int, j: int) -> bool {
    &&& word_from(data, word, i) == word_from(data, word, j)
    &&& outer_word_from(data, word, i, 0) == outer_word_from(data, word, j, 0)
}

/// Bytes that are no quotes and no parentheses, where the word does not stand, are quiet.
proof fn lemma_quiet(data: Seq<u8>, word: Seq<u8>, i: int, j: int)
    requires
        0 <= i <= j <= data.len(),
        forall|k: int|
            i <= k < j ==> !is_quote(#[trigger] data[k]) && data[k] != OPEN_PAREN && data[k]
                != CLOSE_PAREN && !word_at(data, word, k),
    ensures
        is_quiet(data, word, i, j),
    decreases j - i,
{
    if i < j {
        assert(!is_quote(data[i]));
        lemma_quiet(data, word, i + 1, j);
    }
}

/// A word that starts with another letter than the byte at `k` does not stand there.
proof fn lemma_other_letter(data: Seq<u8>, word: Seq<u8>, k: int)
    requires
        0 <= k < data.len(),
        word.len() > 0,
        lowercase(data[k]) != lowercase(word[0]),
    ensures
        !word_at(data, word, k),
{
    if at_ci(data, k, word) {
        let w = data.subrange(k, k + word.len());
        assert(lowercase(w[0]) == lowercase(word[0]));
        assert(w[0] == data[k]);
    }
}

/// Bytes that are neither quotes nor parentheses nor the first letter of the word are quiet.
proof fn lemma_quiet_bytes(data: Seq<u8>, word: Seq<u8>, i: int, s: Seq<u8>)
    requires
        word.len() > 0,
        holds_at(data, i, s),
        forall|k: int|
            0 <= k < s.len() ==> !is_quote(#[trigger] s[k]) && s[k] != OPEN_PAREN && s[k]
                != CLOSE_PAREN && lowercase(s[k]) != lowercase(word[0]),
    ensures
        is_quiet(data, word, i, i + s.len()),
{
    assert forall|k: int| i <= k < i + s.len() implies !is_quote(#[trigger] data[k]) && data[k]
        != OPEN_PAREN && data[k] != CLOSE_PAREN && !word_at(data, word, k) by {
        assert(data[i + (k - i)] == s[k - i]);
        lemma_other_letter(data, word, k);
    }
    lemma_quiet(data, word, i, i + s.len());
}

/// A plain word is quiet where it stands on its own.
proof fn lemma_quiet_word(data: Seq<u8>, word: Seq<u8>, letters: Seq<u8>, i: int, w: Seq<u8>)
    requires
        is_sought(word, letters),
        is_plain_word(w),
        holds_at(data, i, w),
        i + w.len() < data.len() ==> !is_alphabetic(data[i + w.len()]),
    ensures
        is_quiet(data, word, i, i + w.len()),
{
    let n = w.len() as int;
    assert forall|k: int| i <= k < i + n implies !is_quote(#[trigger] data[k]) && data[k]
        != OPEN_PAREN && data[k] != CLOSE_PAREN && !word_at(data, word, k) by {
        let m = k - i;
        assert(data[i + m] == w[m]);
        assert(is_alphanumeric(w[m]) || w[m] == 0x5f);
        if m > 0 {
            assert(data[i + (m - 1)] == w[m - 1]);
            assert(is_alphanumeric(w[m - 1]) || w[m - 1] == 0x5f);
        }
        if word_at(data, word, k) {
            let found = data.subrange(k, k + word.len());
            let l = letters.len() as int;
            assert forall|j: int| 0 <= j < l implies lowercase(#[trigger] data[k + j]) == lowercase(
                letters[j],
            ) by {
                assert(lowercase(found[j]) == lowercase(word[j]));
                assert(found[j] == data[k + j]);
                assert(word[j] == letters[j]);
            }
            if m + l <= n {
                let rest = w.skip(m);
                assert(rest.take(l).len() == l);
                assert forall|j: int| 0 <= j < l implies lowercase(#[trigger] rest.take(l)[j])
                    == lowercase(letters[j]) by {
                    assert(rest.take(l)[j] == w[m + j]);
                    assert(data[i + (m + j)] == w[m + j]);
                    assert(lowercase(data[k + j]) == lowercase(letters[j]));
                }
                assert(starts_ci(rest, letters));
                assert(!starts_ci(w.skip(m), ascii("DEFAULT")));
            } else {
                let j = n - m;
                assert(is_alphabetic(letters[j]));
                assert(lowercase(data[k + j]) == lowercase(letters[j]));
            }
        }
    }
    lemma_quiet(data, word, i, i + n);
}

/// A quoted span is quiet.
proof fn lemma_quiet_quotes(data: Seq<u8>, word: Seq<u8>, i: int)
    requires
        0 <= i < data.len(),
        is_quote(data[i]),
    ensures
        is_quiet(data, word, i, quoted_end(data, data[i], i + 1)),
{
    lemma_quoted_end_bounds(data, data[i], i + 1);
}

/// The quoted text of a literal ends with its quote.
proof fn lemma_quoted_literal(data: Seq<u8>, i: int, content: Seq<u8>)
    requires
        holds_at(data, i, Literal::Quoted(content).text()),
        ({
            let n = i + Literal::Quoted(content).text().len();
            n < data.len() ==> data[n] != SINGLE_QUOTE
        }),
    ensures
        data[i] == SINGLE_QUOTE,
        quoted_end(data, SINGLE_QUOTE, i + 1) == i + Literal::Quoted(content).text().len(),
{
    let body = escaped(content);
    lemma_holds_parts(data, i, seq![SINGLE_QUOTE] + body, seq![SINGLE_QUOTE]);
    lemma_holds_parts(data, i, seq![SINGLE_QUOTE], body);
    assert(data[i + 0] == seq![SINGLE_QUOTE][0]);
    let close = i + 1 + body.len();
    assert(data[close + 0] == seq![SINGLE_QUOTE][0]);
    lemma_escaped_passes(data, i + 1, content, SINGLE_QUOTE);
}

/// A literal is quiet where it stands on its own.
proof fn lemma_quiet_literal(data: Seq<u8>, word: Seq<u8>, letters: Seq<u8>, i: int, l: Literal)
    requires
        is_sought(word, letters),
        lowercase(word[0]) == 0x64 || lowercase(word[0]) == 0x6e,
        DefaultText::Literal(l).is_valid(),
        holds_at(data, i, l.text()),
        ({
            let n = i + l.text().len();
            n < data.len() ==> !is_quote(data[n]) && !is_alphabetic(data[n])
        }),
    ensures
        is_quiet(data, word, i, i + l.text().len()),
{
    let t = l.text();
    match l {
        Literal::Null => {
            reveal_strlit("NULL");
            reveal_strlit("DEFAULT");
            reveal_strlit("NOT");
            assert(is_plain_word(t)) by {
                lemma_other_start(t, ascii("DEFAULT"), 0);
                lemma_other_start(t, ascii("NOT"), 1);
                assert(t.skip(0) =~= t);
            }
            lemma_quiet_word(data, word, letters, i, t);
        },
        Literal::Quoted(content) => {
            lemma_quoted_literal(data, i, content);
            lemma_quiet_quotes(data, word, i);
        },
        Literal::Bits(digits) => {
            lemma_bits_end(data, i, digits);
            assert(holds_at(data, i, seq![0x62u8]));
            lemma_quiet_bytes(data, word, i, seq![0x62u8]);
            lemma_quiet_quotes(data, word, i + 1);
        },
        Literal::Hex(content) => {
            assert forall|k: int| i <= k < i + t.len() implies !is_quote(#[trigger] data[k])
                && data[k] != OPEN_PAREN && data[k] != CLOSE_PAREN && !word_at(data, word, k) by {
                assert(data[i + (k - i)] == t[k - i]);
                if k > i {
                    assert(data[i + (k - 1 - i)] == t[k - 1 - i]);
                } else {
                    lemma_other_letter(data, word, k);
                }
            }
            lemma_quiet(data, word, i, i + t.len());
        },
        Literal::Bare(text) => {
            assert forall|k: int| 0 <= k < t.len() implies !is_quote(#[trigger] t[k]) && t[k]
                != OPEN_PAREN && t[k] != CLOSE_PAREN && lowercase(t[k]) != lowercase(word[0]) by {
                assert(is_numeric(text[k]));
            }
            lemma_quiet_bytes(data, word, i, t);
        },
    }
}

/// A text with another letter does not start with a word.
pub proof fn lemma_other_start(t: Seq<u8>, word: Seq<u8>, k: int)
    requires
        0 <= k < word.len(),
        k < t.len(),
        lowercase(t[k]) != lowercase(word[k]),
    ensures
        !starts_ci(t, word),
{
    if starts_ci(t, word) {
        assert(lowercase(t.take(word.len() as int)[k]) == lowercase(word[k]));
    }
}

/// A word with its parentheses is quiet where it stands on its own.
proof fn lemma_quiet_call(
    data: Seq<u8>,
    word: Seq<u8>,
    letters: Seq<u8>,
    i: int,
    w: Seq<u8>,
    call: Option<Seq<u8>>,
)
    requires
        is_sought(word, letters),
        lowercase(word[0]) == 0x64 || lowercase(word[0]) == 0x6e,
        is_plain_word(w),
        is_call(call),
        holds_at(data, i, w + call_text(call)),
        ({
            let n = i + (w + call_text(call)).len();
            n < data.len() ==> data[n] == 0x20
        }),
    ensures
        is_quiet(data, word, i, i + (w + call_text(call)).len()),
{
    let t = call_text(call);
    let open = i + w.len();
    lemma_holds_parts(data, i, w, t);
    if let Some(digits) = call {
        assert(data[open + 0] == t[0]);
        lemma_quiet_word(data, word, letters, i, w);
        let close = open + 1 + digits.len();
        lemma_holds_parts(data, open, seq![OPEN_PAREN] + digits, seq![CLOSE_PAREN]);
        lemma_holds_parts(data, open, seq![OPEN_PAREN], digits);
        assert(data[close + 0] == seq![CLOSE_PAREN][0]);
        assert forall|k: int| open + 1 <= k < close implies is_digit(#[trigger] data[k])
            || data[k] == COMMA by {
            assert(data[open + 1 + (k - open - 1)] == digits[k - open - 1]);
        }
        lemma_digits_are_quiet(data, word, open + 1, close);
        lemma_other_letter(data, word, open);
        lemma_other_letter(data, word, close);
        assert(outer_word_from(data, word, open, 0) == outer_word_from(data, word, open + 1, 1));
        assert(outer_word_from(data, word, close, 1) == outer_word_from(data, word, close + 1, 0));
        assert(word_from(data, word, open) == word_from(data, word, open + 1));
        assert(word_from(data, word, close) == word_from(data, word, close + 1));
    } else {
        lemma_quiet_word(data, word, letters, i, w);
    }
}

/// The value of a default clause is quiet where it stands on its own.
proof fn lemma_quiet_default(
    data: Seq<u8>,
    word: Seq<u8>,
    letters: Seq<u8>,
    i: int,
    d: DefaultText,
)
    requires
        is_sought(word, letters),
        lowercase(word[0]) == 0x64 || lowercase(word[0]) == 0x6e,
        d.is_valid(),
        holds_at(data, i, d.text()),
        i + d.text().len() < data.len() ==> data[i + d.text().len()] == 0x20,
    ensures
        is_quiet(data, word, i, i + d.text().len()),
{
    match d {
        DefaultText::Literal(l) => {
            lemma_quiet_literal(data, word, letters, i, l);
        },
        DefaultText::Expression { word: w, call } => {
            lemma_quiet_call(data, word, letters, i, w, call);
        },
    }
}

/// One space is quiet.
proof fn lemma_quiet_space(data: Seq<u8>, word: Seq<u8>, letters: Seq<u8>, i: int)
    requires
        is_sought(word, letters),
        holds_at(data, i, seq![0x20u8]),
    ensures
        is_quiet(data, word, i, i + 1),
        data[i] == 0x20,
{
    assert(data[i + 0] == seq![0x20u8][0]);
    assert(is_alphabetic(letters[0]));
    assert(word[0] == letters[0]);
    lemma_quiet_bytes(data, word, i, seq![0x20u8]);
}

/// A comment is quiet.
proof fn lemma_quiet_comment(data: Seq<u8>, word: Seq<u8>, letters: Seq<u8>, i: int, c: Seq<u8>)
    requires
        is_sought(word, letters),
        holds_at(data, i, Attribute::Comment(c).text()),
        ({
            let n = i + Attribute::Comment(c).text().len();
            n < data.len() ==> data[n] == 0x20
        }),
    ensures
        is_quiet(data, word, i, i + Attribute::Comment(c).text().len()),
{
    reveal_strlit("COMMENT");
    reveal_strlit("DEFAULT");
    reveal_strlit("NOT");
    let w = ascii("COMMENT");
    let q = Literal::Quoted(c).text();
    lemma_holds_parts(data, i, seq![0x20u8] + w, seq![0x20u8] + q);
    lemma_holds_parts(data, i, seq![0x20u8], w);
    lemma_holds_parts(data, i + 8, seq![0x20u8], q);
    lemma_quiet_space(data, word, letters, i);
    assert(is_plain_word(w)) by {
        lemma_other_start(w, ascii("DEFAULT"), 0);
        lemma_other_start(w, ascii("NOT"), 0);
        assert(w.skip(0) =~= w);
    }
    lemma_quiet_space(data, word, letters, i + 8);
    lemma_quiet_word(data, word, letters, i + 1, w);
    lemma_quoted_literal(data, i + 9, c);
    lemma_quiet_quotes(data, word, i + 9);
}

/// Where an attribute other than a default clause stands, the word `DEFAULT` does not; where one other
/// than the constraint stands, the words `NOT NULL` do not.
proof fn lemma_quiet_attribute(
    data: Seq<u8>,
    word: Seq<u8>,
    letters: Seq<u8>,
    i: int,
    a: Attribute,
)
    requires
        is_sought(word, letters),
        a.is_valid(),
        holds_at(data, i, a.text()),
        i + a.text().len() < data.len() ==> data[i + a.text().len()] == 0x20,
        a is Default ==> lowercase(word[0]) == 0x6e,
        a is NotNull ==> lowercase(word[0]) == 0x64,
        lowercase(word[0]) == 0x64 || lowercase(word[0]) == 0x6e,
    ensures
        is_quiet(data, word, i, i + a.text().len()),
{
    match a {
        Attribute::Word { word: w, call } => {
            lemma_holds_parts(data, i, seq![0x20u8], w + call_text(call));
            lemma_quiet_space(data, word, letters, i);
            lemma_quiet_call(data, word, letters, i + 1, w, call);
        },
        Attribute::NotNull => {
            reveal_strlit(" NOT NULL");
            lemma_quiet_bytes(data, word, i, ascii(" NOT NULL"));
        },
        Attribute::Default(d) => {
            reveal_strlit(" DEFAULT ");
            lemma_holds_parts(data, i, ascii(" DEFAULT "), d.text());
            lemma_quiet_bytes(data, word, i, ascii(" DEFAULT "));
            lemma_quiet_default(data, word, letters, i + 9, d);
        },
        Attribute::Comment(c) => {
            lemma_quiet_comment(data, word, letters, i, c);
        },
    }
}

/// Attributes start with a space.
pub proof fn lemma_attributes_start(list: Seq<Attribute>)
    ensures
        list.len() > 0 ==> list[0].text().len() > 0 && list[0].text()[0] == 0x20,
        attributes_text(list).len() > 0 ==> attributes_text(list)[0] == 0x20,
        list.len() > 0 ==> attributes_text(list).len() > 0,
{
    reveal_strlit(" NOT NULL");
    reveal_strlit(" DEFAULT ");
    if list.len() > 0 {
        assert(attributes_text(list)[0] == list[0].text()[0]);
    }
}

/// What follows an attribute in a list of them.
proof fn lemma_attribute_ends(data: Seq<u8>, i: int, list: Seq<Attribute>)
    requires
        list.len() > 0,
        holds_at(data, i, attributes_text(list)),
        i + attributes_text(list).len() == data.len(),
    ensures
        ({
            let n = i + list[0].text().len();
            &&& holds_at(data, i, list[0].text())
            &&& holds_at(data, n, attributes_text(list.skip(1)))
            &&& n + attributes_text(list.skip(1)).len() == data.len()
            &&& n < data.len() ==> data[n] == 0x20
        }),
{
    let rest = attributes_text(list.skip(1));
    lemma_holds_parts(data, i, list[0].text(), rest);
    lemma_attributes_start(list.skip(1));
    if rest.len() > 0 {
        assert(data[i + list[0].text().len() + 0] == rest[0]);
    }
}

/// The first default clause is found, and nothing where there is none.
proof fn lemma_find_default(data: Seq<u8>, i: int, list: Seq<Attribute>, width: Option<u32>)
    requires
        are_valid_attributes(list),
        holds_at(data, i, attributes_text(list)),
        i + attributes_text(list).len() == data.len(),
    ensures
        match word_from(data, ascii("DEFAULT"), i) {
            Some(p) => first_default(list) matches Some(d) && default_value(
                trim_start(data.skip(p + 7)),
                width,
            ) == Some(d.model(width)),
            None => first_default(list) is None,
        },
    decreases list.len(),
{
    lemma_sought();
    let word = ascii("DEFAULT");
    if list.len() > 0 {
        let a = list[0];
        let rest = list.skip(1);
        assert(a.is_valid());
        lemma_attribute_ends(data, i, list);
        let n = i + a.text().len();
        if let Attribute::Default(d) = a {
            lemma_default_is_found(data, i, d, width);
        } else {
            assert forall|k: int| 0 <= k < rest.len() implies (#[trigger] rest[k]).is_valid() by {
                assert(rest[k] == list[k + 1]);
            }
            lemma_quiet_attribute(data, word, word, i, a);
            lemma_find_default(data, n, rest, width);
        }
    }
}

/// A default clause is found where it stands, and denotes its value.
proof fn lemma_default_is_found(data: Seq<u8>, i: int, d: DefaultText, width: Option<u32>)
    requires
        d.is_valid(),
        holds_at(data, i, Attribute::Default(d).text()),
        ({
            let n = i + Attribute::Default(d).text().len();
            n < data.len() ==> data[n] == 0x20
        }),
    ensures
        word_from(data, ascii("DEFAULT"), i) == Some(i + 1),
        default_value(trim_start(data.skip(i + 8)), width) == Some(d.model(width)),
{
    reveal_strlit(" DEFAULT ");
    lemma_sought();
    let word = ascii("DEFAULT");
    let clause = ascii(" DEFAULT ");
    lemma_holds_parts(data, i, clause, d.text());
    assert forall|k: int| 0 <= k < 9 implies #[trigger] data[i + k] == clause[k] by {
        assert(data[i + k] == clause[k]);
    }
    assert(data[i + 0] == 0x20 && data[i + 1] == 0x44 && data[i + 8] == 0x20);
    lemma_other_letter(data, word, i);
    let p = i + 1;
    assert(at_ci(data, p, word)) by {
        reveal_strlit("DEFAULT");
        let w = data.subrange(p, p + 7);
        assert forall|k: int| 0 <= k < 7 implies lowercase(#[trigger] w[k]) == lowercase(
            word[k],
        ) by {
            assert(w[k] == data[i + (k + 1)]);
        }
    }
    assert(word_at(data, word, p));
    assert(word_from(data, word, i) == word_from(data, word, p));
    // The value.
    let t = d.text();
    let after = data.skip(i + 8);
    let tail = data.skip(i + 9 + t.len());
    assert(after.skip(1) =~= t + tail) by {
        assert forall|k: int| 0 <= k < t.len() implies after.skip(1)[k] == t[k] by {
            assert(data[i + 9 + k] == t[k]);
        }
    }
    assert(after[0] == data[i + 8]);
    if tail.len() > 0 {
        assert(tail[0] == data[i + 9 + t.len()]);
    }
    lemma_default_starts(d);
    assert((t + tail)[0] == t[0]);
    assert(trim_start(t + tail) == t + tail);
    assert(trim_start(after) == t + tail);
    lemma_default_value(d, tail, width);
}

/// The text of a default value neither starts nor ends with whitespace.
pub proof fn lemma_default_starts(d: DefaultText)
    requires
        d.is_valid(),
    ensures
        d.text().len() > 0,
        !is_space(d.text()[0]),
        !is_space(d.text().last()),
{
    match d {
        DefaultText::Literal(l) => {
            lemma_literal_starts(l);
        },
        DefaultText::Expression { word, call } => {
            let last = word[word.len() - 1];
            assert(is_alphanumeric(last) || last == 0x5f);
        },
    }
}

/// The text of a literal neither starts nor ends with whitespace.
pub proof fn lemma_literal_starts(l: Literal)
    requires
        l.is_valid(),
    ensures
        l.text().len() > 0,
        !is_space(l.text()[0]),
        !is_space(l.text().last()),
{
    reveal_strlit("NULL");
    match l {
        Literal::Bare(text) => {
            assert(is_bare_byte(text[0]));
            assert(is_bare_byte(text[text.len() - 1]));
        },
        Literal::Hex(content) => {
            let hex = hex_text(content);
            assert(!is_space(hex[hex.len() - 1]));
            assert(l.text().last() == hex[hex.len() - 1]);
        },
        _ => {},
    }
}

/// A default value reads back as it was spelled, whatever attributes follow.
proof fn lemma_default_value(d: DefaultText, tail: Seq<u8>, width: Option<u32>)
    requires
        d.is_valid(),
        tail.len() > 0 ==> tail[0] == 0x20,
    ensures
        default_value(d.text() + tail, width) == Some(d.model(width)),
{
    match d {
        DefaultText::Literal(l) => {
            lemma_default_literal(l, tail, width);
        },
        DefaultText::Expression { word, call } => {
            reveal_strlit("NULL");
            let t = d.text() + tail;
            let p = not_alphanumeric();
            lemma_index_where(t, 0, p);
            let w = t.take(index_where(t, 0, p));
            assert(t[0] == word[0]);
            if eq_ci(w, ascii("NULL")) {
                assert forall|k: int| 0 <= k < 4 implies is_alphanumeric(#[trigger] t[k])
                    && lowercase(t[k]) == lowercase(ascii("NULL")[k]) by {
                    assert(lowercase(w[k]) == lowercase(ascii("NULL")[k]));
                    assert(w[k] == t[k]);
                }
                if word.len() >= 4 {
                    assert(word.take(4).len() == 4);
                    assert forall|k: int| 0 <= k < 4 implies lowercase(#[trigger] word.take(4)[k])
                        == lowercase(ascii("NULL")[k]) by {
                        assert(t[k] == word[k]);
                    }
                    assert(starts_ci(word, ascii("NULL")));
                } else {
                    let n = word.len() as int;
                    assert(is_alphanumeric(t[n]));
                    if call is Some {
                        assert(t[n] == call_text(call)[0]);
                    } else if tail.len() > 0 {
                        assert(t[n] == tail[0]);
                    }
                }
            }
            assert(literal_end(t) is None) by {
                if t.len() > 1 {
                    if word.len() > 1 {
                        assert(t[1] == word[1]);
                        assert(is_alphanumeric(word[1]) || word[1] == 0x5f);
                    } else if call is Some {
                        assert(t[1] == call_text(call)[0]);
                    } else {
                        assert(t[1] == tail[0]);
                    }
                }
            }
        },
    }
}

/// A default literal reads back as it was spelled, whatever attributes follow.
proof fn lemma_default_literal(l: Literal, tail: Seq<u8>, width: Option<u32>)
    requires
        DefaultText::Literal(l).is_valid(),
        tail.len() > 0 ==> tail[0] == 0x20,
    ensures
        default_value(l.text() + tail, width) == Some(DefaultModel::Literal(l.value(width))),
{
    reveal_strlit("NULL");
    let text = l.text();
    let t = text + tail;
    let len = text.len() as int;
    literal_reads_back(l, width);
    assert(t.take(len) =~= text);
    assert(holds_at(t, 0, text));
    if tail.len() > 0 {
        assert(t[len] == tail[0]);
    }
    match l {
        Literal::Null => {
            assert forall|j: int| 0 <= j < len implies !not_alphanumeric()(#[trigger] t[j]) by {
                assert(t[j] == text[j]);
            }
            lemma_index_where_is(t, 0, not_alphanumeric(), len);
            assert(eq_ci(text, ascii("NULL")));
        },
        Literal::Quoted(content) => {
            lemma_quoted_literal(t, 0, content);
            lemma_index_where_is(t, 0, not_alphanumeric(), 0);
            assert(t.take(0).len() == 0);
            assert(literal_end(t) == Some(len));
        },
        Literal::Bits(digits) => {
            lemma_bits_end(t, 0, digits);
            lemma_index_where_is(t, 0, not_alphanumeric(), 1);
            assert(t.take(1).len() == 1);
            assert(literal_end(t) == Some(len));
        },
        Literal::Hex(content) => {
            let hex = hex_text(content);
            assert(t[0] == text[0] && t[1] == text[1]);
            lemma_not_null_word(t);
            assert forall|j: int| 2 <= j < len implies !not_hex()(#[trigger] t[j]) by {
                assert(t[j] == text[j]);
                assert(text[j] == hex[j - 2]);
            }
            lemma_index_where_is(t, 2, not_hex(), len);
            assert(literal_end(t) == Some(len));
        },
        Literal::Bare(number) => {
            assert(t[0] == number[0]);
            lemma_not_null_word(t);
            assert forall|j: int| 0 <= j < len implies !not_numeric()(#[trigger] t[j]) by {
                assert(t[j] == number[j]);
                assert(is_numeric(number[j]));
            }
            lemma_index_where_is(t, 0, not_numeric(), len);
            if len > 1 {
                assert(t[1] == number[1]);
                assert(is_numeric(number[1]));
            }
            assert(literal_end(t) == Some(len));
        },
    }
}

/// A text that does not start with a letter does not start with the word `NULL`.
proof fn lemma_not_null_word(t: Seq<u8>)
    requires
        t.len() > 0,
        !is_alphabetic(t[0]),
    ensures
        !eq_ci(t.take(index_where(t, 0, not_alphanumeric())), ascii("NULL")),
{
    reveal_strlit("NULL");
    let w = t.take(index_where(t, 0, not_alphanumeric()));
    if eq_ci(w, ascii("NULL")) {
        assert(lowercase(w[0]) == lowercase(ascii("NULL")[0]));
        lemma_index_where(t, 0, not_alphanumeric());
        assert(w[0] == t[0]);
    }
}

/// The constraint is found where it is, and only there.
proof fn lemma_find_not_null(data: Seq<u8>, i: int, list: Seq<Attribute>)
    requires
        are_valid_attributes(list),
        holds_at(data, i, attributes_text(list)),
        i + attributes_text(list).len() == data.len(),
    ensures
        outer_word_from(data, ascii("NOT NULL"), i, 0) is Some <==> has_not_null(list),
    decreases list.len(),
{
    lemma_sought();
    let word = ascii("NOT NULL");
    if list.len() > 0 {
        let a = list[0];
        let rest = list.skip(1);
        assert(a.is_valid());
        lemma_attribute_ends(data, i, list);
        let n = i + a.text().len();
        if a is NotNull {
            reveal_strlit(" NOT NULL");
            reveal_strlit("NOT NULL");
            let t = ascii(" NOT NULL");
            let p = i + 1;
            assert forall|k: int| 0 <= k < 9 implies #[trigger] data[i + k] == t[k] by {
                assert(data[i + k] == t[k]);
            }
            assert(data[i + 0] == 0x20 && data[i + 1] == 0x4e);
            lemma_other_letter(data, word, i);
            assert(at_ci(data, p, word)) by {
                let w = data.subrange(p, p + 8);
                assert forall|k: int| 0 <= k < 8 implies lowercase(#[trigger] w[k]) == lowercase(
                    word[k],
                ) by {
                    assert(w[k] == data[i + (k + 1)]);
                }
            }
            assert(word_at(data, word, p));
            assert(outer_word_from(data, word, i, 0) == outer_word_from(data, word, p, 0));
        } else {
            assert forall|k: int| 0 <= k < rest.len() implies (#[trigger] rest[k]).is_valid() by {
                assert(rest[k] == list[k + 1]);
            }
            lemma_quiet_attribute(data, word, ascii("NOT"), i, a);
            lemma_find_not_null(data, n, rest);
        }
    }
}

/// Inside parentheses nothing stands for the outer search.
proof fn lemma_argument_is_quiet(data: Seq<u8>, word: Seq<u8>, letters: Seq<u8>, i: int, l: Literal)
    requires
        is_sought(word, letters),
        lowercase(word[0]) == 0x64 || lowercase(word[0]) == 0x6e,
        is_argument(l),
        holds_at(data, i, l.text()),
        i + l.text().len() < data.len(),
        data[i + l.text().len()] == COMMA || data[i + l.text().len()] == CLOSE_PAREN,
    ensures
        word_from(data, word, i) == word_from(data, word, i + l.text().len()),
        outer_word_from(data, word, i, 1) == outer_word_from(data, word, i + l.text().len(), 1),
{
    match l {
        Literal::Quoted(content) => {
            lemma_quoted_literal(data, i, content);
            lemma_quoted_end_bounds(data, SINGLE_QUOTE, i + 1);
        },
        Literal::Bare(text) => {
            assert forall|k: int| i <= k < i + text.len() implies is_digit(#[trigger] data[k]) by {
                assert(data[i + (k - i)] == text[k - i]);
            }
            lemma_digits_are_quiet(data, word, i, i + text.len());
        },
        _ => {},
    }
}

/// Digits are quiet, inside parentheses too.
proof fn lemma_digits_are_quiet(data: Seq<u8>, word: Seq<u8>, i: int, j: int)
    requires
        word.len() > 0,
        lowercase(word[0]) == 0x64 || lowercase(word[0]) == 0x6e,
        0 <= i <= j <= data.len(),
        forall|k: int| i <= k < j ==> is_digit(#[trigger] data[k]) || data[k] == COMMA,
    ensures
        word_from(data, word, i) == word_from(data, word, j),
        outer_word_from(data, word, i, 1) == outer_word_from(data, word, j, 1),
    decreases j - i,
{
    if i < j {
        assert(is_digit(data[i]) || data[i] == COMMA);
        lemma_other_letter(data, word, i);
        lemma_digits_are_quiet(data, word, i + 1, j);
    }
}

/// The arguments of a type are quiet.
proof fn lemma_arguments_are_quiet(
    data: Seq<u8>,
    word: Seq<u8>,
    letters: Seq<u8>,
    i: int,
    list: Seq<Literal>,
)
    requires
        is_sought(word, letters),
        lowercase(word[0]) == 0x64 || lowercase(word[0]) == 0x6e,
        list.len() > 0,
        are_arguments(list),
        holds_at(data, i, row_text(list)),
        i + row_text(list).len() < data.len(),
        data[i + row_text(list).len()] == CLOSE_PAREN,
    ensures
        word_from(data, word, i) == word_from(data, word, i + row_text(list).len()),
        outer_word_from(data, word, i, 1) == outer_word_from(data, word, i + row_text(list).len(), 1),
    decreases list.len(),
{
    let t = list[0].text();
    assert(is_argument(list[0]));
    if list.len() == 1 {
        lemma_argument_is_quiet(data, word, letters, i, list[0]);
    } else {
        let rest = list.skip(1);
        let comma = i + t.len();
        lemma_holds_parts(data, i, t + seq![COMMA], row_text(rest));
        lemma_holds_parts(data, i, t, seq![COMMA]);
        assert(data[comma + 0] == seq![COMMA][0]);
        lemma_argument_is_quiet(data, word, letters, i, list[0]);
        lemma_digits_are_quiet(data, word, comma, comma + 1);
        assert forall|k: int| 0 <= k < rest.len() implies is_argument(#[trigger] rest[k]) by {
            assert(rest[k] == list[k + 1]);
        }
        lemma_arguments_are_quiet(data, word, letters, comma + 1, rest);
    }
}

/// The base type with its arguments is quiet where it stands on its own.
proof fn lemma_type_is_quiet(
    data: Seq<u8>,
    word: Seq<u8>,
    letters: Seq<u8>,
    i: int,
    c: ColumnText,
)
    requires
        is_sought(word, letters),
        lowercase(word[0]) == 0x64 || lowercase(word[0]) == 0x6e,
        c.is_valid(),
        holds_at(data, i, c.definition()),
        i + c.definition().len() == data.len(),
    ensures
        is_quiet(data, word, i, i + c.keyword.len() + arguments_text(c.arguments).len()),
        holds_at(
            data,
            i + c.keyword.len() + arguments_text(c.arguments).len(),
            attributes_text(c.attributes),
        ),
{
    let k = c.keyword;
    let a = arguments_text(c.arguments);
    let b = attributes_text(c.attributes);
    let at = i + k.len();
    lemma_holds_parts(data, i, k, a + b);
    lemma_holds_parts(data, at, a, b);
    lemma_attributes_start(c.attributes);
    if a.len() > 0 {
        assert(data[at + 0] == a[0]);
    } else if b.len() > 0 {
        assert(data[at + 0] == b[0]);
    }
    lemma_quiet_word(data, word, letters, i, k);
    if c.arguments.len() > 0 {
        let t = row_text(c.arguments);
        let close = at + 1 + t.len();
        lemma_holds_parts(data, at, seq![OPEN_PAREN] + t, seq![CLOSE_PAREN]);
        lemma_holds_parts(data, at, seq![OPEN_PAREN], t);
        assert(data[at + 0] == seq![OPEN_PAREN][0]);
        assert(data[close + 0] == seq![CLOSE_PAREN][0]);
        lemma_other_letter(data, word, at);
        lemma_other_letter(data, word, close);
        lemma_arguments_are_quiet(data, word, letters, at + 1, c.arguments);
        assert(outer_word_from(data, word, at, 0) == outer_word_from(data, word, at + 1, 1));
        assert(outer_word_from(data, word, close, 1) == outer_word_from(data, word, close + 1, 0));
    }
}

/// The base type of a column reads back.
proof fn lemma_type(c: ColumnText)
    requires
        c.is_valid(),
    ensures
        index_where(c.definition(), 0, not_alphabetic()) == c.keyword.len(),
        type_keyword(c.definition()) == c.column().data_type,
        trim_start(c.definition()) == c.definition(),
{
    let d = c.definition();
    let n = c.keyword.len() as int;
    let rest = arguments_text(c.arguments) + attributes_text(c.attributes);
    assert forall|j: int| 0 <= j < n implies !not_alphabetic()(#[trigger] d[j]) by {
        assert(d[j] == c.keyword[j]);
        assert(is_alphabetic(c.keyword[j]));
    }
    lemma_attributes_start(c.attributes);
    if n < d.len() {
        assert(d[n] == rest[0]);
        if c.arguments.len() > 0 {
            assert(rest[0] == arguments_text(c.arguments)[0]);
        } else {
            assert(rest[0] == attributes_text(c.attributes)[0]);
        }
    }
    lemma_index_where_is(d, 0, not_alphabetic(), n);
    assert(d.take(n) =~= c.keyword);
    assert(d[0] == c.keyword[0]);
}

/// What follows the arguments does not change the width.
proof fn lemma_bit_width(c: ColumnText)
    requires
        c.is_valid(),
    ensures
        bit_width(c.definition().skip(c.keyword.len() as int)) == bit_width(
            arguments_text(c.arguments),
        ),
{
    let s = arguments_text(c.arguments);
    let b = attributes_text(c.attributes);
    let tail = c.definition().skip(c.keyword.len() as int);
    assert(tail =~= s + b);
    lemma_attributes_start(c.attributes);
    if s.len() > 0 {
        let p = equal_to(CLOSE_PAREN);
        assert(s[0] == OPEN_PAREN && tail[0] == s[0]);
        assert(trim_start(tail) == tail);
        assert(trim_start(s) == s);
        lemma_index_where(s, 0, p);
        let close = index_where(s, 0, p);
        assert(s[s.len() - 1] == CLOSE_PAREN);
        assert(close < s.len()) by {
            if close >= s.len() {
                assert(!p(s[s.len() - 1]));
            }
        }
        assert(tail[close] == s[close]);
        assert forall|j: int| 0 <= j < close implies !p(#[trigger] tail[j]) by {
            assert(tail[j] == s[j]);
            assert(!p(s[j]));
        }
        lemma_index_where_is(tail, 0, p, close);
        assert(tail.subrange(1, close) =~= s.subrange(1, close));
    } else if tail.len() > 0 {
        lemma_second_is_no_paren(c);
        assert(tail =~= b);
        assert(trim_start(tail.skip(1)) == tail.skip(1));
    }
}

/// What follows the space of the first attribute is neither a parenthesis nor a space.
proof fn lemma_second_is_no_paren(c: ColumnText)
    requires
        c.is_valid(),
        c.attributes.len() > 0,
    ensures
        ({
            let b = attributes_text(c.attributes);
            b.len() > 1 && b[1] != OPEN_PAREN && !is_space(b[1]) && b[0] == 0x20
        }),
{
    reveal_strlit(" NOT NULL");
    reveal_strlit(" DEFAULT ");
    reveal_strlit("COMMENT");
    let b = attributes_text(c.attributes);
    let a = c.attributes[0];
    assert(a.is_valid());
    match a {
        Attribute::Word { word, call } => {
            assert(b[1] == word[0]);
        },
        Attribute::NotNull => {
            assert(b[1] == ascii(" NOT NULL")[1]);
        },
        Attribute::Default(d) => {
            assert(b[1] == ascii(" DEFAULT ")[1]);
        },
        Attribute::Comment(content) => {
            assert(b[1] == ascii("COMMENT")[0]);
        },
    }
    lemma_attributes_start(c.attributes);
}

/// The default clause of a column reads back.
proof fn lemma_clause(c: ColumnText)
    requires
        c.is_valid(),
    ensures
        default_clause(c.definition(), c.width()) == Some(c.column().default),
{
    lemma_sought();
    let d = c.definition();
    let word = ascii("DEFAULT");
    let at = c.keyword.len() + arguments_text(c.arguments).len() as int;
    assert(holds_at(d, 0, d));
    lemma_type_is_quiet(d, word, word, 0, c);
    lemma_find_default(d, at, c.attributes, c.width());
}

/// The constraint of a column reads back.
proof fn lemma_constraint(c: ColumnText)
    requires
        c.is_valid(),
    ensures
        outer_word_from(c.text(), ascii("NOT NULL"), 0, 0) is None <==> c.column().nullable,
{
    lemma_sought();
    let t = c.text();
    let word = ascii("NOT NULL");
    let letters = ascii("NOT");
    let q = quoted_name(c.name);
    let d = c.definition();
    assert(holds_at(t, 0, q + (seq![0x20u8] + d)));
    lemma_holds_parts(t, 0, q, seq![0x20u8] + d);
    let n = q.len() as int;
    lemma_holds_parts(t, n, seq![0x20u8], d);
    // The name.
    assert(t[0] == BACKTICK);
    assert forall|k: int| 1 <= k < n - 1 implies #[trigger] t[k] != BACKTICK by {
        assert(t[k] == c.name[k - 1]);
    }
    lemma_name_passes(t, 1, n - 1);
    assert(t[n - 1] == BACKTICK);
    lemma_quiet_space(t, word, letters, n);
    assert(quoted_end(t, BACKTICK, 1) == n);
    assert(outer_word_from(t, word, 0, 0) == outer_word_from(t, word, n, 0));
    // The rest.
    let at = n + 1 + c.keyword.len() + arguments_text(c.arguments).len();
    lemma_type_is_quiet(t, word, letters, n + 1, c);
    lemma_find_not_null(t, at, c.attributes);
}

/// A column reads back: its name, base type, nullability, width and default are those that it spells
/// out, whatever other attributes and comments it has.
pub proof fn column_reads_back(c: ColumnText)
    requires
        c.is_valid(),
    ensures
        column_definition(c.text(), decode_utf8(c.name), seq![0x20u8] + c.definition()) == Some(
            c.column(),
        ),
{
    let d = c.definition();
    let after = seq![0x20u8] + d;
    lemma_type(c);
    lemma_bit_width(c);
    lemma_clause(c);
    lemma_constraint(c);
    assert(after.skip(1) =~= d);
    assert(trim_start(after) == d);
}

} // verus!
