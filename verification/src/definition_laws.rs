//! What the parts of a `CREATE TABLE` statement declare, in every spelling.

use vstd::prelude::*;
use vstd::utf8::decode_utf8;

use crate::balance::{is_part, lemma_parts_text};
use crate::bytes::{
    ascii, byte_index, eq_ci, equal_to, index_where, is_alphabetic, is_digit, is_quote, is_space,
    lemma_index_where, lemma_index_where_is, lemma_trim_end_prefix, lowercase, not_alphabetic,
    starts_ci, trim, trim_end, trim_start, BACKTICK, CLOSE_PAREN, COMMA, OPEN_PAREN,
};
use crate::create_text::has_no_paren;
use crate::ddl::{
    backtick, bit_width, column_definition, create_table, definitions, key_definition, key_part,
    key_parts, type_keyword, SchemaModel,
};
use crate::lexical::{holds_at, is_blank, lemma_trim_front, parts_text};
use crate::name_list::{is_plain_name, lemma_backtick, quoted_name};
use crate::sqlstream::{
    lemma_paren_close_bounds, lemma_quoted_end_bounds, matching_paren, paren_close, quoted_end,
    split, strip_comments,
};
use crate::sqltext::{decimal_text, decimal_text_reads_back};
use crate::text::{
    ascii_text, decimal, is_decimal, is_whitespace, lemma_ascii_decodes, parse_number, trim_text,
};

verus! {

/// Two bytes are the same letter in any case, or the same byte.
pub open spec fn is_same_letter(a: u8, b: u8) -> bool {
    ||| a == b
    ||| 0x41 <= a <= 0x5a && b == a + 0x20
    ||| 0x41 <= b <= 0x5a && a == b + 0x20
}

/// Texts are equal up to case exactly where they are so letter by letter.
pub proof fn case_is_ignored_letter_by_letter(a: Seq<u8>, b: Seq<u8>)
    ensures
        eq_ci(a, b) <==> a.len() == b.len() && forall|i: int|
            0 <= i < a.len() ==> is_same_letter(#[trigger] a[i], b[i]),
        starts_ci(a, b) <==> a.len() >= b.len() && forall|i: int|
            0 <= i < b.len() ==> is_same_letter(#[trigger] a[i], b[i]),
{
    assert forall|x: u8, y: u8| #[trigger] is_same_letter(x, y) == (lowercase(x) == lowercase(
        y,
    )) by {
    }
    if eq_ci(a, b) {
        assert forall|i: int| 0 <= i < a.len() implies is_same_letter(#[trigger] a[i], b[i]) by {
            assert(lowercase(a[i]) == lowercase(b[i]));
        }
    }
    if a.len() == b.len() && forall|i: int|
        0 <= i < a.len() ==> is_same_letter(#[trigger] a[i], b[i]) {
        assert forall|i: int| 0 <= i < a.len() implies lowercase(#[trigger] a[i]) == lowercase(
            b[i],
        ) by {
            assert(is_same_letter(a[i], b[i]));
        }
    }
    let n = b.len() as int;
    if starts_ci(a, b) {
        assert forall|i: int| 0 <= i < n implies is_same_letter(#[trigger] a[i], b[i]) by {
            assert(lowercase(a.take(n)[i]) == lowercase(b[i]));
        }
    }
    if a.len() >= n && forall|i: int| 0 <= i < n ==> is_same_letter(#[trigger] a[i], b[i]) {
        assert forall|i: int| 0 <= i < n implies lowercase(#[trigger] a.take(n)[i]) == lowercase(
            b[i],
        ) by {
            assert(is_same_letter(a[i], b[i]));
        }
    }
}

/// A part of a key.
pub enum KeyPart {
    /// A column, perhaps with a length or a direction behind it.
    Column { lead: Seq<u8>, name: Seq<u8>, suffix: Seq<u8> },
    /// An expression.
    Expression(Seq<u8>),
}

impl KeyPart {
    /// The text of the part.
    pub open spec fn text(self) -> Seq<u8> {
        match self {
            KeyPart::Column { lead, name, suffix } => lead + (quoted_name(name) + suffix),
            KeyPart::Expression(text) => text,
        }
    }

    /// The part can be spelled that way.
    pub open spec fn is_valid(self) -> bool {
        &&& is_part(self.text())
        &&& match self {
            KeyPart::Column { lead, name, .. } => is_blank(lead) && is_plain_name(name),
            KeyPart::Expression(text) => trim(text).len() > 0 ==> trim(text)[0] != BACKTICK,
        }
    }

    /// The column that it names, if it does.
    pub open spec fn column(self) -> Seq<Seq<char>> {
        match self {
            KeyPart::Column { name, .. } => seq![decode_utf8(name)],
            KeyPart::Expression(_) => Seq::empty(),
        }
    }
}

/// The texts of key parts.
pub open spec fn part_texts(parts: Seq<KeyPart>) -> Seq<Seq<u8>> {
    parts.map_values(|part: KeyPart| part.text())
}

/// The columns that key parts name, in order.
pub open spec fn named_columns(parts: Seq<KeyPart>) -> Seq<Seq<char>>
    decreases parts.len(),
{
    if parts.len() == 0 {
        Seq::empty()
    } else {
        named_columns(parts.drop_last()) + parts.last().column()
    }
}

/// Trailing whitespace ends behind the last byte that is none.
proof fn lemma_trim_end_keeps(s: Seq<u8>, p: int)
    requires
        0 <= p < s.len(),
        !is_space(s[p]),
    ensures
        trim_end(s).len() > p,
    decreases s.len(),
{
    if is_space(s.last()) {
        lemma_trim_end_keeps(s.drop_last(), p);
    }
}

/// A key part names its column.
proof fn lemma_key_part(part: KeyPart)
    requires
        part.is_valid(),
    ensures
        key_part(part.text()) == part.column(),
{
    if let KeyPart::Column { lead, name, suffix } = part {
        let q = quoted_name(name);
        let rest = q + suffix;
        lemma_trim_front(lead, rest);
        assert(rest[0] == q[0]);
        assert(trim_start(rest) == rest);
        let t = trim_end(rest);
        lemma_trim_end_prefix(rest);
        assert(rest[q.len() - 1] == BACKTICK);
        lemma_trim_end_keeps(rest, q.len() - 1);
        let more = t.skip(q.len() as int);
        assert(t =~= q + more);
        lemma_backtick(name, more);
        assert(trim(part.text()) == t);
    }
}

/// Key parts name their columns.
proof fn lemma_key_parts(parts: Seq<KeyPart>)
    requires
        forall|k: int| 0 <= k < parts.len() ==> (#[trigger] parts[k]).is_valid(),
    ensures
        key_parts(part_texts(parts)) == named_columns(parts),
    decreases parts.len(),
{
    if parts.len() > 0 {
        let less = parts.drop_last();
        assert forall|k: int| 0 <= k < less.len() implies (#[trigger] less[k]).is_valid() by {
            assert(less[k] == parts[k]);
        }
        lemma_key_parts(less);
        assert(part_texts(parts).drop_last() =~= part_texts(less));
        assert(parts[parts.len() - 1].is_valid());
        lemma_key_part(parts.last());
    }
}

/// A key lists the columns that its parts name, in order, whatever lengths and directions stand behind
/// them; expressions name none. What stands in front of the list, and what follows its closing
/// parenthesis (such as the type of the index or a comment), changes nothing.
pub proof fn keys_list_the_columns_of_their_parts(
    head: Seq<u8>,
    parts: Seq<KeyPart>,
    tail: Seq<u8>,
)
    requires
        has_no_paren(head),
        parts.len() > 0,
        forall|k: int| 0 <= k < parts.len() ==> (#[trigger] parts[k]).is_valid(),
    ensures
        key_definition(
            head + (seq![OPEN_PAREN] + parts_text(part_texts(parts), COMMA) + seq![CLOSE_PAREN])
                + tail,
        ) == Some(named_columns(parts)),
{
    let texts = part_texts(parts);
    let inner = parts_text(texts, COMMA);
    let list = seq![OPEN_PAREN] + inner + seq![CLOSE_PAREN];
    let t = head + list + tail;
    let open = head.len() as int;
    let close = open + 1 + inner.len();
    assert forall|j: int| 0 <= j < open implies !equal_to(OPEN_PAREN)(#[trigger] t[j]) by {
        assert(t[j] == head[j]);
    }
    assert(t[open] == OPEN_PAREN);
    lemma_index_where_is(t, 0, equal_to(OPEN_PAREN), open);
    assert forall|k: int| 0 <= k < texts.len() implies is_part(#[trigger] texts[k]) by {
        assert(parts[k].is_valid());
    }
    assert(holds_at(t, open + 1, inner)) by {
        assert forall|k: int| 0 <= k < inner.len() implies t[open + 1 + k] == #[trigger] inner[k] by {
            assert(t[open + 1 + k] == list[1 + k]);
        }
    }
    assert(t[close] == list[1 + inner.len() as int]);
    lemma_parts_text(t, open + 1, texts);
    assert(matching_paren(t, open) == Some(close));
    assert(t.subrange(open + 1, close) =~= inner);
    lemma_parts_text(inner, 0, texts);
    lemma_key_parts(parts);
}

/// Items declare one after the other. A primary key, in letters of any case, replaces an earlier one; a
/// unique key or a unique index is added to the others; a column is added to the columns. No item
/// changes what the others declared.
pub proof fn items_declare_what_they_start_with(items: Seq<Seq<u8>>, item: Seq<u8>)
    requires
        definitions(items) is Some,
        trim(item).len() > 0,
    ensures
        ({
            let t = trim(item);
            let before = definitions(items)->0;
            let after = definitions(items.push(item));
            &&& t[0] != BACKTICK && starts_ci(t, ascii("PRIMARY KEY")) ==> match key_definition(t) {
                Some(names) => after matches Some(d) && d.primary_key == names && d.columns
                    == before.columns && d.unique_keys == before.unique_keys,
                None => after is None,
            }
            &&& t[0] != BACKTICK && (starts_ci(t, ascii("UNIQUE KEY")) || starts_ci(
                t,
                ascii("UNIQUE INDEX"),
            )) ==> match key_definition(t) {
                Some(names) => after matches Some(d) && d.primary_key == before.primary_key
                    && d.columns == before.columns && d.unique_keys == before.unique_keys.push(
                    names,
                ),
                None => after is None,
            }
            &&& t[0] == BACKTICK ==> match backtick(t) {
                Some((name, rest)) => match column_definition(t, name, rest) {
                    Some(c) => after matches Some(d) && c.name == name && d.columns
                        == before.columns.push(c) && d.primary_key == before.primary_key
                        && d.unique_keys == before.unique_keys,
                    None => after is None,
                },
                None => after == Some(before),
            }
        }),
{
    reveal_strlit("PRIMARY KEY");
    reveal_strlit("UNIQUE KEY");
    reveal_strlit("UNIQUE INDEX");
    let t = trim(item);
    assert(items.push(item).drop_last() =~= items);
    case_is_ignored_letter_by_letter(t, ascii("PRIMARY KEY"));
    case_is_ignored_letter_by_letter(t, ascii("UNIQUE KEY"));
    case_is_ignored_letter_by_letter(t, ascii("UNIQUE INDEX"));
    if starts_ci(t, ascii("PRIMARY KEY")) {
        assert(is_same_letter(t[0], ascii("PRIMARY KEY")[0]));
    }
    if starts_ci(t, ascii("UNIQUE KEY")) {
        assert(is_same_letter(t[0], ascii("UNIQUE KEY")[0]));
    }
    if starts_ci(t, ascii("UNIQUE INDEX")) {
        assert(is_same_letter(t[0], ascii("UNIQUE INDEX")[0]));
    }
}

/// The type of a column is the letters that follow its name, past whitespace, in lowercase. Only a `bit`
/// column has a width.
pub proof fn columns_have_the_type_behind_their_name(
    item: Seq<u8>,
    name: Seq<char>,
    gap: Seq<u8>,
    word: Seq<u8>,
    rest: Seq<u8>,
    i: int,
)
    requires
        is_blank(gap),
        word.len() > 0,
        forall|k: int| 0 <= k < word.len() ==> is_alphabetic(#[trigger] word[k]),
        rest.len() > 0 ==> !is_alphabetic(rest[0]),
        0 <= i < word.len(),
    ensures
        column_definition(item, name, gap + (word + rest)) matches Some(c) ==> {
            &&& c.name == name
            &&& c.data_type.len() == word.len()
            &&& c.data_type[i] == (if word[i] <= 0x5a {
                word[i] + 0x20
            } else {
                word[i] as int
            }) as u8 as char
            &&& c.bit_width is Some <==> word.len() == 3 && is_same_letter(word[0], 0x62)
                && is_same_letter(word[1], 0x69) && is_same_letter(word[2], 0x74)
            &&& c.bit_width matches Some(w) ==> w == bit_width(rest)
        },
{
    reveal_strlit("bit");
    let s = word + rest;
    lemma_trim_front(gap, s);
    assert(s[0] == word[0]);
    assert(is_alphabetic(word[0]));
    assert(trim_start(s) == s);
    let n = word.len() as int;
    assert forall|j: int| 0 <= j < n implies !not_alphabetic()(#[trigger] s[j]) by {
        assert(s[j] == word[j]);
        assert(is_alphabetic(word[j]));
    }
    if n < s.len() {
        assert(s[n] == rest[0]);
    }
    lemma_index_where_is(s, 0, not_alphabetic(), n);
    assert(s.take(n) =~= word);
    assert(s.skip(n) =~= rest);
    let t = type_keyword(s);
    assert(t.len() == n);
    assert forall|k: int| 0 <= k < n implies t[k] == #[trigger] lowercase(word[k]) as char by {
    }
    assert(is_alphabetic(word[i]));
    if n == 3 {
        assert(is_alphabetic(word[0]) && is_alphabetic(word[1]) && is_alphabetic(word[2]));
        assert(t[0] == lowercase(word[0]) as char);
        assert(t[1] == lowercase(word[1]) as char);
        assert(t[2] == lowercase(word[2]) as char);
        if is_same_letter(word[0], 0x62) && is_same_letter(word[1], 0x69) && is_same_letter(
            word[2],
            0x74,
        ) {
            assert(t =~= "bit"@);
        }
        if t == "bit"@ {
            assert("bit"@[0] == 'b' && "bit"@[1] == 'i' && "bit"@[2] == 't');
        }
    }
}

/// A number in decimal, as bytes.
pub open spec fn decimal_bytes(n: nat) -> Seq<u8> {
    decimal_text(n).map_values(|c: char| c as u8)
}

/// The width of a `bit` column is the number in the parentheses behind it, whatever follows them, and
/// one where there are no parentheses.
pub proof fn bit_widths_are_the_number_in_parentheses(gap: Seq<u8>, n: u32, tail: Seq<u8>)
    requires
        is_blank(gap),
    ensures
        bit_width(
            gap + (seq![OPEN_PAREN] + decimal_bytes(n as nat) + seq![CLOSE_PAREN] + tail),
        ) == n,
        trim_start(tail).len() == 0 || trim_start(tail)[0] != OPEN_PAREN ==> bit_width(tail) == 1,
{
    let d = decimal_text(n as nat);
    let b = decimal_bytes(n as nat);
    decimal_text_reads_back(n as nat);
    let t = seq![OPEN_PAREN] + b + seq![CLOSE_PAREN] + tail;
    lemma_trim_front(gap, t);
    assert(t[0] == OPEN_PAREN);
    assert(trim_start(t) == t);
    let close = 1 + b.len() as int;
    assert forall|j: int| 0 <= j < b.len() implies is_digit(#[trigger] b[j]) by {
        assert('0' <= d[j] <= '9');
    }
    assert forall|j: int| 0 <= j < close implies !equal_to(CLOSE_PAREN)(#[trigger] t[j]) by {
        if j > 0 {
            assert(t[j] == b[j - 1]);
            assert(is_digit(b[j - 1]));
        }
    }
    assert(t[close] == CLOSE_PAREN);
    lemma_index_where_is(t, 0, equal_to(CLOSE_PAREN), close);
    assert(t.subrange(1, close) =~= b);
    lemma_ascii_decodes(b);
    assert(ascii_text(b) =~= d) by {
        assert forall|j: int| 0 <= j < d.len() implies ascii_text(b)[j] == d[j] by {
            assert('0' <= d[j] <= '9');
        }
    }
    lemma_decimal_not_empty(n as nat);
    assert('0' <= d[0] <= '9');
    assert('0' <= d[d.len() - 1] <= '9');
    assert(trim_text(d) == d);
    assert(parse_number(d) == Some(n));
}

/// Spaces around the number do not count, nor do zeros in front of it. A number that takes more than 32 bits
/// is none, and stands for one.
pub proof fn bit_widths_may_be_padded(m: nat, digits: Seq<u8>, n: nat, tail: Seq<u8>)
    requires
        digits.len() > 0,
        forall|k: int| 0 <= k < digits.len() ==> 0x30 <= #[trigger] digits[k] <= 0x39,
    ensures
        ({
            let inner = Seq::new(m, |k: int| 0x20u8) + digits + Seq::new(n, |k: int| 0x20u8);
            let text = seq![OPEN_PAREN] + inner + seq![CLOSE_PAREN] + tail;
            &&& decimal(ascii_text(digits)) <= u32::MAX ==> bit_width(text) == decimal(
                ascii_text(digits),
            )
            &&& decimal(ascii_text(digits)) > u32::MAX ==> bit_width(text) == 1
        }),
{
    let before = Seq::new(m, |k: int| 0x20u8);
    let behind = Seq::new(n, |k: int| 0x20u8);
    let inner = before + digits + behind;
    let t = seq![OPEN_PAREN] + inner + seq![CLOSE_PAREN] + tail;
    let close = 1 + inner.len() as int;
    assert forall|k: int| 0 <= k < inner.len() implies #[trigger] inner[k] == 0x20 || 0x30 <= inner[k]
        <= 0x39 by {
        if m <= k < m + digits.len() {
            assert(inner[k] == digits[k - m]);
        }
    }
    assert(t[0] == OPEN_PAREN);
    assert(trim_start(t) == t);
    assert forall|j: int| 0 <= j < close implies !equal_to(CLOSE_PAREN)(#[trigger] t[j]) by {
        if j > 0 {
            assert(t[j] == inner[j - 1]);
        }
    }
    assert(t[close] == CLOSE_PAREN);
    lemma_index_where_is(t, 0, equal_to(CLOSE_PAREN), close);
    assert(t.subrange(1, close) =~= inner);
    lemma_ascii_decodes(inner);
    let d = ascii_text(digits);
    lemma_spaces_trimmed(m, d, n);
    assert(ascii_text(inner) =~= Seq::new(m, |k: int| ' ') + d + Seq::new(n, |k: int| ' '));
    assert forall|k: int| 0 <= k < d.len() implies '0' <= #[trigger] d[k] <= '9' by {
        assert(0x30 <= digits[k] <= 0x39);
    }
    assert('0' <= d[0] <= '9');
}

/// Spaces are taken off at both ends.
proof fn lemma_spaces_trimmed(m: nat, text: Seq<char>, n: nat)
    requires
        text.len() > 0,
        !is_whitespace(text[0]),
        !is_whitespace(text.last()),
    ensures
        trim_text(Seq::new(m, |k: int| ' ') + text + Seq::new(n, |k: int| ' ')) == text,
    decreases m + n,
{
    let s = Seq::new(m, |k: int| ' ') + text + Seq::new(n, |k: int| ' ');
    if m > 0 {
        assert(s[0] == ' ');
        assert(s.skip(1) =~= Seq::new((m - 1) as nat, |k: int| ' ') + text + Seq::new(
            n,
            |k: int| ' ',
        ));
        lemma_spaces_trimmed((m - 1) as nat, text, n);
    } else if n > 0 {
        assert(s[0] == text[0]);
        assert(s.last() == ' ');
        assert(s.drop_last() =~= Seq::new(m, |k: int| ' ') + text + Seq::new(
            (n - 1) as nat,
            |k: int| ' ',
        ));
        lemma_spaces_trimmed(m, text, (n - 1) as nat);
    } else {
        assert(s =~= text);
    }
}

/// A number has a digit.
proof fn lemma_decimal_not_empty(n: nat)
    ensures
        decimal_text(n).len() > 0,
{
}

/// A number is spelled by digits alone, with or without a plus sign in front, and has to fit into 32 bits.
pub proof fn numbers_are_digits_with_or_without_a_sign(digits: Seq<char>, k: int)
    ensures
        is_decimal(digits) && digits.len() > 0 && decimal(digits) <= u32::MAX ==> parse_number(digits)
            == Some(decimal(digits) as u32) && parse_number(seq!['+'] + digits) == Some(
            decimal(digits) as u32,
        ),
        is_decimal(digits) && decimal(digits) > u32::MAX ==> parse_number(digits) is None
            && parse_number(seq!['+'] + digits) is None,
        0 <= k < digits.len() && !('0' <= digits[k] <= '9') && !(k == 0 && digits[k] == '+')
            ==> parse_number(digits) is None,
        parse_number(Seq::empty()) is None,
        parse_number(seq!['+']) is None,
{
    let signed = seq!['+'] + digits;
    assert(signed.skip(1) =~= digits);
    if is_decimal(digits) && digits.len() > 0 {
        assert('0' <= digits[0] <= '9');
    }
    if 0 <= k < digits.len() && k > 0 {
        assert(digits.skip(1)[k - 1] == digits[k]);
    }
    assert(seq!['+'].skip(1) =~= Seq::<char>::empty());
}

/// A key definition without parentheses lists no column, and one whose parenthesis nothing closes is
/// malformed.
pub proof fn keys_need_both_parentheses(def: Seq<u8>)
    ensures
        !def.contains(OPEN_PAREN) ==> key_definition(def) == Some(Seq::<Seq<char>>::empty()),
        def.contains(OPEN_PAREN) && !def.contains(CLOSE_PAREN) ==> key_definition(def) is None,
{
    lemma_index_where(def, 0, equal_to(OPEN_PAREN));
    let open = index_where(def, 0, equal_to(OPEN_PAREN));
    if open < def.len() {
        assert(def[open] == OPEN_PAREN);
        lemma_paren_close_bounds(def, open + 1, 1);
        if let Some(close) = matching_paren(def, open) {
            assert(def[close] == CLOSE_PAREN);
        }
    } else if def.contains(OPEN_PAREN) {
        let k = choose|k: int| 0 <= k < def.len() && def[k] == OPEN_PAREN;
        assert(!equal_to(OPEN_PAREN)(def[k]));
    }
}

/// Decimal digits denote a number digit by digit.
pub proof fn decimal_digits_have_their_weight(digits: Seq<char>, c: char)
    requires
        '0' <= c <= '9',
    ensures
        decimal(Seq::empty()) == 0,
        decimal(digits.push(c)) == 10 * decimal(digits) + (c as int - 0x30),
{
    assert(digits.push(c).drop_last() =~= digits);
}

/// The end of a quoted span in a suffix.
proof fn lemma_quoted_end_suffix(a: Seq<u8>, at: int, quote: u8, i: int)
    requires
        0 <= at <= a.len(),
        0 <= i,
    ensures
        quoted_end(a, quote, at + i) == at + quoted_end(a.skip(at), quote, i),
    decreases a.len() + 1 - at - i,
{
    let s = a.skip(at);
    if i < s.len() {
        assert(s[i] == a[at + i]);
        if i + 1 < s.len() {
            assert(s[i + 1] == a[at + i + 1]);
        }
        lemma_quoted_end_suffix(a, at, quote, i + 1);
        lemma_quoted_end_suffix(a, at, quote, i + 2);
    }
}

/// The closing parenthesis in a suffix.
proof fn lemma_paren_close_suffix(a: Seq<u8>, at: int, i: int, depth: int)
    requires
        0 <= at <= a.len(),
        0 <= i <= a.len() - at,
    ensures
        paren_close(a, at + i, depth) == match paren_close(a.skip(at), i, depth) {
            Some(p) => Some(at + p),
            None => None,
        },
    decreases a.len() - at - i,
{
    let s = a.skip(at);
    if i < s.len() {
        assert(s[i] == a[at + i]);
        if is_quote(s[i]) {
            lemma_quoted_end_suffix(a, at, s[i], i + 1);
            lemma_quoted_end_bounds(s, s[i], i + 1);
            lemma_paren_close_suffix(a, at, quoted_end(s, s[i], i + 1), depth);
        } else {
            lemma_paren_close_suffix(a, at, i + 1, depth);
            lemma_paren_close_suffix(a, at, i + 1, depth + 1);
            lemma_paren_close_suffix(a, at, i + 1, depth - 1);
        }
    }
}

/// The first match in a suffix.
proof fn lemma_index_suffix(a: Seq<u8>, at: int, i: int, p: spec_fn(u8) -> bool)
    requires
        0 <= at <= a.len(),
        0 <= i <= a.len() - at,
    ensures
        index_where(a, at + i, p) == at + index_where(a.skip(at), i, p),
    decreases a.len() - at - i,
{
    if i < a.len() - at {
        assert(a.skip(at)[i] == a[at + i]);
        lemma_index_suffix(a, at, i + 1, p);
    }
}

/// What a statement declares is read from the first backtick on: the words in front of the name, such as
/// `CREATE TABLE IF NOT EXISTS` in letters of any case, only have to start with `CREATE TABLE`.
pub proof fn words_before_the_name_do_not_matter(
    a: Seq<u8>,
    b: Seq<u8>,
    lead_a: Seq<u8>,
    lead_b: Seq<u8>,
    rest: Seq<u8>,
)
    requires
        a.len() == 12,
        b.len() == 12,
        starts_ci(a, ascii("CREATE TABLE")),
        starts_ci(b, ascii("CREATE TABLE")),
        forall|k: int| 0 <= k < lead_a.len() ==> #[trigger] lead_a[k] != BACKTICK,
        forall|k: int| 0 <= k < lead_b.len() ==> #[trigger] lead_b[k] != BACKTICK,
    ensures
        ({
            let x = create_table(a + (lead_a + (seq![BACKTICK] + rest)));
            let y = create_table(b + (lead_b + (seq![BACKTICK] + rest)));
            &&& x is Some <==> y is Some
            &&& x is Some ==> x->0.name == y->0.name && x->0.columns == y->0.columns
                && x->0.primary_key == y->0.primary_key && x->0.unique_keys == y->0.unique_keys
        }),
{
    lemma_read_from_the_name(a, lead_a, rest);
    lemma_read_from_the_name(b, lead_b, rest);
}

/// The name and the items that follow a backtick.
spec fn read_from_the_name(rest: Seq<u8>) -> Option<SchemaModel> {
    let s = seq![BACKTICK] + rest;
    match (backtick(s), byte_index(s, 0, OPEN_PAREN)) {
        (Some((name, _)), Some(open)) => match matching_paren(s, open) {
            None => None,
            Some(close) => match definitions(split(s.subrange(open + 1, close), COMMA)) {
                None => None,
                Some(defs) => Some(
                    SchemaModel {
                        name,
                        columns: defs.columns,
                        primary_key: defs.primary_key,
                        unique_keys: defs.unique_keys,
                        raw_statement: Seq::empty(),
                    },
                ),
            },
        },
        _ => None,
    }
}

/// A statement is read from its name on.
proof fn lemma_read_from_the_name(word: Seq<u8>, lead: Seq<u8>, rest: Seq<u8>)
    requires
        word.len() == 12,
        starts_ci(word, ascii("CREATE TABLE")),
        forall|k: int| 0 <= k < lead.len() ==> #[trigger] lead[k] != BACKTICK,
    ensures
        ({
            let x = create_table(word + (lead + (seq![BACKTICK] + rest)));
            let y = read_from_the_name(rest);
            &&& x is Some <==> y is Some
            &&& x is Some ==> x->0.name == y->0.name && x->0.columns == y->0.columns
                && x->0.primary_key == y->0.primary_key && x->0.unique_keys == y->0.unique_keys
        }),
{
    let s = seq![BACKTICK] + rest;
    let after = lead + s;
    let all = word + after;
    let at = lead.len() as int;
    lemma_words_read(word, after);
    assert forall|j: int| 0 <= j < at implies !equal_to(BACKTICK)(#[trigger] after[j]) by {
        assert(after[j] == lead[j]);
    }
    assert(after[at] == s[0]);
    lemma_index_where_is(after, 0, equal_to(BACKTICK), at);
    assert(after.skip(at) =~= s);
    lemma_index_suffix(after, at, 0, equal_to(OPEN_PAREN));
    lemma_index_where(s, 0, equal_to(OPEN_PAREN));
    if let Some(open) = byte_index(s, 0, OPEN_PAREN) {
        lemma_paren_close_suffix(after, at, open + 1, 1);
        lemma_paren_close_bounds(s, open + 1, 1);
        if let Some(close) = matching_paren(s, open) {
            assert(after.subrange(at + open + 1, at + close) =~= s.subrange(open + 1, close));
        }
    }
}

/// The words that a statement starts with.
proof fn lemma_words_read(word: Seq<u8>, after: Seq<u8>)
    requires
        word.len() == 12,
        starts_ci(word, ascii("CREATE TABLE")),
    ensures
        strip_comments(word + after) == word + after,
        starts_ci(word + after, ascii("CREATE TABLE")),
        ascii("CREATE TABLE").len() == 12,
        (word + after).skip(12) == after,
{
    reveal_strlit("CREATE TABLE");
    let words = ascii("CREATE TABLE");
    let all = word + after;
    assert(word.take(12) =~= word);
    assert(all.take(12) =~= word);
    assert(all.skip(12) =~= after);
    assert(lowercase(word[0]) == lowercase(words[0]));
    assert(all[0] == word[0]);
    assert(trim_start(all) == all);
}

/// Comments in front of a statement do not matter: statements that are alike without them declare the
/// same. What is kept to create the table again is the statement without them.
pub proof fn comments_before_a_statement_do_not_matter(a: Seq<u8>, b: Seq<u8>)
    requires
        strip_comments(a) == strip_comments(b),
    ensures
        create_table(a) == create_table(b),
        create_table(a) matches Some(schema) ==> schema.raw_statement == strip_comments(a),
{
}

} // verus!
