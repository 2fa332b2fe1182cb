//! A whole `CREATE TABLE` statement reads back.

use vstd::prelude::*;
use vstd::utf8::decode_utf8;

use crate::balance::{is_part, lemma_part_passes};
use crate::bytes::{
    ascii, equal_to, index_where, is_alphabetic, is_alphanumeric, is_digit, is_quote, is_space,
    lemma_index_where_is, lowercase, starts_ci, trim, trim_end, trim_start, BACKTICK, CLOSE_PAREN,
    COMMA, OPEN_PAREN, SINGLE_QUOTE,
};
use crate::ddl::{
    add_item, create_table, definitions, key_definition, key_part, key_parts, Definitions,
    SchemaModel,
};
use crate::definition_laws::{
    keys_list_the_columns_of_their_parts, named_columns, part_texts, KeyPart,
};
use crate::lexical::{holds_at, is_blank, lemma_holds_parts, lemma_trim_front, parts_text};
use crate::name_list::{
    are_plain_names, decoded, is_plain_name, key_list, lemma_backtick, lemma_blank_passes,
    lemma_key_list, lemma_name_is_passed, lemma_parens_pass, lemma_part_is_name, lemma_plain_passes,
    lemma_plain_passes_inside, name_parts, passes, passes_inside, quoted_name,
};
use crate::readback::{lemma_literal_is_not_cut, row_text, Literal};
use crate::schema_laws::is_irrelevant;
use crate::sqlstream::{matching_paren, paren_close, split, split_from, strip_comments};
use crate::table_text::{
    are_arguments, are_valid_attributes, arguments_text, attributes_text, call_text,
    column_reads_back, is_argument, is_call, is_plain_word, lemma_attributes_start,
    lemma_default_starts, lemma_other_start, Attribute, ColumnText, DefaultText,
};

verus! {

/// The parts of a list of names are its names.
proof fn lemma_key_parts(sep: Seq<u8>, names: Seq<Seq<u8>>)
    requires
        is_blank(sep),
        are_plain_names(names),
    ensures
        key_parts(name_parts(Seq::empty(), sep, names)) == decoded(names),
    decreases names.len(),
{
    let parts = name_parts(Seq::empty(), sep, names);
    if names.len() == 0 {
        assert(decoded(names) =~= Seq::empty());
    } else {
        let ahead = names.drop_last();
        assert forall|k: int| 0 <= k < ahead.len() implies is_plain_name(#[trigger] ahead[k]) by {
            assert(ahead[k] == names[k]);
        }
        lemma_key_parts(sep, ahead);
        assert(parts.drop_last() =~= name_parts(Seq::empty(), sep, ahead));
        let name = names.last();
        assert(names[names.len() - 1] == name);
        let lead = if names.len() == 1 {
            Seq::<u8>::empty()
        } else {
            sep
        };
        let q = quoted_name(name);
        assert(parts.last() == lead + q);
        lemma_part_is_name(lead, name);
        lemma_backtick(name, Seq::empty());
        assert(q + Seq::<u8>::empty() =~= q);
        assert(key_part(parts.last()) =~= seq![decode_utf8(name)]);
        assert(decoded(names) =~= decoded(ahead) + seq![decode_utf8(name)]);
    }
}

/// The text in front of a key's columns: it holds no opening parenthesis.
pub open spec fn has_no_paren(s: Seq<u8>) -> bool {
    forall|k: int| 0 <= k < s.len() ==> #[trigger] s[k] != OPEN_PAREN
}

/// The columns of a key read back.
proof fn lemma_key_definition(head: Seq<u8>, sep: Seq<u8>, names: Seq<Seq<u8>>)
    requires
        has_no_paren(head),
        is_blank(sep),
        names.len() > 0,
        are_plain_names(names),
    ensures
        key_definition(head + key_list(sep, names)) == Some(decoded(names)),
{
    let t = head + key_list(sep, names);
    let open = head.len() as int;
    assert forall|j: int| 0 <= j < open implies !equal_to(OPEN_PAREN)(#[trigger] t[j]) by {
        assert(t[j] == head[j]);
    }
    assert(t[open] == key_list(sep, names)[0]);
    lemma_index_where_is(t, 0, equal_to(OPEN_PAREN), open);
    assert(holds_at(t, open, key_list(sep, names)));
    lemma_key_list(t, open, sep, names);
    lemma_key_parts(sep, names);
}

/// A list of key columns: their names, and the whitespace behind the commas.
pub struct KeyColumns {
    pub sep: Seq<u8>,
    pub names: Seq<Seq<u8>>,
}

impl KeyColumns {
    /// The text of the list.
    pub open spec fn text(self) -> Seq<u8> {
        key_list(self.sep, self.names)
    }

    /// The list can be spelled that way.
    pub open spec fn is_valid(self) -> bool {
        &&& is_blank(self.sep)
        &&& self.names.len() > 0
        &&& are_plain_names(self.names)
    }
}

/// An item of a `CREATE TABLE` statement.
pub enum TableItem {
    Column(ColumnText),
    /// The columns of the primary key.
    Primary(KeyColumns),
    /// The name and the columns of a unique key.
    Unique(Seq<u8>, KeyColumns),
    /// A primary or unique key in any spelling: what stands in front of its columns, their parts with
    /// lengths and directions, and what follows them, such as the type of the index.
    Key { unique: bool, head: Seq<u8>, parts: Seq<KeyPart>, tail: Seq<u8> },
    /// An item that declares neither a column nor a primary or unique key: a plain index, a foreign
    /// key, a check.
    Other(Seq<u8>),
}

/// The text of a unique key in front of its columns.
pub open spec fn unique_head(index: Seq<u8>) -> Seq<u8> {
    ascii("UNIQUE KEY ") + quoted_name(index) + seq![0x20u8]
}

impl TableItem {
    /// The text of the item.
    pub open spec fn text(self) -> Seq<u8> {
        match self {
            TableItem::Column(c) => c.text(),
            TableItem::Primary(columns) => ascii("PRIMARY KEY ") + columns.text(),
            TableItem::Unique(index, columns) => unique_head(index) + columns.text(),
            TableItem::Key { head, parts, tail, .. } => head + (seq![OPEN_PAREN] + parts_text(
                part_texts(parts),
                COMMA,
            ) + seq![CLOSE_PAREN]) + tail,
            TableItem::Other(text) => text,
        }
    }

    /// The item can be spelled that way. The name of a unique key holds no opening parenthesis, which
    /// would be taken for that of its columns.
    pub open spec fn is_valid(self) -> bool {
        match self {
            TableItem::Column(c) => c.is_valid(),
            TableItem::Primary(columns) => columns.is_valid(),
            TableItem::Unique(index, columns) => {
                &&& is_plain_name(index)
                &&& has_no_paren(index)
                &&& columns.is_valid()
            },
            TableItem::Key { unique, head, parts, tail } => {
                &&& has_no_paren(head)
                &&& parts.len() > 0
                &&& forall|k: int| 0 <= k < parts.len() ==> (#[trigger] parts[k]).is_valid()
                &&& is_part(self.text())
                &&& !is_space(self.text().last())
                &&& if unique {
                    starts_ci(head, ascii("UNIQUE KEY")) || starts_ci(head, ascii("UNIQUE INDEX"))
                } else {
                    starts_ci(head, ascii("PRIMARY KEY"))
                }
            },
            TableItem::Other(text) => {
                &&& text.len() > 0
                &&& !is_space(text[0])
                &&& !is_space(text.last())
                &&& is_part(text)
                &&& is_irrelevant(text)
            },
        }
    }

    /// The definitions with those of the item.
    pub open spec fn added_to(self, defs: Definitions) -> Definitions {
        match self {
            TableItem::Column(c) => Definitions { columns: defs.columns.push(c.column()), ..defs },
            TableItem::Primary(columns) => Definitions {
                primary_key: decoded(columns.names),
                ..defs
            },
            TableItem::Unique(_, columns) => Definitions {
                unique_keys: defs.unique_keys.push(decoded(columns.names)),
                ..defs
            },
            TableItem::Key { unique, parts, .. } => if unique {
                Definitions {
                    unique_keys: defs.unique_keys.push(named_columns(parts)),
                    ..defs
                }
            } else {
                Definitions { primary_key: named_columns(parts), ..defs }
            },
            TableItem::Other(_) => defs,
        }
    }
}

/// A unique key is passed over.
proof fn lemma_unique_passes(data: Seq<u8>, i: int, index: Seq<u8>, columns: KeyColumns)
    requires
        is_plain_name(index),
        columns.is_valid(),
        holds_at(data, i, unique_head(index) + columns.text()),
    ensures
        passes(data, i, i + (unique_head(index) + columns.text()).len()),
{
    reveal_strlit("UNIQUE KEY ");
    let word = ascii("UNIQUE KEY ");
    let head = unique_head(index);
    let q = quoted_name(index);
    lemma_holds_parts(data, i, head, columns.text());
    lemma_holds_parts(data, i, word + q, seq![0x20u8]);
    lemma_holds_parts(data, i, word, q);
    let at_name = i + word.len();
    let at_space = at_name + q.len();
    lemma_word_passes(data, i, word);
    assert(data[at_space + 0] == seq![0x20u8][0]);
    assert(q.len() == index.len() + 2);
    lemma_name_is_passed(data, at_name, index);
    lemma_plain_passes(data, at_space, at_space + 1);
    lemma_key_list(data, at_space + 1, columns.sep, columns.names);
}

/// Text without quotes, parentheses and commas is passed over.
proof fn lemma_word_passes(data: Seq<u8>, i: int, s: Seq<u8>)
    requires
        holds_at(data, i, s),
        forall|k: int|
            0 <= k < s.len() ==> !is_quote(#[trigger] s[k]) && s[k] != OPEN_PAREN && s[k]
                != CLOSE_PAREN && s[k] != COMMA,
    ensures
        passes(data, i, i + s.len()),
{
    assert forall|k: int| i <= k < i + s.len() implies !is_quote(#[trigger] data[k]) && data[k]
        != OPEN_PAREN && data[k] != CLOSE_PAREN && data[k] != COMMA by {
        assert(data[i + (k - i)] == s[k - i]);
    }
    lemma_plain_passes(data, i, i + s.len());
}

/// A column's text is passed over.
proof fn lemma_column_passes(data: Seq<u8>, i: int, c: ColumnText)
    requires
        c.is_valid(),
        holds_at(data, i, c.text()),
        i + c.text().len() < data.len() ==> !is_quote(data[i + c.text().len()]),
    ensures
        passes(data, i, i + c.text().len()),
{
    let q = quoted_name(c.name);
    let d = c.definition();
    let at = i + q.len() + 1;
    assert(c.text() =~= q + seq![0x20u8] + d);
    lemma_holds_parts(data, i, q + seq![0x20u8], d);
    lemma_holds_parts(data, i, q, seq![0x20u8]);
    assert(data[at - 1 + 0] == seq![0x20u8][0]);
    assert(q.len() == c.name.len() + 2);
    lemma_name_is_passed(data, i, c.name);
    lemma_plain_passes(data, at - 1, at);
    lemma_definition_passes(data, at, c);
}

/// What follows a column's name is passed over.
proof fn lemma_definition_passes(data: Seq<u8>, i: int, c: ColumnText)
    requires
        c.is_valid(),
        holds_at(data, i, c.definition()),
        i + c.definition().len() < data.len() ==> !is_quote(data[i + c.definition().len()]),
    ensures
        passes(data, i, i + c.definition().len()),
{
    let a = arguments_text(c.arguments);
    let b = attributes_text(c.attributes);
    let at = i + c.keyword.len();
    lemma_holds_parts(data, i, c.keyword, a + b);
    lemma_holds_parts(data, at, a, b);
    lemma_word_passes(data, i, c.keyword);
    lemma_arguments_pass(data, at, c.arguments);
    lemma_attributes_pass(data, at + a.len(), c.attributes);
}

/// A literal is passed over.
proof fn lemma_literal_passes(data: Seq<u8>, i: int, l: Literal)
    requires
        l.is_valid(),
        holds_at(data, i, l.text()),
        i + l.text().len() < data.len() ==> !is_quote(data[i + l.text().len()]),
    ensures
        passes(data, i, i + l.text().len()),
        passes_inside(data, i, i + l.text().len()),
{
    let end = i + l.text().len();
    assert forall|last: int, d: int| #[trigger] split_from(data, COMMA, i, last, d) == split_from(
        data,
        COMMA,
        end,
        last,
        d,
    ) by {
        lemma_literal_is_not_cut(data, i, l, last, d);
    }
    assert forall|d: int| #[trigger] paren_close(data, i, d) == paren_close(data, end, d) by {
        lemma_literal_is_not_cut(data, i, l, 0, d);
    }
}

/// The arguments of a type are passed over.
proof fn lemma_arguments_pass(data: Seq<u8>, i: int, list: Seq<Literal>)
    requires
        are_arguments(list),
        holds_at(data, i, arguments_text(list)),
    ensures
        passes(data, i, i + arguments_text(list).len()),
{
    if list.len() > 0 {
        let t = row_text(list);
        let close = i + 1 + t.len();
        lemma_holds_parts(data, i, seq![OPEN_PAREN] + t, seq![CLOSE_PAREN]);
        lemma_holds_parts(data, i, seq![OPEN_PAREN], t);
        assert(data[i + 0] == seq![OPEN_PAREN][0]);
        assert(data[close + 0] == seq![CLOSE_PAREN][0]);
        lemma_argument_list_passes(data, i + 1, list);
        lemma_parens_pass(data, i, close);
    }
}

/// A list of arguments is passed over inside parentheses.
proof fn lemma_argument_list_passes(data: Seq<u8>, i: int, list: Seq<Literal>)
    requires
        list.len() > 0,
        are_arguments(list),
        holds_at(data, i, row_text(list)),
        i + row_text(list).len() < data.len() ==> !is_quote(data[i + row_text(list).len()]),
    ensures
        passes_inside(data, i, i + row_text(list).len()),
    decreases list.len(),
{
    let t = list[0].text();
    assert(is_argument(list[0]));
    if list.len() == 1 {
        lemma_literal_passes(data, i, list[0]);
    } else {
        let rest = list.skip(1);
        let comma = i + t.len();
        lemma_holds_parts(data, i, t + seq![COMMA], row_text(rest));
        lemma_holds_parts(data, i, t, seq![COMMA]);
        assert(data[comma + 0] == seq![COMMA][0]);
        lemma_literal_passes(data, i, list[0]);
        lemma_plain_passes_inside(data, comma, comma + 1);
        assert forall|k: int| 0 <= k < rest.len() implies is_argument(#[trigger] rest[k]) by {
            assert(rest[k] == list[k + 1]);
        }
        lemma_argument_list_passes(data, comma + 1, rest);
    }
}

/// A word with its parentheses is passed over.
proof fn lemma_call_passes(data: Seq<u8>, i: int, w: Seq<u8>, call: Option<Seq<u8>>)
    requires
        is_plain_word(w),
        is_call(call),
        holds_at(data, i, w + call_text(call)),
    ensures
        passes(data, i, i + (w + call_text(call)).len()),
{
    let open = i + w.len();
    lemma_holds_parts(data, i, w, call_text(call));
    assert forall|k: int| 0 <= k < w.len() implies !is_quote(#[trigger] w[k]) && w[k] != OPEN_PAREN
        && w[k] != CLOSE_PAREN && w[k] != COMMA by {
        assert(is_alphanumeric(w[k]) || w[k] == 0x5f);
    }
    lemma_word_passes(data, i, w);
    if let Some(digits) = call {
        let close = open + 1 + digits.len();
        lemma_holds_parts(data, open, seq![OPEN_PAREN] + digits, seq![CLOSE_PAREN]);
        lemma_holds_parts(data, open, seq![OPEN_PAREN], digits);
        assert(data[open + 0] == seq![OPEN_PAREN][0]);
        assert(data[close + 0] == seq![CLOSE_PAREN][0]);
        assert forall|k: int| open + 1 <= k < close implies !is_quote(#[trigger] data[k])
            && data[k] != OPEN_PAREN && data[k] != CLOSE_PAREN by {
            assert(data[open + 1 + (k - open - 1)] == digits[k - open - 1]);
            assert(is_digit(digits[k - open - 1]));
        }
        lemma_plain_passes_inside(data, open + 1, close);
        lemma_parens_pass(data, open, close);
    }
}

/// An attribute is passed over.
proof fn lemma_attribute_passes(data: Seq<u8>, i: int, a: Attribute)
    requires
        a.is_valid(),
        holds_at(data, i, a.text()),
        i + a.text().len() < data.len() ==> !is_quote(data[i + a.text().len()]),
    ensures
        passes(data, i, i + a.text().len()),
{
    let space = seq![0x20u8];
    match a {
        Attribute::Word { word, call } => {
            lemma_holds_parts(data, i, space, word + call_text(call));
            lemma_word_passes(data, i, space);
            lemma_call_passes(data, i + 1, word, call);
        },
        Attribute::NotNull => {
            reveal_strlit(" NOT NULL");
            lemma_word_passes(data, i, ascii(" NOT NULL"));
        },
        Attribute::Default(d) => {
            reveal_strlit(" DEFAULT ");
            lemma_holds_parts(data, i, ascii(" DEFAULT "), d.text());
            lemma_word_passes(data, i, ascii(" DEFAULT "));
            match d {
                DefaultText::Literal(l) => {
                    lemma_literal_passes(data, i + 9, l);
                },
                DefaultText::Expression { word, call } => {
                    lemma_call_passes(data, i + 9, word, call);
                },
            }
        },
        Attribute::Comment(content) => {
            reveal_strlit("COMMENT");
            let word = ascii("COMMENT");
            let l = Literal::Quoted(content);
            lemma_holds_parts(data, i, space + word, space + l.text());
            lemma_holds_parts(data, i + 8, space, l.text());
            lemma_word_passes(data, i, space + word);
            lemma_word_passes(data, i + 8, space);
            lemma_literal_passes(data, i + 9, l);
        },
    }
}

/// Attributes are passed over.
proof fn lemma_attributes_pass(data: Seq<u8>, i: int, list: Seq<Attribute>)
    requires
        are_valid_attributes(list),
        holds_at(data, i, attributes_text(list)),
        ({
            let n = i + attributes_text(list).len();
            n < data.len() ==> !is_quote(data[n])
        }),
    ensures
        passes(data, i, i + attributes_text(list).len()),
    decreases list.len(),
{
    if list.len() > 0 {
        let a = list[0];
        let rest = list.skip(1);
        let n = i + a.text().len();
        assert(a.is_valid());
        lemma_holds_parts(data, i, a.text(), attributes_text(rest));
        lemma_attributes_start(rest);
        if attributes_text(rest).len() > 0 {
            assert(data[n + 0] == attributes_text(rest)[0]);
        }
        lemma_attribute_passes(data, i, a);
        assert forall|k: int| 0 <= k < rest.len() implies (#[trigger] rest[k]).is_valid() by {
            assert(rest[k] == list[k + 1]);
        }
        lemma_attributes_pass(data, n, rest);
    }
}

/// An attribute does not end with whitespace.
proof fn lemma_attribute_end(a: Attribute)
    requires
        a.is_valid(),
    ensures
        a.text().len() > 0,
        !is_space(a.text().last()),
{
    match a {
        Attribute::Word { word, call } => {
            let last = word[word.len() - 1];
            assert(is_alphanumeric(last) || last == 0x5f);
            let t = word + call_text(call);
            assert(t.last() == if call is Some {
                CLOSE_PAREN
            } else {
                last
            });
            assert(a.text().last() == t.last());
        },
        Attribute::NotNull => {
            reveal_strlit(" NOT NULL");
        },
        Attribute::Default(d) => {
            lemma_default_starts(d);
            assert(a.text().last() == d.text().last());
        },
        Attribute::Comment(content) => {
            let l = Literal::Quoted(content);
            assert(a.text().last() == l.text().last());
            assert(l.text().last() == SINGLE_QUOTE);
        },
    }
}

/// Attributes do not end with whitespace.
proof fn lemma_attributes_end(list: Seq<Attribute>)
    requires
        list.len() > 0,
        are_valid_attributes(list),
    ensures
        attributes_text(list).len() > 0,
        !is_space(attributes_text(list).last()),
    decreases list.len(),
{
    let a = list[0];
    let rest = list.skip(1);
    assert(a.is_valid());
    lemma_attribute_end(a);
    if list.len() > 1 {
        assert forall|k: int| 0 <= k < rest.len() implies (#[trigger] rest[k]).is_valid() by {
            assert(rest[k] == list[k + 1]);
        }
        lemma_attributes_end(rest);
        assert(attributes_text(list).last() == attributes_text(rest).last());
    } else {
        assert(attributes_text(rest) == Seq::<u8>::empty());
        assert(attributes_text(list) =~= a.text());
    }
}

/// Reading on from `i` is reading on from `j`, between the items.
spec fn goes_by(data: Seq<u8>, i: int, j: int) -> bool {
    &&& forall|last: int| #[trigger]
        split_from(data, COMMA, i, last, 0) == split_from(data, COMMA, j, last, 0)
    &&& paren_close(data, i, 1) == paren_close(data, j, 1)
}

/// An item is passed over.
proof fn lemma_item_passes(data: Seq<u8>, i: int, item: TableItem)
    requires
        item.is_valid(),
        holds_at(data, i, item.text()),
        i + item.text().len() < data.len() ==> !is_quote(data[i + item.text().len()]),
    ensures
        goes_by(data, i, i + item.text().len()),
{
    match item {
        TableItem::Column(c) => {
            lemma_column_passes(data, i, c);
        },
        TableItem::Primary(columns) => {
            reveal_strlit("PRIMARY KEY ");
            lemma_holds_parts(data, i, ascii("PRIMARY KEY "), columns.text());
            lemma_word_passes(data, i, ascii("PRIMARY KEY "));
            lemma_key_list(data, i + 12, columns.sep, columns.names);
        },
        TableItem::Unique(index, columns) => {
            lemma_unique_passes(data, i, index, columns);
        },
        TableItem::Key { .. } => {
            lemma_part_passes(data, i, item.text());
        },
        TableItem::Other(text) => {
            lemma_part_passes(data, i, text);
        },
    }
}

/// The text of an item has no whitespace around it.
proof fn lemma_item_is_trimmed(item: TableItem)
    requires
        item.is_valid(),
    ensures
        item.text().len() > 0,
        !is_space(item.text()[0]),
        !is_space(item.text().last()),
{
    let t = item.text();
    match item {
        TableItem::Column(c) => {
            let d = c.definition();
            let a = arguments_text(c.arguments);
            let b = attributes_text(c.attributes);
            assert(t[0] == BACKTICK);
            assert(d.len() > 0);
            assert(t.last() == d.last());
            if c.attributes.len() > 0 {
                lemma_attributes_end(c.attributes);
                assert(d.last() == b.last());
            } else if c.arguments.len() > 0 {
                assert(b.len() == 0);
                assert(d.last() == a.last());
            } else {
                assert(is_alphabetic(c.keyword[c.keyword.len() - 1]));
                assert(d.last() == c.keyword.last());
            }
        },
        TableItem::Primary(columns) => {
            reveal_strlit("PRIMARY KEY ");
            assert(t[0] == ascii("PRIMARY KEY ")[0]);
            assert(t.last() == columns.text().last());
        },
        TableItem::Unique(index, columns) => {
            reveal_strlit("UNIQUE KEY ");
            assert(t[0] == ascii("UNIQUE KEY ")[0]);
            assert(t.last() == columns.text().last());
        },
        TableItem::Key { unique, head, parts, tail } => {
            lemma_key_head(head, unique);
            assert(t[0] == head[0]);
        },
        TableItem::Other(text) => {},
    }
}

/// The first letter of a key.
proof fn lemma_key_head(head: Seq<u8>, unique: bool)
    requires
        if unique {
            starts_ci(head, ascii("UNIQUE KEY")) || starts_ci(head, ascii("UNIQUE INDEX"))
        } else {
            starts_ci(head, ascii("PRIMARY KEY"))
        },
    ensures
        head.len() > 0,
        unique ==> head[0] == 0x55 || head[0] == 0x75,
        !unique ==> head[0] == 0x50 || head[0] == 0x70,
{
    reveal_strlit("PRIMARY KEY");
    reveal_strlit("UNIQUE KEY");
    reveal_strlit("UNIQUE INDEX");
    if !unique {
        assert(lowercase(head.take(11)[0]) == lowercase(ascii("PRIMARY KEY")[0]));
    } else if starts_ci(head, ascii("UNIQUE KEY")) {
        assert(lowercase(head.take(10)[0]) == lowercase(ascii("UNIQUE KEY")[0]));
    } else {
        assert(lowercase(head.take(12)[0]) == lowercase(ascii("UNIQUE INDEX")[0]));
    }
}

/// A longer text starts with what it started with.
proof fn lemma_starts_longer(a: Seq<u8>, b: Seq<u8>, word: Seq<u8>)
    ensures
        starts_ci(a, word) ==> starts_ci(a + b, word),
{
    if starts_ci(a, word) {
        assert((a + b).take(word.len() as int) =~= a.take(word.len() as int));
    }
}

/// A text that begins with a word starts with it.
proof fn lemma_starts_with(t: Seq<u8>, word: Seq<u8>)
    requires
        word.len() <= t.len(),
        forall|k: int| 0 <= k < word.len() ==> t[k] == #[trigger] word[k],
    ensures
        starts_ci(t, word),
{
    assert(t.take(word.len() as int) =~= word);
}

/// An item adds what it declares.
proof fn lemma_add_item(defs: Definitions, item: TableItem, piece: Seq<u8>)
    requires
        item.is_valid(),
        trim(piece) == item.text(),
    ensures
        add_item(defs, piece) == Some(item.added_to(defs)),
{
    reveal_strlit("PRIMARY KEY");
    reveal_strlit("UNIQUE KEY");
    let t = item.text();
    lemma_item_is_trimmed(item);
    match item {
        TableItem::Column(c) => {
            lemma_backtick(c.name, seq![0x20u8] + c.definition());
            column_reads_back(c);
        },
        TableItem::Primary(columns) => {
            reveal_strlit("PRIMARY KEY ");
            let word = ascii("PRIMARY KEY ");
            assert(has_no_paren(word));
            lemma_key_definition(word, columns.sep, columns.names);
            assert forall|k: int| 0 <= k < 11 implies t[k] == #[trigger] ascii("PRIMARY KEY")[k] by {
                assert(t[k] == word[k]);
            }
            lemma_starts_with(t, ascii("PRIMARY KEY"));
            assert(t[0] == word[0]);
        },
        TableItem::Unique(index, columns) => {
            reveal_strlit("UNIQUE KEY ");
            let word = ascii("UNIQUE KEY ");
            let head = unique_head(index);
            assert(has_no_paren(head)) by {
                assert forall|k: int| 0 <= k < head.len() implies #[trigger] head[k]
                    != OPEN_PAREN by {
                    if 12 <= k < 12 + index.len() {
                        assert(head[k] == index[k - 12]);
                    }
                }
            }
            lemma_key_definition(head, columns.sep, columns.names);
            assert forall|k: int| 0 <= k < 10 implies t[k] == #[trigger] ascii("UNIQUE KEY")[k] by {
                assert(t[k] == word[k]);
            }
            lemma_starts_with(t, ascii("UNIQUE KEY"));
            assert(t[0] == word[0]);
            lemma_other_start(t, ascii("PRIMARY KEY"), 0);
        },
        TableItem::Key { unique, head, parts, tail } => {
            lemma_key_head(head, unique);
            let list = seq![OPEN_PAREN] + parts_text(part_texts(parts), COMMA) + seq![CLOSE_PAREN];
            assert(t =~= head + (list + tail));
            assert(t[0] == head[0]);
            keys_list_the_columns_of_their_parts(head, parts, tail);
            lemma_starts_longer(head, list + tail, ascii("PRIMARY KEY"));
            lemma_starts_longer(head, list + tail, ascii("UNIQUE KEY"));
            lemma_starts_longer(head, list + tail, ascii("UNIQUE INDEX"));
            if unique {
                lemma_other_start(t, ascii("PRIMARY KEY"), 0);
            }
        },
        TableItem::Other(text) => {
            assert(trim(text) == text);
        },
    }
}

/// The items of a statement, each with whitespace before it, with commas between them, and with
/// whitespace behind the last.
pub open spec fn items_text(gap: Seq<u8>, items: Seq<TableItem>, end: Seq<u8>) -> Seq<u8>
    decreases items.len(),
{
    if items.len() == 0 {
        end
    } else if items.len() == 1 {
        gap + items[0].text() + end
    } else {
        gap + items[0].text() + seq![COMMA] + items_text(gap, items.skip(1), end)
    }
}

/// The parts that the items are split into.
spec fn item_pieces(gap: Seq<u8>, items: Seq<TableItem>, end: Seq<u8>) -> Seq<Seq<u8>> {
    Seq::new(
        items.len(),
        |k: int|
            if k == items.len() - 1 {
                gap + items[k].text() + end
            } else {
                gap + items[k].text()
            },
    )
}

/// All items can be spelled that way.
pub open spec fn are_valid_table_items(items: Seq<TableItem>) -> bool {
    forall|i: int| 0 <= i < items.len() ==> (#[trigger] items[i]).is_valid()
}

/// What the items declare.
pub open spec fn declared(items: Seq<TableItem>) -> Definitions
    decreases items.len(),
{
    if items.len() == 0 {
        Definitions {
            columns: Seq::empty(),
            primary_key: Seq::empty(),
            unique_keys: Seq::empty(),
        }
    } else {
        items.last().added_to(declared(items.drop_last()))
    }
}

/// The first byte of whitespace is no quote.
proof fn lemma_blank_is_no_quote(data: Seq<u8>, i: int, s: Seq<u8>)
    requires
        is_blank(s),
        s.len() > 0,
        holds_at(data, i, s),
    ensures
        !is_quote(data[i]),
{
    assert(data[i + 0] == s[0]);
    assert(is_space(s[0]));
}

/// One item with whitespace around it is passed over.
proof fn lemma_piece_passes(data: Seq<u8>, i: int, gap: Seq<u8>, item: TableItem, end: Seq<u8>)
    requires
        is_blank(gap),
        is_blank(end),
        item.is_valid(),
        holds_at(data, i, gap + item.text() + end),
        ({
            let n = i + (gap + item.text() + end).len();
            n < data.len() ==> data[n] == COMMA || data[n] == CLOSE_PAREN
        }),
    ensures
        goes_by(data, i, i + (gap + item.text() + end).len()),
{
    let t = item.text();
    lemma_holds_parts(data, i, gap + t, end);
    lemma_holds_parts(data, i, gap, t);
    let at = i + gap.len();
    let behind = at + t.len();
    lemma_blank_passes(data, i, gap);
    if end.len() > 0 {
        lemma_blank_is_no_quote(data, behind, end);
    }
    lemma_item_passes(data, at, item);
    lemma_blank_passes(data, behind, end);
}

/// The items are split into their parts, and close no parenthesis.
proof fn lemma_items_text(
    data: Seq<u8>,
    i: int,
    gap: Seq<u8>,
    items: Seq<TableItem>,
    end: Seq<u8>,
)
    requires
        is_blank(gap),
        is_blank(end),
        items.len() > 0,
        are_valid_table_items(items),
        holds_at(data, i, items_text(gap, items, end)),
        ({
            let n = i + items_text(gap, items, end).len();
            n < data.len() ==> data[n] == CLOSE_PAREN
        }),
    ensures
        i + items_text(gap, items, end).len() == data.len() ==> split_from(data, COMMA, i, i, 0)
            == item_pieces(gap, items, end),
        paren_close(data, i, 1) == paren_close(data, i + items_text(gap, items, end).len(), 1),
    decreases items.len(),
{
    let first = items[0];
    let pieces = item_pieces(gap, items, end);
    let nothing = Seq::<u8>::empty();
    assert(first.is_valid());
    if items.len() == 1 {
        let piece = gap + first.text() + end;
        let n = i + piece.len();
        lemma_piece_passes(data, i, gap, first, end);
        if n == data.len() {
            assert(data.skip(i) =~= piece) by {
                assert forall|k: int| 0 <= k < piece.len() implies data.skip(i)[k] == piece[k] by {
                    assert(data[i + k] == piece[k]);
                }
            }
            assert(pieces =~= seq![piece]);
            assert(split_from(data, COMMA, i, i, 0) == split_from(data, COMMA, n, i, 0));
        }
    } else {
        let piece = gap + first.text();
        let rest = items.skip(1);
        let comma = i + piece.len();
        lemma_holds_parts(data, i, piece + seq![COMMA], items_text(gap, rest, end));
        lemma_holds_parts(data, i, piece, seq![COMMA]);
        assert(data[comma + 0] == seq![COMMA][0]);
        assert(piece + nothing =~= piece);
        lemma_piece_passes(data, i, gap, first, nothing);
        assert forall|k: int| 0 <= k < rest.len() implies (#[trigger] rest[k]).is_valid() by {
            assert(rest[k] == items[k + 1]);
        }
        lemma_items_text(data, comma + 1, gap, rest, end);
        assert(data.subrange(i, comma) =~= piece) by {
            assert forall|k: int| 0 <= k < piece.len() implies data.subrange(i, comma)[k]
                == piece[k] by {
                assert(data[i + k] == piece[k]);
            }
        }
        let more = item_pieces(gap, rest, end);
        assert(pieces =~= seq![piece] + more) by {
            assert forall|k: int| 0 <= k < pieces.len() implies pieces[k] == (seq![piece] + more)[k] by {
                if k > 0 {
                    assert(rest[k - 1] == items[k]);
                }
            }
        }
        assert(split_from(data, COMMA, i, i, 0) == split_from(data, COMMA, comma, i, 0));
        assert(paren_close(data, i, 1) == paren_close(data, comma, 1));
        assert(paren_close(data, comma, 1) == paren_close(data, comma + 1, 1));
    }
}

/// Whitespace around a text is dropped.
proof fn lemma_trim_around(gap: Seq<u8>, text: Seq<u8>, end: Seq<u8>)
    requires
        is_blank(gap),
        is_blank(end),
        text.len() > 0,
        !is_space(text[0]),
        !is_space(text.last()),
    ensures
        trim(gap + text + end) == text,
{
    lemma_trim_front(gap, text + end);
    assert(gap + text + end =~= gap + (text + end));
    assert((text + end)[0] == text[0]);
    assert(trim_start(text + end) == text + end);
    lemma_trim_back(text, end);
}

/// Whitespace behind a text is dropped.
proof fn lemma_trim_back(text: Seq<u8>, end: Seq<u8>)
    requires
        is_blank(end),
        text.len() > 0,
        !is_space(text.last()),
    ensures
        trim_end(text + end) == text,
    decreases end.len(),
{
    if end.len() > 0 {
        assert((text + end).drop_last() =~= text + end.drop_last());
        assert(is_space(end[end.len() - 1]));
        assert forall|k: int| 0 <= k < end.drop_last().len() implies is_space(
            #[trigger] end.drop_last()[k],
        ) by {
            assert(end.drop_last()[k] == end[k]);
        }
        lemma_trim_back(text, end.drop_last());
    } else {
        assert(text + end =~= text);
    }
}

/// The parts declare what the items do.
proof fn lemma_definitions(pieces: Seq<Seq<u8>>, items: Seq<TableItem>)
    requires
        pieces.len() == items.len(),
        are_valid_table_items(items),
        forall|k: int| 0 <= k < items.len() ==> trim(#[trigger] pieces[k]) == items[k].text(),
    ensures
        definitions(pieces) == Some(declared(items)),
    decreases items.len(),
{
    if items.len() > 0 {
        let n = items.len() - 1;
        assert(items[n].is_valid());
        assert forall|k: int| 0 <= k < n implies (#[trigger] items.drop_last()[k]).is_valid() by {
            assert(items.drop_last()[k] == items[k]);
        }
        assert forall|k: int| 0 <= k < n implies trim(#[trigger] pieces.drop_last()[k])
            == items.drop_last()[k].text() by {
            assert(pieces.drop_last()[k] == pieces[k]);
        }
        lemma_definitions(pieces.drop_last(), items.drop_last());
        assert(trim(pieces[n]) == items[n].text());
        lemma_add_item(declared(items.drop_last()), items.last(), pieces.last());
    }
}

/// The text of a `CREATE TABLE` statement.
pub open spec fn create_text(
    name: Seq<u8>,
    gap: Seq<u8>,
    items: Seq<TableItem>,
    end: Seq<u8>,
    options: Seq<u8>,
) -> Seq<u8> {
    ascii("CREATE TABLE ") + quoted_name(name) + seq![0x20u8, OPEN_PAREN] + items_text(
        gap,
        items,
        end,
    ) + seq![CLOSE_PAREN] + options
}

/// The body of a statement, as it stands in it, reads back.
proof fn lemma_body(
    after: Seq<u8>,
    open: int,
    gap: Seq<u8>,
    items: Seq<TableItem>,
    end: Seq<u8>,
)
    requires
        is_blank(gap),
        is_blank(end),
        items.len() > 0,
        are_valid_table_items(items),
        0 <= open,
        holds_at(after, open + 1, items_text(gap, items, end)),
        open + 1 + items_text(gap, items, end).len() < after.len(),
        after[open + 1 + items_text(gap, items, end).len()] == CLOSE_PAREN,
    ensures
        ({
            let close = open + 1 + items_text(gap, items, end).len();
            &&& matching_paren(after, open) == Some(close)
            &&& definitions(split(after.subrange(open + 1, close), COMMA)) == Some(declared(items))
        }),
{
    let body = items_text(gap, items, end);
    let close = open + 1 + body.len();
    lemma_items_text(after, open + 1, gap, items, end);
    let inner = after.subrange(open + 1, close);
    assert(inner =~= body) by {
        assert forall|k: int| 0 <= k < body.len() implies inner[k] == body[k] by {
            assert(after[open + 1 + k] == body[k]);
        }
    }
    lemma_items_text(body, 0, gap, items, end);
    let pieces = item_pieces(gap, items, end);
    assert forall|k: int| 0 <= k < items.len() implies trim(#[trigger] pieces[k])
        == items[k].text() by {
        assert(items[k].is_valid());
        lemma_item_is_trimmed(items[k]);
        let t = items[k].text();
        if k == items.len() - 1 {
            lemma_trim_around(gap, t, end);
        } else {
            lemma_trim_around(gap, t, Seq::empty());
            assert(gap + t + Seq::<u8>::empty() =~= gap + t);
        }
    }
    lemma_definitions(pieces, items);
}

/// A `CREATE TABLE` statement reads back: the name of the table, its columns with their types,
/// nullability and defaults, its primary key and its unique keys are those that it spells out, in
/// order. The name holds no opening parenthesis, which would be taken for that of the items.
pub proof fn create_statement_reads_back(
    name: Seq<u8>,
    gap: Seq<u8>,
    items: Seq<TableItem>,
    end: Seq<u8>,
    options: Seq<u8>,
)
    requires
        is_plain_name(name),
        has_no_paren(name),
        is_blank(gap),
        is_blank(end),
        items.len() > 0,
        are_valid_table_items(items),
    ensures
        create_table(create_text(name, gap, items, end, options)) == Some(
            SchemaModel {
                name: decode_utf8(name),
                columns: declared(items).columns,
                primary_key: declared(items).primary_key,
                unique_keys: declared(items).unique_keys,
                raw_statement: create_text(name, gap, items, end, options),
            },
        ),
{
    let s = create_text(name, gap, items, end, options);
    let body = items_text(gap, items, end);
    let after = s.skip(12);
    lemma_create_places(name, body, options);
    lemma_body(after, name.len() as int + 4, gap, items, end);
    lemma_backtick(name, seq![0x20u8, OPEN_PAREN] + body + seq![CLOSE_PAREN] + options);
}

/// What stands where in a `CREATE TABLE` statement.
proof fn lemma_create_places(name: Seq<u8>, body: Seq<u8>, options: Seq<u8>)
    requires
        is_plain_name(name),
        has_no_paren(name),
    ensures
        ({
            let mid = seq![0x20u8, OPEN_PAREN];
            let s = ascii("CREATE TABLE ") + quoted_name(name) + mid + body + seq![CLOSE_PAREN]
                + options;
            let after = s.skip(12);
            let open = name.len() as int + 4;
            &&& strip_comments(s) == s
            &&& starts_ci(s, ascii("CREATE TABLE"))
            &&& ascii("CREATE TABLE").len() == 12
            &&& index_where(after, 0, equal_to(BACKTICK)) == 1
            &&& after.len() > open
            &&& after.skip(1) == quoted_name(name) + (mid + body + seq![CLOSE_PAREN] + options)
            &&& index_where(after, 1, equal_to(OPEN_PAREN)) == open
            &&& holds_at(after, open + 1, body)
            &&& open + 1 + body.len() < after.len()
            &&& after[open + 1 + body.len()] == CLOSE_PAREN
        }),
{
    reveal_strlit("CREATE TABLE ");
    let word = ascii("CREATE TABLE ");
    let q = quoted_name(name);
    let mid = seq![0x20u8, OPEN_PAREN];
    let s = word + q + mid + body + seq![CLOSE_PAREN] + options;
    let n = name.len() as int;
    assert(holds_at(s, 0, word));
    assert(q.len() == n + 2);
    let after = s.skip(12);
    lemma_create_head(s);
    let rest = mid + body + seq![CLOSE_PAREN] + options;
    assert(after.skip(1) =~= q + rest);
    assert(after[0] == word[12]);
    assert(after[1] == q[0]);
    lemma_index_where_is(after, 0, equal_to(BACKTICK), 1);
    let open = n + 4;
    assert forall|j: int| 1 <= j < open implies !equal_to(OPEN_PAREN)(#[trigger] after[j]) by {
        assert(after[j] == after.skip(1)[j - 1]);
        if 2 <= j < n + 2 {
            assert((q + rest)[j - 1] == name[j - 2]);
        } else if j == n + 3 {
            assert((q + rest)[j - 1] == mid[0]);
        }
    }
    assert(after[open] == mid[1]);
    lemma_index_where_is(after, 1, equal_to(OPEN_PAREN), open);
    assert forall|k: int| 0 <= k < body.len() implies #[trigger] after[open + 1 + k] == body[k] by {
        assert(after[open + 1 + k] == (q + rest)[open + k]);
    }
}

/// A text that begins with `CREATE TABLE ` has no comments in front and starts with these words.
proof fn lemma_create_head(s: Seq<u8>)
    requires
        holds_at(s, 0, ascii("CREATE TABLE ")),
    ensures
        strip_comments(s) == s,
        starts_ci(s, ascii("CREATE TABLE")),
        ascii("CREATE TABLE").len() == 12,
{
    reveal_strlit("CREATE TABLE ");
    reveal_strlit("CREATE TABLE");
    let word = ascii("CREATE TABLE ");
    assert forall|k: int| 0 <= k < 12 implies s[k] == #[trigger] ascii("CREATE TABLE")[k] by {
        assert(s[0 + k] == word[k]);
    }
    assert(s[0] == ascii("CREATE TABLE")[0]);
    assert(trim_start(s) == s);
    lemma_starts_with(s, ascii("CREATE TABLE"));
}

} // verus!
