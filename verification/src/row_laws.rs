//! What values and rows denote: every value under its column, and every literal as the bytes that it
//! stands for.

use vstd::prelude::*;

use crate::bytes::{
    ascii, eq_ci, is_hex_digit, is_quote, is_space, lemma_trim_end_prefix, lemma_trim_start_suffix,
    lowercase, trim, trim_end, trim_start, BACKSLASH, BACKTICK, COMMA, DIGIT_0, DOUBLE_QUOTE,
    SINGLE_QUOTE,
};
use crate::ddl::{column_from, ColumnModel, DefaultModel, SchemaModel};
use crate::dumpfile::InsertModel;
use crate::lexical::{is_blank, lemma_trim_front};
use crate::readback::{doubling_is_undone, escaped, escaping_is_undone, quotes_doubled};
use crate::rows::{
    dump_rows, fetched, insert_rows, last_place, listed_values, tuple_row, tuple_rows, value_width,
    RowModel,
};
use crate::sqlstream::{paren_groups, split};
use crate::table_laws::is_first_place;
use crate::values::{
    bit_at, bit_bytes, bit_len, byte_at, denotes_slice, even_hex, hex_bytes, is_plain, is_special,
    parse_value, unescape, unescape_char, unescape_from, value_cell,
};

verus! {

/// `k` is where a name last occurs in a list.
pub open spec fn is_last_mention(names: Seq<Seq<char>>, name: Seq<char>, k: int) -> bool {
    &&& 0 <= k < names.len()
    &&& names[k] == name
    &&& forall|j: int| k < j < names.len() ==> #[trigger] names[j] != name
}

/// The last place of a name is where it is last mentioned.
proof fn lemma_last_place(names: Seq<Seq<char>>, name: Seq<char>)
    ensures
        match last_place(names, name) {
            Some(k) => is_last_mention(names, name, k),
            None => forall|j: int| 0 <= j < names.len() ==> #[trigger] names[j] != name,
        },
    decreases names.len(),
{
    if names.len() > 0 && names.last() != name {
        let less = names.drop_last();
        lemma_last_place(less, name);
        assert forall|j: int| 0 <= j < names.len() && j < less.len() implies #[trigger] names[j]
            == less[j] by {
        }
        match last_place(less, name) {
            Some(k) => {
                assert forall|j: int| k < j < names.len() implies #[trigger] names[j] != name by {
                    if j < less.len() {
                        assert(less[j] != name);
                    }
                }
            },
            None => {
                assert forall|j: int| 0 <= j < names.len() implies #[trigger] names[j] != name by {
                    if j < less.len() {
                        assert(less[j] != name);
                    }
                }
            },
        }
    }
}

/// A name is last mentioned in one place.
proof fn lemma_one_mention(names: Seq<Seq<char>>, name: Seq<char>, a: int, b: int)
    requires
        is_last_mention(names, name, a),
        is_last_mention(names, name, b),
    ensures
        a == b,
{
    if a < b {
        assert(names[b] != name);
    }
    if b < a {
        assert(names[a] != name);
    }
}

/// The column that a name finds is the one at its first place.
proof fn lemma_column_at(columns: Seq<ColumnModel>, name: Seq<char>, first: int, from: int)
    requires
        is_first_place(columns, name, first),
        0 <= from <= first,
    ensures
        column_from(columns, name, from) == Some(columns[first]),
    decreases first - from,
{
    if from < first {
        assert(columns[from].name != name);
        lemma_column_at(columns, name, first, from + 1);
    }
}

/// With a column list every value goes under the column that the list names for it: the cell of a column
/// is what the token at the same place as its name denotes, decoded by that column's width. Of a name
/// that is mentioned more than once the last mention counts. Where the tuple is too short the cell is
/// NULL.
pub proof fn values_go_under_their_columns(
    schema: SchemaModel,
    names: Seq<Seq<char>>,
    tuple: Seq<u8>,
    i: int,
    k: int,
    first: int,
)
    requires
        0 <= i < schema.columns.len(),
        is_last_mention(names, schema.columns[i].name, k),
        is_first_place(schema.columns, schema.columns[i].name, first),
    ensures
        tuple_row(schema, Some(names), tuple) matches Some(row) ==> {
            let tokens = split(tuple, COMMA);
            &&& row.len() == schema.columns.len()
            &&& k < tokens.len() ==> parse_value(tokens[k], schema.columns[first].bit_width) == Some(
                row[i],
            )
            &&& k >= tokens.len() ==> row[i] is None
        },
{
    let name = schema.columns[i].name;
    let tokens = split(tuple, COMMA);
    lemma_last_place(names, name);
    assert(names[k] == name);
    let p = last_place(names, name)->0;
    lemma_one_mention(names, name, k, p);
    lemma_column_at(schema.columns, name, first, 0);
    if let Some(listed) = listed_values(schema, Some(names), tokens) {
        if k < tokens.len() {
            assert(parse_value(tokens[k], value_width(schema, Some(names), k)) is Some);
        }
    }
}

/// A column that the list leaves out gets its literal default, and NULL where it has none.
pub proof fn columns_left_out_get_their_default(
    schema: SchemaModel,
    names: Seq<Seq<char>>,
    tuple: Seq<u8>,
    i: int,
)
    requires
        0 <= i < schema.columns.len(),
        forall|j: int| 0 <= j < names.len() ==> #[trigger] names[j] != schema.columns[i].name,
    ensures
        tuple_row(schema, Some(names), tuple) matches Some(row) ==> {
            &&& row.len() == schema.columns.len()
            &&& row[i] == match schema.columns[i].default {
                DefaultModel::Literal(value) => value,
                _ => None,
            }
        },
{
    lemma_last_place(names, schema.columns[i].name);
}

/// Without a column list the values are taken as they stand, each decoded by the width of the column at
/// its place.
pub proof fn values_without_a_list_stand_in_order(schema: SchemaModel, tuple: Seq<u8>, k: int)
    requires
        0 <= k < split(tuple, COMMA).len(),
    ensures
        tuple_row(schema, None, tuple) matches Some(row) ==> {
            let tokens = split(tuple, COMMA);
            &&& row.len() == tokens.len()
            &&& parse_value(
                tokens[k],
                if k < schema.columns.len() {
                    schema.columns[k].bit_width
                } else {
                    None
                },
            ) == Some(row[k])
        },
{
    let tokens = split(tuple, COMMA);
    if let Some(listed) = listed_values(schema, None, tokens) {
        assert(parse_value(tokens[k], value_width(schema, None, k)) is Some);
    }
}

/// A token is a quote and nothing else.
pub open spec fn is_lone_quote(raw: Seq<u8>) -> bool {
    trim(raw).len() == 1 && (trim(raw)[0] == SINGLE_QUOTE || trim(raw)[0] == DOUBLE_QUOTE)
}

/// Every token denotes a value but a lone quote, whatever the type of the column.
pub proof fn only_lone_quotes_are_malformed(raw: Seq<u8>, bit_width: Option<u32>)
    ensures
        parse_value(raw, bit_width) is None <==> is_lone_quote(raw),
{
    reveal_strlit("NULL");
    let t = trim(raw);
    if is_lone_quote(raw) {
        assert(ascii("NULL").len() == 4);
    }
}

/// A tuple denotes a row exactly where none of its tokens is a lone quote.
pub proof fn tuples_are_read_unless_malformed(
    schema: SchemaModel,
    list: Option<Seq<Seq<char>>>,
    tuple: Seq<u8>,
)
    ensures
        tuple_row(schema, list, tuple) is Some <==> forall|k: int|
            0 <= k < split(tuple, COMMA).len() ==> !is_lone_quote(#[trigger] split(tuple, COMMA)[k]),
{
    let tokens = split(tuple, COMMA);
    assert forall|k: int| 0 <= k < tokens.len() implies (parse_value(
        #[trigger] tokens[k],
        value_width(schema, list, k),
    ) is Some) == !is_lone_quote(tokens[k]) by {
        only_lone_quotes_are_malformed(tokens[k], value_width(schema, list, k));
    }
    if tuple_row(schema, list, tuple) is Some {
        assert forall|k: int| 0 <= k < tokens.len() implies !is_lone_quote(#[trigger] tokens[k]) by {
            assert(parse_value(tokens[k], value_width(schema, list, k)) is Some);
        }
    }
    if forall|k: int| 0 <= k < tokens.len() ==> !is_lone_quote(#[trigger] tokens[k]) {
        assert forall|k: int| 0 <= k < tokens.len() implies parse_value(
            #[trigger] tokens[k],
            value_width(schema, list, k),
        ) is Some by {
            assert(!is_lone_quote(tokens[k]));
        }
    }
}

/// The rows of tuples are those of each tuple.
proof fn lemma_tuple_rows(
    schema: SchemaModel,
    list: Option<Seq<Seq<char>>>,
    tuples: Seq<Seq<u8>>,
)
    ensures
        match tuple_rows(schema, list, tuples) {
            Some(rows) => rows.len() == tuples.len() && forall|j: int|
                0 <= j < rows.len() ==> tuple_row(schema, list, tuples[j]) == Some(
                    #[trigger] rows[j],
                ),
            None => exists|j: int|
                0 <= j < tuples.len() && tuple_row(schema, list, #[trigger] tuples[j]) is None,
        },
    decreases tuples.len(),
{
    if tuples.len() > 0 {
        let less = tuples.drop_last();
        let last = tuples.len() - 1;
        lemma_tuple_rows(schema, list, less);
        match tuple_rows(schema, list, less) {
            Some(before) => {
                if tuple_row(schema, list, tuples.last()) is None {
                    assert(tuple_row(schema, list, tuples[last]) is None);
                } else {
                    let rows = tuple_rows(schema, list, tuples)->0;
                    assert forall|j: int| 0 <= j < rows.len() implies tuple_row(
                        schema,
                        list,
                        tuples[j],
                    ) == Some(#[trigger] rows[j]) by {
                        if j < last {
                            assert(rows[j] == before[j]);
                            assert(tuples[j] == less[j]);
                        }
                    }
                }
            },
            None => {
                let j = choose|j: int|
                    0 <= j < less.len() && tuple_row(schema, list, #[trigger] less[j]) is None;
                assert(tuples[j] == less[j]);
            },
        }
    }
}

/// A statement adds one row for each of its tuples, in order, and is malformed only where one of them is.
pub proof fn every_tuple_is_a_row(schema: SchemaModel, stmt: InsertModel)
    ensures
        paren_groups(stmt.data, stmt.values_start) matches Some(tuples) ==> match insert_rows(
            schema,
            stmt,
        ) {
            Some(rows) => rows.len() == tuples.len() && forall|j: int|
                0 <= j < rows.len() ==> tuple_row(schema, stmt.explicit_columns, tuples[j]) == Some(
                    #[trigger] rows[j],
                ),
            None => exists|j: int|
                0 <= j < tuples.len() && tuple_row(
                    schema,
                    stmt.explicit_columns,
                    #[trigger] tuples[j],
                ) is None,
        },
{
    if let Some(tuples) = paren_groups(stmt.data, stmt.values_start) {
        lemma_tuple_rows(schema, stmt.explicit_columns, tuples);
    }
}

/// The rows of a dump are those of its statements, one statement after the other: those of two lists of
/// statements are the rows of the first, then those of the second.
pub proof fn statements_add_their_rows_in_order(
    schema: SchemaModel,
    a: Seq<InsertModel>,
    b: Seq<InsertModel>,
    stmt: InsertModel,
)
    ensures
        dump_rows(schema, Seq::empty()) == Some(Seq::<RowModel>::empty()),
        dump_rows(schema, seq![stmt]) == insert_rows(schema, stmt),
        dump_rows(schema, a + b) == match (dump_rows(schema, a), dump_rows(schema, b)) {
            (Some(x), Some(y)) => Some(x + y),
            _ => None,
        },
    decreases b.len(),
{
    let one = seq![stmt];
    assert(one.drop_last() =~= Seq::empty());
    assert(dump_rows(schema, one.drop_last()) == Some(Seq::<RowModel>::empty()));
    if let Some(rows) = insert_rows(schema, stmt) {
        assert(Seq::<RowModel>::empty() + rows =~= rows);
    }
    if b.len() == 0 {
        assert(a + b =~= a);
        if let Some(x) = dump_rows(schema, a) {
            assert(x + Seq::<RowModel>::empty() =~= x);
        }
    } else {
        statements_add_their_rows_in_order(schema, a, b.drop_last(), stmt);
        assert((a + b).drop_last() =~= a + b.drop_last());
        assert((a + b).last() == b.last());
        if let (Some(x), Some(y), Some(z)) = (
            dump_rows(schema, a),
            dump_rows(schema, b.drop_last()),
            insert_rows(schema, b.last()),
        ) {
            assert(x + y + z =~= x + (y + z));
        }
    }
}

/// A fetched row has a cell for each value: NULL for NULL, and the bytes for bytes. A row with any other
/// value is none of the text protocol.
pub proof fn fetched_cells_are_the_values(values: Seq<mysql::Value>, i: int)
    requires
        0 <= i < values.len(),
    ensures
        match values[i] {
            mysql::Value::NULL => fetched(values) matches Some(row) ==> row.len() == values.len()
                && row[i] is None,
            mysql::Value::Bytes(b) => fetched(values) matches Some(row) ==> row.len()
                == values.len() && row[i] == Some(b@),
            _ => fetched(values) is None,
        },
        (forall|j: int|
            0 <= j < values.len() ==> (#[trigger] values[j]) is NULL || values[j] is Bytes)
            ==> fetched(values) is Some,
{
    if forall|j: int|
        0 <= j < values.len() ==> (#[trigger] values[j]) is NULL || values[j] is Bytes {
        assert forall|j: int| 0 <= j < values.len() implies value_cell(#[trigger] values[j])
            is Some by {
            assert(values[j] is NULL || values[j] is Bytes);
        }
    }
    if fetched(values) is Some {
        assert(value_cell(values[i]) is Some);
    }
}

/// Whitespace behind a text is dropped.
proof fn lemma_trim_behind(text: Seq<u8>, gap: Seq<u8>)
    requires
        is_blank(gap),
    ensures
        trim_end(text + gap) == trim_end(text),
    decreases gap.len(),
{
    if gap.len() > 0 {
        let less = gap.drop_last();
        assert(is_space(gap[gap.len() - 1]));
        assert((text + gap).drop_last() =~= text + less);
        assert forall|k: int| 0 <= k < less.len() implies is_space(#[trigger] less[k]) by {
            assert(less[k] == gap[k]);
        }
        lemma_trim_behind(text, less);
    } else {
        assert(text + gap =~= text);
    }
}

/// Text that is only whitespace trims to nothing.
proof fn lemma_trim_all(gap: Seq<u8>)
    requires
        is_blank(gap),
    ensures
        trim_start(gap).len() == 0,
    decreases gap.len(),
{
    if gap.len() > 0 {
        assert(is_space(gap[0]));
        assert forall|k: int| 0 <= k < gap.skip(1).len() implies is_space(
            #[trigger] gap.skip(1)[k],
        ) by {
            assert(gap.skip(1)[k] == gap[k + 1]);
        }
        lemma_trim_all(gap.skip(1));
    }
}

/// Whitespace behind a text does not change what leading whitespace there is.
proof fn lemma_trim_start_behind(text: Seq<u8>, gap: Seq<u8>)
    requires
        is_blank(gap),
    ensures
        trim_end(trim_start(text + gap)) == trim_end(trim_start(text)),
    decreases text.len(),
{
    if text.len() == 0 {
        assert(text + gap =~= gap);
        lemma_trim_all(gap);
        assert(trim_start(gap) =~= Seq::empty());
        assert(trim_start(text) =~= Seq::empty());
    } else if is_space(text[0]) {
        assert((text + gap).skip(1) =~= text.skip(1) + gap);
        assert((text + gap)[0] == text[0]);
        lemma_trim_start_behind(text.skip(1), gap);
    } else {
        assert((text + gap)[0] == text[0]);
        lemma_trim_behind(text, gap);
    }
}

/// Whitespace around a token does not matter.
pub proof fn whitespace_around_values_does_not_matter(
    before: Seq<u8>,
    token: Seq<u8>,
    behind: Seq<u8>,
    bit_width: Option<u32>,
)
    requires
        is_blank(before),
        is_blank(behind),
    ensures
        parse_value(before + token + behind, bit_width) == parse_value(token, bit_width),
{
    lemma_trim_front(before, token + behind);
    assert(before + token + behind =~= before + (token + behind));
    lemma_trim_start_behind(token, behind);
}

/// The four letters of `NULL` in any case denote NULL, and no other text does.
pub proof fn null_is_the_word_in_any_case(token: Seq<u8>, bit_width: Option<u32>)
    requires
        token.len() > 0,
        !is_space(token[0]),
        !is_space(token.last()),
    ensures
        parse_value(token, bit_width) == Some(None::<Seq<u8>>) <==> token.len() == 4 && (token[0]
            == 0x4e || token[0] == 0x6e) && (token[1] == 0x55 || token[1] == 0x75) && (token[2] == 0x4c
            || token[2] == 0x6c) && (token[3] == 0x4c || token[3] == 0x6c),
{
    reveal_strlit("NULL");
    let word = ascii("NULL");
    assert(trim(token) == token);
    assert(word.len() == 4);
    if eq_ci(token, word) {
        assert(lowercase(token[0]) == lowercase(word[0]));
        assert(lowercase(token[1]) == lowercase(word[1]));
        assert(lowercase(token[2]) == lowercase(word[2]));
        assert(lowercase(token[3]) == lowercase(word[3]));
    }
    if token.len() == 4 && (token[0] == 0x4e || token[0] == 0x6e) && (token[1] == 0x55 || token[1]
        == 0x75) && (token[2] == 0x4c || token[2] == 0x6c) && (token[3] == 0x4c || token[3] == 0x6c) {
        assert forall|j: int| 0 <= j < 4 implies lowercase(#[trigger] token[j]) == lowercase(
            word[j],
        ) by {
            if j == 0 {
            } else if j == 1 {
            } else if j == 2 {
            } else {
            }
        }
        assert(eq_ci(token, word));
    }
}

/// Text between quotes of either kind reads back: with a backslash before what needs one, and with each
/// quote doubled where there is no backslash.
pub proof fn quoted_text_reads_back(content: Seq<u8>, quote: u8, bit_width: Option<u32>)
    requires
        quote == SINGLE_QUOTE || quote == DOUBLE_QUOTE,
    ensures
        parse_value(seq![quote] + escaped(content) + seq![quote], bit_width) == Some(Some(content)),
        (forall|k: int| 0 <= k < content.len() ==> #[trigger] content[k] != BACKSLASH)
            ==> parse_value(
            seq![quote] + quotes_doubled(content, quote) + seq![quote],
            bit_width,
        ) == Some(Some(content)),
{
    reveal_strlit("NULL");
    let a = seq![quote] + escaped(content) + seq![quote];
    assert(trim(a) == a);
    assert(a.subrange(1, a.len() - 1) =~= escaped(content));
    assert(lowercase(a[0]) != lowercase(ascii("NULL")[0]));
    escaping_is_undone(content, quote);
    if forall|k: int| 0 <= k < content.len() ==> #[trigger] content[k] != BACKSLASH {
        let d = seq![quote] + quotes_doubled(content, quote) + seq![quote];
        assert(trim(d) == d);
        assert(d.subrange(1, d.len() - 1) =~= quotes_doubled(content, quote));
        assert(lowercase(d[0]) != lowercase(ascii("NULL")[0]));
        doubling_is_undone(content, quote);
    }
}

/// A backslash and the byte behind it stand for one byte: a control byte for the letters that have one,
/// and the byte itself for any other. What follows is read as it would be on its own.
pub proof fn escapes_stand_for_their_byte(c: u8, rest: Seq<u8>, quote: u8)
    requires
        quote == SINGLE_QUOTE || quote == DOUBLE_QUOTE,
    ensures
        ({
            let b = unescape(seq![BACKSLASH, c] + rest, quote);
            &&& b.len() > 0
            &&& b.skip(1) == unescape(rest, quote)
            &&& c == 0x30 ==> b[0] == 0x00
            &&& c == 0x6e ==> b[0] == 0x0a
            &&& c == 0x72 ==> b[0] == 0x0d
            &&& c == 0x74 ==> b[0] == 0x09
            &&& c == 0x62 ==> b[0] == 0x08
            &&& c == 0x5a ==> b[0] == 0x1a
            &&& c != 0x30 && c != 0x6e && c != 0x72 && c != 0x74 && c != 0x62 && c != 0x5a ==> b[0]
                == c
        }),
{
    let inner = seq![BACKSLASH, c] + rest;
    lemma_unescape_suffix(inner, quote, 2, 0);
    assert(inner.skip(2) =~= rest);
    let tail = unescape_from(inner, quote, 2);
    assert(unescape(inner, quote) =~= seq![unescape_char(c)] + tail);
    assert((seq![unescape_char(c)] + tail).skip(1) =~= tail);
}

/// A byte that is neither a quote nor a backslash stands for itself.
pub proof fn other_bytes_stand_for_themselves(c: u8, rest: Seq<u8>, quote: u8)
    requires
        c != quote,
        c != BACKSLASH || quote == BACKTICK,
    ensures
        unescape(seq![c] + rest, quote) == seq![c] + unescape(rest, quote),
{
    let inner = seq![c] + rest;
    lemma_unescape_suffix(inner, quote, 1, 0);
    assert(inner.skip(1) =~= rest);
}

/// Reading from a place on is reading what stands there.
proof fn lemma_unescape_suffix(inner: Seq<u8>, quote: u8, at: int, i: int)
    requires
        0 <= at <= inner.len(),
        0 <= i,
    ensures
        unescape_from(inner, quote, at + i) == unescape_from(inner.skip(at), quote, i),
    decreases inner.len() - at - i,
{
    let s = inner.skip(at);
    if i < s.len() {
        assert(s[i] == inner[at + i]);
        lemma_unescape_suffix(inner, quote, at, i + 1);
        if i + 1 < s.len() {
            assert(s[i + 1] == inner[at + i + 1]);
            lemma_unescape_suffix(inner, quote, at, i + 2);
        }
    }
}

/// Hexadecimal digits behind `0x` or `0X`, in either case, denote bytes of two digits each, the first of
/// them of more weight. Where their number is odd, the first byte has one digit.
pub proof fn hexadecimal_digits_denote_bytes(
    x: u8,
    hex: Seq<u8>,
    bit_width: Option<u32>,
    i: int,
)
    requires
        x == 0x78 || x == 0x58,
        hex.len() > 0,
        forall|k: int| 0 <= k < hex.len() ==> is_hex_digit(#[trigger] hex[k]),
        0 <= i < (hex.len() + 1) / 2,
    ensures
        parse_value(seq![DIGIT_0, x] + hex, bit_width) matches Some(Some(bytes)) && {
            let odd = hex.len() as int % 2;
            &&& bytes.len() == (hex.len() + 1) / 2
            &&& odd == 0 || i > 0 ==> bytes[i] as int == 16 * digit_value(hex[2 * i - odd])
                + digit_value(hex[2 * i + 1 - odd])
            &&& odd == 1 && i == 0 ==> bytes[i] as int == digit_value(hex[0])
        },
{
    reveal_strlit("NULL");
    let t = seq![DIGIT_0, x] + hex;
    let last = hex[hex.len() - 1];
    assert(is_hex_digit(last));
    assert(t.last() == last);
    assert(trim(t) == t);
    assert(lowercase(t[0]) != lowercase(ascii("NULL")[0]));
    assert(t.skip(2) =~= hex);
    let e = even_hex(hex);
    let odd = hex.len() as int % 2;
    if odd == 1 {
        assert(e.len() == hex.len() + 1);
        assert(e[2 * i] == if i == 0 {
            DIGIT_0
        } else {
            hex[2 * i - 1]
        });
        assert(e[2 * i + 1] == hex[2 * i]);
        if i > 0 {
            assert(is_hex_digit(hex[2 * i - 1]));
        }
        assert(is_hex_digit(hex[2 * i]));
    } else {
        assert(is_hex_digit(hex[2 * i]));
        assert(is_hex_digit(hex[2 * i + 1]));
    }
}

/// The value of a hexadecimal digit.
pub open spec fn digit_value(b: u8) -> int {
    if b <= 0x39 {
        b - 0x30
    } else if b <= 0x46 {
        b - 0x41 + 10
    } else {
        b - 0x61 + 10
    }
}

/// A `BIT` column of some width takes as many bytes as its bits fill, and at least one.
pub proof fn bit_columns_take_whole_bytes(width: u32)
    ensures
        bit_len(width) >= 1,
        8 * bit_len(width) >= width,
        width >= 1 ==> 8 * bit_len(width) < width + 8,
        width == 0 ==> bit_len(width) == 1,
{
}

/// Binary digits beyond the width of their column do not show: only the last ones count.
pub proof fn digits_beyond_the_width_do_not_show(digits: Seq<u8>, width: u32)
    requires
        digits.len() > 8 * bit_len(width),
    ensures
        bit_bytes(digits, width) == bit_bytes(
            digits.skip(digits.len() - 8 * bit_len(width)),
            width,
        ),
{
    let n = 8 * bit_len(width);
    let low = digits.skip(digits.len() - n);
    assert forall|j: int| 0 <= j < n implies bit_at(digits, j) == #[trigger] bit_at(low, j) by {
        assert(low[low.len() - 1 - j] == digits[digits.len() - 1 - j]);
    }
    assert forall|k: int| 0 <= k < bit_len(width) implies bit_bytes(digits, width)[k] == bit_bytes(
        low,
        width,
    )[k] by {
        let i = bit_len(width) - 1 - k;
        assert(bit_at(digits, 8 * i) == bit_at(low, 8 * i));
        assert(bit_at(digits, 8 * i + 1) == bit_at(low, 8 * i + 1));
        assert(bit_at(digits, 8 * i + 2) == bit_at(low, 8 * i + 2));
        assert(bit_at(digits, 8 * i + 3) == bit_at(low, 8 * i + 3));
        assert(bit_at(digits, 8 * i + 4) == bit_at(low, 8 * i + 4));
        assert(bit_at(digits, 8 * i + 5) == bit_at(low, 8 * i + 5));
        assert(bit_at(digits, 8 * i + 6) == bit_at(low, 8 * i + 6));
        assert(bit_at(digits, 8 * i + 7) == bit_at(low, 8 * i + 7));
        assert(byte_at(digits, i) == byte_at(low, i));
    }
    assert(bit_bytes(digits, width) =~= bit_bytes(low, width));
}

/// A bit literal, with a small or a capital letter, is decoded by the width of its column. In a column
/// of another type it is text as it stands.
pub proof fn bit_literals_are_decoded_by_width(b: u8, digits: Seq<u8>, width: u32)
    requires
        b == 0x62 || b == 0x42,
    ensures
        ({
            let token = seq![b, SINGLE_QUOTE] + digits + seq![SINGLE_QUOTE];
            &&& parse_value(token, Some(width)) == Some(Some(bit_bytes(digits, width)))
            &&& parse_value(token, None) == Some(Some(token))
        }),
{
    reveal_strlit("NULL");
    let token = seq![b, SINGLE_QUOTE] + digits + seq![SINGLE_QUOTE];
    assert(trim(token) == token);
    assert(lowercase(token[0]) != lowercase(ascii("NULL")[0]));
    assert(token.subrange(2, token.len() - 1) =~= digits);
}

/// Text that is no NULL, no quoted text and no hexadecimal or bit literal denotes itself.
pub proof fn bare_text_denotes_itself(token: Seq<u8>, bit_width: Option<u32>)
    requires
        token.len() > 0,
        !is_space(token[0]),
        !is_space(token.last()),
        token[0] != SINGLE_QUOTE,
        token[0] != DOUBLE_QUOTE,
        !(token.len() > 2 && token[0] == DIGIT_0 && (token[1] == 0x78 || token[1] == 0x58)),
        !(token.len() > 1 && token[1] == SINGLE_QUOTE),
    ensures
        parse_value(token, bit_width) == Some(None::<Seq<u8>>) || parse_value(token, bit_width)
            == Some(Some(token)),
{
    assert(trim(token) == token);
}

/// A quote inside a span stands for itself, and a pair of them for one. A backslash at the very end stands
/// for nothing.
pub proof fn quotes_in_a_span_stand_for_themselves(rest: Seq<u8>, quote: u8)
    requires
        is_quote(quote),
    ensures
        unescape(seq![quote, quote] + rest, quote) == seq![quote] + unescape(rest, quote),
        rest.len() == 0 || rest[0] != quote ==> unescape(seq![quote] + rest, quote) == seq![quote]
            + unescape(rest, quote),
        quote != BACKTICK ==> unescape(seq![BACKSLASH], quote) == Seq::<u8>::empty(),
        unescape(Seq::empty(), quote) == Seq::<u8>::empty(),
{
    let pair = seq![quote, quote] + rest;
    lemma_unescape_suffix(pair, quote, 2, 0);
    assert(pair.skip(2) =~= rest);
    let one = seq![quote] + rest;
    lemma_unescape_suffix(one, quote, 1, 0);
    assert(one.skip(1) =~= rest);
    if rest.len() > 0 {
        assert(one[1] == rest[0]);
    }
}

/// Digits of base sixteen are taken in pairs, the first of more weight. A byte that is no such digit counts
/// as zero, and a digit too many at the end is dropped.
pub proof fn hexadecimal_pairs_denote_bytes(hex: Seq<u8>, i: int)
    requires
        0 <= i < hex.len() / 2,
    ensures
        hex_bytes(hex).len() == hex.len() / 2,
        hex_bytes(hex)[i] as int == 16 * (if is_hex_digit(hex[2 * i]) {
            digit_value(hex[2 * i])
        } else {
            0
        }) + (if is_hex_digit(hex[2 * i + 1]) {
            digit_value(hex[2 * i + 1])
        } else {
            0
        }),
{
}

/// A value that is not copied is a stretch of its token.
pub proof fn borrowed_values_are_part_of_the_token(raw: Seq<u8>, bit_width: Option<u32>)
    requires
        denotes_slice(raw, bit_width),
        parse_value(raw, bit_width) is Some,
    ensures
        parse_value(raw, bit_width)->0 is Some,
        exists|i: int, j: int|
            0 <= i <= j <= raw.len() && (#[trigger] raw.subrange(i, j)) == (parse_value(
                raw,
                bit_width,
            )->0)->0,
{
    let t = trim(raw);
    let a = trim_start(raw);
    lemma_trim_start_suffix(raw);
    lemma_trim_end_prefix(a);
    let n = raw.len() - a.len();
    assert(t =~= raw.subrange(n, n + t.len()));
    if t.len() > 0 && (t[0] == SINGLE_QUOTE || t[0] == DOUBLE_QUOTE) {
        let inner = t.subrange(1, t.len() - 1);
        lemma_plain_is_itself(inner, t[0], 0);
        assert(inner.skip(0) =~= inner);
        assert(inner =~= raw.subrange(n + 1, n + t.len() - 1));
    }
}

/// A span without quotes and backslashes denotes itself.
proof fn lemma_plain_is_itself(inner: Seq<u8>, quote: u8, i: int)
    requires
        is_plain(inner, quote),
        0 <= i <= inner.len(),
    ensures
        unescape_from(inner, quote, i) == inner.skip(i),
    decreases inner.len() - i,
{
    if i < inner.len() {
        assert(!is_special(quote, inner[i]));
        lemma_plain_is_itself(inner, quote, i + 1);
        assert(seq![inner[i]] + inner.skip(i + 1) =~= inner.skip(i));
    } else {
        assert(inner.skip(i) =~= Seq::empty());
    }
}

} // verus!
