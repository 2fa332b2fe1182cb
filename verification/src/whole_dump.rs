//! A whole dump reads back: its tables with their schemas, and the rows of each table. Triggers and
//! stored routines add nothing.

use vstd::prelude::*;
use vstd::utf8::decode_utf8;

use crate::bytes::{
    ascii, is_quote, is_space, lemma_index_where_is, lowercase, not_alphabetic, starts_ci, trim,
    trim_start, uppercase, SEMICOLON,
};
use crate::ddl::{create_table, SchemaModel};
use crate::dumpfile::{dump_of, is_conditional_create, parsed, DumpModel, InsertModel};
use crate::lexical::{
    are_closed_by, are_valid_pieces, held_statements, is_blank, is_closed_by, is_terminator,
    lemma_one_text, lemma_statement_end_embedded, lemma_trim_front, statements_are_the_pieces,
    stream_text, trimmed, Piece,
};
use crate::readback::{
    are_valid_rows, insert_head_reads_back, insert_text, inserted_rows_read_back,
    lemma_insert_is_closed, lemma_plain_units, next_semicolon, rows_text, rows_values, InsertHead,
    Literal,
};
use crate::rows::{dump_rows, RowModel};
use crate::sqlstream::{
    is_delimiter_command, keyword, starts_block_comment, starts_line_comment, strip_comments,
};

verus! {

/// A statement that is recognized and skipped: neither an `INSERT` nor a `CREATE TABLE`. Views,
/// triggers and stored routines are created by such statements.
pub open spec fn is_passed_over(stmt: Seq<u8>) -> bool {
    ||| is_conditional_create(stmt)
    ||| keyword(stmt) != "INSERT"@ && (keyword(stmt) != "CREATE"@ || !starts_ci(
        strip_comments(stmt),
        ascii("CREATE TABLE"),
    ))
}

/// The statements of pieces one after the other.
proof fn lemma_held_concat(a: Seq<Piece>, b: Seq<Piece>)
    ensures
        held_statements(a + b) == held_statements(a) + held_statements(b),
    decreases a.len(),
{
    if a.len() == 0 {
        assert(a + b =~= b);
        assert(held_statements(a) + held_statements(b) =~= held_statements(b));
    } else {
        assert((a + b).skip(1) =~= a.skip(1) + b);
        lemma_held_concat(a.skip(1), b);
        assert(held_statements(a + b) =~= held_statements(a) + held_statements(b));
    }
}

/// All statements are recognized and skipped.
pub open spec fn are_passed_over(stmts: Seq<Seq<u8>>) -> bool {
    forall|k: int| 0 <= k < stmts.len() ==> is_passed_over(#[trigger] stmts[k])
}

/// Statements that are passed over make no difference to a dump.
proof fn lemma_passed_over(ahead: Seq<Seq<u8>>, stmts: Seq<Seq<u8>>, behind: Seq<Seq<u8>>)
    requires
        are_passed_over(stmts),
    ensures
        dump_of(ahead + stmts + behind) == dump_of(ahead + behind),
    decreases behind.len(), stmts.len(),
{
    let with = ahead + stmts + behind;
    let without = ahead + behind;
    if behind.len() > 0 {
        lemma_passed_over(ahead, stmts, behind.drop_last());
        assert(with.drop_last() =~= ahead + stmts + behind.drop_last());
        assert(without.drop_last() =~= ahead + behind.drop_last());
    } else if stmts.len() > 0 {
        let less = stmts.drop_last();
        assert forall|k: int| 0 <= k < less.len() implies is_passed_over(#[trigger] less[k]) by {
            assert(less[k] == stmts[k]);
        }
        lemma_passed_over(ahead, less, behind);
        assert(with.drop_last() =~= ahead + less + behind);
        assert(is_passed_over(stmts[stmts.len() - 1]));
        assert(with.last() == stmts[stmts.len() - 1]);
    } else {
        assert(with =~= without);
    }
}

/// Triggers and stored routines add nothing: text between `DELIMITER` lines that creates something
/// other than a table can stand anywhere in a dump, or be left out, without a difference, whatever
/// statements its body holds.
pub proof fn routines_add_nothing(
    ahead: Seq<Piece>,
    lead: Seq<u8>,
    word: Seq<u8>,
    texts: Seq<Seq<u8>>,
    behind: Seq<Piece>,
)
    requires
        are_valid_pieces(ahead),
        are_valid_pieces(behind),
        (Piece::Delimited { lead, word, texts }).is_valid(),
        are_passed_over(trimmed(texts)),
    ensures
        parsed(stream_text(ahead + seq![Piece::Delimited { lead, word, texts }] + behind))
            == parsed(stream_text(ahead + behind)),
{
    let routine = Piece::Delimited { lead, word, texts };
    let one = seq![routine];
    let with = ahead + one + behind;
    let without = ahead + behind;
    assert forall|k: int| 0 <= k < with.len() implies (#[trigger] with[k]).is_valid() by {
        if k < ahead.len() {
            assert(with[k] == ahead[k]);
        } else if k > ahead.len() {
            assert(with[k] == behind[k - ahead.len() - 1]);
        }
    }
    assert forall|k: int| 0 <= k < without.len() implies (#[trigger] without[k]).is_valid() by {
        if k < ahead.len() {
            assert(without[k] == ahead[k]);
        } else {
            assert(without[k] == behind[k - ahead.len()]);
        }
    }
    statements_are_the_pieces(with);
    statements_are_the_pieces(without);
    lemma_held_concat(ahead + one, behind);
    lemma_held_concat(ahead, one);
    lemma_held_concat(ahead, behind);
    lemma_one_piece(routine);
    lemma_passed_over(held_statements(ahead), trimmed(texts), held_statements(behind));
}

/// One piece on its own.
proof fn lemma_one_piece(piece: Piece)
    ensures
        held_statements(seq![piece]) == piece.statements(),
{
    let one = seq![piece];
    assert(one.skip(1) =~= Seq::empty());
    assert(held_statements(one.skip(1)) == Seq::<Seq<u8>>::empty());
    assert(held_statements(one) =~= piece.statements());
}

/// An item of a dump: a statement, or what stands between `DELIMITER` lines.
pub enum Item {
    /// A `CREATE TABLE` statement.
    Create(Seq<u8>),
    /// An `INSERT` statement: its head, the whitespace before the rows, and the rows.
    Insert { head: InsertHead, lead: Seq<u8>, list: Seq<Seq<Literal>> },
    /// A statement that is passed over.
    Other(Seq<u8>),
    /// Triggers and stored routines between `DELIMITER` lines, with the word that ends them.
    Routines { word: Seq<u8>, texts: Seq<Seq<u8>> },
}

impl Item {
    /// The statements of the item.
    pub open spec fn statements(self) -> Seq<Seq<u8>> {
        match self {
            Item::Create(text) => seq![text],
            Item::Insert { head, lead, list } => seq![insert_text(head, lead, list)],
            Item::Other(text) => seq![text],
            Item::Routines { texts, .. } => trimmed(texts),
        }
    }

    /// How the item stands in a dump, with whitespace in front.
    pub open spec fn piece(self, gap: Seq<u8>) -> Piece {
        match self {
            Item::Routines { word, texts } => Piece::Delimited { lead: gap, word, texts },
            _ => Piece::Plain(gap + self.statements()[0]),
        }
    }

    /// The statements are well-formed, and end where their texts do.
    pub open spec fn is_valid(self) -> bool {
        match self {
            Item::Create(text) => {
                &&& create_table(text) is Some
                &&& !is_conditional_create(text)
                &&& is_closed_by(text, seq![SEMICOLON])
                &&& text.len() > 0
                &&& trim(text) == text
            },
            Item::Insert { head, lead, list } => {
                &&& head.is_valid()
                &&& is_blank(lead)
                &&& are_valid_rows(list)
                &&& list.len() > 0
            },
            Item::Other(text) => {
                &&& is_passed_over(text)
                &&& is_closed_by(text, seq![SEMICOLON])
                &&& text.len() > 0
                &&& trim(text) == text
            },
            Item::Routines { word, texts } => {
                &&& are_passed_over(trimmed(texts))
                &&& is_terminator(word)
                &&& are_closed_by(texts, word)
            },
        }
    }
}

/// The statements of items.
pub open spec fn item_statements(items: Seq<Item>) -> Seq<Seq<u8>>
    decreases items.len(),
{
    if items.len() == 0 {
        Seq::empty()
    } else {
        item_statements(items.drop_last()) + items.last().statements()
    }
}

/// How items stand in a dump, each with whitespace in front.
pub open spec fn item_pieces(gap: Seq<u8>, items: Seq<Item>) -> Seq<Piece> {
    items.map_values(|item: Item| item.piece(gap))
}

/// The text of a dump: its statements, each with whitespace in front and its terminator behind it.
pub open spec fn dump_text(gap: Seq<u8>, items: Seq<Item>) -> Seq<u8> {
    stream_text(item_pieces(gap, items))
}

/// All items are well-formed.
pub open spec fn are_valid_items(items: Seq<Item>) -> bool {
    forall|i: int| 0 <= i < items.len() ==> (#[trigger] items[i]).is_valid()
}

/// What the items of a dump add up to.
pub open spec fn content(items: Seq<Item>) -> DumpModel
    decreases items.len(),
{
    if items.len() == 0 {
        DumpModel::empty()
    } else {
        let before = content(items.drop_last());
        match items.last() {
            Item::Create(text) => before.create(create_table(text)->0),
            Item::Insert { head, lead, list } => before.insert_into(
                decode_utf8(head.name),
                InsertModel {
                    data: insert_text(head, lead, list),
                    values_start: head.text().len() as int,
                    explicit_columns: head.names(),
                },
            ),
            _ => before,
        }
    }
}

/// The rows that the statements of a dump add to a table.
pub open spec fn rows_of(items: Seq<Item>, schema: SchemaModel, table: Seq<char>) -> Seq<RowModel>
    decreases items.len(),
{
    if items.len() == 0 {
        Seq::empty()
    } else {
        let before = rows_of(items.drop_last(), schema, table);
        match items.last() {
            Item::Insert { head, list, .. } => if decode_utf8(head.name) == table {
                before + rows_values(schema, head.names(), list)
            } else {
                before
            },
            _ => before,
        }
    }
}

/// A statement that declares a table has the keyword `CREATE`.
proof fn lemma_create_keyword(stmt: Seq<u8>)
    requires
        create_table(stmt) is Some,
    ensures
        keyword(stmt) == "CREATE"@,
        starts_ci(strip_comments(stmt), ascii("CREATE TABLE")),
{
    reveal_strlit("CREATE TABLE");
    reveal_strlit("CREATE");
    let s = strip_comments(stmt);
    let word = ascii("CREATE TABLE");
    assert forall|k: int| 0 <= k < 12 implies lowercase(#[trigger] s[k]) == lowercase(word[k]) by {
        assert(s.take(12)[k] == s[k]);
    }
    assert(lowercase(s[0]) == lowercase(word[0]));
    assert(trim_start(s) == s);
    assert forall|j: int| 0 <= j < 6 implies !not_alphabetic()(#[trigger] s[j]) by {
        assert(lowercase(s[j]) == lowercase(word[j]));
    }
    assert(lowercase(s[6]) == lowercase(word[6]));
    lemma_index_where_is(s, 0, not_alphabetic(), 6);
    assert(keyword(stmt) =~= "CREATE"@) by {
        assert forall|j: int| 0 <= j < 6 implies uppercase(#[trigger] s[j]) == word[j] by {
            assert(lowercase(s[j]) == lowercase(word[j]));
        }
    }
}

/// The statements of a dump add up to its content.
proof fn lemma_content(items: Seq<Item>)
    requires
        are_valid_items(items),
    ensures
        dump_of(item_statements(items)) == Some(content(items)),
    decreases items.len(),
{
    if items.len() > 0 {
        let before = items.drop_last();
        assert forall|i: int| 0 <= i < before.len() implies (#[trigger] before[i]).is_valid() by {
            assert(before[i] == items[i]);
        }
        lemma_content(before);
        let item = items.last();
        assert(items[items.len() - 1].is_valid());
        let ahead = item_statements(before);
        let none = Seq::<Seq<u8>>::empty();
        if let Item::Routines { word, texts } = item {
            lemma_passed_over(ahead, trimmed(texts), none);
            assert(ahead + trimmed(texts) + none =~= item_statements(items));
            assert(ahead + none =~= ahead);
        } else {
            assert(item_statements(items).drop_last() =~= ahead);
            assert(item_statements(items).last() == item.statements()[0]);
        }
        match item {
            Item::Create(text) => {
                lemma_create_keyword(text);
            },
            Item::Insert { head, lead, list } => {
                insert_head_reads_back(head, lead, list);
                reveal_strlit("CREATE");
                reveal_strlit("INSERT");
                assert("CREATE"@[0] != "INSERT"@[0]);
                reveal_strlit("INSERT ");
                assert(insert_text(head, lead, list)[0] == ascii("INSERT ")[0]);
            },
            _ => {},
        }
    }
}

/// The text of a statement has no whitespace around it.
proof fn lemma_item_text(item: Item)
    requires
        item.is_valid(),
        !(item is Routines),
    ensures
        item.statements().len() == 1,
        item.statements()[0].len() > 0,
        trim(item.statements()[0]) == item.statements()[0],
        is_closed_by(item.statements()[0], seq![SEMICOLON]),
{
    if let Item::Insert { head, lead, list } = item {
        let text = item.statements()[0];
        lemma_insert_is_closed(head, lead, list);
        reveal_strlit("INSERT ");
        assert(text[0] == ascii("INSERT ")[0]);
        lemma_rows_end(list);
        assert(text.last() == rows_text(list).last());
    }
}

/// The text of rows ends with a parenthesis.
proof fn lemma_rows_end(list: Seq<Seq<Literal>>)
    requires
        list.len() > 0,
    ensures
        rows_text(list).len() > 0,
        !is_space(rows_text(list).last()),
    decreases list.len(),
{
    if list.len() > 1 {
        lemma_rows_end(list.skip(1));
    }
}

/// Whitespace in front of a text does not open anything.
proof fn lemma_closed_with_gap(gap: Seq<u8>, text: Seq<u8>)
    requires
        is_blank(gap),
        is_closed_by(text, seq![SEMICOLON]),
    ensures
        is_closed_by(gap + text, seq![SEMICOLON]),
{
    reveal_strlit("DELIMITER");
    let semicolon = seq![SEMICOLON];
    let a = text + semicolon;
    let data = gap + text + semicolon;
    let n = gap.len() as int;
    assert(data =~= gap + a);
    assert forall|k: int| 0 <= k < a.len() implies data[n + k] == #[trigger] a[k] by {
    }
    lemma_statement_end_embedded(a, data, semicolon, n, 0);
    assert forall|k: int| 0 <= k < n implies !is_quote(#[trigger] data[k]) && data[k]
        != SEMICOLON && !starts_line_comment(data, k) && !starts_block_comment(data, k) by {
        assert(data[k] == gap[k]);
    }
    lemma_plain_units(data, 0, n);
    assert(next_semicolon(data, 0) == next_semicolon(data, n));
    // No command.
    lemma_trim_front(gap, a);
    let s = strip_comments(data);
    if is_delimiter_command(s) && s != strip_comments(a) {
        assert(s == data);
        assert(lowercase(s.take(9)[0]) == lowercase(ascii("DELIMITER")[0]));
        if n > 0 {
            assert(data[0] == gap[0]);
            assert(is_space(gap[0]));
        } else {
            assert(data =~= a);
        }
    }
}

/// Pieces hold the statements of their items, and end where they do.
proof fn lemma_item_pieces(gap: Seq<u8>, items: Seq<Item>)
    requires
        is_blank(gap),
        are_valid_items(items),
    ensures
        held_statements(item_pieces(gap, items)) == item_statements(items),
        are_valid_pieces(item_pieces(gap, items)),
    decreases items.len(),
{
    let pieces = item_pieces(gap, items);
    if items.len() > 0 {
        let before = items.drop_last();
        let item = items.last();
        assert(items[items.len() - 1].is_valid());
        assert forall|i: int| 0 <= i < before.len() implies (#[trigger] before[i]).is_valid() by {
            assert(before[i] == items[i]);
        }
        lemma_item_pieces(gap, before);
        let ahead = item_pieces(gap, before);
        let piece = item.piece(gap);
        if !(item is Routines) {
            let text = item.statements()[0];
            lemma_item_text(item);
            lemma_trim_front(gap, text);
            lemma_closed_with_gap(gap, text);
            assert(trim(gap + text) == trim(text));
            lemma_one_text(gap + text);
            assert(piece.statements() =~= item.statements());
        }
        assert(pieces =~= ahead + seq![piece]);
        lemma_held_concat(ahead, seq![piece]);
        lemma_one_piece(piece);
        assert forall|k: int| 0 <= k < pieces.len() implies (#[trigger] pieces[k]).is_valid() by {
            if k < ahead.len() {
                assert(pieces[k] == ahead[k]);
            }
        }
    }
}

/// The rows of a table read back.
proof fn lemma_rows_of(items: Seq<Item>, schema: SchemaModel, table: Seq<char>)
    requires
        are_valid_items(items),
    ensures
        dump_rows(schema, content(items).inserts_into(table)) == Some(
            rows_of(items, schema, table),
        ),
    decreases items.len(),
{
    if items.len() > 0 {
        let before = items.drop_last();
        assert forall|i: int| 0 <= i < before.len() implies (#[trigger] before[i]).is_valid() by {
            assert(before[i] == items[i]);
        }
        lemma_rows_of(before, schema, table);
        assert(items[items.len() - 1].is_valid());
        if let Item::Insert { head, lead, list } = items.last() {
            if decode_utf8(head.name) == table {
                inserted_rows_read_back(schema, head.names(), head.text(), lead, list);
                let done = content(before).inserts_into(table);
                let more = content(items).inserts_into(table);
                assert(more.drop_last() =~= done);
            }
        }
    }
}

/// A dump reads back as it was written: its tables in order with their schemas, whatever other
/// statements stand between them, and for each table all rows that the dump inserts into it, in
/// order, with every value as it was, whatever quotes, commas, parentheses and semicolons it holds.
/// With a column list the values are put where the list says. Triggers and stored routines, whatever
/// statements their bodies hold, add nothing.
pub proof fn dump_reads_back(
    gap: Seq<u8>,
    items: Seq<Item>,
    schema: SchemaModel,
    table: Seq<char>,
)
    requires
        is_blank(gap),
        are_valid_items(items),
    ensures
        parsed(dump_text(gap, items)) == Some(content(items)),
        dump_rows(schema, content(items).inserts_into(table)) == Some(
            rows_of(items, schema, table),
        ),
{
    lemma_item_pieces(gap, items);
    statements_are_the_pieces(item_pieces(gap, items));
    lemma_content(items);
    lemma_rows_of(items, schema, table);
}

} // verus!
