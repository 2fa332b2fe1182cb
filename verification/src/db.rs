//! Schema introspection: the tables of a database, put together from rows of `information_schema`.

use vstd::prelude::*;

use crate::ddl::{
    columns, keys, Column, ColumnDefault, ColumnModel, DefaultModel, SchemaModel, TableSchema,
};
use crate::dumpfile::schemas_of;
use crate::table_map::TableMap;
use crate::text::{holds, str_eq, texts};

verus! {

/// A lowercase ASCII letter for an uppercase one, and any other character as it is.
pub open spec fn ascii_lower(c: char) -> char {
    if 'A' <= c <= 'Z' {
        (c as u8 + 32) as char
    } else {
        c
    }
}

/// A text in lowercase, by the rules of Unicode.
pub uninterp spec fn lowercased(s: Seq<char>) -> Seq<char>;

/// `str::to_lowercase`: the text in lowercase, by the rules of Unicode. In ASCII text these turn the
/// letters `A` to `Z` into `a` to `z` and leave everything else as it is.
#[verifier::external_body]
fn lowercase_text(s: &str) -> (r: String)
    ensures
        r@ == lowercased(s@),
        (forall|i: int| 0 <= i < s@.len() ==> #[trigger] s@[i] < '\u{80}') ==> r@ == s@.map_values(
            |c: char| ascii_lower(c),
        ),
{
    s.to_lowercase()
}

/// A row of `information_schema.COLUMNS`: table, column, data type, and whether it is nullable.
pub type ColumnRow = (String, String, String, String);

/// A row of `information_schema.KEY_COLUMN_USAGE`: table and column.
pub type KeyRow = (String, String);

/// A row of `information_schema.STATISTICS`: table, index and column.
pub type IndexRow = (String, String, String);

/// The columns that rows list for a table, in order.
pub open spec fn columns_of(list: Seq<ColumnRow>, table: Seq<char>) -> Seq<ColumnModel>
    decreases list.len(),
{
    if list.len() == 0 {
        Seq::empty()
    } else {
        let done = columns_of(list.drop_last(), table);
        let row = list.last();
        if row.0@ == table {
            done.push(
                ColumnModel {
                    name: row.1@,
                    data_type: lowercased(row.2@),
                    nullable: row.3@ == "YES"@,
                    bit_width: None,
                    default: DefaultModel::Absent,
                },
            )
        } else {
            done
        }
    }
}

/// The columns of a table's primary key, in order.
pub open spec fn primary_key_of(list: Seq<KeyRow>, table: Seq<char>) -> Seq<Seq<char>>
    decreases list.len(),
{
    if list.len() == 0 {
        Seq::empty()
    } else {
        let done = primary_key_of(list.drop_last(), table);
        if list.last().0@ == table {
            done.push(list.last().1@)
        } else {
            done
        }
    }
}

/// The names of a table's unique indexes, in the order in which they first occur.
pub open spec fn indexes_of(list: Seq<IndexRow>, table: Seq<char>) -> Seq<Seq<char>>
    decreases list.len(),
{
    if list.len() == 0 {
        Seq::empty()
    } else {
        let done = indexes_of(list.drop_last(), table);
        if list.last().0@ == table && !done.contains(list.last().1@) {
            done.push(list.last().1@)
        } else {
            done
        }
    }
}

/// The columns of one index of a table, in order.
pub open spec fn index_columns(list: Seq<IndexRow>, table: Seq<char>, index: Seq<char>) -> Seq<
    Seq<char>,
>
    decreases list.len(),
{
    if list.len() == 0 {
        Seq::empty()
    } else {
        let done = index_columns(list.drop_last(), table, index);
        if list.last().0@ == table && list.last().1@ == index {
            done.push(list.last().2@)
        } else {
            done
        }
    }
}

/// The unique keys of a table: the columns of each of its unique indexes.
pub open spec fn unique_keys_of(list: Seq<IndexRow>, table: Seq<char>) -> Seq<Seq<Seq<char>>> {
    indexes_of(list, table).map_values(|index: Seq<char>| index_columns(list, table, index))
}

/// The schema of a table. There is no statement text for it: a table is only ever created from the
/// text that the dump has.
pub open spec fn local_schema(
    column_rows: Seq<ColumnRow>,
    pk_rows: Seq<KeyRow>,
    uk_rows: Seq<IndexRow>,
    table: Seq<char>,
) -> SchemaModel {
    SchemaModel {
        name: table,
        columns: columns_of(column_rows, table),
        primary_key: primary_key_of(pk_rows, table),
        unique_keys: unique_keys_of(uk_rows, table),
        raw_statement: Seq::empty(),
    }
}

/// The schemas of the named tables. What is known of a table goes to the first mention of its name,
/// so that a name which is mentioned again is left with an empty schema.
pub open spec fn local_schemas(
    names: Seq<Seq<char>>,
    column_rows: Seq<ColumnRow>,
    pk_rows: Seq<KeyRow>,
    uk_rows: Seq<IndexRow>,
) -> Map<Seq<char>, SchemaModel>
    decreases names.len(),
{
    if names.len() == 0 {
        Map::empty()
    } else {
        let done = local_schemas(names.drop_last(), column_rows, pk_rows, uk_rows);
        let name = names.last();
        if names.drop_last().contains(name) {
            done.insert(name, local_schema(Seq::empty(), Seq::empty(), Seq::empty(), name))
        } else {
            done.insert(name, local_schema(column_rows, pk_rows, uk_rows, name))
        }
    }
}

/// The columns that rows list for a table.
fn collect_columns(list: &[ColumnRow], table: &str) -> (r: Vec<Column>)
    ensures
        columns(r@) == columns_of(list@, table@),
{
    let mut out: Vec<Column> = Vec::new();
    let mut i: usize = 0;
    assert(list@.take(0) =~= Seq::empty());
    assert(columns(out@) =~= Seq::empty());
    while i < list.len()
        invariant
            i <= list@.len(),
            columns(out@) == columns_of(list@.take(i as int), table@),
        decreases list@.len() - i,
    {
        assert(list@.take(i + 1).drop_last() =~= list@.take(i as int));
        let row = &list[i];
        if str_eq(row.0.as_str(), table) {
            let ghost before = columns(out@);
            let column = Column {
                name: row.1.clone(),
                data_type: lowercase_text(row.2.as_str()),
                nullable: str_eq(row.3.as_str(), "YES"),
                bit_width: None,
                default: ColumnDefault::Absent,
            };
            out.push(column);
            assert(columns(out@) =~= before.push(column@));
        }
        i = i + 1;
    }
    assert(list@.take(i as int) =~= list@);
    out
}

/// The columns of a table's primary key.
fn collect_primary_key(list: &[KeyRow], table: &str) -> (r: Vec<String>)
    ensures
        texts(r@) == primary_key_of(list@, table@),
{
    let mut out: Vec<String> = Vec::new();
    let mut i: usize = 0;
    assert(list@.take(0) =~= Seq::empty());
    assert(texts(out@) =~= Seq::empty());
    while i < list.len()
        invariant
            i <= list@.len(),
            texts(out@) == primary_key_of(list@.take(i as int), table@),
        decreases list@.len() - i,
    {
        assert(list@.take(i + 1).drop_last() =~= list@.take(i as int));
        let row = &list[i];
        if str_eq(row.0.as_str(), table) {
            let ghost before = texts(out@);
            let name = row.1.clone();
            out.push(name);
            assert(texts(out@) =~= before.push(name@));
        }
        i = i + 1;
    }
    assert(list@.take(i as int) =~= list@);
    out
}

/// The names of a table's unique indexes.
fn collect_indexes(list: &[IndexRow], table: &str) -> (r: Vec<String>)
    ensures
        texts(r@) == indexes_of(list@, table@),
{
    let mut out: Vec<String> = Vec::new();
    let mut i: usize = 0;
    assert(list@.take(0) =~= Seq::empty());
    assert(texts(out@) =~= Seq::empty());
    while i < list.len()
        invariant
            i <= list@.len(),
            texts(out@) == indexes_of(list@.take(i as int), table@),
        decreases list@.len() - i,
    {
        assert(list@.take(i + 1).drop_last() =~= list@.take(i as int));
        let row = &list[i];
        if str_eq(row.0.as_str(), table) && !holds(out.as_slice(), row.1.as_str()) {
            let ghost before = texts(out@);
            let name = row.1.clone();
            out.push(name);
            assert(texts(out@) =~= before.push(name@));
        }
        i = i + 1;
    }
    assert(list@.take(i as int) =~= list@);
    out
}

/// The columns of one index of a table.
fn collect_index(list: &[IndexRow], table: &str, index: &str) -> (r: Vec<String>)
    ensures
        texts(r@) == index_columns(list@, table@, index@),
{
    let mut out: Vec<String> = Vec::new();
    let mut i: usize = 0;
    assert(list@.take(0) =~= Seq::empty());
    assert(texts(out@) =~= Seq::empty());
    while i < list.len()
        invariant
            i <= list@.len(),
            texts(out@) == index_columns(list@.take(i as int), table@, index@),
        decreases list@.len() - i,
    {
        assert(list@.take(i + 1).drop_last() =~= list@.take(i as int));
        let row = &list[i];
        if str_eq(row.0.as_str(), table) && str_eq(row.1.as_str(), index) {
            let ghost before = texts(out@);
            let name = row.2.clone();
            out.push(name);
            assert(texts(out@) =~= before.push(name@));
        }
        i = i + 1;
    }
    assert(list@.take(i as int) =~= list@);
    out
}

/// The unique keys of a table.
fn collect_unique_keys(list: &[IndexRow], table: &str) -> (r: Vec<Vec<String>>)
    ensures
        keys(r@) == unique_keys_of(list@, table@),
{
    let indexes = collect_indexes(list, table);
    let ghost want = unique_keys_of(list@, table@);
    let mut out: Vec<Vec<String>> = Vec::new();
    let mut i: usize = 0;
    while i < indexes.len()
        invariant
            i <= indexes@.len(),
            texts(indexes@) == indexes_of(list@, table@),
            want == unique_keys_of(list@, table@),
            keys(out@) =~= want.take(i as int),
        decreases indexes@.len() - i,
    {
        let ghost before = keys(out@);
        let key = collect_index(list, table, indexes[i].as_str());
        assert(texts(indexes@)[i as int] == indexes@[i as int]@);
        out.push(key);
        assert(keys(out@) =~= before.push(texts(key@)));
        assert(want.take(i + 1) =~= want.take(i as int).push(want[i as int]));
        i = i + 1;
    }
    assert(want.take(i as int) =~= want);
    out
}

/// The schemas of all base tables of a database, by name, from what `information_schema` lists: the
/// names of the tables, their columns, the columns of their primary keys, and the columns of their
/// other unique indexes, each in the order of its position.
pub fn fetch_local_tables(
    table_names: &[String],
    column_rows: &[ColumnRow],
    pk_rows: &[KeyRow],
    uk_rows: &[IndexRow],
) -> (r: TableMap<TableSchema>)
    ensures
        schemas_of(r@) == local_schemas(texts(table_names@), column_rows@, pk_rows@, uk_rows@),
{
    let ghost names = texts(table_names@);
    let mut out: TableMap<TableSchema> = TableMap::new();
    let mut i: usize = 0;
    assert(names.take(0) =~= Seq::empty());
    assert(schemas_of(out@) =~= Map::empty());
    while i < table_names.len()
        invariant
            i <= table_names@.len(),
            names == texts(table_names@),
            schemas_of(out@) == local_schemas(
                names.take(i as int),
                column_rows@,
                pk_rows@,
                uk_rows@,
            ),
            forall|name: Seq<char>| #[trigger]
                out@.contains_key(name) <==> names.take(i as int).contains(name),
        decreases table_names@.len() - i,
    {
        let name = table_names[i].as_str();
        let ghost before = schemas_of(out@);
        proof {
            assert(names.take(i + 1).drop_last() =~= names.take(i as int));
            assert(names.take(i + 1).last() == name@);
            assert(names.take(i + 1) =~= names.take(i as int).push(name@));
            assert forall|n: Seq<char>| #[trigger] names.take(i + 1).contains(n) <==> names.take(
                i as int,
            ).contains(n) || n == name@ by {
                if names.take(i as int).contains(n) {
                    let j = choose|j: int|
                        0 <= j < names.take(i as int).len() && names.take(i as int)[j] == n;
                    assert(names.take(i + 1)[j] == n);
                }
                if n == name@ {
                    assert(names.take(i + 1)[i as int] == n);
                }
            }
        }
        let schema = if out.contains(name) {
            TableSchema {
                name: name.to_owned(),
                columns: Vec::new(),
                primary_key: Vec::new(),
                unique_keys: Vec::new(),
                raw_statement: Vec::new(),
            }
        } else {
            TableSchema {
                name: name.to_owned(),
                columns: collect_columns(column_rows, name),
                primary_key: collect_primary_key(pk_rows, name),
                unique_keys: collect_unique_keys(uk_rows, name),
                raw_statement: Vec::new(),
            }
        };
        proof {
            if out@.contains_key(name@) {
                let bare = local_schema(Seq::empty(), Seq::empty(), Seq::empty(), name@);
                assert(schema@.columns =~= bare.columns);
                assert(schema@.primary_key =~= bare.primary_key);
                assert(schema@.unique_keys =~= bare.unique_keys);
                assert(schema@.raw_statement =~= bare.raw_statement);
                assert(schema@ == bare);
            } else {
                assert(schema@.raw_statement =~= Seq::empty());
                assert(schema@ == local_schema(column_rows@, pk_rows@, uk_rows@, name@));
            }
        }
        out.insert(name.to_owned(), schema);
        assert(schemas_of(out@) =~= before.insert(name@, schema@));
        i = i + 1;
    }
    assert(names.take(i as int) =~= names);
    out
}

} // verus!
