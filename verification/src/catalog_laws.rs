//! What the rows of the database's catalog say of its tables.

use vstd::prelude::*;

use crate::db::{
    columns_of, index_columns, indexes_of, local_schemas, lowercased, primary_key_of,
    unique_keys_of, ColumnRow, IndexRow, KeyRow,
};


verus! {

/// The rows about a table's columns.
pub open spec fn about_columns(list: Seq<ColumnRow>, table: Seq<char>) -> Seq<ColumnRow> {
    list.filter(|row: ColumnRow| row.0@ == table)
}

/// The rows about a table's primary key.
pub open spec fn about_key(list: Seq<KeyRow>, table: Seq<char>) -> Seq<KeyRow> {
    list.filter(|row: KeyRow| row.0@ == table)
}

/// The rows about an index of a table.
pub open spec fn about_index(list: Seq<IndexRow>, table: Seq<char>, index: Seq<char>) -> Seq<
    IndexRow,
> {
    list.filter(|row: IndexRow| row.0@ == table && row.1@ == index)
}

/// A table has the columns that its rows name, in order, and no others. A column takes NULL exactly where
/// its row says `YES`.
pub proof fn columns_are_those_of_the_rows(list: Seq<ColumnRow>, table: Seq<char>, k: int)
    ensures
        columns_of(list, table).len() == about_columns(list, table).len(),
        0 <= k < about_columns(list, table).len() ==> {
            let row = about_columns(list, table)[k];
            let column = columns_of(list, table)[k];
            &&& column.name == row.1@
            &&& column.data_type == lowercased(row.2@)
            &&& column.nullable <==> row.3@ == "YES"@
            &&& column.bit_width is None
            &&& column.default is Absent
        },
    decreases list.len(),
{
    reveal(Seq::filter);
    if list.len() > 0 {
        columns_are_those_of_the_rows(list.drop_last(), table, k);
    }
}

/// A table's primary key has the columns that its rows name, in order.
pub proof fn primary_keys_are_those_of_the_rows(list: Seq<KeyRow>, table: Seq<char>, k: int)
    ensures
        primary_key_of(list, table).len() == about_key(list, table).len(),
        0 <= k < about_key(list, table).len() ==> primary_key_of(list, table)[k] == about_key(
            list,
            table,
        )[k].1@,
    decreases list.len(),
{
    reveal(Seq::filter);
    if list.len() > 0 {
        primary_keys_are_those_of_the_rows(list.drop_last(), table, k);
    }
}

/// An index has the columns that its rows name, in order, whatever rows of other indexes stand between
/// them.
pub proof fn index_columns_are_those_of_the_rows(
    list: Seq<IndexRow>,
    table: Seq<char>,
    index: Seq<char>,
    k: int,
)
    ensures
        index_columns(list, table, index).len() == about_index(list, table, index).len(),
        0 <= k < about_index(list, table, index).len() ==> index_columns(list, table, index)[k]
            == about_index(list, table, index)[k].2@,
    decreases list.len(),
{
    reveal(Seq::filter);
    if list.len() > 0 {
        index_columns_are_those_of_the_rows(list.drop_last(), table, index, k);
    }
}

/// Row `i` is the first about an index of a table.
pub open spec fn is_first_about(list: Seq<IndexRow>, table: Seq<char>, index: Seq<char>, i: int) -> bool {
    &&& 0 <= i < list.len()
    &&& list[i].0@ == table
    &&& list[i].1@ == index
    &&& forall|j: int| 0 <= j < i ==> (#[trigger] list[j]).0@ != table || list[j].1@ != index
}

/// A table has the unique indexes that its rows name, each once, in the order of their first rows, and
/// its unique keys are their columns.
pub proof fn unique_keys_are_those_of_the_indexes(
    list: Seq<IndexRow>,
    table: Seq<char>,
    a: int,
    b: int,
)
    ensures
        unique_keys_of(list, table).len() == indexes_of(list, table).len(),
        0 <= a < indexes_of(list, table).len() ==> {
            &&& unique_keys_of(list, table)[a] == index_columns(
                list,
                table,
                indexes_of(list, table)[a],
            )
            &&& exists|i: int| is_first_about(list, table, indexes_of(list, table)[a], i)
        },
        0 <= a < b < indexes_of(list, table).len() ==> {
            &&& indexes_of(list, table)[a] != indexes_of(list, table)[b]
            &&& forall|i: int, j: int|
                is_first_about(list, table, indexes_of(list, table)[a], i) && is_first_about(
                    list,
                    table,
                    indexes_of(list, table)[b],
                    j,
                ) ==> i < j
        },
        0 <= a < list.len() && list[a].0@ == table ==> indexes_of(list, table).contains(list[a].1@),
    decreases list.len(),
{
    if list.len() > 0 {
        let less = list.drop_last();
        let done = indexes_of(less, table);
        let all = indexes_of(list, table);
        let last = list.len() - 1;
        let row = list[last];
        unique_keys_are_those_of_the_indexes(less, table, a, b);
        assert forall|name: Seq<char>, i: int| is_first_about(less, table, name, i) implies is_first_about(
            list,
            table,
            name,
            i,
        ) by {
            assert forall|j: int| 0 <= j < i implies (#[trigger] list[j]).0@ != table || list[j].1@
                != name by {
                assert(list[j] == less[j]);
            }
        }
        if 0 <= a < last && list[a].0@ == table {
            assert(list[a] == less[a]);
            let k = choose|k: int| 0 <= k < done.len() && done[k] == list[a].1@;
            assert(all[k] == done[k]);
        }
        if row.0@ == table && !done.contains(row.1@) {
            assert(all[done.len() as int] == row.1@);
            assert forall|j: int| 0 <= j < last implies (#[trigger] list[j]).0@ != table
                || list[j].1@ != row.1@ by {
                if list[j].0@ == table {
                    unique_keys_are_those_of_the_indexes(less, table, j, b);
                    assert(list[j] == less[j]);
                }
            }
            assert(is_first_about(list, table, row.1@, last));
        } else if row.0@ == table && a == last {
            let k = choose|k: int| 0 <= k < done.len() && done[k] == row.1@;
            assert(all[k] == row.1@);
        }
        if 0 <= a < b < all.len() {
            assert(all[a] == done[a]);
            assert(done.contains(done[a]));
            assert(exists|i: int| is_first_about(less, table, done[a], i));
            let p = choose|i: int| is_first_about(less, table, done[a], i);
            assert(is_first_about(list, table, all[a], p));
            if b < done.len() {
                unique_keys_are_those_of_the_indexes(less, table, b, b);
                let q = choose|i: int| is_first_about(less, table, done[b], i);
                assert(is_first_about(list, table, all[b], q));
                assert forall|i: int, j: int|
                    is_first_about(list, table, all[a], i) && is_first_about(list, table, all[b], j) implies i
                    < j by {
                    lemma_first_is_unique(list, table, all[a], i, p);
                    lemma_first_is_unique(list, table, all[b], j, q);
                }
            } else {
                assert forall|i: int, j: int|
                    is_first_about(list, table, all[a], i) && is_first_about(list, table, all[b], j) implies i
                    < j by {
                    lemma_first_is_unique(list, table, all[a], i, p);
                    lemma_first_is_unique(list, table, all[b], j, last);
                }
            }
        }
        if 0 <= a < done.len() {
            let p = choose|i: int| is_first_about(less, table, done[a], i);
            assert(is_first_about(list, table, all[a], p));
        } else if a == done.len() && a < all.len() {
            assert(is_first_about(list, table, all[a], last));
        }
    }
}

/// There is one first row.
proof fn lemma_first_is_unique(list: Seq<IndexRow>, table: Seq<char>, index: Seq<char>, i: int, j: int)
    requires
        is_first_about(list, table, index, i),
        is_first_about(list, table, index, j),
    ensures
        i == j,
{
    if i < j {
        assert(list[i].0@ != table || list[i].1@ != index);
    } else if j < i {
        assert(list[j].0@ != table || list[j].1@ != index);
    }
}

/// Every table that is named has a schema under its own name, and no other has one. Where no name is
/// mentioned twice, a schema holds what the rows say of its table, and no statement text.
pub proof fn every_named_table_has_its_schema(
    names: Seq<Seq<char>>,
    column_rows: Seq<ColumnRow>,
    pk_rows: Seq<KeyRow>,
    uk_rows: Seq<IndexRow>,
    table: Seq<char>,
)
    ensures
        ({
            let all = local_schemas(names, column_rows, pk_rows, uk_rows);
            &&& all.contains_key(table) <==> names.contains(table)
            &&& names.contains(table) ==> all[table].name == table && all[table].raw_statement
                == Seq::<u8>::empty()
            &&& names.contains(table) && names.no_duplicates() ==> {
                &&& all[table].columns == columns_of(column_rows, table)
                &&& all[table].primary_key == primary_key_of(pk_rows, table)
                &&& all[table].unique_keys == unique_keys_of(uk_rows, table)
            }
        }),
    decreases names.len(),
{
    if names.len() > 0 {
        let less = names.drop_last();
        every_named_table_has_its_schema(less, column_rows, pk_rows, uk_rows, table);
        if names.contains(table) && !less.contains(table) {
            let k = choose|k: int| 0 <= k < names.len() && names[k] == table;
            if k < less.len() {
                assert(less[k] == table);
            }
        }
        if less.contains(table) {
            let k = choose|k: int| 0 <= k < less.len() && less[k] == table;
            assert(names[k] == table);
        }
        assert(names[names.len() - 1] == names.last());
        if names.no_duplicates() {
            assert(less.no_duplicates());
            if less.contains(names.last()) {
                let k = choose|k: int| 0 <= k < less.len() && less[k] == names.last();
                assert(names[k] == names[names.len() - 1]);
            }
        }
    }
}

} // verus!
