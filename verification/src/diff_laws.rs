//! What rows the comparison of a dump with a table picks, row by row.

use vstd::prelude::*;
use vstd::seq_lib::group_to_multiset_ensures;

use crate::convergence::by_key;
use crate::diff::{
    count, has_key, key_of, keyed_deletes, keyed_inserts, keyed_updates, last_with, places, surplus,
    unkeyed_deletes, unkeyed_inserts,
};
use crate::ddl::SchemaModel;
use crate::dml::applicable;
use crate::dumpfile::InsertModel;
use crate::plan::PlanModel;
use crate::rows::{dump_rows, RowModel};
use crate::sync::{has_table_plan, is_table_plan, key_places};
use crate::table_laws::key_places_are_those_of_the_columns;

verus! {

/// The cells of `row` at the key's places are those of `key`.
pub open spec fn has_cells(row: RowModel, idx: Seq<int>, key: RowModel) -> bool {
    &&& key.len() == idx.len()
    &&& forall|k: int| 0 <= k < idx.len() ==> #[trigger] key[k] == row[idx[k]]
}

/// Two rows have the same cells at the key's places.
pub open spec fn same_key(a: RowModel, b: RowModel, idx: Seq<int>) -> bool {
    forall|k: int| 0 <= k < idx.len() ==> a[#[trigger] idx[k]] == b[idx[k]]
}

/// Some row of the list has the same cells as `row` at the key's places.
pub open spec fn has_row_like(list: Seq<RowModel>, idx: Seq<int>, row: RowModel) -> bool {
    exists|j: int| 0 <= j < list.len() && same_key(#[trigger] list[j], row, idx)
}

/// Row `j` is the last of the list with the same cells as `row` at the key's places.
pub open spec fn is_last_like(list: Seq<RowModel>, idx: Seq<int>, row: RowModel, j: int) -> bool {
    &&& 0 <= j < list.len()
    &&& same_key(list[j], row, idx)
    &&& forall|i: int| j < i < list.len() ==> !same_key(#[trigger] list[i], row, idx)
}

/// A row has exactly one key: its cells at the key's places, in order.
pub proof fn keys_are_the_cells_at_their_places(
    row: RowModel,
    other: RowModel,
    idx: Seq<int>,
    key: RowModel,
)
    ensures
        key_of(row, idx) == key <==> has_cells(row, idx, key),
        key_of(row, idx) == key_of(other, idx) <==> same_key(row, other, idx),
{
    let own = key_of(row, idx);
    if has_cells(row, idx, key) {
        assert(own =~= key);
    }
    if own == key_of(other, idx) {
        assert forall|k: int| 0 <= k < idx.len() implies row[#[trigger] idx[k]] == other[idx[k]] by {
            assert(own[k] == key_of(other, idx)[k]);
        }
    }
    if same_key(row, other, idx) {
        assert forall|k: int| 0 <= k < idx.len() implies own[k] == key_of(other, idx)[k] by {
            assert(row[idx[k]] == other[idx[k]]);
        }
        assert(own =~= key_of(other, idx));
    }
}

/// The places of a key's columns are the numbers that the list holds.
pub proof fn places_are_the_numbers(v: Seq<usize>, k: int)
    requires
        0 <= k < v.len(),
    ensures
        places(v).len() == v.len(),
        places(v)[k] == v[k],
{
}

/// Of several rows with one key the last counts: it is found under its key, and a key that no row has is
/// not found.
pub proof fn the_last_row_of_a_key_counts(list: Seq<RowModel>, idx: Seq<int>, row: RowModel, j: int)
    ensures
        has_key(list, idx, key_of(row, idx)) <==> has_row_like(list, idx, row),
        is_last_like(list, idx, row, j) ==> last_with(list, idx, key_of(row, idx)) == Some(list[j]),
        by_key(list, idx).contains_key(key_of(row, idx)) <==> has_row_like(list, idx, row),
        is_last_like(list, idx, row, j) ==> by_key(list, idx)[key_of(row, idx)] == list[j],
    decreases list.len(),
{
    if list.len() > 0 {
        let less = list.drop_last();
        keys_are_the_cells_at_their_places(list.last(), row, idx, key_of(row, idx));
        the_last_row_of_a_key_counts(less, idx, row, j);
        if same_key(list.last(), row, idx) {
            assert(same_key(list[list.len() - 1], row, idx));
            if is_last_like(list, idx, row, j) && j < list.len() - 1 {
                assert(!same_key(list[list.len() - 1], row, idx));
            }
        } else {
            if has_row_like(list, idx, row) {
                let i = choose|i: int| 0 <= i < list.len() && same_key(#[trigger] list[i], row, idx);
                assert(list[i] == less[i]);
            }
            if has_row_like(less, idx, row) {
                let i = choose|i: int| 0 <= i < less.len() && same_key(#[trigger] less[i], row, idx);
                assert(list[i] == less[i]);
            }
            if is_last_like(list, idx, row, j) {
                assert forall|i: int| j < i < less.len() implies !same_key(#[trigger] less[i], row, idx) by {
                    assert(list[i] == less[i]);
                }
            }
        }
    }
}

/// A row of the dump is inserted unless the table has a row like it by the key which no row of the dump
/// ahead of it has taken. One more row of the dump leaves what the rows ahead of it give as it is.
pub proof fn rows_are_inserted_unless_the_table_has_their_key(
    idx: Seq<int>,
    local: Seq<RowModel>,
    ahead: Seq<RowModel>,
    row: RowModel,
)
    ensures
        keyed_inserts(idx, local, Seq::empty()) == Seq::<RowModel>::empty(),
        keyed_inserts(idx, local, ahead.push(row)) == (if has_row_like(local, idx, row)
            && !has_row_like(ahead, idx, row) {
            keyed_inserts(idx, local, ahead)
        } else {
            keyed_inserts(idx, local, ahead).push(row)
        }),
{
    assert(ahead.push(row).drop_last() =~= ahead);
    assert(ahead.push(row).last() == row);
    the_last_row_of_a_key_counts(local, idx, row, 0);
    the_last_row_of_a_key_counts(ahead, idx, row, 0);
}

/// A row of the dump is an update where the table has a row like it by the key that differs in another
/// cell, and no row of the dump ahead of it has the key. Equal rows are left alone.
pub proof fn rows_are_updated_where_they_differ(
    idx: Seq<int>,
    local: Seq<RowModel>,
    ahead: Seq<RowModel>,
    row: RowModel,
    j: int,
)
    ensures
        keyed_updates(idx, local, Seq::empty()) == Seq::<RowModel>::empty(),
        is_last_like(local, idx, row, j) && local[j] != row && !has_row_like(ahead, idx, row)
            ==> keyed_updates(idx, local, ahead.push(row)) == keyed_updates(
            idx,
            local,
            ahead,
        ).push(row),
        (is_last_like(local, idx, row, j) && local[j] == row) || has_row_like(ahead, idx, row)
            || !has_row_like(local, idx, row) ==> keyed_updates(idx, local, ahead.push(row))
            == keyed_updates(idx, local, ahead),
{
    assert(ahead.push(row).drop_last() =~= ahead);
    assert(ahead.push(row).last() == row);
    the_last_row_of_a_key_counts(local, idx, row, j);
    the_last_row_of_a_key_counts(ahead, idx, row, j);
    if is_last_like(local, idx, row, j) {
        assert(has_row_like(local, idx, row));
    }
}

/// A key is deleted where a row of the table has it and no row of the dump does.
pub proof fn keys_are_deleted_where_the_dump_has_none(
    idx: Seq<int>,
    local: Seq<RowModel>,
    dump: Seq<RowModel>,
    keys: Seq<RowModel>,
    row: RowModel,
)
    requires
        keyed_deletes(idx, local, dump, keys),
    ensures
        has_row_like(local, idx, row) && !has_row_like(dump, idx, row) <==> keys.contains(
            key_of(row, idx),
        ),
        forall|i: int|
            0 <= i < keys.len() ==> exists|j: int|
                0 <= j < local.len() && has_cells(#[trigger] local[j], idx, #[trigger] keys[i]),
        keys.no_duplicates(),
{
    the_last_row_of_a_key_counts(local, idx, row, 0);
    the_last_row_of_a_key_counts(dump, idx, row, 0);
    assert forall|i: int| 0 <= i < keys.len() implies exists|j: int|
        0 <= j < local.len() && has_cells(#[trigger] local[j], idx, #[trigger] keys[i]) by {
        assert(keys.contains(keys[i]));
        lemma_found(local, idx, keys[i]);
    }
}

/// A key that is found is that of some row.
proof fn lemma_found(list: Seq<RowModel>, idx: Seq<int>, key: RowModel)
    requires
        has_key(list, idx, key),
    ensures
        exists|j: int| 0 <= j < list.len() && has_cells(#[trigger] list[j], idx, key),
    decreases list.len(),
{
    if key_of(list.last(), idx) == key {
        keys_are_the_cells_at_their_places(list.last(), list.last(), idx, key);
        assert(has_cells(list[list.len() - 1], idx, key));
    } else {
        let less = list.drop_last();
        lemma_found(less, idx, key);
        let j = choose|j: int| 0 <= j < less.len() && has_cells(#[trigger] less[j], idx, key);
        assert(has_cells(list[j], idx, key));
    }
}

/// Counting is multiplicity.
proof fn lemma_count(list: Seq<RowModel>, row: RowModel)
    ensures
        count(list, row) == list.to_multiset().count(row),
    decreases list.len(),
{
    broadcast use group_to_multiset_ensures;

    if list.len() > 0 {
        lemma_count(list.drop_last(), row);
        assert(list.drop_last().push(list.last()) =~= list);
    }
}

/// Without a key, each row is inserted as often as the dump has more copies of it than the table, and
/// deleted as often as the table has more copies of it than the dump.
pub proof fn copies_are_made_up_for(
    local: Seq<RowModel>,
    dump: Seq<RowModel>,
    added: Seq<RowModel>,
    removed: Seq<(RowModel, u64)>,
    row: RowModel,
    n: u64,
)
    requires
        unkeyed_inserts(local, dump, added),
        unkeyed_deletes(local, dump, removed),
    ensures
        dump.to_multiset().count(row) >= local.to_multiset().count(row)
            ==> added.to_multiset().count(row) == dump.to_multiset().count(row)
            - local.to_multiset().count(row),
        dump.to_multiset().count(row) <= local.to_multiset().count(row)
            ==> added.to_multiset().count(row) == 0,
        removed.contains((row, n)) <==> n > 0 && n == local.to_multiset().count(row)
            - dump.to_multiset().count(row),
        removed.no_duplicates(),
{
    lemma_count(local, row);
    lemma_count(dump, row);
    lemma_count(added, row);
    assert(count(added, row) == surplus(dump, local, row));
    assert forall|i: int, j: int|
        0 <= i < removed.len() && 0 <= j < removed.len() && i != j implies removed[i]
        != removed[j] by {
        if i < j {
            assert(removed[i].0 != removed[j].0);
        } else {
            assert(removed[j].0 != removed[i].0);
        }
    }
}

/// Without a key the rows of a dump are compared as they are, a table that was just created takes them all,
/// and by a key only what the key decides comes in or goes.
pub proof fn plans_are_made_by_what_is_known(
    plan: PlanModel,
    schema: SchemaModel,
    is_new: bool,
    local: Seq<RowModel>,
    dump: Seq<RowModel>,
)
    requires
        is_table_plan(plan, schema, is_new, local, dump),
    ensures
        plan is New <==> is_new,
        plan is Keyed <==> !is_new && schema.key() is Some,
        plan is Unkeyed <==> !is_new && schema.key() is None,
        plan matches PlanModel::New { rows } ==> rows == dump,
        plan matches PlanModel::Keyed { to_insert, to_update, delete_keys } ==> {
            let idx = key_places(schema, schema.key()->0)->0;
            &&& to_insert == keyed_inserts(idx, local, dump)
            &&& to_update == keyed_updates(idx, local, dump)
            &&& keyed_deletes(idx, local, dump, delete_keys)
        },
        plan matches PlanModel::Unkeyed { to_insert, to_delete } ==> unkeyed_inserts(
            local,
            dump,
            to_insert,
        ) && unkeyed_deletes(local, dump, to_delete),
{
}

/// There is no plan where the rows of the dump cannot be read. Where they can, there is one for a table that
/// was just created or has no key, and, for a table with a key whose columns exist, wherever all rows
/// are as wide as the table.
pub proof fn plans_need_readable_rows_only(
    schema: SchemaModel,
    stmts: Seq<InsertModel>,
    is_new: bool,
    local: Seq<RowModel>,
)
    ensures
        dump_rows(schema, stmts) is None ==> !has_table_plan(schema, stmts, is_new, local),
        dump_rows(schema, stmts) is Some && (is_new || schema.key() is None) ==> has_table_plan(
            schema,
            stmts,
            is_new,
            local,
        ),
        dump_rows(schema, stmts) is Some && !is_new && schema.key() is Some && (key_places(
            schema,
            schema.key()->0,
        ) matches Some(idx) && reach(local, schema.columns.len()) && reach(
            dump_rows(schema, stmts)->0,
            schema.columns.len(),
        )) ==> has_table_plan(schema, stmts, is_new, local),
{
    if schema.key() is Some {
        let key = schema.key()->0;
        if let Some(idx) = key_places(schema, key) {
            assert forall|k: int| 0 <= k < idx.len() implies 0 <= #[trigger] idx[k]
                < schema.columns.len() by {
                key_places_are_those_of_the_columns(schema, key, k);
            }
        }
    }
}

/// All rows have at least `width` cells.
pub open spec fn reach(list: Seq<RowModel>, width: nat) -> bool {
    forall|r: int| 0 <= r < list.len() ==> (#[trigger] list[r]).len() >= width
}

/// A plan can be applied unless it goes by a key and comes without one, or deletes by a key of one column
/// that has no cell.
pub proof fn plans_can_be_applied(plan: PlanModel, key: Option<Seq<Seq<char>>>)
    ensures
        plan is New || plan is Unkeyed ==> applicable(plan, key),
        plan matches PlanModel::Keyed { delete_keys, .. } ==> {
            &&& key is None ==> !applicable(plan, key)
            &&& key is Some && reach(delete_keys, 1) ==> applicable(plan, key)
            &&& key is Some && key->0.len() != 1 ==> applicable(plan, key)
        },
{
    if let PlanModel::Keyed { delete_keys, .. } = plan {
        if reach(delete_keys, 1) {
            assert forall|i: int| 0 <= i < delete_keys.len() implies (#[trigger] delete_keys[i]).len()
                > 0 by {
                assert(delete_keys[i].len() >= 1);
            }
        }
    }
}

} // verus!
