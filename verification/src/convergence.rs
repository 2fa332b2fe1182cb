//! What the row plans achieve: applied to a table they leave it with the rows of the dump, they
//! touch nothing that is right already, and a second run finds nothing to do.

use vstd::prelude::*;
use vstd::multiset::Multiset;
use vstd::seq_lib::group_to_multiset_ensures;

use crate::ddl::SchemaModel;
use crate::diff::{
    count, has_key, key_of, keyed_deletes, keyed_inserts, keyed_updates, last_with, surplus,
    unkeyed_deletes, unkeyed_inserts,
};
use crate::plan::{total, PlanModel};
use crate::rows::RowModel;
use crate::sync::{is_table_plan, key_places};

verus! {

/// The rows of a table under their keys, after each row of `list` was put under its key: inserted
/// where the key is new, and in place of the row with that key where there is one. This is what
/// `INSERT ... ON DUPLICATE KEY UPDATE` does where the key is the only unique constraint.
pub open spec fn upserted(
    table: Map<RowModel, RowModel>,
    idx: Seq<int>,
    list: Seq<RowModel>,
) -> Map<RowModel, RowModel>
    decreases list.len(),
{
    if list.len() == 0 {
        table
    } else {
        upserted(table, idx, list.drop_last()).insert(key_of(list.last(), idx), list.last())
    }
}

/// The rows of a list under their keys.
pub open spec fn by_key(list: Seq<RowModel>, idx: Seq<int>) -> Map<RowModel, RowModel> {
    upserted(Map::empty(), idx, list)
}

/// A table after a keyed plan: the rows to insert and to update are put under their keys, then the
/// keys to delete go.
pub open spec fn after_keyed_plan(
    table: Map<RowModel, RowModel>,
    idx: Seq<int>,
    to_insert: Seq<RowModel>,
    to_update: Seq<RowModel>,
    delete_keys: Seq<RowModel>,
) -> Map<RowModel, RowModel> {
    upserted(table, idx, to_insert + to_update).remove_keys(delete_keys.to_set())
}

/// No two rows have the same key, as a unique constraint on the key's columns ensures.
pub open spec fn distinct_keys(list: Seq<RowModel>, idx: Seq<int>) -> bool
    decreases list.len(),
{
    list.len() > 0 ==> {
        &&& !has_key(list.drop_last(), idx, key_of(list.last(), idx))
        &&& distinct_keys(list.drop_last(), idx)
    }
}

/// What a table holds under a key after upserts.
proof fn lemma_upserted(
    table: Map<RowModel, RowModel>,
    idx: Seq<int>,
    list: Seq<RowModel>,
    key: RowModel,
)
    ensures
        match last_with(list, idx, key) {
            Some(row) => upserted(table, idx, list).contains_key(key) && upserted(
                table,
                idx,
                list,
            )[key] == row,
            None => {
                &&& upserted(table, idx, list).contains_key(key) == table.contains_key(key)
                &&& table.contains_key(key) ==> upserted(table, idx, list)[key] == table[key]
            },
        },
    decreases list.len(),
{
    if list.len() > 0 {
        lemma_upserted(table, idx, list.drop_last(), key);
    }
}

/// The last row with a key in two lists one after the other.
proof fn lemma_last_with_concat(a: Seq<RowModel>, b: Seq<RowModel>, idx: Seq<int>, key: RowModel)
    ensures
        last_with(a + b, idx, key) == (if has_key(b, idx, key) {
            last_with(b, idx, key)
        } else {
            last_with(a, idx, key)
        }),
    decreases b.len(),
{
    if b.len() > 0 {
        assert((a + b).drop_last() =~= a + b.drop_last());
        lemma_last_with_concat(a, b.drop_last(), idx, key);
    } else {
        assert(a + b =~= a);
    }
}

/// What is found under a key has that key.
pub proof fn lemma_last_with_key(list: Seq<RowModel>, idx: Seq<int>, key: RowModel)
    ensures
        last_with(list, idx, key) matches Some(row) ==> key_of(row, idx) == key && list.contains(
            row,
        ),
    decreases list.len(),
{
    if list.len() > 0 {
        lemma_last_with_key(list.drop_last(), idx, key);
        assert(list[list.len() - 1] == list.last());
        if let Some(row) = last_with(list.drop_last(), idx, key) {
            let i = choose|i: int| 0 <= i < list.drop_last().len() && list.drop_last()[i] == row;
            assert(list[i] == list.drop_last()[i]);
        }
    }
}

/// What a keyed plan inserts and updates under a key.
proof fn lemma_keyed_plan(
    idx: Seq<int>,
    local: Seq<RowModel>,
    dump: Seq<RowModel>,
    key: RowModel,
)
    requires
        distinct_keys(dump, idx),
    ensures
        last_with(keyed_inserts(idx, local, dump), idx, key) == (if has_key(local, idx, key) {
            None
        } else {
            last_with(dump, idx, key)
        }),
        last_with(keyed_updates(idx, local, dump), idx, key) == (if has_key(local, idx, key)
            && last_with(local, idx, key) != last_with(dump, idx, key) {
            last_with(dump, idx, key)
        } else {
            None
        }),
    decreases dump.len(),
{
    if dump.len() > 0 {
        let ahead = dump.drop_last();
        let row = dump.last();
        lemma_keyed_plan(idx, local, ahead, key);
        let inserts = keyed_inserts(idx, local, ahead);
        let updates = keyed_updates(idx, local, ahead);
        assert(inserts.push(row).drop_last() =~= inserts);
        assert(updates.push(row).drop_last() =~= updates);
    }
}

/// A keyed plan, applied to the table it was computed from, leaves exactly the rows of the dump.
/// This holds wherever the dump has no two rows with the same key, which the key's constraint
/// ensures of the database that was dumped.
pub proof fn keyed_plan_reaches_the_dump(
    idx: Seq<int>,
    local: Seq<RowModel>,
    dump: Seq<RowModel>,
    delete_keys: Seq<RowModel>,
)
    requires
        distinct_keys(dump, idx),
        keyed_deletes(idx, local, dump, delete_keys),
    ensures
        after_keyed_plan(
            by_key(local, idx),
            idx,
            keyed_inserts(idx, local, dump),
            keyed_updates(idx, local, dump),
            delete_keys,
        ) == by_key(dump, idx),
{
    let inserts = keyed_inserts(idx, local, dump);
    let updates = keyed_updates(idx, local, dump);
    let after = after_keyed_plan(by_key(local, idx), idx, inserts, updates, delete_keys);
    let want = by_key(dump, idx);
    assert forall|key: RowModel|
        #![trigger after.contains_key(key)]
        #![trigger want.contains_key(key)]
        after.contains_key(key) == want.contains_key(key) && (want.contains_key(key) ==> after[key]
            == want[key]) by {
        lemma_keyed_plan(idx, local, dump, key);
        lemma_last_with_concat(inserts, updates, idx, key);
        lemma_upserted(by_key(local, idx), idx, inserts + updates, key);
        lemma_upserted(Map::empty(), idx, local, key);
        lemma_upserted(Map::empty(), idx, dump, key);
        assert(delete_keys.contains(key) <==> has_key(local, idx, key) && !has_key(dump, idx, key));
        assert(delete_keys.to_set().contains(key) <==> delete_keys.contains(key));
    }
    assert(after =~= want);
}

/// A keyed plan touches only what differs: it inserts no key that the table has, updates no row
/// that is equal, deletes no key that the dump has, and leaves a row that is right already alone.
pub proof fn keyed_plan_touches_only_differences(
    idx: Seq<int>,
    local: Seq<RowModel>,
    dump: Seq<RowModel>,
    delete_keys: Seq<RowModel>,
    key: RowModel,
)
    requires
        distinct_keys(dump, idx),
        keyed_deletes(idx, local, dump, delete_keys),
    ensures
        has_key(keyed_inserts(idx, local, dump), idx, key) ==> has_key(dump, idx, key) && !has_key(
            local,
            idx,
            key,
        ),
        has_key(keyed_updates(idx, local, dump), idx, key) ==> has_key(dump, idx, key) && has_key(
            local,
            idx,
            key,
        ) && last_with(local, idx, key) != last_with(dump, idx, key),
        delete_keys.contains(key) ==> has_key(local, idx, key) && !has_key(dump, idx, key),
        last_with(local, idx, key) == last_with(dump, idx, key) ==> {
            &&& !has_key(keyed_inserts(idx, local, dump), idx, key)
            &&& !has_key(keyed_updates(idx, local, dump), idx, key)
            &&& !delete_keys.contains(key)
        },
{
    lemma_keyed_plan(idx, local, dump, key);
    assert(delete_keys.contains(key) <==> has_key(local, idx, key) && !has_key(dump, idx, key));
}

/// A table that has the rows of the dump already gets an empty plan.
pub proof fn keyed_plan_is_empty_when_nothing_changed(
    idx: Seq<int>,
    local: Seq<RowModel>,
    dump: Seq<RowModel>,
    delete_keys: Seq<RowModel>,
)
    requires
        distinct_keys(dump, idx),
        keyed_deletes(idx, local, dump, delete_keys),
        by_key(local, idx) == by_key(dump, idx),
    ensures
        keyed_inserts(idx, local, dump).len() == 0,
        keyed_updates(idx, local, dump).len() == 0,
        delete_keys.len() == 0,
{
    let inserts = keyed_inserts(idx, local, dump);
    let updates = keyed_updates(idx, local, dump);
    assert forall|key: RowModel| #[trigger] last_with(local, idx, key) == last_with(
        dump,
        idx,
        key,
    ) by {
        lemma_upserted(Map::empty(), idx, local, key);
        lemma_upserted(Map::empty(), idx, dump, key);
    }
    if inserts.len() > 0 {
        lemma_keyed_plan(idx, local, dump, key_of(inserts.last(), idx));
    }
    if updates.len() > 0 {
        lemma_keyed_plan(idx, local, dump, key_of(updates.last(), idx));
    }
    if delete_keys.len() > 0 {
        assert(delete_keys.contains(delete_keys[0]));
    }
}

/// A second run against the same dump has nothing to do: where the rows of the table are those that
/// a keyed plan left, the plan for them is empty.
pub proof fn keyed_sync_is_idempotent(
    idx: Seq<int>,
    local: Seq<RowModel>,
    dump: Seq<RowModel>,
    delete_keys: Seq<RowModel>,
    synced: Seq<RowModel>,
    delete_again: Seq<RowModel>,
)
    requires
        distinct_keys(dump, idx),
        keyed_deletes(idx, local, dump, delete_keys),
        by_key(synced, idx) == after_keyed_plan(
            by_key(local, idx),
            idx,
            keyed_inserts(idx, local, dump),
            keyed_updates(idx, local, dump),
            delete_keys,
        ),
        keyed_deletes(idx, synced, dump, delete_again),
    ensures
        keyed_inserts(idx, synced, dump).len() == 0,
        keyed_updates(idx, synced, dump).len() == 0,
        delete_again.len() == 0,
{
    keyed_plan_reaches_the_dump(idx, local, dump, delete_keys);
    keyed_plan_is_empty_when_nothing_changed(idx, synced, dump, delete_again);
}

/// Every column of a table with `width` columns belongs to the key.
pub open spec fn covers_all(idx: Seq<int>, width: nat) -> bool {
    forall|c: int| 0 <= c < width ==> #[trigger] idx.contains(c)
}

/// All rows have one cell per column.
pub open spec fn all_wide(list: Seq<RowModel>, width: nat) -> bool {
    forall|i: int| 0 <= i < list.len() ==> (#[trigger] list[i]).len() == width
}

/// Where every column belongs to the key, no row is ever updated: rows with the same key are equal.
pub proof fn all_key_tables_have_no_updates(
    idx: Seq<int>,
    width: nat,
    local: Seq<RowModel>,
    dump: Seq<RowModel>,
)
    requires
        covers_all(idx, width),
        all_wide(local, width),
        all_wide(dump, width),
    ensures
        keyed_updates(idx, local, dump).len() == 0,
    decreases dump.len(),
{
    if dump.len() > 0 {
        let ahead = dump.drop_last();
        let row = dump.last();
        assert forall|i: int| 0 <= i < ahead.len() implies (#[trigger] ahead[i]).len() == width by {
            assert(ahead[i] == dump[i]);
        }
        all_key_tables_have_no_updates(idx, width, local, ahead);
        lemma_last_with_key(local, idx, key_of(row, idx));
        if let Some(other) = last_with(local, idx, key_of(row, idx)) {
            assert(dump[dump.len() - 1] == row);
            assert forall|c: int| 0 <= c < width implies other[c] == row[c] by {
                assert(idx.contains(c));
                let k = choose|k: int| 0 <= k < idx.len() && idx[k] == c;
                assert(key_of(other, idx)[k] == key_of(row, idx)[k]);
            }
            assert(other =~= row);
        }
    }
}

/// A multiset of rows after `DELETE ... LIMIT n` of one row.
pub open spec fn without_copies(table: Multiset<RowModel>, row: RowModel, n: nat) -> Multiset<
    RowModel,
>
    decreases n,
{
    if n == 0 {
        table
    } else {
        without_copies(table.remove(row), row, (n - 1) as nat)
    }
}

/// A multiset of rows after all deletions of a list.
pub open spec fn without_all(
    table: Multiset<RowModel>,
    removed: Seq<(RowModel, u64)>,
) -> Multiset<RowModel>
    decreases removed.len(),
{
    if removed.len() == 0 {
        table
    } else {
        let (row, n) = removed.last();
        without_copies(without_all(table, removed.drop_last()), row, n as nat)
    }
}

/// A table after an unkeyed plan: the rows to insert come in, then the copies to delete go.
pub open spec fn after_unkeyed_plan(
    table: Multiset<RowModel>,
    to_insert: Seq<RowModel>,
    to_delete: Seq<(RowModel, u64)>,
) -> Multiset<RowModel> {
    without_all(table.add(to_insert.to_multiset()), to_delete)
}

/// Counting and multiplicity agree.
proof fn lemma_count_is_multiplicity(list: Seq<RowModel>, row: RowModel)
    ensures
        list.to_multiset().count(row) == count(list, row),
    decreases list.len(),
{
    broadcast use group_to_multiset_ensures;

    if list.len() > 0 {
        lemma_count_is_multiplicity(list.drop_last(), row);
        assert(list.drop_last().push(list.last()) =~= list);
    }
}

/// How often a row is left after deletions of one row.
proof fn lemma_without_copies(table: Multiset<RowModel>, row: RowModel, n: nat, other: RowModel)
    ensures
        without_copies(table, row, n).count(other) == (if other != row {
            table.count(other)
        } else if table.count(other) >= n {
            (table.count(other) - n) as nat
        } else {
            0
        }),
    decreases n,
{
    if n > 0 {
        lemma_without_copies(table.remove(row), row, (n - 1) as nat, other);
    }
}

/// How many copies of a row a list of deletions asks for, where no row is listed twice.
proof fn lemma_without_all(
    table: Multiset<RowModel>,
    removed: Seq<(RowModel, u64)>,
    row: RowModel,
    n: nat,
)
    requires
        forall|i: int, j: int|
            0 <= i < j < removed.len() ==> (#[trigger] removed[i]).0 != (#[trigger] removed[j]).0,
        forall|i: int| 0 <= i < removed.len() && (#[trigger] removed[i]).0 == row ==> removed[i].1 == n,
        n > 0 ==> exists|i: int| 0 <= i < removed.len() && (#[trigger] removed[i]).0 == row,
        n <= table.count(row),
    ensures
        without_all(table, removed).count(row) == table.count(row) - n,
    decreases removed.len(),
{
    if removed.len() > 0 {
        let rest = removed.drop_last();
        let (r, m) = removed.last();
        assert(removed[removed.len() - 1] == (r, m));
        assert forall|i: int, j: int| 0 <= i < j < rest.len() implies (#[trigger] rest[i]).0 != (
        #[trigger] rest[j]).0 by {
            assert(removed[i].0 != removed[j].0);
        }
        lemma_without_copies(without_all(table, rest), r, m as nat, row);
        if r == row {
            assert forall|i: int| 0 <= i < rest.len() implies (#[trigger] rest[i]).0 != row by {
                assert(removed[i].0 != removed[removed.len() - 1].0);
            }
            lemma_without_all(table, rest, row, 0);
        } else {
            if n > 0 {
                let i = choose|i: int| 0 <= i < removed.len() && (#[trigger] removed[i]).0 == row;
                assert(rest[i].0 == row);
            }
            assert forall|i: int|
                0 <= i < rest.len() && (#[trigger] rest[i]).0 == row implies rest[i].1 == n by {
                assert(removed[i] == rest[i]);
            }
            lemma_without_all(table, rest, row, n);
        }
    }
}

/// How often a row is left by an unkeyed plan.
proof fn lemma_unkeyed_plan(
    local: Seq<RowModel>,
    dump: Seq<RowModel>,
    to_insert: Seq<RowModel>,
    to_delete: Seq<(RowModel, u64)>,
    row: RowModel,
)
    requires
        local.len() <= u64::MAX,
        unkeyed_inserts(local, dump, to_insert),
        unkeyed_deletes(local, dump, to_delete),
    ensures
        after_unkeyed_plan(local.to_multiset(), to_insert, to_delete).count(row) == count(dump, row),
{
    lemma_count_is_multiplicity(local, row);
    lemma_count_is_multiplicity(to_insert, row);
    assert(count(to_insert, row) == surplus(dump, local, row));
    let n = surplus(local, dump, row);
    let table = local.to_multiset().add(to_insert.to_multiset());
    lemma_count_bound(local, row);
    assert forall|i: int| 0 <= i < to_delete.len() && (#[trigger] to_delete[i]).0
        == row implies to_delete[i].1 == n by {
        assert(to_delete.contains((row, to_delete[i].1)));
    }
    if n > 0 {
        assert(to_delete.contains((row, n as u64)));
        let i = choose|i: int| 0 <= i < to_delete.len() && to_delete[i] == (row, n as u64);
        assert(to_delete[i].0 == row);
    }
    lemma_without_all(table, to_delete, row, n);
}

/// A row occurs at most as often as there are rows.
proof fn lemma_count_bound(list: Seq<RowModel>, row: RowModel)
    ensures
        count(list, row) <= list.len(),
    decreases list.len(),
{
    if list.len() > 0 {
        lemma_count_bound(list.drop_last(), row);
    }
}

/// An unkeyed plan, applied to the table it was computed from, leaves exactly the rows of the dump,
/// each as often as the dump has it. The length of the table is bounded because counts have 64
/// bits.
pub proof fn unkeyed_plan_reaches_the_dump(
    local: Seq<RowModel>,
    dump: Seq<RowModel>,
    to_insert: Seq<RowModel>,
    to_delete: Seq<(RowModel, u64)>,
)
    requires
        local.len() <= u64::MAX,
        unkeyed_inserts(local, dump, to_insert),
        unkeyed_deletes(local, dump, to_delete),
    ensures
        after_unkeyed_plan(local.to_multiset(), to_insert, to_delete) == dump.to_multiset(),
{
    let after = after_unkeyed_plan(local.to_multiset(), to_insert, to_delete);
    assert forall|row: RowModel| #[trigger] after.count(row) == dump.to_multiset().count(row) by {
        lemma_unkeyed_plan(local, dump, to_insert, to_delete, row);
        lemma_count_is_multiplicity(dump, row);
    }
    assert(after =~= dump.to_multiset());
}

/// An unkeyed plan touches only what differs: no row is both inserted and deleted, and one that
/// occurs as often as in the dump is neither.
pub proof fn unkeyed_plan_touches_only_differences(
    local: Seq<RowModel>,
    dump: Seq<RowModel>,
    to_insert: Seq<RowModel>,
    to_delete: Seq<(RowModel, u64)>,
    row: RowModel,
    n: u64,
)
    requires
        unkeyed_inserts(local, dump, to_insert),
        unkeyed_deletes(local, dump, to_delete),
    ensures
        !(to_insert.contains(row) && to_delete.contains((row, n))),
        count(local, row) == count(dump, row) ==> !to_insert.contains(row) && !to_delete.contains(
            (row, n),
        ),
{
    broadcast use group_to_multiset_ensures;

    assert(count(to_insert, row) == surplus(dump, local, row));
    lemma_count_is_multiplicity(to_insert, row);
    assert(to_insert.contains(row) <==> to_insert.to_multiset().count(row) > 0);
}

/// A table that has the rows of the dump already, each as often, gets an empty plan.
pub proof fn unkeyed_plan_is_empty_when_nothing_changed(
    local: Seq<RowModel>,
    dump: Seq<RowModel>,
    to_insert: Seq<RowModel>,
    to_delete: Seq<(RowModel, u64)>,
)
    requires
        unkeyed_inserts(local, dump, to_insert),
        unkeyed_deletes(local, dump, to_delete),
        local.to_multiset() == dump.to_multiset(),
    ensures
        to_insert.len() == 0,
        to_delete.len() == 0,
        total(to_delete) == 0,
{
    if to_insert.len() > 0 {
        let row = to_insert[0];
        lemma_count_is_multiplicity(local, row);
        lemma_count_is_multiplicity(dump, row);
        unkeyed_plan_touches_only_differences(local, dump, to_insert, to_delete, row, 0);
        assert(to_insert.contains(row));
    }
    if to_delete.len() > 0 {
        let (row, n) = to_delete[0];
        lemma_count_is_multiplicity(local, row);
        lemma_count_is_multiplicity(dump, row);
        unkeyed_plan_touches_only_differences(local, dump, to_insert, to_delete, row, n);
        assert(to_delete.contains((row, n)));
    }
}

/// A second run against the same dump has nothing to do: where the rows of the table are those that
/// an unkeyed plan left, the plan for them is empty.
pub proof fn unkeyed_sync_is_idempotent(
    local: Seq<RowModel>,
    dump: Seq<RowModel>,
    to_insert: Seq<RowModel>,
    to_delete: Seq<(RowModel, u64)>,
    synced: Seq<RowModel>,
    insert_again: Seq<RowModel>,
    delete_again: Seq<(RowModel, u64)>,
)
    requires
        local.len() <= u64::MAX,
        unkeyed_inserts(local, dump, to_insert),
        unkeyed_deletes(local, dump, to_delete),
        synced.to_multiset() == after_unkeyed_plan(local.to_multiset(), to_insert, to_delete),
        unkeyed_inserts(synced, dump, insert_again),
        unkeyed_deletes(synced, dump, delete_again),
    ensures
        insert_again.len() == 0,
        delete_again.len() == 0,
{
    unkeyed_plan_reaches_the_dump(local, dump, to_insert, to_delete);
    unkeyed_plan_is_empty_when_nothing_changed(synced, dump, insert_again, delete_again);
}

/// The plan of a table brings its rows to those of the dump: by key where the table has one, and as a
/// multiset of whole rows where it has none.
pub proof fn table_plan_reaches_the_dump(
    plan: PlanModel,
    schema: SchemaModel,
    local: Seq<RowModel>,
    dump: Seq<RowModel>,
)
    requires
        is_table_plan(plan, schema, false, local, dump),
        local.len() <= u64::MAX,
        schema.key() matches Some(key) ==> distinct_keys(dump, key_places(schema, key)->0),
    ensures
        match (schema.key(), plan) {
            (Some(key), PlanModel::Keyed { to_insert, to_update, delete_keys }) => {
                let idx = key_places(schema, key)->0;
                after_keyed_plan(by_key(local, idx), idx, to_insert, to_update, delete_keys)
                    == by_key(dump, idx)
            },
            (None, PlanModel::Unkeyed { to_insert, to_delete }) => after_unkeyed_plan(
                local.to_multiset(),
                to_insert,
                to_delete,
            ) == dump.to_multiset(),
            _ => false,
        },
{
    match (schema.key(), plan) {
        (Some(key), PlanModel::Keyed { to_insert, to_update, delete_keys }) => {
            keyed_plan_reaches_the_dump(key_places(schema, key)->0, local, dump, delete_keys);
        },
        (None, PlanModel::Unkeyed { to_insert, to_delete }) => {
            unkeyed_plan_reaches_the_dump(local, dump, to_insert, to_delete);
        },
        _ => {},
    }
}

} // verus!
