//! What schemas are compared for: which key identifies rows, which tables count as the same, and what
//! a schema plan does to each table.

use vstd::prelude::*;

use crate::ddl::{column_from, ColumnModel, DefaultModel, SchemaModel};
use crate::plan::{total, PlanModel};
use crate::sqltext::quoted;
use crate::sync::{
    after_ddl, ambiguous_key_message, column_place, ddl_statements, drifted_key_message, fate,
    is_ddl_plan, is_key_problem, key_places, key_problem, rebuild_statements,
    schema_plan_reaches_the_dump, with_fate, without_dropped, DdlModel, Fate, Schemas,
};
use crate::text::lossy_text;

verus! {

/// `i` is where a name first occurs among columns.
pub open spec fn is_first_place(columns: Seq<ColumnModel>, name: Seq<char>, i: int) -> bool {
    &&& 0 <= i < columns.len()
    &&& columns[i].name == name
    &&& forall|j: int| 0 <= j < i ==> (#[trigger] columns[j]).name != name
}

/// The name is that of a column which is never NULL.
pub open spec fn names_required_column(columns: Seq<ColumnModel>, name: Seq<char>) -> bool {
    exists|i: int| #[trigger] is_first_place(columns, name, i) && !columns[i].nullable
}

/// Every name of a key is that of a column which is never NULL.
pub open spec fn is_required_key(columns: Seq<ColumnModel>, key: Seq<Seq<char>>) -> bool {
    forall|k: int| 0 <= k < key.len() ==> names_required_column(columns, #[trigger] key[k])
}

/// The column that a name finds is the first one of that name.
proof fn lemma_column_from(schema: SchemaModel, name: Seq<char>, from: int)
    requires
        0 <= from <= schema.columns.len(),
        forall|j: int| 0 <= j < from ==> (#[trigger] schema.columns[j]).name != name,
    ensures
        match column_from(schema.columns, name, from) {
            Some(c) => exists|i: int| #[trigger]
                is_first_place(schema.columns, name, i) && schema.columns[i] == c,
            None => forall|j: int|
                0 <= j < schema.columns.len() ==> (#[trigger] schema.columns[j]).name != name,
        },
    decreases schema.columns.len() - from,
{
    if from < schema.columns.len() {
        if schema.columns[from].name == name {
            assert(is_first_place(schema.columns, name, from));
        } else {
            lemma_column_from(schema, name, from + 1);
        }
    }
}

/// A name that finds a column which is never NULL is that of a required column.
proof fn lemma_required(schema: SchemaModel, name: Seq<char>)
    ensures
        (schema.column(name) matches Some(c) && !c.nullable) <==> names_required_column(
            schema.columns,
            name,
        ),
{
    lemma_column_from(schema, name, 0);
    if names_required_column(schema.columns, name) {
        let i = choose|i: int| #[trigger]
            is_first_place(schema.columns, name, i) && !schema.columns[i].nullable;
        assert(schema.columns[i].name == name);
        let c = schema.column(name)->0;
        let k = choose|k: int| #[trigger]
            is_first_place(schema.columns, name, k) && schema.columns[k] == c;
        assert(i == k) by {
            if i < k {
                assert(schema.columns[i].name != name);
            }
            if k < i {
                assert(schema.columns[k].name != name);
            }
        }
    }
}

/// A key that is never NULL is one of required columns.
proof fn lemma_never_null(schema: SchemaModel, key: Seq<Seq<char>>)
    ensures
        schema.never_null(key) <==> is_required_key(schema.columns, key),
{
    assert forall|k: int| 0 <= k < key.len() implies (schema.column(#[trigger] key[k]) matches Some(
        c,
    ) && !c.nullable) == names_required_column(schema.columns, key[k]) by {
        lemma_required(schema, key[k]);
    }
    if schema.never_null(key) {
        assert forall|k: int| 0 <= k < key.len() implies names_required_column(
            schema.columns,
            #[trigger] key[k],
        ) by {
            lemma_required(schema, key[k]);
        }
    }
    if is_required_key(schema.columns, key) {
        assert forall|k: int| 0 <= k < key.len() implies (schema.column(
            #[trigger] key[k],
        ) matches Some(c) && !c.nullable) by {
            lemma_required(schema, key[k]);
            assert(names_required_column(schema.columns, key[k]));
        }
    }
}

/// The first usable unique key from the `i`-th on.
proof fn lemma_usable_unique_key(schema: SchemaModel, i: int)
    requires
        0 <= i <= schema.unique_keys.len(),
    ensures
        match schema.usable_unique_key(i) {
            Some(key) => exists|u: int|
                i <= u < schema.unique_keys.len() && #[trigger] schema.unique_keys[u] == key
                    && is_required_key(schema.columns, key) && forall|v: int|
                    i <= v < u ==> !is_required_key(schema.columns, #[trigger] schema.unique_keys[v]),
            None => forall|v: int|
                i <= v < schema.unique_keys.len() ==> !is_required_key(
                    schema.columns,
                    #[trigger] schema.unique_keys[v],
                ),
        },
    decreases schema.unique_keys.len() - i,
{
    if i < schema.unique_keys.len() {
        lemma_never_null(schema, schema.unique_keys[i]);
        if schema.never_null(schema.unique_keys[i]) {
            assert(schema.unique_keys[i] == schema.usable_unique_key(i)->0);
        } else {
            lemma_usable_unique_key(schema, i + 1);
            if let Some(key) = schema.usable_unique_key(i + 1) {
                let u = choose|u: int|
                    i + 1 <= u < schema.unique_keys.len() && #[trigger] schema.unique_keys[u] == key
                        && is_required_key(schema.columns, key) && forall|v: int|
                        i + 1 <= v < u ==> !is_required_key(
                            schema.columns,
                            #[trigger] schema.unique_keys[v],
                        );
                assert forall|v: int| i <= v < u implies !is_required_key(
                    schema.columns,
                    #[trigger] schema.unique_keys[v],
                ) by {
                    if v > i {
                        assert(!is_required_key(schema.columns, schema.unique_keys[v]));
                    }
                }
                assert(schema.unique_keys[u] == key);
            }
        }
    }
}

/// Rows are identified by the primary key where there is one. Else they are by the first unique key
/// all of whose columns exist and are never NULL; where every unique key names a column that is missing
/// or may be NULL, by none.
pub proof fn rows_are_identified_by_the_best_key(schema: SchemaModel)
    ensures
        schema.primary_key.len() > 0 ==> schema.key() == Some(schema.primary_key),
        schema.primary_key.len() == 0 ==> match schema.key() {
            Some(key) => exists|u: int|
                0 <= u < schema.unique_keys.len() && #[trigger] schema.unique_keys[u] == key
                    && is_required_key(schema.columns, key) && forall|v: int|
                    0 <= v < u ==> !is_required_key(schema.columns, #[trigger] schema.unique_keys[v]),
            None => forall|v: int|
                0 <= v < schema.unique_keys.len() ==> !is_required_key(
                    schema.columns,
                    #[trigger] schema.unique_keys[v],
                ),
        },
{
    lemma_usable_unique_key(schema, 0);
}

/// The key is the only one exactly where there is a primary key and no unique key, or no primary key
/// and a single unique key, whose columns are never NULL.
pub proof fn only_keys_have_no_rival(schema: SchemaModel)
    ensures
        schema.primary_key.len() > 0 && schema.unique_keys.len() == 0 ==> schema.only_key() == Some(
            schema.primary_key,
        ),
        schema.primary_key.len() > 0 && schema.unique_keys.len() > 0 ==> schema.only_key() is None,
        schema.primary_key.len() == 0 && schema.unique_keys.len() == 1 ==> schema.only_key() == (
        if is_required_key(schema.columns, schema.unique_keys[0]) {
            Some(schema.unique_keys[0])
        } else {
            None
        }),
        schema.primary_key.len() == 0 && schema.unique_keys.len() != 1 ==> schema.only_key() is None,
{
    lemma_usable_unique_key(schema, 0);
}

/// Two tables agree in the names, the types and the nullability of their columns, in order, and in their
/// primary keys.
pub open spec fn is_same_table(a: SchemaModel, b: SchemaModel) -> bool {
    &&& a.columns.len() == b.columns.len()
    &&& forall|i: int|
        0 <= i < a.columns.len() ==> {
            &&& (#[trigger] a.columns[i]).name == b.columns[i].name
            &&& a.columns[i].data_type == b.columns[i].data_type
            &&& a.columns[i].nullable == b.columns[i].nullable
        }
    &&& a.primary_key.len() == b.primary_key.len()
    &&& forall|k: int|
        0 <= k < a.primary_key.len() ==> #[trigger] a.primary_key[k] == b.primary_key[k]
}

/// Two schemas have the same shape exactly where their tables agree: nothing that affects rows is left
/// out of it, and nothing else is in it.
pub proof fn shapes_are_equal_where_tables_agree(a: SchemaModel, b: SchemaModel)
    ensures
        a.shape() == b.shape() <==> is_same_table(a, b),
{
    if a.shape() == b.shape() {
        assert(a.shape().0.len() == b.shape().0.len());
        assert forall|i: int| 0 <= i < a.columns.len() implies {
            &&& (#[trigger] a.columns[i]).name == b.columns[i].name
            &&& a.columns[i].data_type == b.columns[i].data_type
            &&& a.columns[i].nullable == b.columns[i].nullable
        } by {
            assert(a.shape().0[i] == b.shape().0[i]);
        }
    }
    if is_same_table(a, b) {
        assert forall|i: int| 0 <= i < a.columns.len() implies a.shape().0[i] == b.shape().0[i] by {
            assert(a.columns[i].name == b.columns[i].name);
        }
        assert(a.shape().0 =~= b.shape().0);
        assert(a.primary_key =~= b.primary_key);
    }
}

/// The names of the columns are those of the columns, one by one.
pub proof fn column_names_follow_the_columns(schema: SchemaModel, i: int)
    requires
        0 <= i < schema.columns.len(),
    ensures
        schema.column_names().len() == schema.columns.len(),
        schema.column_names()[i] == schema.columns[i].name,
{
}

/// A column that a row leaves out gets its literal default, and NULL where it has none.
pub proof fn omitted_columns_get_their_literal(d: DefaultModel)
    ensures
        d matches DefaultModel::Literal(value) ==> d.resolved() == value,
        d is Absent || d is Expression ==> d.resolved() is None,
{
}

/// The place of a name from `i` on.
proof fn lemma_place(columns: Seq<ColumnModel>, name: Seq<char>, i: int)
    requires
        0 <= i <= columns.len(),
        forall|j: int| 0 <= j < i ==> (#[trigger] columns[j]).name != name,
    ensures
        match column_place(columns, name, i) {
            Some(p) => is_first_place(columns, name, p),
            None => forall|j: int| 0 <= j < columns.len() ==> (#[trigger] columns[j]).name != name,
        },
    decreases columns.len() - i,
{
    if i < columns.len() && columns[i].name != name {
        lemma_place(columns, name, i + 1);
    }
}

/// A row's key is read where the key's columns stand: one place per column of the key, in the order of
/// the key. There are such places exactly where all these columns exist.
pub proof fn key_places_are_those_of_the_columns(schema: SchemaModel, key: Seq<Seq<char>>, k: int)
    requires
        0 <= k < key.len(),
    ensures
        key_places(schema, key) matches Some(idx) ==> idx.len() == key.len() && is_first_place(
            schema.columns,
            key[k],
            idx[k],
        ),
        (forall|j: int|
            0 <= j < key.len() ==> exists|i: int|
                0 <= i < schema.columns.len() && (#[trigger] schema.columns[i]).name
                    == #[trigger] key[j]) ==> key_places(schema, key) is Some,
{
    lemma_place(schema.columns, key[k], 0);
    if forall|j: int|
        0 <= j < key.len() ==> exists|i: int|
            0 <= i < schema.columns.len() && (#[trigger] schema.columns[i]).name
                == #[trigger] key[j] {
        assert forall|j: int| 0 <= j < key.len() implies column_place(
            schema.columns,
            #[trigger] key[j],
            0,
        ) is Some by {
            lemma_place(schema.columns, key[j], 0);
            let i = choose|i: int|
                0 <= i < schema.columns.len() && (#[trigger] schema.columns[i]).name == key[j];
            assert(schema.columns[i].name == key[j]);
        }
    }
}

/// The names with a fate are those of the order that have it, in that order.
proof fn lemma_with_fate_filters(
    dump: Schemas,
    local: Schemas,
    order: Seq<Seq<char>>,
    f: Fate,
    p: spec_fn(Seq<char>) -> bool,
)
    requires
        forall|name: Seq<char>| #[trigger] p(name) == (fate(dump, local, name) == f),
    ensures
        with_fate(dump, local, order, f) == order.filter(p),
    decreases order.len(),
{
    reveal(Seq::filter);
    if order.len() > 0 {
        lemma_with_fate_filters(dump, local, order.drop_last(), f, p);
        assert(p(order.last()) == (fate(dump, local, order.last()) == f));
    }
}

/// A schema plan creates exactly the tables of the dump that the database does not have, rebuilds
/// exactly those that it has with other columns or another primary key, and keeps exactly those that
/// agree, each list in the order of the dump.
pub proof fn tables_get_what_they_need(
    plan: DdlModel,
    dump: Schemas,
    order: Seq<Seq<char>>,
    local: Schemas,
)
    requires
        is_ddl_plan(plan, dump, order, local),
    ensures
        plan.to_create == order.filter(|name: Seq<char>| !local.contains_key(name)),
        plan.to_rebuild == order.filter(
            |name: Seq<char>| local.contains_key(name) && !is_same_table(dump[name], local[name]),
        ),
        plan.unchanged == order.filter(
            |name: Seq<char>| local.contains_key(name) && is_same_table(dump[name], local[name]),
        ),
        forall|name: Seq<char>| #[trigger]
            plan.to_drop.contains(name) <==> local.contains_key(name) && !dump.contains_key(name),
        plan.to_drop.no_duplicates(),
{
    let create = |name: Seq<char>| !local.contains_key(name);
    let rebuild = |name: Seq<char>|
        local.contains_key(name) && !is_same_table(dump[name], local[name]);
    let keep = |name: Seq<char>|
        local.contains_key(name) && is_same_table(dump[name], local[name]);
    assert forall|name: Seq<char>| #[trigger] rebuild(name) == (fate(dump, local, name)
        == Fate::Rebuild) by {
        shapes_are_equal_where_tables_agree(dump[name], local[name]);
    }
    assert forall|name: Seq<char>| #[trigger] keep(name) == (fate(dump, local, name)
        == Fate::Keep) by {
        shapes_are_equal_where_tables_agree(dump[name], local[name]);
    }
    lemma_with_fate_filters(dump, local, order, Fate::Create, create);
    lemma_with_fate_filters(dump, local, order, Fate::Rebuild, rebuild);
    lemma_with_fate_filters(dump, local, order, Fate::Keep, keep);
}

/// After its schema plan the database has exactly the tables of the dump, and each of them agrees with
/// that of the dump in its columns and its primary key.
pub proof fn tables_agree_after_the_plan(
    plan: DdlModel,
    dump: Schemas,
    order: Seq<Seq<char>>,
    local: Schemas,
    name: Seq<char>,
)
    requires
        is_ddl_plan(plan, dump, order, local),
        forall|n: Seq<char>| #[trigger] dump.contains_key(n) <==> order.contains(n),
    ensures
        after_ddl(local, dump, plan).contains_key(name) <==> dump.contains_key(name),
        dump.contains_key(name) ==> is_same_table(
            after_ddl(local, dump, plan)[name],
            dump[name],
        ),
{
    schema_plan_reaches_the_dump(plan, dump, order, local, name);
    shapes_are_equal_where_tables_agree(after_ddl(local, dump, plan)[name], dump[name]);
}

/// Statements that drop and create tables stand in pairs.
proof fn lemma_rebuild_pairs(dump: Schemas, names: Seq<Seq<char>>, k: int)
    requires
        0 <= k < names.len(),
    ensures
        rebuild_statements(dump, names).len() == 2 * names.len(),
        rebuild_statements(dump, names)[2 * k] == "DROP TABLE "@ + quoted(names[k]),
        rebuild_statements(dump, names)[2 * k + 1] == lossy_text(dump[names[k]].raw_statement),
    decreases names.len(),
{
    let less = names.drop_last();
    lemma_rebuild_len(dump, less);
    if k < less.len() {
        lemma_rebuild_pairs(dump, less, k);
        assert(less[k] == names[k]);
    }
}

/// There are two statements for each table to rebuild.
proof fn lemma_rebuild_len(dump: Schemas, names: Seq<Seq<char>>)
    ensures
        rebuild_statements(dump, names).len() == 2 * names.len(),
    decreases names.len(),
{
    if names.len() > 0 {
        lemma_rebuild_len(dump, names.drop_last());
    }
}

/// A dry run executes no schema statement. Otherwise every table to drop is dropped, every table to
/// rebuild is dropped and then created by the dump's own statement, and every table to create is
/// created by that statement, each once and in this order.
pub proof fn schema_statements_carry_out_the_plan(dump: Schemas, plan: DdlModel, k: int)
    ensures
        ddl_statements(dump, plan, true).len() == 0,
        ({
            let list = ddl_statements(dump, plan, false);
            let drops = plan.to_drop.len() as int;
            let rebuilds = 2 * plan.to_rebuild.len();
            &&& list.len() == drops + rebuilds + plan.to_create.len()
            &&& 0 <= k < plan.to_drop.len() ==> list[k] == "DROP TABLE "@ + quoted(plan.to_drop[k])
            &&& 0 <= k < plan.to_rebuild.len() ==> {
                &&& list[drops + 2 * k] == "DROP TABLE "@ + quoted(plan.to_rebuild[k])
                &&& list[drops + 2 * k + 1] == lossy_text(
                    dump[plan.to_rebuild[k]].raw_statement,
                )
            }
            &&& 0 <= k < plan.to_create.len() ==> list[drops + rebuilds + k] == lossy_text(
                dump[plan.to_create[k]].raw_statement,
            )
        }),
{
    lemma_rebuild_len(dump, plan.to_rebuild);
    if 0 <= k < plan.to_rebuild.len() {
        lemma_rebuild_pairs(dump, plan.to_rebuild, k);
        let list = ddl_statements(dump, plan, false);
        let all = rebuild_statements(dump, plan.to_rebuild);
        let drops = plan.to_drop.len() as int;
        assert(list[drops + 2 * k] == all[2 * k]);
        assert(list[drops + 2 * k + 1] == all[2 * k + 1]);
    }
}

/// The tables whose rows are synced are those of the order that are not dropped, in that order.
pub proof fn synced_tables_are_those_not_dropped(
    order: Seq<Seq<char>>,
    to_drop: Seq<Seq<char>>,
)
    ensures
        without_dropped(order, to_drop) == order.filter(
            |name: Seq<char>| !to_drop.contains(name),
        ),
    decreases order.len(),
{
    reveal(Seq::filter);
    if order.len() > 0 {
        synced_tables_are_those_not_dropped(order.drop_last(), to_drop);
    }
}

/// The table can be told apart by one key only: a primary key without unique keys, or a single unique key
/// whose columns are never NULL.
pub open spec fn sole_key(schema: SchemaModel) -> Option<Seq<Seq<char>>> {
    if schema.primary_key.len() > 0 {
        if schema.unique_keys.len() == 0 {
            Some(schema.primary_key)
        } else {
            None
        }
    } else if schema.unique_keys.len() == 1 && is_required_key(
        schema.columns,
        schema.unique_keys[0],
    ) {
        Some(schema.unique_keys[0])
    } else {
        None
    }
}

/// Some key of the table is never NULL.
pub open spec fn has_usable_key(schema: SchemaModel) -> bool {
    schema.primary_key.len() > 0 || exists|u: int|
        0 <= u < schema.unique_keys.len() && is_required_key(
            schema.columns,
            #[trigger] schema.unique_keys[u],
        )
}

/// A table is refused exactly where an upsert could go wrong: it has a usable key, and that is not its
/// only key, or the table is neither created nor rebuilt and the database does not have just the same
/// key. A table without a usable key is never refused.
pub proof fn tables_are_refused_where_keys_are_unsafe(
    schema: SchemaModel,
    local: Schemas,
    plan: DdlModel,
    name: Seq<char>,
)
    ensures
        !has_usable_key(schema) ==> key_problem(schema, local, plan, name) is None,
        has_usable_key(schema) && sole_key(schema) is None ==> key_problem(
            schema,
            local,
            plan,
            name,
        ) == Some(ambiguous_key_message(name)),
        has_usable_key(schema) && sole_key(schema) is Some ==> {
            let fresh = plan.to_create.contains(name) || plan.to_rebuild.contains(name);
            let same = local.contains_key(name) && sole_key(local[name]) == sole_key(schema);
            key_problem(schema, local, plan, name) == if fresh || same {
                None
            } else {
                Some(drifted_key_message(name))
            }
        },
{
    rows_are_identified_by_the_best_key(schema);
    only_keys_have_no_rival(schema);
    only_keys_have_no_rival(local[name]);
    assert(sole_key(schema) == schema.only_key());
    assert(sole_key(local[name]) == local[name].only_key());
    if has_usable_key(schema) && schema.primary_key.len() == 0 {
        let u = choose|u: int|
            0 <= u < schema.unique_keys.len() && is_required_key(
                schema.columns,
                #[trigger] schema.unique_keys[u],
            );
        assert(is_required_key(schema.columns, schema.unique_keys[u]));
        assert(schema.key() is Some);
    }
    if schema.key() is Some && schema.primary_key.len() == 0 {
        let u = choose|u: int|
            0 <= u < schema.unique_keys.len() && #[trigger] schema.unique_keys[u]
                == schema.key()->0 && is_required_key(schema.columns, schema.key()->0);
        assert(is_required_key(schema.columns, schema.unique_keys[u]));
        assert(has_usable_key(schema));
    }
}

/// An upsert into the table could go wrong: it has a usable key, but not as its only one, or it is neither
/// created nor rebuilt and the database does not have just the same key.
pub open spec fn is_unsafe(schema: SchemaModel, local: Schemas, plan: DdlModel, name: Seq<char>) -> bool {
    &&& has_usable_key(schema)
    &&& sole_key(schema) is None || !(plan.to_create.contains(name) || plan.to_rebuild.contains(name)
        || local.contains_key(name) && sole_key(local[name]) == sole_key(schema))
}

/// Every unsafe table of the dump is reported, by a message that starts with its name, and nothing is
/// reported but that.
pub proof fn every_unsafe_table_is_reported(
    dump: Schemas,
    local: Schemas,
    plan: DdlModel,
    name: Seq<char>,
    message: Seq<char>,
)
    ensures
        dump.contains_key(name) && is_unsafe(dump[name], local, plan, name) ==> is_key_problem(
            dump,
            local,
            plan,
            if sole_key(dump[name]) is None {
                ambiguous_key_message(name)
            } else {
                drifted_key_message(name)
            },
        ),
        is_key_problem(dump, local, plan, message) ==> exists|table: Seq<char>|
            {
                &&& #[trigger] dump.contains_key(table)
                &&& is_unsafe(dump[table], local, plan, table)
                &&& table.len() < message.len()
                &&& message.take(table.len() as int) == table
            },
        ambiguous_key_message(name) != drifted_key_message(name),
{
    reveal_strlit(
        ": has more than one primary/unique key candidate — mysync can't tell which one INSERT ... ON DUPLICATE KEY UPDATE will actually conflict on",
    );
    reveal_strlit(
        ": primary/unique key differs between the dump and the local database — the key mysync would sync by isn't actually enforced locally",
    );
    let n = name.len() as int;
    assert(ambiguous_key_message(name)[n + 2] == 'h');
    assert(drifted_key_message(name)[n + 2] == 'p');
    tables_are_refused_where_keys_are_unsafe(dump[name], local, plan, name);
    if is_key_problem(dump, local, plan, message) {
        let table = choose|table: Seq<char>| #[trigger]
            dump.contains_key(table) && key_problem(dump[table], local, plan, table) == Some(message);
        tables_are_refused_where_keys_are_unsafe(dump[table], local, plan, table);
        assert(message.take(table.len() as int) =~= table);
    }
}

/// The counts of a plan are those of its rows: what is new, what changes, and what goes, with every copy
/// of a row that goes.
pub proof fn counts_are_those_of_the_rows(plan: PlanModel)
    ensures
        plan matches PlanModel::New { rows } ==> plan.inserted() == rows.len() && plan.updated() == 0
            && plan.deleted() == 0,
        plan matches PlanModel::Keyed { to_insert, to_update, delete_keys } ==> plan.inserted()
            == to_insert.len() && plan.updated() == to_update.len() && plan.deleted()
            == delete_keys.len(),
        plan matches PlanModel::Unkeyed { to_insert, to_delete } ==> plan.inserted()
            == to_insert.len() && plan.updated() == 0 && plan.deleted() == to_delete.fold_left(
            0nat,
            |sum: nat, e: (Seq<Option<Seq<u8>>>, u64)| sum + e.1 as nat,
        ),
{
    if let PlanModel::Unkeyed { to_insert, to_delete } = plan {
        lemma_total_folds(to_delete);
    }
}

/// The sum of counts is a fold.
proof fn lemma_total_folds(list: Seq<(Seq<Option<Seq<u8>>>, u64)>)
    ensures
        total(list) == list.fold_left(
            0nat,
            |sum: nat, e: (Seq<Option<Seq<u8>>>, u64)| sum + e.1 as nat,
        ),
    decreases list.len(),
{
    reveal(Seq::fold_left);
    if list.len() > 0 {
        lemma_total_folds(list.drop_last());
    }
}

} // verus!
