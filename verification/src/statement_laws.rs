//! What the statements of a plan do: executed one after the other they carry the plan out.

use vstd::prelude::*;
use vstd::multiset::Multiset;

use crate::convergence::{
    after_keyed_plan, after_unkeyed_plan, by_key, distinct_keys, keyed_plan_reaches_the_dump,
    lemma_last_with_key, unkeyed_plan_reaches_the_dump, upserted, without_all, without_copies,
};
use crate::ddl::SchemaModel;
use crate::diff::{count, key_of, keyed_inserts, keyed_updates, last_with, surplus};
use crate::dml::{
    all_params, assignment, assignments, batch_size, bound, chunks, conditions,
    delete_copies_statement, delete_copies_statements, delete_statement, delete_statements, firsts,
    flat, insert_statement, insert_statements, insert_statements_bind_every_row, lemma_flat_concat,
    non_key, paired, plan_statements, present, rows_have_width, select_sql, update_clause,
    upsert_statements, StatementModel, MAX_PLACEHOLDERS,
};
use crate::plan::PlanModel;
use crate::rows::RowModel;
use crate::sqltext::{
    decimal_text, decimal_text_reads_back, doubled, joined, name_list, quoted, repeated,
    tuple_marks,
};
use crate::sync::{is_table_plan, key_places};
use crate::table_laws::{is_first_place, key_places_are_those_of_the_columns};


verus! {

/// A quoted identifier is the backtick, the characters of the name, and the backtick again; a backtick
/// in the name stands twice. Two names one after the other are quoted as their characters are.
pub proof fn identifiers_hold_the_characters_of_the_name(a: Seq<char>, b: Seq<char>, c: char)
    ensures
        quoted(Seq::empty()) == seq!['`', '`'],
        c != '`' ==> quoted(seq![c]) == seq!['`', c, '`'],
        quoted(seq!['`']) == seq!['`', '`', '`', '`'],
        quoted(a + b) == quoted(a).drop_last() + quoted(b).skip(1),
    decreases b.len(),
{
    assert(quoted(Seq::empty()) =~= seq!['`', '`']);
    let one = seq![c];
    assert(one.drop_last() =~= Seq::empty());
    assert(doubled(one.drop_last()) == Seq::<char>::empty());
    if c != '`' {
        assert(quoted(one) =~= seq!['`', c, '`']);
    }
    let tick = seq!['`'];
    assert(tick.drop_last() =~= Seq::empty());
    assert(doubled(tick.drop_last()) == Seq::<char>::empty());
    assert(quoted(tick) =~= seq!['`', '`', '`', '`']);
    lemma_doubled_concat(a, b);
    assert(quoted(a + b) =~= quoted(a).drop_last() + quoted(b).skip(1));
}

/// Doubling goes character by character.
proof fn lemma_doubled_concat(a: Seq<char>, b: Seq<char>)
    ensures
        doubled(a + b) == doubled(a) + doubled(b),
    decreases b.len(),
{
    if b.len() > 0 {
        assert((a + b).drop_last() =~= a + b.drop_last());
        lemma_doubled_concat(a, b.drop_last());
        assert(doubled(a + b) =~= doubled(a) + doubled(b));
    } else {
        assert(a + b =~= a);
        assert(doubled(a) + doubled(b) =~= doubled(a));
    }
}

/// Joined parts stand one after the other, with the separator before each but the first.
pub proof fn joined_parts_stand_in_order(parts: Seq<Seq<char>>, part: Seq<char>, sep: Seq<char>)
    ensures
        joined(Seq::empty(), sep) == Seq::<char>::empty(),
        joined(seq![part], sep) == part,
        parts.len() > 0 ==> joined(parts.push(part), sep) == joined(parts, sep) + sep + part,
{
    if parts.len() > 0 {
        assert(parts.push(part).drop_last() =~= parts);
    }
}

/// A list of names is the names as identifiers, with commas between them.
pub proof fn name_lists_hold_every_name(names: Seq<Seq<char>>, name: Seq<char>)
    ensures
        name_list(Seq::empty()) == Seq::<char>::empty(),
        name_list(seq![name]) == quoted(name),
        names.len() > 0 ==> name_list(names.push(name)) == name_list(names) + ","@ + quoted(name),
{
    let all = names.map_values(|n: Seq<char>| quoted(n));
    let none = Seq::<Seq<char>>::empty().map_values(|n: Seq<char>| quoted(n));
    assert(none =~= Seq::empty());
    let one = seq![name].map_values(|n: Seq<char>| quoted(n));
    assert(one =~= seq![quoted(name)]);
    assert(names.push(name).map_values(|n: Seq<char>| quoted(n)) =~= all.push(quoted(name)));
    joined_parts_stand_in_order(all, quoted(name), ","@);
}

/// A tuple of placeholders has as many of them as it should, with commas between them and parentheses
/// around.
pub proof fn tuples_of_placeholders(n: nat)
    ensures
        tuple_marks(0) == "()"@,
        tuple_marks(1) == "(?)"@,
        n > 0 ==> tuple_marks(n + 1) == tuple_marks(n).drop_last() + ",?)"@,
{
    reveal_strlit("()");
    reveal_strlit("(?)");
    reveal_strlit(",?)");
    reveal_strlit("(");
    reveal_strlit(")");
    reveal_strlit("?");
    reveal_strlit(",");
    assert(repeated("?"@, 0) =~= Seq::empty());
    assert(tuple_marks(0) =~= "()"@);
    assert(repeated("?"@, 1) =~= seq!["?"@]);
    assert(tuple_marks(1) =~= "(?)"@);
    if n > 0 {
        assert(repeated("?"@, n + 1) =~= repeated("?"@, n).push("?"@));
        joined_parts_stand_in_order(repeated("?"@, n), "?"@, ","@);
        assert(tuple_marks(n + 1) =~= tuple_marks(n).drop_last() + ",?)"@);
    }
}

/// The number of rows in a batch is the largest that was asked for and that fits the placeholder limit,
/// but one at least.
pub proof fn batches_are_as_large_as_they_can_be(requested: nat, width: nat)
    ensures
        MAX_PLACEHOLDERS == 65535,
        ({
            let n = batch_size(requested, width);
            &&& n >= 1
            &&& n == 1 || n <= requested
            &&& n == 1 || n * width <= 65535
            &&& n < requested ==> (n + 1) * width > 65535 || (width == 0 && n == 65535)
        }),
{
    let n = batch_size(requested, width);
    let w = (if width > 1 {
        width
    } else {
        1
    }) as int;
    let most = 65535int / w;
    assert(most * w <= 65535 < (most + 1) * w) by (nonlinear_arith)
        requires
            w >= 1,
            most == 65535int / w,
    ;
    if n > 1 {
        assert(n * width <= most * w) by (nonlinear_arith)
            requires
                n <= most,
                width <= w,
        ;
    }
    if n < requested {
        if n == most {
            if width > 0 {
                assert((n + 1) * width == (most + 1) * w);
            }
        } else {
            assert(n == 1 && most == 0);
            assert((n + 1) * width >= w) by (nonlinear_arith)
                requires
                    width == w,
            ;
        }
    }
}

/// Every piece but the last is full.
pub proof fn pieces_are_full_but_the_last<A>(s: Seq<A>, n: nat, i: int)
    requires
        n >= 1,
        0 <= i < chunks(s, n).len() - 1,
    ensures
        chunks(s, n)[i].len() == n,
    decreases s.len(),
{
    if s.len() > n && i > 0 {
        pieces_are_full_but_the_last(s.skip(n as int), n, i - 1);
    }
}

/// The query for a table's rows names every column in order, and the table.
pub proof fn rows_are_queried_column_by_column(schema: SchemaModel)
    ensures
        select_sql(schema) == "SELECT "@ + name_list(names_of(schema)) + " FROM "@ + quoted(
            schema.name,
        ),
{
    assert(schema.column_names() =~= names_of(schema));
}

/// A text stands somewhere in another.
pub open spec fn has_text(s: Seq<char>, t: Seq<char>) -> bool {
    exists|i: int| 0 <= i && i + t.len() <= s.len() && #[trigger] s.subrange(i, i + t.len()) == t
}

/// A text starts with another.
pub open spec fn has_prefix(s: Seq<char>, t: Seq<char>) -> bool {
    t.len() <= s.len() && s.take(t.len() as int) == t
}

/// The names of the columns, in order.
pub open spec fn names_of(schema: SchemaModel) -> Seq<Seq<char>> {
    Seq::new(schema.columns.len(), |i: int| schema.columns[i].name)
}

/// Bound values taken row by row.
pub open spec fn cut(params: Seq<Option<Option<Seq<u8>>>>, width: nat) -> Seq<RowModel>
    decreases params.len(),
{
    if width == 0 || params.len() < width {
        Seq::empty()
    } else {
        seq![Seq::new(width, |c: int| params[c]->0)] + cut(params.skip(width as int), width)
    }
}

/// The statement inserts `n` rows with a value for every column.
pub open spec fn is_insert(sql: Seq<char>, schema: SchemaModel, n: nat) -> bool {
    has_prefix(
        sql,
        "INSERT INTO "@ + quoted(schema.name) + " ("@ + name_list(names_of(schema)) + ") VALUES "@
            + joined(repeated(tuple_marks(schema.columns.len()), n), ","@),
    )
}

/// The statement sets a column to its new value where a row is there already.
pub open spec fn assigns(sql: Seq<char>, name: Seq<char>) -> bool {
    has_text(sql, quoted(name) + "=VALUES("@ + quoted(name) + ")"@)
}

/// A table with one row more. Where it has a row with the same key already, that row keeps its values
/// but in the columns that the statement sets.
pub open spec fn put_row(
    table: Map<RowModel, RowModel>,
    schema: SchemaModel,
    idx: Seq<int>,
    sql: Seq<char>,
    row: RowModel,
) -> Map<RowModel, RowModel> {
    let key = Seq::new(idx.len(), |k: int| row[idx[k]]);
    if table.contains_key(key) {
        table.insert(
            key,
            Seq::new(
                schema.columns.len(),
                |c: int|
                    if assigns(sql, schema.columns[c].name) {
                        row[c]
                    } else {
                        table[key][c]
                    },
            ),
        )
    } else {
        table.insert(key, row)
    }
}

/// A table with more rows.
pub open spec fn put_rows(
    table: Map<RowModel, RowModel>,
    schema: SchemaModel,
    idx: Seq<int>,
    sql: Seq<char>,
    list: Seq<RowModel>,
) -> Map<RowModel, RowModel>
    decreases list.len(),
{
    if list.len() == 0 {
        table
    } else {
        put_row(
            put_rows(table, schema, idx, sql, list.drop_last()),
            schema,
            idx,
            sql,
            list.last(),
        )
    }
}

/// The statement deletes the rows with one of `n` keys. A key of one column stands without parentheses.
pub open spec fn is_delete(
    sql: Seq<char>,
    schema: SchemaModel,
    key: Seq<Seq<char>>,
    n: nat,
) -> bool {
    sql == "DELETE FROM "@ + quoted(schema.name) + " WHERE "@ + (if key.len() == 1 {
        quoted(key[0])
    } else {
        "("@ + name_list(key) + ")"@
    }) + " IN ("@ + joined(
        repeated(
            if key.len() == 1 {
                "?"@
            } else {
                tuple_marks(key.len())
            },
            n,
        ),
        ","@,
    ) + ")"@
}

/// No cell of a row is NULL.
pub open spec fn has_no_null(row: RowModel) -> bool {
    forall|c: int| 0 <= c < row.len() ==> (#[trigger] row[c]) is Some
}

/// The keys of a list that can equal another: those without NULL.
pub open spec fn comparable(list: Seq<RowModel>) -> Set<RowModel> {
    Set::new(|key: RowModel| list.contains(key) && has_no_null(key))
}

/// A table with a key after one statement.
pub open spec fn after_statement(
    table: Map<RowModel, RowModel>,
    schema: SchemaModel,
    key: Seq<Seq<char>>,
    idx: Seq<int>,
    s: StatementModel,
) -> Map<RowModel, RowModel> {
    let rows = cut(s.params, schema.columns.len());
    let keys = cut(s.params, key.len());
    if is_insert(s.sql, schema, rows.len()) {
        put_rows(table, schema, idx, s.sql, rows)
    } else if is_delete(s.sql, schema, key, keys.len()) {
        table.remove_keys(comparable(keys))
    } else {
        table
    }
}

/// A table with a key after statements, one after the other.
pub open spec fn after_statements(
    table: Map<RowModel, RowModel>,
    schema: SchemaModel,
    key: Seq<Seq<char>>,
    idx: Seq<int>,
    list: Seq<StatementModel>,
) -> Map<RowModel, RowModel>
    decreases list.len(),
{
    if list.len() == 0 {
        table
    } else {
        after_statements(
            after_statement(table, schema, key, idx, list[0]),
            schema,
            key,
            idx,
            list.skip(1),
        )
    }
}

/// Statements one list after the other.
proof fn lemma_after_concat(
    table: Map<RowModel, RowModel>,
    schema: SchemaModel,
    key: Seq<Seq<char>>,
    idx: Seq<int>,
    a: Seq<StatementModel>,
    b: Seq<StatementModel>,
)
    ensures
        after_statements(table, schema, key, idx, a + b) == after_statements(
            after_statements(table, schema, key, idx, a),
            schema,
            key,
            idx,
            b,
        ),
    decreases a.len(),
{
    if a.len() > 0 {
        assert((a + b).skip(1) =~= a.skip(1) + b);
        lemma_after_concat(
            after_statement(table, schema, key, idx, a[0]),
            schema,
            key,
            idx,
            a.skip(1),
            b,
        );
    } else {
        assert(a + b =~= b);
    }
}

/// The values that are bound for rows of one width are taken apart into these rows.
proof fn lemma_cut(list: Seq<RowModel>, width: nat)
    requires
        width > 0,
        rows_have_width(list, width),
    ensures
        cut(bound(flat(list)), width) == list,
    decreases list.len(),
{
    let params = bound(flat(list));
    if list.len() == 0 {
        assert(params.len() == 0);
        assert(list =~= Seq::empty());
    } else {
        let first = list[0];
        let rest = list.skip(1);
        assert(seq![first] + rest =~= list);
        lemma_flat_concat(seq![first], rest);
        assert(seq![first].drop_last() =~= Seq::empty());
        assert(flat(seq![first].drop_last()) == Seq::<Option<Seq<u8>>>::empty());
        assert(flat(seq![first]) =~= first);
        assert(flat(list) == first + flat(rest));
        assert(first.len() == width);
        assert forall|j: int| 0 <= j < rest.len() implies (#[trigger] rest[j]).len() == width by {
            assert(rest[j] == list[j + 1]);
        }
        lemma_cut(rest, width);
        assert(params.skip(width as int) =~= bound(flat(rest)));
        assert(Seq::new(width, |c: int| params[c]->0) =~= first);
        assert(cut(params, width) =~= list);
    }
}

/// Every row of a table stands under its key and has a value for every column.
pub open spec fn is_keyed_table(
    table: Map<RowModel, RowModel>,
    schema: SchemaModel,
    idx: Seq<int>,
) -> bool {
    forall|key: RowModel| #[trigger]
        table.contains_key(key) ==> {
            &&& table[key].len() == schema.columns.len()
            &&& key == Seq::new(idx.len(), |k: int| table[key][idx[k]])
        }
}

/// The columns are told apart by their names.
pub open spec fn has_distinct_columns(schema: SchemaModel) -> bool {
    forall|i: int, j: int|
        0 <= i < j < schema.columns.len() ==> (#[trigger] schema.columns[i]).name != (
        #[trigger] schema.columns[j]).name
}

/// A part of joined parts stands in them.
proof fn lemma_joined_has_part(parts: Seq<Seq<char>>, sep: Seq<char>, p: int)
    requires
        0 <= p < parts.len(),
    ensures
        has_text(joined(parts, sep), parts[p]),
    decreases parts.len(),
{
    let all = joined(parts, sep);
    let t = parts[p];
    if parts.len() == 1 {
        assert(all.subrange(0int, 0int + t.len()) =~= t);
    } else if p == parts.len() - 1 {
        let at = (joined(parts.drop_last(), sep) + sep).len() as int;
        assert(all.subrange(at, at + t.len()) =~= t);
    } else {
        let less = parts.drop_last();
        lemma_joined_has_part(less, sep, p);
        let before = joined(less, sep);
        assert(less[p] == t);
        let i = choose|i: int|
            0 <= i && i + t.len() <= before.len() && #[trigger] before.subrange(i, i + t.len()) == t;
        assert(all.subrange(i, i + t.len()) =~= before.subrange(i, i + t.len()));
    }
}

/// What stands in a text stands in a longer one.
proof fn lemma_has_text_inside(a: Seq<char>, b: Seq<char>, c: Seq<char>, t: Seq<char>)
    requires
        has_text(b, t),
    ensures
        has_text(a + b + c, t),
{
    let i = choose|i: int|
        0 <= i && i + t.len() <= b.len() && #[trigger] b.subrange(i, i + t.len()) == t;
    let s = a + b + c;
    let at = a.len() + i;
    assert(s.subrange(at, at + t.len()) =~= b.subrange(i, i + t.len()));
}

/// A column outside the key is among those that are updated.
proof fn lemma_non_key_holds(columns: Seq<Seq<char>>, key: Seq<Seq<char>>, c: int)
    requires
        0 <= c < columns.len(),
        !key.contains(columns[c]),
    ensures
        non_key(columns, key).contains(columns[c]),
    decreases columns.len(),
{
    let less = columns.drop_last();
    if c < less.len() {
        lemma_non_key_holds(less, key, c);
        let done = non_key(less, key);
        let p = choose|p: int| 0 <= p < done.len() && done[p] == columns[c];
        assert(less[c] == columns[c]);
        assert(non_key(columns, key)[p] == columns[c]);
    } else {
        let all = non_key(columns, key);
        assert(all[all.len() - 1] == columns[c]);
    }
}

/// The update clause sets every column outside the key.
proof fn lemma_clause_assigns(
    head: Seq<char>,
    columns: Seq<Seq<char>>,
    key: Seq<Seq<char>>,
    c: int,
)
    requires
        0 <= c < columns.len(),
        !key.contains(columns[c]),
    ensures
        assigns(head + update_clause(columns, key), columns[c]),
{
    lemma_non_key_holds(columns, key, c);
    let set = non_key(columns, key);
    let p = choose|p: int| 0 <= p < set.len() && set[p] == columns[c];
    let all = joined(assignments(set), ","@);
    lemma_joined_has_part(assignments(set), ","@, p);
    assert(assignments(set)[p] == assignment(columns[c]));
    let lead = head + " ON DUPLICATE KEY UPDATE "@;
    lemma_has_text_inside(lead, all, Seq::empty(), assignment(columns[c]));
    assert(head + update_clause(columns, key) =~= lead + all + Seq::<char>::empty());
}

/// A column outside the key has a name outside the key.
proof fn lemma_name_outside_key(
    schema: SchemaModel,
    key: Seq<Seq<char>>,
    idx: Seq<int>,
    c: int,
)
    requires
        has_distinct_columns(schema),
        key_places(schema, key) == Some(idx),
        0 <= c < schema.columns.len(),
        !idx.contains(c),
    ensures
        !key.contains(schema.columns[c].name),
{
    let name = schema.columns[c].name;
    if key.contains(name) {
        let k = choose|k: int| 0 <= k < key.len() && key[k] == name;
        key_places_are_those_of_the_columns(schema, key, k);
        let i = idx[k];
        assert(is_first_place(schema.columns, name, i));
        if i < c {
            assert(schema.columns[i].name != schema.columns[c].name);
        } else if c < i {
            assert(schema.columns[c].name != schema.columns[i].name);
        }
        assert(idx[k] == c);
    }
}

/// Rows that are put into a table take the place of those with their keys as a whole.
proof fn lemma_put_rows(
    table: Map<RowModel, RowModel>,
    schema: SchemaModel,
    key: Seq<Seq<char>>,
    idx: Seq<int>,
    head: Seq<char>,
    list: Seq<RowModel>,
)
    requires
        has_distinct_columns(schema),
        key_places(schema, key) == Some(idx),
        is_keyed_table(table, schema, idx),
        rows_have_width(list, schema.columns.len()),
    ensures
        put_rows(
            table,
            schema,
            idx,
            head + update_clause(schema.column_names(), key),
            list,
        ) == upserted(table, idx, list),
        is_keyed_table(upserted(table, idx, list), schema, idx),
    decreases list.len(),
{
    let sql = head + update_clause(schema.column_names(), key);
    if list.len() > 0 {
        let less = list.drop_last();
        let row = list.last();
        assert forall|j: int| 0 <= j < less.len() implies (#[trigger] less[j]).len()
            == schema.columns.len() by {
            assert(less[j] == list[j]);
        }
        lemma_put_rows(table, schema, key, idx, head, less);
        let before = upserted(table, idx, less);
        let k = key_of(row, idx);
        assert(k =~= Seq::new(idx.len(), |j: int| row[idx[j]]));
        assert(list[list.len() - 1].len() == schema.columns.len());
        if before.contains_key(k) {
            let old = before[k];
            let new = Seq::new(
                schema.columns.len(),
                |c: int|
                    if assigns(sql, schema.columns[c].name) {
                        row[c]
                    } else {
                        old[c]
                    },
            );
            assert forall|c: int| 0 <= c < schema.columns.len() implies new[c] == row[c] by {
                if idx.contains(c) {
                    let j = choose|j: int| 0 <= j < idx.len() && idx[j] == c;
                    assert(k[j] == old[idx[j]]);
                    assert(k[j] == row[idx[j]]);
                } else {
                    lemma_name_outside_key(schema, key, idx, c);
                    assert(schema.column_names()[c] == schema.columns[c].name);
                    lemma_clause_assigns(head, schema.column_names(), key, c);
                }
            }
            assert(new =~= row);
        }
        let after = upserted(table, idx, list);
        assert forall|x: RowModel| #[trigger] after.contains_key(x) implies {
            &&& after[x].len() == schema.columns.len()
            &&& x == Seq::new(idx.len(), |j: int| after[x][idx[j]])
        } by {
            if x != k {
                assert(before.contains_key(x));
                assert(after[x] == before[x]);
            }
        }
    }
}

/// Rows put under their keys in two steps.
proof fn lemma_upserted_concat(
    table: Map<RowModel, RowModel>,
    idx: Seq<int>,
    a: Seq<RowModel>,
    b: Seq<RowModel>,
)
    ensures
        upserted(table, idx, a + b) == upserted(upserted(table, idx, a), idx, b),
    decreases b.len(),
{
    if b.len() > 0 {
        assert((a + b).drop_last() =~= a + b.drop_last());
        lemma_upserted_concat(table, idx, a, b.drop_last());
    } else {
        assert(a + b =~= a);
    }
}

/// The text of an insert, up to its tail.
spec fn insert_head(schema: SchemaModel, n: nat) -> Seq<char> {
    "INSERT INTO "@ + quoted(schema.name) + " ("@ + name_list(names_of(schema)) + ") VALUES "@
        + joined(repeated(tuple_marks(schema.columns.len()), n), ","@)
}

/// The text of an insert statement.
proof fn lemma_insert_text(schema: SchemaModel, batch: Seq<RowModel>, tail: Seq<char>)
    ensures
        insert_statement(schema.name, schema.column_names(), batch, tail).sql == insert_head(
            schema,
            batch.len(),
        ) + tail,
        is_insert(
            insert_statement(schema.name, schema.column_names(), batch, tail).sql,
            schema,
            batch.len(),
        ),
{
    assert(schema.column_names() =~= names_of(schema));
    let head = insert_head(schema, batch.len());
    let sql = insert_statement(schema.name, schema.column_names(), batch, tail).sql;
    assert(sql =~= head + tail);
    assert(sql.take(head.len() as int) =~= head);
}

/// A delete is no insert.
proof fn lemma_delete_is_no_insert(sql: Seq<char>, schema: SchemaModel, n: nat)
    requires
        sql.len() > 0,
        sql[0] == 'D',
    ensures
        !is_insert(sql, schema, n),
{
    reveal_strlit("INSERT INTO ");
    let head = insert_head(schema, n);
    assert(head[0] == 'I');
    if is_insert(sql, schema, n) {
        assert(sql.take(head.len() as int)[0] == sql[0]);
    }
}

/// Upserts in batches put all rows under their keys.
proof fn lemma_upserts(
    table: Map<RowModel, RowModel>,
    schema: SchemaModel,
    key: Seq<Seq<char>>,
    idx: Seq<int>,
    list: Seq<RowModel>,
    n: nat,
)
    requires
        n >= 1,
        schema.columns.len() > 0,
        has_distinct_columns(schema),
        key_places(schema, key) == Some(idx),
        is_keyed_table(table, schema, idx),
        rows_have_width(list, schema.columns.len()),
    ensures
        after_statements(
            table,
            schema,
            key,
            idx,
            chunks(list, n).map_values(
                |batch: Seq<RowModel>|
                    insert_statement(
                        schema.name,
                        schema.column_names(),
                        batch,
                        update_clause(schema.column_names(), key),
                    ),
            ),
        ) == upserted(table, idx, list),
        is_keyed_table(upserted(table, idx, list), schema, idx),
    decreases list.len(),
{
    let tail = update_clause(schema.column_names(), key);
    let f = |batch: Seq<RowModel>|
        insert_statement(schema.name, schema.column_names(), batch, tail);
    let all = chunks(list, n).map_values(f);
    let w = schema.columns.len();
    if list.len() == 0 {
        assert(all =~= Seq::empty());
    } else {
        let m = (if list.len() <= n {
            list.len() as int
        } else {
            n as int
        });
        let first = list.take(m);
        let rest = list.skip(m);
        assert(first + rest =~= list);
        assert forall|j: int| 0 <= j < first.len() implies (#[trigger] first[j]).len() == w by {
            assert(first[j] == list[j]);
        }
        assert forall|j: int| 0 <= j < rest.len() implies (#[trigger] rest[j]).len() == w by {
            assert(rest[j] == list[m + j]);
        }
        let more = chunks(rest, n).map_values(f);
        if list.len() <= n {
            assert(first =~= list);
            assert(rest =~= Seq::empty());
            assert(all =~= seq![f(first)] + more);
        } else {
            assert(all =~= seq![f(first)] + more);
        }
        assert(all.skip(1) =~= more);
        let s = all[0];
        assert(s == f(first));
        lemma_cut(first, w);
        lemma_insert_text(schema, first, tail);
        lemma_put_rows(table, schema, key, idx, insert_head(schema, first.len()), first);
        let middle = upserted(table, idx, first);
        assert(after_statement(table, schema, key, idx, s) == middle);
        lemma_upserts(middle, schema, key, idx, rest, n);
        lemma_upserted_concat(table, idx, first, rest);
    }
}

/// The first cells of keys of one column are all cells.
proof fn lemma_firsts(batch: Seq<RowModel>)
    requires
        rows_have_width(batch, 1),
    ensures
        firsts(batch) == flat(batch),
    decreases batch.len(),
{
    if batch.len() > 0 {
        let less = batch.drop_last();
        assert forall|j: int| 0 <= j < less.len() implies (#[trigger] less[j]).len() == 1 by {
            assert(less[j] == batch[j]);
        }
        lemma_firsts(less);
        assert(batch[batch.len() - 1].len() == 1);
        assert(batch.last() =~= seq![batch.last()[0]]);
        assert(firsts(batch) =~= firsts(less).push(batch.last()[0]));
        assert(flat(batch) =~= firsts(batch));
    } else {
        assert(firsts(batch) =~= flat(batch));
    }
}

/// Deletes in batches remove all keys.
proof fn lemma_deletes(
    table: Map<RowModel, RowModel>,
    schema: SchemaModel,
    key: Seq<Seq<char>>,
    idx: Seq<int>,
    keys: Seq<RowModel>,
    n: nat,
)
    requires
        n >= 1,
        key.len() > 0,
        rows_have_width(keys, key.len()),
        forall|j: int| 0 <= j < keys.len() ==> has_no_null(#[trigger] keys[j]),
    ensures
        after_statements(
            table,
            schema,
            key,
            idx,
            chunks(keys, n).map_values(
                |batch: Seq<RowModel>| delete_statement(schema.name, key, batch),
            ),
        ) == table.remove_keys(keys.to_set()),
    decreases keys.len(),
{
    let f = |batch: Seq<RowModel>| delete_statement(schema.name, key, batch);
    let all = chunks(keys, n).map_values(f);
    let w = key.len();
    if keys.len() == 0 {
        assert(all =~= Seq::empty());
        assert(table.remove_keys(keys.to_set()) =~= table);
    } else {
        let m = (if keys.len() <= n {
            keys.len() as int
        } else {
            n as int
        });
        let first = keys.take(m);
        let rest = keys.skip(m);
        assert(first + rest =~= keys);
        assert forall|j: int| 0 <= j < first.len() implies (#[trigger] first[j]).len() == w by {
            assert(first[j] == keys[j]);
        }
        assert forall|j: int| 0 <= j < rest.len() implies (#[trigger] rest[j]).len() == w by {
            assert(rest[j] == keys[m + j]);
        }
        assert forall|j: int| 0 <= j < rest.len() implies has_no_null(#[trigger] rest[j]) by {
            assert(rest[j] == keys[m + j]);
        }
        let more = chunks(rest, n).map_values(f);
        if keys.len() <= n {
            assert(first =~= keys);
            assert(rest =~= Seq::empty());
        }
        assert(all =~= seq![f(first)] + more);
        assert(all.skip(1) =~= more);
        let s = all[0];
        assert(s == f(first));
        if w == 1 {
            lemma_firsts(first);
        }
        lemma_cut(first, w);
        assert(cut(s.params, w) == first);
        reveal_strlit("DELETE FROM ");
        assert(s.sql[0] == 'D');
        lemma_delete_is_no_insert(s.sql, schema, cut(s.params, schema.columns.len()).len());
        assert(is_delete(s.sql, schema, key, first.len()));
        let middle = table.remove_keys(comparable(first));
        assert(after_statement(table, schema, key, idx, s) == middle);
        lemma_deletes(middle, schema, key, idx, rest, n);
        assert(middle.remove_keys(rest.to_set()) =~= table.remove_keys(keys.to_set())) by {
            assert forall|x: RowModel| keys.to_set().contains(x) == (#[trigger] comparable(
                first,
            ).contains(x) || rest.to_set().contains(x)) by {
                if keys.contains(x) {
                    let j = choose|j: int| 0 <= j < keys.len() && keys[j] == x;
                    assert(has_no_null(keys[j]));
                    if j < m {
                        assert(first[j] == x);
                    } else {
                        assert(rest[j - m] == x);
                    }
                }
                if first.contains(x) {
                    let j = choose|j: int| 0 <= j < first.len() && first[j] == x;
                    assert(keys[j] == x);
                }
                if rest.contains(x) {
                    let j = choose|j: int| 0 <= j < rest.len() && rest[j] == x;
                    assert(keys[m + j] == x);
                }
            }
        }
    }
}

/// The statements of a keyed plan, executed on a table one after the other, put every row to insert and
/// every row to update under its key, with all its values, and remove the keys to delete. The rows have
/// a value for every column, and no key to delete holds NULL, which equals nothing.
pub proof fn keyed_statements_carry_out_the_plan(
    table: Map<RowModel, RowModel>,
    schema: SchemaModel,
    key: Seq<Seq<char>>,
    idx: Seq<int>,
    to_insert: Seq<RowModel>,
    to_update: Seq<RowModel>,
    delete_keys: Seq<RowModel>,
    requested: nat,
)
    requires
        schema.columns.len() > 0,
        key.len() > 0,
        has_distinct_columns(schema),
        key_places(schema, key) == Some(idx),
        is_keyed_table(table, schema, idx),
        rows_have_width(to_insert, schema.columns.len()),
        rows_have_width(to_update, schema.columns.len()),
        rows_have_width(delete_keys, key.len()),
        forall|j: int| 0 <= j < delete_keys.len() ==> has_no_null(#[trigger] delete_keys[j]),
    ensures
        after_statements(
            table,
            schema,
            key,
            idx,
            plan_statements(
                schema,
                Some(key),
                PlanModel::Keyed { to_insert, to_update, delete_keys },
                requested,
            ),
        ) == after_keyed_plan(table, idx, to_insert, to_update, delete_keys),
{
    let list = to_insert + to_update;
    let w = schema.columns.len();
    assert forall|j: int| 0 <= j < list.len() implies (#[trigger] list[j]).len() == w by {
        if j < to_insert.len() {
            assert(list[j] == to_insert[j]);
        } else {
            assert(list[j] == to_update[j - to_insert.len()]);
        }
    }
    assert(schema.column_names().len() == w);
    let upserts = upsert_statements(schema, key, list, requested);
    let deletes = delete_statements(schema.name, key, delete_keys, requested);
    let n = batch_size(requested, w);
    let m = batch_size(requested, key.len());
    lemma_upserts(table, schema, key, idx, list, n);
    lemma_deletes(upserted(table, idx, list), schema, key, idx, delete_keys, m);
    lemma_after_concat(table, schema, key, idx, upserts, deletes);
}

/// The conditions on the first `n` columns that a row satisfies: NULL is asked for by name, and any other
/// value by a placeholder.
pub open spec fn where_text(schema: SchemaModel, row: RowModel, n: nat) -> Seq<char>
    decreases n,
{
    if n == 0 {
        Seq::empty()
    } else {
        let i = n - 1;
        let one = quoted(schema.columns[i].name) + (if row[i] is None {
            " IS NULL"@
        } else {
            " <=> ?"@
        });
        if n == 1 {
            one
        } else {
            where_text(schema, row, (n - 1) as nat) + " AND "@ + one
        }
    }
}

/// The values among the first `n` cells of a row.
pub open spec fn values_among(row: RowModel, n: nat) -> RowModel
    decreases n,
{
    if n == 0 {
        Seq::empty()
    } else if row[n - 1] is None {
        values_among(row, (n - 1) as nat)
    } else {
        values_among(row, (n - 1) as nat).push(row[n - 1])
    }
}

/// The statement deletes up to `n` copies of a row.
pub open spec fn deletes_copies(
    s: StatementModel,
    schema: SchemaModel,
    row: RowModel,
    n: u64,
) -> bool {
    &&& row.len() == schema.columns.len()
    &&& s.sql == "DELETE FROM "@ + quoted(schema.name) + " WHERE "@ + where_text(
        schema,
        row,
        row.len(),
    ) + " LIMIT "@ + decimal_text(n as nat)
    &&& s.params == bound(values_among(row, row.len()))
}

/// The conditions on the first columns.
proof fn lemma_where_text(schema: SchemaModel, row: RowModel, n: nat)
    requires
        row.len() == schema.columns.len(),
        n <= row.len(),
    ensures
        joined(conditions(schema.column_names(), row).take(n as int), " AND "@) == where_text(
            schema,
            row,
            n,
        ),
        present(row.take(n as int)) == values_among(row, n),
    decreases n,
{
    let all = conditions(schema.column_names(), row);
    let some = all.take(n as int);
    if n > 0 {
        let less = (n - 1) as nat;
        lemma_where_text(schema, row, less);
        assert(some.drop_last() =~= all.take(n - 1));
        assert(some.last() == all[n - 1]);
        assert(row.take(n as int).drop_last() =~= row.take(n - 1));
        assert(row.take(n as int).last() == row[n - 1]);
        if n == 1 {
            assert(some[0] == all[0]);
        }
    } else {
        assert(some =~= Seq::empty());
    }
}

/// The statement that is built for copies of a row deletes them.
proof fn lemma_deletes_copies(schema: SchemaModel, row: RowModel, n: u64)
    requires
        row.len() == schema.columns.len(),
    ensures
        deletes_copies(
            delete_copies_statement(schema.name, schema.column_names(), row, n),
            schema,
            row,
            n,
        ),
{
    let names = schema.column_names();
    let all = conditions(names, row);
    assert(names.len() == row.len());
    assert(paired(names, row) == row.len());
    lemma_where_text(schema, row, row.len());
    assert(all.take(row.len() as int) =~= all);
}

/// Conditions that read alike ask for NULL in the same columns.
proof fn lemma_same_nulls(schema: SchemaModel, a: RowModel, b: RowModel, n: nat, i: int)
    requires
        where_text(schema, a, n) == where_text(schema, b, n),
        0 <= i < n,
    ensures
        a[i] is None <==> b[i] is None,
    decreases n,
{
    reveal_strlit(" IS NULL");
    reveal_strlit(" <=> ?");
    let x = where_text(schema, a, n);
    let y = where_text(schema, b, n);
    let k = n - 1;
    assert(x.last() == if a[k] is None {
        'L'
    } else {
        '?'
    });
    assert(y.last() == if b[k] is None {
        'L'
    } else {
        '?'
    });
    if i < k {
        let one = " AND "@ + (quoted(schema.columns[k].name) + (if a[k] is None {
            " IS NULL"@
        } else {
            " <=> ?"@
        }));
        let p = where_text(schema, a, k as nat);
        let q = where_text(schema, b, k as nat);
        assert(x =~= p + one);
        assert(y =~= q + one);
        assert(p.len() == q.len());
        assert(p =~= x.take(p.len() as int));
        assert(q =~= y.take(q.len() as int));
        lemma_same_nulls(schema, a, b, k as nat, i);
    }
}

/// Rows with NULL in the same columns and the same values are equal.
proof fn lemma_same_values(a: RowModel, b: RowModel, n: nat, i: int)
    requires
        forall|j: int| 0 <= j < n ==> ((#[trigger] a[j]) is None <==> b[j] is None),
        values_among(a, n) == values_among(b, n),
        0 <= i < n,
    ensures
        a[i] == b[i],
    decreases n,
{
    let k = n - 1;
    let p = values_among(a, k as nat);
    let q = values_among(b, k as nat);
    assert(a[k] is None <==> b[k] is None);
    if a[k] is Some {
        assert(p.push(a[k]).last() == q.push(b[k]).last());
        assert(p.push(a[k]).drop_last() =~= p);
        assert(q.push(b[k]).drop_last() =~= q);
    }
    if i < k {
        lemma_same_values(a, b, k as nat, i);
    }
}

/// Two texts that end with a number behind a space have the same number where they are equal.
proof fn lemma_same_number(a: Seq<char>, b: Seq<char>, m: nat, n: nat)
    requires
        a.len() > 0,
        b.len() > 0,
        a.last() == ' ',
        b.last() == ' ',
        a + decimal_text(m) == b + decimal_text(n),
    ensures
        a == b,
        m == n,
{
    decimal_text_reads_back(m);
    decimal_text_reads_back(n);
    let d = decimal_text(m);
    let e = decimal_text(n);
    let x = a + d;
    let y = b + e;
    assert(x.len() == y.len());
    if d.len() < e.len() {
        let at = a.len() - 1;
        assert(x[at] == ' ');
        assert(y[at] == e[at - b.len()]);
        assert('0' <= e[at - b.len()] <= '9');
    }
    if e.len() < d.len() {
        let at = b.len() - 1;
        assert(y[at] == ' ');
        assert(x[at] == d[at - a.len()]);
        assert('0' <= d[at - a.len()] <= '9');
    }
    assert(a =~= x.take(a.len() as int));
    assert(b =~= y.take(b.len() as int));
    assert(d =~= x.skip(a.len() as int));
    assert(e =~= y.skip(b.len() as int));
}

/// A statement that deletes copies of a row deletes those of no other row, and no other number of them.
pub proof fn deleted_rows_are_told_apart(
    s: StatementModel,
    schema: SchemaModel,
    a: RowModel,
    m: u64,
    b: RowModel,
    n: u64,
)
    requires
        deletes_copies(s, schema, a, m),
        deletes_copies(s, schema, b, n),
    ensures
        a == b,
        m == n,
{
    reveal_strlit(" LIMIT ");
    let w = schema.columns.len();
    let head = "DELETE FROM "@ + quoted(schema.name) + " WHERE "@;
    let p = where_text(schema, a, w);
    let q = where_text(schema, b, w);
    lemma_same_number(head + p + " LIMIT "@, head + q + " LIMIT "@, m as nat, n as nat);
    let x = head + p + " LIMIT "@;
    let y = head + q + " LIMIT "@;
    assert(p.len() == q.len());
    assert(p =~= x.subrange(head.len() as int, (head + p).len() as int));
    assert(q =~= y.subrange(head.len() as int, (head + q).len() as int));
    assert forall|j: int| 0 <= j < w implies ((#[trigger] a[j]) is None <==> b[j] is None) by {
        lemma_same_nulls(schema, a, b, w, j);
    }
    let u = values_among(a, w);
    let v = values_among(b, w);
    assert(bound(u) == bound(v));
    assert(u =~= v) by {
        assert(bound(u).len() == bound(v).len());
        assert forall|j: int| 0 <= j < u.len() implies u[j] == v[j] by {
            assert(bound(u)[j] == bound(v)[j]);
        }
    }
    assert forall|j: int| 0 <= j < w implies a[j] == b[j] by {
        lemma_same_values(a, b, w, j);
    }
    assert(a =~= b);
}

/// A table without a key after one statement, as a multiset of rows.
pub open spec fn bag_after_statement(
    table: Multiset<RowModel>,
    schema: SchemaModel,
    s: StatementModel,
) -> Multiset<RowModel> {
    let rows = cut(s.params, schema.columns.len());
    if is_insert(s.sql, schema, rows.len()) {
        table.add(rows.to_multiset())
    } else if exists|row: RowModel, n: u64| #[trigger] deletes_copies(s, schema, row, n) {
        let (row, n) = choose|row: RowModel, n: u64| #[trigger] deletes_copies(s, schema, row, n);
        without_copies(table, row, n as nat)
    } else {
        table
    }
}

/// A table without a key after statements, one after the other.
pub open spec fn bag_after_statements(
    table: Multiset<RowModel>,
    schema: SchemaModel,
    list: Seq<StatementModel>,
) -> Multiset<RowModel>
    decreases list.len(),
{
    if list.len() == 0 {
        table
    } else {
        bag_after_statements(bag_after_statement(table, schema, list[0]), schema, list.skip(1))
    }
}

/// Statements one list after the other.
proof fn lemma_bag_after_concat(
    table: Multiset<RowModel>,
    schema: SchemaModel,
    a: Seq<StatementModel>,
    b: Seq<StatementModel>,
)
    ensures
        bag_after_statements(table, schema, a + b) == bag_after_statements(
            bag_after_statements(table, schema, a),
            schema,
            b,
        ),
    decreases a.len(),
{
    if a.len() > 0 {
        assert((a + b).skip(1) =~= a.skip(1) + b);
        lemma_bag_after_concat(bag_after_statement(table, schema, a[0]), schema, a.skip(1), b);
    } else {
        assert(a + b =~= b);
    }
}

/// Inserts in batches add all rows.
proof fn lemma_inserts(
    table: Multiset<RowModel>,
    schema: SchemaModel,
    list: Seq<RowModel>,
    n: nat,
)
    requires
        n >= 1,
        schema.columns.len() > 0,
        rows_have_width(list, schema.columns.len()),
    ensures
        bag_after_statements(
            table,
            schema,
            chunks(list, n).map_values(
                |batch: Seq<RowModel>|
                    insert_statement(schema.name, schema.column_names(), batch, Seq::empty()),
            ),
        ) == table.add(list.to_multiset()),
    decreases list.len(),
{
    let f = |batch: Seq<RowModel>|
        insert_statement(schema.name, schema.column_names(), batch, Seq::empty());
    let all = chunks(list, n).map_values(f);
    let w = schema.columns.len();
    if list.len() == 0 {
        broadcast use vstd::seq_lib::group_to_multiset_ensures;

        assert(all =~= Seq::empty());
        assert(list =~= Seq::empty());
        assert(table.add(list.to_multiset()) =~= table);
    } else {
        let m = (if list.len() <= n {
            list.len() as int
        } else {
            n as int
        });
        let first = list.take(m);
        let rest = list.skip(m);
        assert(first + rest =~= list);
        assert forall|j: int| 0 <= j < first.len() implies (#[trigger] first[j]).len() == w by {
            assert(first[j] == list[j]);
        }
        assert forall|j: int| 0 <= j < rest.len() implies (#[trigger] rest[j]).len() == w by {
            assert(rest[j] == list[m + j]);
        }
        let more = chunks(rest, n).map_values(f);
        if list.len() <= n {
            assert(first =~= list);
            assert(rest =~= Seq::empty());
        }
        assert(all =~= seq![f(first)] + more);
        assert(all.skip(1) =~= more);
        let s = all[0];
        assert(s == f(first));
        lemma_cut(first, w);
        lemma_insert_text(schema, first, Seq::empty());
        let middle = table.add(first.to_multiset());
        assert(bag_after_statement(table, schema, s) == middle);
        lemma_inserts(middle, schema, rest, n);
        vstd::seq_lib::lemma_multiset_commutative(first, rest);
        assert(middle.add(rest.to_multiset()) =~= table.add(list.to_multiset()));
    }
}

/// Statements that delete copies of rows delete them all.
proof fn lemma_copies(
    table: Multiset<RowModel>,
    schema: SchemaModel,
    list: Seq<(RowModel, u64)>,
)
    requires
        forall|j: int|
            0 <= j < list.len() ==> (#[trigger] list[j]).0.len() == schema.columns.len(),
    ensures
        bag_after_statements(
            table,
            schema,
            delete_copies_statements(schema.name, schema.column_names(), list),
        ) == without_all(table, list),
    decreases list.len(),
{
    let names = schema.column_names();
    let all = delete_copies_statements(schema.name, names, list);
    if list.len() == 0 {
        assert(all =~= Seq::empty());
    } else {
        let less = list.drop_last();
        let (row, n) = list.last();
        assert forall|j: int| 0 <= j < less.len() implies (#[trigger] less[j]).0.len()
            == schema.columns.len() by {
            assert(less[j] == list[j]);
        }
        lemma_copies(table, schema, less);
        let before = delete_copies_statements(schema.name, names, less);
        let s = delete_copies_statement(schema.name, names, row, n);
        assert(all =~= before + seq![s]);
        lemma_bag_after_concat(table, schema, before, seq![s]);
        assert(list[list.len() - 1].0.len() == schema.columns.len());
        lemma_deletes_copies(schema, row, n);
        reveal_strlit("DELETE FROM ");
        assert(s.sql[0] == 'D');
        lemma_delete_is_no_insert(s.sql, schema, cut(s.params, schema.columns.len()).len());
        let (r, m) = choose|r: RowModel, m: u64| #[trigger] deletes_copies(s, schema, r, m);
        deleted_rows_are_told_apart(s, schema, r, m, row, n);
        let middle = without_all(table, less);
        assert(bag_after_statement(middle, schema, s) == without_copies(middle, row, n as nat));
        assert(seq![s].skip(1) =~= Seq::empty());
        assert(bag_after_statements(
            bag_after_statement(middle, schema, s),
            schema,
            seq![s].skip(1),
        ) == bag_after_statement(middle, schema, s));
    }
}

/// The statements of a plan for a table without a key, executed one after the other, add every row to
/// insert and remove the given number of copies of each row to delete.
pub proof fn unkeyed_statements_carry_out_the_plan(
    table: Multiset<RowModel>,
    schema: SchemaModel,
    key: Option<Seq<Seq<char>>>,
    to_insert: Seq<RowModel>,
    to_delete: Seq<(RowModel, u64)>,
    requested: nat,
)
    requires
        schema.columns.len() > 0,
        rows_have_width(to_insert, schema.columns.len()),
        forall|j: int|
            0 <= j < to_delete.len() ==> (#[trigger] to_delete[j]).0.len() == schema.columns.len(),
    ensures
        bag_after_statements(
            table,
            schema,
            plan_statements(
                schema,
                key,
                PlanModel::Unkeyed { to_insert, to_delete },
                requested,
            ),
        ) == after_unkeyed_plan(table, to_insert, to_delete),
{
    let names = schema.column_names();
    assert(names.len() == schema.columns.len());
    let inserts = insert_statements(schema.name, names, to_insert, requested, Seq::empty());
    let deletes = delete_copies_statements(schema.name, names, to_delete);
    lemma_inserts(table, schema, to_insert, batch_size(requested, names.len()));
    lemma_copies(table.add(to_insert.to_multiset()), schema, to_delete);
    lemma_bag_after_concat(table, schema, inserts, deletes);
}

/// The statements for a table that was just created add every row of the dump.
pub proof fn new_tables_are_filled(
    table: Multiset<RowModel>,
    schema: SchemaModel,
    key: Option<Seq<Seq<char>>>,
    rows: Seq<RowModel>,
    requested: nat,
)
    requires
        schema.columns.len() > 0,
        rows_have_width(rows, schema.columns.len()),
    ensures
        bag_after_statements(
            table,
            schema,
            plan_statements(schema, key, PlanModel::New { rows }, requested),
        ) == table.add(rows.to_multiset()),
{
    let names = schema.column_names();
    assert(names.len() == schema.columns.len());
    lemma_inserts(table, schema, rows, batch_size(requested, names.len()));
}

/// The first `n` statements insert and bind some values, and the others delete and bind others.
pub open spec fn inserts_then_deletes(
    list: Seq<StatementModel>,
    n: int,
    inserted: Seq<Option<Option<Seq<u8>>>>,
    deleted: Seq<Option<Option<Seq<u8>>>>,
) -> bool {
    &&& 0 <= n <= list.len()
    &&& all_params(list.take(n)) == inserted
    &&& all_params(list.skip(n)) == deleted
    &&& forall|i: int| 0 <= i < n ==> has_prefix((#[trigger] list[i]).sql, "INSERT INTO "@)
    &&& forall|i: int| n <= i < list.len() ==> has_prefix(
        (#[trigger] list[i]).sql,
        "DELETE FROM "@,
    )
}

/// The statements of a plan bind every cell of every row to insert, then every cell of every row to
/// update, in order, and whichever of the lists is empty; then every cell of every key to delete.
/// Inserts stand before deletes.
pub proof fn plans_bind_every_row(
    schema: SchemaModel,
    key: Seq<Seq<char>>,
    to_insert: Seq<RowModel>,
    to_update: Seq<RowModel>,
    delete_keys: Seq<RowModel>,
    requested: nat,
)
    requires
        key.len() == 1 ==> rows_have_width(delete_keys, 1),
    ensures
        exists|n: int| #[trigger]
            inserts_then_deletes(
                plan_statements(
                    schema,
                    Some(key),
                    PlanModel::Keyed { to_insert, to_update, delete_keys },
                    requested,
                ),
                n,
                bound(flat(to_insert)) + bound(flat(to_update)),
                bound(flat(delete_keys)),
            ),
{
    reveal_strlit("INSERT INTO ");
    reveal_strlit("DELETE FROM ");
    let upserts = upsert_statements(schema, key, to_insert + to_update, requested);
    let deletes = delete_statements(schema.name, key, delete_keys, requested);
    let list = upserts + deletes;
    let n = upserts.len() as int;
    let names = schema.column_names();
    insert_statements_bind_every_row(
        schema.name,
        names,
        to_insert + to_update,
        requested,
        update_clause(names, key),
    );
    lemma_flat_concat(to_insert, to_update);
    assert(bound(flat(to_insert) + flat(to_update)) =~= bound(flat(to_insert)) + bound(
        flat(to_update),
    ));
    assert(list.take(n) =~= upserts);
    assert(list.skip(n) =~= deletes);
    lemma_deletes_bind(schema.name, key, delete_keys, batch_size(requested, key.len()));
    assert forall|i: int| n <= i < list.len() implies has_prefix(
        (#[trigger] list[i]).sql,
        "DELETE FROM "@,
    ) by {
        assert(list[i] == deletes[i - n]);
        assert(list[i].sql.take(12) =~= "DELETE FROM "@);
    }
    assert forall|i: int| 0 <= i < n implies has_prefix(
        (#[trigger] list[i]).sql,
        "INSERT INTO "@,
    ) by {
        assert(list[i] == upserts[i]);
        assert(list[i].sql.take(12) =~= "INSERT INTO "@);
    }
    let full = plan_statements(
        schema,
        Some(key),
        PlanModel::Keyed { to_insert, to_update, delete_keys },
        requested,
    );
    assert(full =~= list);
    assert(inserts_then_deletes(
        full,
        n,
        bound(flat(to_insert)) + bound(flat(to_update)),
        bound(flat(delete_keys)),
    ));
}

/// Deletes in batches bind every cell of every key.
proof fn lemma_deletes_bind(
    table: Seq<char>,
    key: Seq<Seq<char>>,
    keys: Seq<RowModel>,
    n: nat,
)
    requires
        n >= 1,
        key.len() == 1 ==> rows_have_width(keys, 1),
    ensures
        all_params(
            chunks(keys, n).map_values(|batch: Seq<RowModel>| delete_statement(table, key, batch)),
        ) == bound(flat(keys)),
    decreases keys.len(),
{
    let f = |batch: Seq<RowModel>| delete_statement(table, key, batch);
    let all = chunks(keys, n).map_values(f);
    if keys.len() == 0 {
        assert(all =~= Seq::empty());
        assert(bound(flat(keys)) =~= Seq::empty());
    } else {
        let m = (if keys.len() <= n {
            keys.len() as int
        } else {
            n as int
        });
        let first = keys.take(m);
        let rest = keys.skip(m);
        assert(first + rest =~= keys);
        let more = chunks(rest, n).map_values(f);
        if keys.len() <= n {
            assert(first =~= keys);
            assert(rest =~= Seq::empty());
        }
        assert(all =~= seq![f(first)] + more);
        assert(all.skip(1) =~= more);
        if key.len() == 1 {
            assert forall|j: int| 0 <= j < first.len() implies (#[trigger] first[j]).len() == 1 by {
                assert(first[j] == keys[j]);
            }
            assert forall|j: int| 0 <= j < rest.len() implies (#[trigger] rest[j]).len() == 1 by {
                assert(rest[j] == keys[m + j]);
            }
            lemma_firsts(first);
        }
        assert(all[0] == f(first));
        lemma_deletes_bind(table, key, rest, n);
        lemma_flat_concat(first, rest);
        assert(all_params(all) =~= bound(flat(keys)));
    }
}

/// The cells of rows stand one row after the other: those of one row are its cells, and those of two
/// lists are those of the first, then those of the second.
pub proof fn cells_stand_row_by_row(a: Seq<RowModel>, b: Seq<RowModel>, row: RowModel, c: int)
    ensures
        flat(Seq::empty()) == Seq::<Option<Seq<u8>>>::empty(),
        flat(seq![row]) == row,
        flat(a + b) == flat(a) + flat(b),
        bound(row).len() == row.len(),
        0 <= c < row.len() ==> bound(row)[c] == Some(row[c]),
{
    let one = seq![row];
    assert(one.drop_last() =~= Seq::empty());
    assert(flat(one.drop_last()) == Seq::<Option<Seq<u8>>>::empty());
    assert(flat(one) =~= row);
    lemma_flat_concat(a, b);
}

/// What is inserted and updated are rows of the dump.
proof fn lemma_plan_rows_are_of_the_dump(
    idx: Seq<int>,
    local: Seq<RowModel>,
    dump: Seq<RowModel>,
    width: nat,
)
    requires
        rows_have_width(dump, width),
    ensures
        rows_have_width(keyed_inserts(idx, local, dump), width),
        rows_have_width(keyed_updates(idx, local, dump), width),
    decreases dump.len(),
{
    if dump.len() > 0 {
        let ahead = dump.drop_last();
        assert forall|j: int| 0 <= j < ahead.len() implies (#[trigger] ahead[j]).len() == width by {
            assert(ahead[j] == dump[j]);
        }
        assert(dump[dump.len() - 1].len() == width);
        lemma_plan_rows_are_of_the_dump(idx, local, ahead, width);
    }
}

/// The rows of a list under their keys make up a table.
proof fn lemma_by_key_is_keyed(schema: SchemaModel, idx: Seq<int>, list: Seq<RowModel>)
    requires
        rows_have_width(list, schema.columns.len()),
    ensures
        is_keyed_table(by_key(list, idx), schema, idx),
    decreases list.len(),
{
    if list.len() > 0 {
        let less = list.drop_last();
        assert forall|j: int| 0 <= j < less.len() implies (#[trigger] less[j]).len()
            == schema.columns.len() by {
            assert(less[j] == list[j]);
        }
        lemma_by_key_is_keyed(schema, idx, less);
        let row = list.last();
        assert(list[list.len() - 1].len() == schema.columns.len());
        let k = key_of(row, idx);
        assert(k =~= Seq::new(idx.len(), |j: int| row[idx[j]]));
        let after = by_key(list, idx);
        let before = by_key(less, idx);
        assert forall|x: RowModel| #[trigger] after.contains_key(x) implies {
            &&& after[x].len() == schema.columns.len()
            &&& x == Seq::new(idx.len(), |j: int| after[x][idx[j]])
        } by {
            if x != k {
                assert(before.contains_key(x));
                assert(after[x] == before[x]);
            }
        }
    }
}

/// No row has NULL in a column of the key.
pub open spec fn keys_have_no_null(list: Seq<RowModel>, idx: Seq<int>) -> bool {
    forall|r: int, k: int|
        0 <= r < list.len() && 0 <= k < idx.len() ==> (#[trigger] list[r])[#[trigger] idx[k]] is Some
}

/// The statements of a table's plan, executed one after the other on the rows that the plan was computed
/// from, leave exactly the rows of the dump: under their keys where the table has a key, and each as
/// often as the dump has it where there is none. Rows have a value for every column, the columns are
/// told apart by their names, and a key is never NULL and is held by one row of the dump only.
pub proof fn executed_statements_reach_the_dump(
    plan: PlanModel,
    schema: SchemaModel,
    local: Seq<RowModel>,
    dump: Seq<RowModel>,
    requested: nat,
)
    requires
        is_table_plan(plan, schema, false, local, dump),
        schema.columns.len() > 0,
        has_distinct_columns(schema),
        rows_have_width(local, schema.columns.len()),
        rows_have_width(dump, schema.columns.len()),
        local.len() <= u64::MAX,
        schema.key() matches Some(key) ==> {
            &&& key.len() > 0
            &&& key_places(schema, key) matches Some(idx)
            &&& keys_have_no_null(local, idx)
            &&& distinct_keys(dump, idx)
        },
    ensures
        match schema.key() {
            Some(key) => {
                let idx = key_places(schema, key)->0;
                after_statements(
                    by_key(local, idx),
                    schema,
                    key,
                    idx,
                    plan_statements(schema, Some(key), plan, requested),
                ) == by_key(dump, idx)
            },
            None => bag_after_statements(
                local.to_multiset(),
                schema,
                plan_statements(schema, None, plan, requested),
            ) == dump.to_multiset(),
        },
{
    let w = schema.columns.len();
    match (schema.key(), plan) {
        (Some(key), PlanModel::Keyed { to_insert, to_update, delete_keys }) => {
            let idx = key_places(schema, key)->0;
            lemma_plan_rows_are_of_the_dump(idx, local, dump, w);
            lemma_by_key_is_keyed(schema, idx, local);
            assert forall|j: int| 0 <= j < delete_keys.len() implies (#[trigger] delete_keys[j]).len()
                == key.len() && has_no_null(delete_keys[j]) by {
                let k = delete_keys[j];
                assert(delete_keys.contains(k));
                lemma_last_with_key(local, idx, k);
                let row = last_with(local, idx, k)->0;
                let r = choose|r: int| 0 <= r < local.len() && local[r] == row;
                assert forall|c: int| 0 <= c < k.len() implies (#[trigger] k[c]) is Some by {
                    assert(k[c] == local[r][idx[c]]);
                }
            }
            keyed_statements_carry_out_the_plan(
                by_key(local, idx),
                schema,
                key,
                idx,
                to_insert,
                to_update,
                delete_keys,
                requested,
            );
            keyed_plan_reaches_the_dump(idx, local, dump, delete_keys);
        },
        (None, PlanModel::Unkeyed { to_insert, to_delete }) => {
            assert forall|j: int| 0 <= j < to_insert.len() implies (#[trigger] to_insert[j]).len()
                == w by {
                let row = to_insert[j];
                lemma_counted(to_insert, j);
                assert(count(to_insert, row) == surplus(dump, local, row));
                lemma_occurs(dump, row);
                let i = choose|i: int| 0 <= i < dump.len() && dump[i] == row;
                assert(dump[i].len() == w);
            }
            assert forall|j: int| 0 <= j < to_delete.len() implies (#[trigger] to_delete[j]).0.len()
                == w by {
                let (row, n) = to_delete[j];
                assert(to_delete.contains((row, n)));
                lemma_occurs(local, row);
                let i = choose|i: int| 0 <= i < local.len() && local[i] == row;
                assert(local[i].len() == w);
            }
            unkeyed_statements_carry_out_the_plan(
                local.to_multiset(),
                schema,
                None,
                to_insert,
                to_delete,
                requested,
            );
            unkeyed_plan_reaches_the_dump(local, dump, to_insert, to_delete);
        },
        _ => {},
    }
}

/// A row of a list is counted.
proof fn lemma_counted(list: Seq<RowModel>, j: int)
    requires
        0 <= j < list.len(),
    ensures
        count(list, list[j]) > 0,
    decreases list.len(),
{
    if j < list.len() - 1 {
        lemma_counted(list.drop_last(), j);
    }
}

/// A row that is counted is in the list.
proof fn lemma_occurs(list: Seq<RowModel>, row: RowModel)
    requires
        count(list, row) > 0,
    ensures
        list.contains(row),
    decreases list.len(),
{
    if list.last() == row {
        assert(list[list.len() - 1] == row);
    } else {
        let less = list.drop_last();
        lemma_occurs(less, row);
        let i = choose|i: int| 0 <= i < less.len() && less[i] == row;
        assert(list[i] == row);
    }
}

} // verus!
