//! The statements that apply a plan to a table, in batches.

use vstd::prelude::*;
use vstd::string::StringExecFns;

use crate::ddl::{SchemaModel, TableSchema};
use crate::plan::{counted, PlanModel, TablePlan};
use crate::rows::{clone_cell, rows, RowModel};
use crate::sqltext::{
    decimal_text, joined, name_list, push_decimal, quote_ident, quote_names, quoted, repeat_part,
    repeated, tuple_marks, tuple_of_marks,
};
use crate::text::{holds, strs, texts};
use crate::values::{cell, cell_to_value, cells, value_cell, Cell};

verus! {

/// The number of placeholders that one prepared statement can hold.
pub const MAX_PLACEHOLDERS: usize = 65535;

/// A statement with the values of its placeholders.
pub struct Statement {
    pub sql: String,
    pub params: Vec<mysql::Value>,
}

/// The content of a statement: its text, and for each placeholder the cell that is bound to it.
pub struct StatementModel {
    pub sql: Seq<char>,
    pub params: Seq<Option<Option<Seq<u8>>>>,
}

impl View for Statement {
    type V = StatementModel;

    open spec fn view(&self) -> StatementModel {
        StatementModel { sql: self.sql@, params: self.params@.map_values(|v: mysql::Value| value_cell(v)) }
    }
}

/// The contents of a list of statements.
pub open spec fn statement_list(v: Seq<Statement>) -> Seq<StatementModel> {
    v.map_values(|s: Statement| s@)
}

/// Cells as bound values.
pub open spec fn bound(row: RowModel) -> Seq<Option<Option<Seq<u8>>>> {
    row.map_values(|c: Option<Seq<u8>>| Some(c))
}

/// The cells of all rows, one row after the other.
pub open spec fn flat(list: Seq<RowModel>) -> RowModel
    decreases list.len(),
{
    if list.len() == 0 {
        Seq::empty()
    } else {
        flat(list.drop_last()) + list.last()
    }
}

/// The number of rows that go into one statement: as many as asked for, but no more than the
/// placeholder limit allows for rows of the given width, and at least one.
pub open spec fn batch_size(requested: nat, values_per_row: nat) -> nat {
    let width = if values_per_row > 1 {
        values_per_row
    } else {
        1
    };
    let most = MAX_PLACEHOLDERS as nat / width;
    let n = if requested < most {
        requested
    } else {
        most
    };
    if n > 1 {
        n
    } else {
        1
    }
}

/// The number of rows that go into one statement.
pub fn safe_batch_size(requested: usize, values_per_row: usize) -> (r: usize)
    ensures
        r == batch_size(requested as nat, values_per_row as nat),
        r >= 1,
{
    let width = if values_per_row > 1 {
        values_per_row
    } else {
        1
    };
    let most = MAX_PLACEHOLDERS / width;
    let n = if requested < most {
        requested
    } else {
        most
    };
    if n > 1 {
        n
    } else {
        1
    }
}

/// A sequence cut into pieces of `n`; the last one may be shorter.
pub open spec fn chunks<A>(s: Seq<A>, n: nat) -> Seq<Seq<A>>
    decreases s.len(),
{
    if s.len() == 0 || n == 0 {
        Seq::empty()
    } else if s.len() <= n {
        seq![s]
    } else {
        seq![s.take(n as int)] + chunks(s.skip(n as int), n)
    }
}

/// The contents of a list of lists.
pub open spec fn pieces<A>(v: Seq<Vec<A>>) -> Seq<Seq<A>> {
    v.map_values(|piece: Vec<A>| piece@)
}

/// Cuts a list into pieces of `n`.
pub fn chunked<A>(items: Vec<A>, n: usize) -> (r: Vec<Vec<A>>)
    requires
        n >= 1,
    ensures
        pieces(r@) == chunks(items@, n as nat),
{
    let ghost all = items@;
    let mut out: Vec<Vec<A>> = Vec::new();
    let mut piece: Vec<A> = Vec::new();
    let ghost mut start: int = 0;
    proof {
        assert(all.skip(0) =~= all);
        assert(pieces(out@) =~= Seq::empty());
        assert(Seq::empty() + chunks(all, n as nat) =~= chunks(all, n as nat));
    }
    for item in it: items
        invariant
            it.seq() == all,
            all == items@,
            n >= 1,
            0 <= start <= it.index() <= all.len(),
            piece@ == all.subrange(start, it.index()),
            piece@.len() < n,
            chunks(all, n as nat) == pieces(out@) + chunks(all.skip(start), n as nat),
    {
        let ghost i = it.index();
        piece.push(item);
        assert(piece@ =~= all.subrange(start, i + 1));
        if piece.len() >= n {
            let ghost before = pieces(out@);
            let ghost rest = all.skip(start);
            out.push(piece);
            proof {
                assert(pieces(out@) =~= before.push(piece@));
                assert(rest.take(n as int) =~= piece@);
                assert(rest.skip(n as int) =~= all.skip(i + 1));
                if rest.len() <= n {
                    assert(rest =~= piece@);
                    assert(all.skip(i + 1) =~= Seq::empty());
                    assert(chunks(all, n as nat) =~= pieces(out@) + chunks(all.skip(i + 1), n as nat));
                } else {
                    assert(chunks(all, n as nat) =~= pieces(out@) + chunks(all.skip(i + 1), n as nat));
                }
                start = i + 1;
            }
            piece = Vec::new();
            assert(piece@ =~= all.subrange(start, i + 1));
        }
    }
    let ghost before = pieces(out@);
    assert(piece@ =~= all.skip(start));
    if piece.len() > 0 {
        out.push(piece);
        assert(pieces(out@) =~= before.push(piece@));
    }
    assert(pieces(out@) =~= chunks(all, n as nat));
    out
}

/// Cutting a list of rows and taking contents commute.
proof fn lemma_chunks_of_rows(v: Seq<Vec<Cell>>, n: nat)
    ensures
        chunks(rows(v), n) == chunks(v, n).map_values(|piece: Seq<Vec<Cell>>| rows(piece)),
    decreases v.len(),
{
    if v.len() == 0 || n == 0 {
    } else if v.len() <= n {
        assert(chunks(v, n).map_values(|piece: Seq<Vec<Cell>>| rows(piece)) =~= seq![rows(v)]);
    } else {
        lemma_chunks_of_rows(v.skip(n as int), n);
        assert(rows(v).take(n as int) =~= rows(v.take(n as int)));
        assert(rows(v).skip(n as int) =~= rows(v.skip(n as int)));
        assert(chunks(rows(v), n) =~= chunks(v, n).map_values(
            |piece: Seq<Vec<Cell>>| rows(piece),
        ));
    }
}

/// Appends the cells of a row as bound values.
fn bind_row(params: &mut Vec<mysql::Value>, row: Vec<Cell>)
    ensures
        final(params)@.map_values(|v: mysql::Value| value_cell(v)) == old(params)@.map_values(
            |v: mysql::Value| value_cell(v),
        ) + bound(cells(row@)),
{
    let ghost before = params@;
    for c in it: row
        invariant
            it.seq() == row@,
            params@.len() == before.len() + it.index(),
            forall|j: int| 0 <= j < before.len() ==> #[trigger] params@[j] == before[j],
            forall|j: int|
                0 <= j < it.index() ==> value_cell(params@[before.len() + j]) == Some(
                    cell(#[trigger] row@[j]),
                ),
    {
        params.push(cell_to_value(c));
    }
    assert(params@.map_values(|v: mysql::Value| value_cell(v)) =~= before.map_values(
        |v: mysql::Value| value_cell(v),
    ) + bound(cells(row@)));
}

/// The cells of all rows as bound values.
fn bind_rows(batch: Vec<Vec<Cell>>) -> (r: Vec<mysql::Value>)
    ensures
        r@.map_values(|v: mysql::Value| value_cell(v)) == bound(flat(rows(batch@))),
{
    let ghost all = rows(batch@);
    let mut params: Vec<mysql::Value> = Vec::new();
    assert(all.take(0) =~= Seq::empty());
    assert(params@.map_values(|v: mysql::Value| value_cell(v)) =~= bound(flat(all.take(0))));
    for row in it: batch
        invariant
            it.seq() == batch@,
            all == rows(batch@),
            params@.map_values(|v: mysql::Value| value_cell(v)) == bound(flat(all.take(it.index()))),
    {
        let ghost i = it.index();
        proof {
            assert(all.take(i + 1).drop_last() =~= all.take(i));
            assert(all.take(i + 1).last() == cells(row@));
        }
        bind_row(&mut params, row);
        assert(params@.map_values(|v: mysql::Value| value_cell(v)) =~= bound(flat(all.take(i + 1))));
    }
    assert(all.take(all.len() as int) =~= all);
    params
}

/// `INSERT INTO t (columns) VALUES (?,...),...` for a batch of rows, with `tail` at its end.
pub open spec fn insert_statement(
    table: Seq<char>,
    columns: Seq<Seq<char>>,
    batch: Seq<RowModel>,
    tail: Seq<char>,
) -> StatementModel {
    StatementModel {
        sql: "INSERT INTO "@ + quoted(table) + " ("@ + name_list(columns) + ") VALUES "@ + joined(
            repeated(tuple_marks(columns.len()), batch.len()),
            ","@,
        ) + tail,
        params: bound(flat(batch)),
    }
}

/// The statements that insert rows, a batch each, with `tail` at the end of each.
pub open spec fn insert_statements(
    table: Seq<char>,
    columns: Seq<Seq<char>>,
    list: Seq<RowModel>,
    requested: nat,
    tail: Seq<char>,
) -> Seq<StatementModel> {
    chunks(list, batch_size(requested, columns.len())).map_values(
        |batch: Seq<RowModel>| insert_statement(table, columns, batch, tail),
    )
}

/// The statement that inserts one batch of rows.
fn flush_insert(
    table: &str,
    columns: &[&str],
    col_sql: &str,
    row_marks: &str,
    batch: Vec<Vec<Cell>>,
    tail: &str,
) -> (r: Statement)
    requires
        col_sql@ == name_list(strs(columns@)),
        row_marks@ == tuple_marks(columns@.len()),
    ensures
        r@ == insert_statement(table@, strs(columns@), rows(batch@), tail@),
{
    let mut sql = String::new();
    sql.append("INSERT INTO ");
    sql.append(quote_ident(table).as_str());
    sql.append(" (");
    sql.append(col_sql);
    sql.append(") VALUES ");
    sql.append(repeat_part(row_marks, batch.len()).as_str());
    sql.append(tail);
    let params = bind_rows(batch);
    let r = Statement { sql, params };
    assert(r@.sql =~= insert_statement(table@, strs(columns@), rows(batch@), tail@).sql);
    r
}

/// The statements that insert rows, a batch each, with `tail` at the end of each.
fn build_inserts(
    table: &str,
    columns: &[&str],
    list: Vec<Vec<Cell>>,
    requested: usize,
    tail: &str,
) -> (r: Vec<Statement>)
    ensures
        statement_list(r@) == insert_statements(
            table@,
            strs(columns@),
            rows(list@),
            requested as nat,
            tail@,
        ),
{
    let ghost model = rows(list@);
    let col_sql = quote_names(columns);
    let row_marks = tuple_of_marks(columns.len());
    let n = safe_batch_size(requested, columns.len());
    proof {
        lemma_chunks_of_rows(list@, n as nat);
    }
    let batches = chunked(list, n);
    let ghost want = insert_statements(table@, strs(columns@), model, requested as nat, tail@);
    let mut out: Vec<Statement> = Vec::new();
    assert(statement_list(out@) =~= Seq::empty());
    for batch in it: batches
        invariant
            it.seq() == batches@,
            n == batch_size(requested as nat, columns@.len()),
            col_sql@ == name_list(strs(columns@)),
            row_marks@ == tuple_marks(columns@.len()),
            want == insert_statements(table@, strs(columns@), model, requested as nat, tail@),
            chunks(model, n as nat) == pieces(batches@).map_values(
                |piece: Seq<Vec<Cell>>| rows(piece),
            ),
            statement_list(out@) =~= want.take(it.index()),
    {
        let ghost i = it.index();
        let ghost before = statement_list(out@);
        assert(chunks(model, n as nat)[i] == rows(pieces(batches@)[i]));
        let s = flush_insert(table, columns, col_sql.as_str(), row_marks.as_str(), batch, tail);
        out.push(s);
        assert(statement_list(out@) =~= before.push(s@));
        assert(want.take(i + 1) =~= want.take(i).push(want[i]));
    }
    assert(want.take(want.len() as int) =~= want);
    out
}

/// The statements that insert rows into a table.
pub fn bulk_insert(table: &str, columns: &[&str], list: Vec<Vec<Cell>>, requested: usize) -> (r: Vec<
    Statement,
>)
    ensures
        statement_list(r@) == insert_statements(
            table@,
            strs(columns@),
            rows(list@),
            requested as nat,
            Seq::empty(),
        ),
{
    proof {
        reveal_strlit("");
        assert(""@ =~= Seq::empty());
    }
    build_inserts(table, columns, list, requested, "")
}

/// The columns that do not belong to the key, in order.
pub open spec fn non_key(columns: Seq<Seq<char>>, key: Seq<Seq<char>>) -> Seq<Seq<char>>
    decreases columns.len(),
{
    if columns.len() == 0 {
        Seq::empty()
    } else if key.contains(columns.last()) {
        non_key(columns.drop_last(), key)
    } else {
        non_key(columns.drop_last(), key).push(columns.last())
    }
}

/// The assignment of one column's new value.
pub open spec fn assignment(name: Seq<char>) -> Seq<char> {
    quoted(name) + "=VALUES("@ + quoted(name) + ")"@
}

/// The assignments of all given columns' new values.
pub open spec fn assignments(names: Seq<Seq<char>>) -> Seq<Seq<char>> {
    names.map_values(|name: Seq<char>| assignment(name))
}

/// What makes an insert update the row with the same key: every column outside the key gets its new
/// value. Nothing is left to update where there is no such column.
pub open spec fn update_clause(columns: Seq<Seq<char>>, key: Seq<Seq<char>>) -> Seq<char> {
    if non_key(columns, key).len() == 0 {
        Seq::empty()
    } else {
        " ON DUPLICATE KEY UPDATE "@ + joined(assignments(non_key(columns, key)), ","@)
    }
}

/// The text of the update clause.
fn build_update_clause(columns: &[&str], key_cols: &[String]) -> (r: String)
    ensures
        r@ == update_clause(strs(columns@), texts(key_cols@)),
{
    let ghost names = strs(columns@);
    let ghost key = texts(key_cols@);
    let mut out = String::new();
    let mut any = false;
    let mut i: usize = 0;
    assert(names.take(0) =~= Seq::empty());
    while i < columns.len()
        invariant
            i <= columns@.len(),
            names == strs(columns@),
            key == texts(key_cols@),
            out@ == update_clause(names.take(i as int), key),
            any == (non_key(names.take(i as int), key).len() > 0),
        decreases columns@.len() - i,
    {
        let name = columns[i];
        let ghost before = non_key(names.take(i as int), key);
        proof {
            assert(names.take(i + 1).drop_last() =~= names.take(i as int));
            assert(names.take(i + 1).last() == name@);
        }
        if !holds(key_cols, name) {
            let ghost more = non_key(names.take(i + 1), key);
            proof {
                assert(more == before.push(name@));
                assert(assignments(more).drop_last() =~= assignments(before));
                assert(assignments(more).last() == assignment(name@));
            }
            let ghost head = out@;
            if any {
                out.append(",");
            } else {
                out.append(" ON DUPLICATE KEY UPDATE ");
            }
            let ident = quote_ident(name);
            out.append(ident.as_str());
            out.append("=VALUES(");
            out.append(ident.as_str());
            out.append(")");
            assert(out@ =~= update_clause(names.take(i + 1), key));
            any = true;
        }
        i = i + 1;
    }
    assert(names.take(i as int) =~= names);
    out
}

/// The statements that put rows under their keys, a batch each.
pub open spec fn upsert_statements(
    schema: SchemaModel,
    key: Seq<Seq<char>>,
    list: Seq<RowModel>,
    requested: nat,
) -> Seq<StatementModel> {
    insert_statements(
        schema.name,
        schema.column_names(),
        list,
        requested,
        update_clause(schema.column_names(), key),
    )
}

/// The statements that insert rows where their key is new, and update them where it is not.
pub fn upsert_batch(
    schema: &TableSchema,
    key_cols: &[String],
    list: Vec<Vec<Cell>>,
    requested: usize,
) -> (r: Vec<Statement>)
    ensures
        statement_list(r@) == upsert_statements(
            schema@,
            texts(key_cols@),
            rows(list@),
            requested as nat,
        ),
{
    let columns = schema.column_names();
    let tail = build_update_clause(columns.as_slice(), key_cols);
    build_inserts(schema.name.as_str(), columns.as_slice(), list, requested, tail.as_str())
}

/// The key's columns as the left side of an `IN`.
pub open spec fn key_sql(key: Seq<Seq<char>>) -> Seq<char> {
    if key.len() == 1 {
        quoted(key[0])
    } else {
        "("@ + name_list(key) + ")"@
    }
}

/// The placeholders for one key on the right side of an `IN`.
pub open spec fn key_marks(key: Seq<Seq<char>>) -> Seq<char> {
    if key.len() == 1 {
        "?"@
    } else {
        tuple_marks(key.len())
    }
}

/// The first cell of each key.
pub open spec fn firsts(keys: Seq<RowModel>) -> RowModel {
    keys.map_values(|key: RowModel| key[0])
}

/// `DELETE FROM t WHERE key IN (...)` for a batch of keys.
pub open spec fn delete_statement(
    table: Seq<char>,
    key: Seq<Seq<char>>,
    batch: Seq<RowModel>,
) -> StatementModel {
    StatementModel {
        sql: "DELETE FROM "@ + quoted(table) + " WHERE "@ + key_sql(key) + " IN ("@ + joined(
            repeated(key_marks(key), batch.len()),
            ","@,
        ) + ")"@,
        params: bound(
            if key.len() == 1 {
                firsts(batch)
            } else {
                flat(batch)
            },
        ),
    }
}

/// The statements that delete the rows with the given keys, a batch each.
pub open spec fn delete_statements(
    table: Seq<char>,
    key: Seq<Seq<char>>,
    keys: Seq<RowModel>,
    requested: nat,
) -> Seq<StatementModel> {
    chunks(keys, batch_size(requested, key.len())).map_values(
        |batch: Seq<RowModel>| delete_statement(table, key, batch),
    )
}

/// Every key has a cell.
pub open spec fn none_empty(keys: Seq<RowModel>) -> bool {
    forall|i: int| 0 <= i < keys.len() ==> (#[trigger] keys[i]).len() > 0
}

/// The first cell of each key as bound values.
fn bind_firsts(batch: Vec<Vec<Cell>>) -> (r: Vec<mysql::Value>)
    requires
        none_empty(rows(batch@)),
    ensures
        r@.map_values(|v: mysql::Value| value_cell(v)) == bound(firsts(rows(batch@))),
{
    let ghost all = rows(batch@);
    let mut params: Vec<mysql::Value> = Vec::new();
    for key in it: batch
        invariant
            it.seq() == batch@,
            all == rows(batch@),
            none_empty(all),
            params@.len() == it.index(),
            forall|j: int| 0 <= j < it.index() ==> value_cell(#[trigger] params@[j]) == Some(all[j][0]),
    {
        assert(all[it.index()] == cells(key@));
        let first = clone_cell(&key[0]);
        params.push(cell_to_value(first));
    }
    assert(params@.map_values(|v: mysql::Value| value_cell(v)) =~= bound(firsts(all)));
    params
}

/// The names of a key.
fn key_names(key_cols: &[String]) -> (r: Vec<&str>)
    ensures
        strs(r@) == texts(key_cols@),
{
    let mut names: Vec<&str> = Vec::new();
    let mut i: usize = 0;
    while i < key_cols.len()
        invariant
            i <= key_cols@.len(),
            names@.len() == i,
            forall|j: int| 0 <= j < i ==> (#[trigger] names@[j])@ == key_cols@[j]@,
        decreases key_cols@.len() - i,
    {
        names.push(key_cols[i].as_str());
        i = i + 1;
    }
    assert(strs(names@) =~= texts(key_cols@));
    names
}

/// The pieces of a list of keys that all have cells have cells too.
proof fn lemma_chunks_none_empty(keys: Seq<RowModel>, n: nat, i: int)
    requires
        none_empty(keys),
        0 <= i < chunks(keys, n).len(),
    ensures
        none_empty(chunks(keys, n)[i]),
    decreases keys.len(),
{
    if keys.len() > n && i > 0 {
        lemma_chunks_none_empty(keys.skip(n as int), n, i - 1);
    }
}

/// The statements that delete the rows with the given keys.
pub fn delete_by_key(
    table: &str,
    key_cols: &[String],
    keys: Vec<Vec<Cell>>,
    requested: usize,
) -> (r: Vec<Statement>)
    requires
        key_cols@.len() == 1 ==> none_empty(rows(keys@)),
    ensures
        statement_list(r@) == delete_statements(
            table@,
            texts(key_cols@),
            rows(keys@),
            requested as nat,
        ),
{
    let ghost model = rows(keys@);
    let ghost key = texts(key_cols@);
    let single = key_cols.len() == 1;
    let mut col_sql = String::new();
    let one_key = if single {
        col_sql.append(quote_ident(key_cols[0].as_str()).as_str());
        assert(col_sql@ =~= key_sql(key));
        "?".to_owned()
    } else {
        col_sql.append("(");
        col_sql.append(quote_names(key_names(key_cols).as_slice()).as_str());
        col_sql.append(")");
        assert(col_sql@ =~= key_sql(key));
        tuple_of_marks(key_cols.len())
    };
    let n = safe_batch_size(requested, key_cols.len());
    proof {
        lemma_chunks_of_rows(keys@, n as nat);
    }
    let batches = chunked(keys, n);
    let ghost want = delete_statements(table@, key, model, requested as nat);
    let mut out: Vec<Statement> = Vec::new();
    assert(statement_list(out@) =~= Seq::empty());
    for batch in it: batches
        invariant
            it.seq() == batches@,
            key == texts(key_cols@),
            single == (key.len() == 1),
            single ==> none_empty(model),
            n == batch_size(requested as nat, key.len()),
            col_sql@ == key_sql(key),
            one_key@ == key_marks(key),
            want == delete_statements(table@, key, model, requested as nat),
            chunks(model, n as nat) == pieces(batches@).map_values(
                |piece: Seq<Vec<Cell>>| rows(piece),
            ),
            statement_list(out@) =~= want.take(it.index()),
    {
        let ghost i = it.index();
        let ghost before = statement_list(out@);
        proof {
            assert(chunks(model, n as nat)[i] == rows(pieces(batches@)[i]));
            if single {
                lemma_chunks_none_empty(model, n as nat, i);
            }
        }
        let mut sql = String::new();
        sql.append("DELETE FROM ");
        sql.append(quote_ident(table).as_str());
        sql.append(" WHERE ");
        sql.append(col_sql.as_str());
        sql.append(" IN (");
        sql.append(repeat_part(one_key.as_str(), batch.len()).as_str());
        sql.append(")");
        let ghost model_batch = rows(batch@);
        let params = if single {
            bind_firsts(batch)
        } else {
            bind_rows(batch)
        };
        let s = Statement { sql, params };
        assert(s@.sql =~= delete_statement(table@, key, model_batch).sql);
        out.push(s);
        assert(statement_list(out@) =~= before.push(s@));
        assert(want.take(i + 1) =~= want.take(i).push(want[i]));
    }
    assert(want.take(want.len() as int) =~= want);
    out
}

/// The condition on one column: NULL is matched by `IS NULL`, a value by `<=>`.
pub open spec fn condition(name: Seq<char>, c: Option<Seq<u8>>) -> Seq<char> {
    quoted(name) + (match c {
        None => " IS NULL"@,
        Some(_) => " <=> ?"@,
    })
}

/// The number of columns that have a cell.
pub open spec fn paired(columns: Seq<Seq<char>>, row: RowModel) -> nat {
    if columns.len() < row.len() {
        columns.len()
    } else {
        row.len()
    }
}

/// The conditions that a row satisfies, one per column.
pub open spec fn conditions(columns: Seq<Seq<char>>, row: RowModel) -> Seq<Seq<char>> {
    Seq::new(paired(columns, row), |i: int| condition(columns[i], row[i]))
}

/// The cells that are not NULL, in order.
pub open spec fn present(row: RowModel) -> RowModel
    decreases row.len(),
{
    if row.len() == 0 {
        Seq::empty()
    } else if row.last() is None {
        present(row.drop_last())
    } else {
        present(row.drop_last()).push(row.last())
    }
}

/// `DELETE FROM t WHERE ... LIMIT n` for `n` copies of one row.
pub open spec fn delete_copies_statement(
    table: Seq<char>,
    columns: Seq<Seq<char>>,
    row: RowModel,
    n: u64,
) -> StatementModel {
    StatementModel {
        sql: "DELETE FROM "@ + quoted(table) + " WHERE "@ + joined(
            conditions(columns, row),
            " AND "@,
        ) + " LIMIT "@ + decimal_text(n as nat),
        params: bound(present(row.take(paired(columns, row) as int))),
    }
}

/// The statement that deletes `n` copies of one row.
pub fn delete_n_matching(table: &str, columns: &[&str], row: &[Cell], n: u64) -> (r: Statement)
    ensures
        r@ == delete_copies_statement(table@, strs(columns@), cells(row@), n),
{
    let ghost names = strs(columns@);
    let ghost model = cells(row@);
    let count = if columns.len() < row.len() {
        columns.len()
    } else {
        row.len()
    };
    let ghost want = conditions(names, model);
    let mut conds = String::new();
    let mut params: Vec<mysql::Value> = Vec::new();
    let mut i: usize = 0;
    proof {
        assert(want.take(0) =~= Seq::empty());
        assert(model.take(0) =~= Seq::empty());
        assert(params@.map_values(|v: mysql::Value| value_cell(v)) =~= bound(
            present(model.take(0)),
        ));
    }
    while i < count
        invariant
            i <= count,
            count == paired(names, model),
            names == strs(columns@),
            model == cells(row@),
            want == conditions(names, model),
            conds@ == joined(want.take(i as int), " AND "@),
            params@.map_values(|v: mysql::Value| value_cell(v)) == bound(
                present(model.take(i as int)),
            ),
        decreases count - i,
    {
        proof {
            assert(want.take(i + 1).drop_last() =~= want.take(i as int));
            assert(want.take(i + 1).last() == condition(names[i as int], model[i as int]));
            assert(model.take(i + 1).drop_last() =~= model.take(i as int));
            assert(model.take(i + 1).last() == cell(row@[i as int]));
        }
        let ghost head = conds@;
        let ghost before = params@.map_values(|v: mysql::Value| value_cell(v));
        if i > 0 {
            conds.append(" AND ");
        }
        conds.append(quote_ident(columns[i]).as_str());
        match &row[i] {
            None => {
                conds.append(" IS NULL");
            },
            Some(_) => {
                conds.append(" <=> ?");
                let v = cell_to_value(clone_cell(&row[i]));
                params.push(v);
                assert(params@.map_values(|v: mysql::Value| value_cell(v)) =~= before.push(
                    value_cell(v),
                ));
                assert(bound(present(model.take(i + 1))) =~= bound(
                    present(model.take(i as int)),
                ).push(Some(model[i as int])));
            },
        }
        assert(conds@ =~= joined(want.take(i + 1), " AND "@));
        i = i + 1;
    }
    assert(want.take(i as int) =~= want);
    let mut sql = String::new();
    sql.append("DELETE FROM ");
    sql.append(quote_ident(table).as_str());
    sql.append(" WHERE ");
    sql.append(conds.as_str());
    sql.append(" LIMIT ");
    push_decimal(&mut sql, n);
    let r = Statement { sql, params };
    assert(r@.sql =~= delete_copies_statement(table@, names, model, n).sql);
    r
}

/// The statements that delete copies of rows.
pub open spec fn delete_copies_statements(
    table: Seq<char>,
    columns: Seq<Seq<char>>,
    list: Seq<(RowModel, u64)>,
) -> Seq<StatementModel> {
    list.map_values(|e: (RowModel, u64)| delete_copies_statement(table, columns, e.0, e.1))
}

/// The statements that apply a plan, in order: rows come in or get their new values first, then
/// rows go.
pub open spec fn plan_statements(
    schema: SchemaModel,
    key: Option<Seq<Seq<char>>>,
    plan: PlanModel,
    requested: nat,
) -> Seq<StatementModel> {
    let table = schema.name;
    let columns = schema.column_names();
    match plan {
        PlanModel::New { rows } => insert_statements(
            table,
            columns,
            rows,
            requested,
            Seq::empty(),
        ),
        PlanModel::Keyed { to_insert, to_update, delete_keys } => upsert_statements(
            schema,
            key->0,
            to_insert + to_update,
            requested,
        ) + delete_statements(table, key->0, delete_keys, requested),
        PlanModel::Unkeyed { to_insert, to_delete } => insert_statements(
            table,
            columns,
            to_insert,
            requested,
            Seq::empty(),
        ) + delete_copies_statements(table, columns, to_delete),
    }
}

/// A plan that goes by a key comes with that key, and its keys have cells.
pub open spec fn applicable(plan: PlanModel, key: Option<Seq<Seq<char>>>) -> bool {
    match plan {
        PlanModel::Keyed { delete_keys, .. } => {
            &&& key is Some
            &&& key->0.len() == 1 ==> none_empty(delete_keys)
        },
        _ => true,
    }
}

/// The content of an optional key.
pub open spec fn key_model(key_cols: Option<&[String]>) -> Option<Seq<Seq<char>>> {
    match key_cols {
        Some(k) => Some(texts(k@)),
        None => None,
    }
}

/// Whether every key has a cell.
fn keys_have_cells(keys: &[Vec<Cell>]) -> (r: bool)
    ensures
        r == none_empty(rows(keys@)),
{
    let mut i: usize = 0;
    while i < keys.len()
        invariant
            i <= keys@.len(),
            forall|j: int| 0 <= j < i ==> (#[trigger] rows(keys@)[j]).len() > 0,
        decreases keys@.len() - i,
    {
        if keys[i].is_empty() {
            assert(rows(keys@)[i as int].len() == 0);
            return false;
        }
        i = i + 1;
    }
    true
}

/// The statements that apply a plan to its table, to be executed in order; `None` when the plan goes
/// by a key that is not given.
pub fn try_apply_table_plan(
    schema: &TableSchema,
    key_cols: Option<&[String]>,
    plan: TablePlan,
    requested: usize,
) -> (r: Option<Vec<Statement>>)
    ensures
        r is Some <==> applicable(plan@, key_model(key_cols)),
        r matches Some(list) ==> statement_list(list@) == plan_statements(
            schema@,
            key_model(key_cols),
            plan@,
            requested as nat,
        ),
{
    let table = schema.name.as_str();
    let columns = schema.column_names();
    match plan {
        TablePlan::New { rows } => Some(bulk_insert(table, columns.as_slice(), rows, requested)),
        TablePlan::Keyed { to_insert, to_update, delete_keys } => {
            let key = match key_cols {
                Some(key) => key,
                None => {
                    return None;
                },
            };
            if key.len() == 1 && !keys_have_cells(delete_keys.as_slice()) {
                return None;
            }
            let ghost first = rows(to_insert@);
            let ghost second = rows(to_update@);
            let mut upsert_rows = to_insert;
            let mut updates = to_update;
            upsert_rows.append(&mut updates);
            assert(rows(upsert_rows@) =~= first + second);
            let mut out = upsert_batch(schema, key, upsert_rows, requested);
            let ghost upserts = statement_list(out@);
            let mut deletes = delete_by_key(table, key, delete_keys, requested);
            let ghost removals = statement_list(deletes@);
            out.append(&mut deletes);
            assert(statement_list(out@) =~= upserts + removals);
            Some(out)
        },
        TablePlan::Unkeyed { to_insert, to_delete } => {
            let mut out = bulk_insert(table, columns.as_slice(), to_insert, requested);
            let ghost head = statement_list(out@);
            let ghost want = delete_copies_statements(
                schema@.name,
                schema@.column_names(),
                counted(to_delete@),
            );
            let mut i: usize = 0;
            assert(head + want.take(0) =~= head);
            while i < to_delete.len()
                invariant
                    i <= to_delete@.len(),
                    table@ == schema@.name,
                    strs(columns@) == schema@.column_names(),
                    want == delete_copies_statements(
                        schema@.name,
                        schema@.column_names(),
                        counted(to_delete@),
                    ),
                    statement_list(out@) == head + want.take(i as int),
                decreases to_delete@.len() - i,
            {
                let ghost before = statement_list(out@);
                let e = &to_delete[i];
                let s = delete_n_matching(table, columns.as_slice(), e.0.as_slice(), e.1);
                out.push(s);
                proof {
                    assert(counted(to_delete@)[i as int] == (cells(e.0@), e.1));
                    assert(statement_list(out@) =~= before.push(s@));
                    assert(want.take(i + 1) =~= want.take(i as int).push(want[i as int]));
                    assert(statement_list(out@) =~= head + want.take(i + 1));
                }
                i = i + 1;
            }
            assert(want.take(i as int) =~= want);
            Some(out)
        },
    }
}

/// The statements that apply a plan to its table, to be executed in order.
pub fn apply_table_plan(
    schema: &TableSchema,
    key_cols: Option<&[String]>,
    plan: TablePlan,
    requested: usize,
) -> (r: Vec<Statement>)
    requires
        applicable(plan@, key_model(key_cols)),
    ensures
        statement_list(r@) == plan_statements(
            schema@,
            key_model(key_cols),
            plan@,
            requested as nat,
        ),
{
    try_apply_table_plan(schema, key_cols, plan, requested).unwrap()
}

/// The query for all rows of a table.
pub open spec fn select_sql(schema: SchemaModel) -> Seq<char> {
    "SELECT "@ + name_list(schema.column_names()) + " FROM "@ + quoted(schema.name)
}

/// The query for all rows of a table, each with its cells in the order of the columns.
pub fn select_statement(schema: &TableSchema) -> (r: String)
    ensures
        r@ == select_sql(schema@),
{
    let mut sql = String::new();
    sql.append("SELECT ");
    sql.append(quote_names(schema.column_names().as_slice()).as_str());
    sql.append(" FROM ");
    sql.append(quote_ident(schema.name.as_str()).as_str());
    assert(sql@ =~= select_sql(schema@));
    sql
}

/// Nothing is lost or reordered when a sequence is cut into pieces: put together again they are the
/// sequence.
pub proof fn chunks_put_together<A>(s: Seq<A>, n: nat)
    requires
        n >= 1,
    ensures
        chunks(s, n).flatten() == s,
    decreases s.len(),
{
    if s.len() == 0 {
        assert(chunks(s, n).flatten() =~= s);
    } else if s.len() <= n {
        assert(seq![s].drop_first() =~= Seq::empty());
        assert(seq![s].flatten() =~= s + Seq::<Seq<A>>::empty().flatten());
        assert(chunks(s, n).flatten() =~= s);
    } else {
        let first = s.take(n as int);
        let rest = chunks(s.skip(n as int), n);
        chunks_put_together(s.skip(n as int), n);
        assert((seq![first] + rest).drop_first() =~= rest);
        assert((seq![first] + rest).first() == first);
        assert(first + s.skip(n as int) =~= s);
    }
}

/// Every piece holds at least one element and no more than asked for.
pub proof fn chunks_are_bounded<A>(s: Seq<A>, n: nat, i: int)
    requires
        0 <= i < chunks(s, n).len(),
    ensures
        1 <= chunks(s, n)[i].len() <= n,
    decreases s.len(),
{
    if s.len() > n && i > 0 {
        chunks_are_bounded(s.skip(n as int), n, i - 1);
    }
}

/// A piece holds only elements of the sequence.
proof fn lemma_chunk_members<A>(s: Seq<A>, n: nat, i: int, j: int)
    requires
        0 <= i < chunks(s, n).len(),
        0 <= j < chunks(s, n)[i].len(),
    ensures
        s.contains(chunks(s, n)[i][j]),
    decreases s.len(),
{
    if s.len() <= n {
        assert(s[j] == chunks(s, n)[i][j]);
    } else if i == 0 {
        assert(s[j] == chunks(s, n)[i][j]);
    } else {
        let rest = s.skip(n as int);
        lemma_chunk_members(rest, n, i - 1, j);
        let x = chunks(s, n)[i][j];
        assert(chunks(rest, n)[i - 1][j] == x);
        let k = choose|k: int| 0 <= k < rest.len() && rest[k] == x;
        assert(s[n + k] == x);
    }
}

/// All rows have `width` cells.
pub open spec fn rows_have_width(list: Seq<RowModel>, width: nat) -> bool {
    forall|i: int| 0 <= i < list.len() ==> (#[trigger] list[i]).len() == width
}

/// The number of cells of rows of one width.
proof fn lemma_flat_len(list: Seq<RowModel>, width: nat)
    requires
        rows_have_width(list, width),
    ensures
        flat(list).len() == list.len() * width,
    decreases list.len(),
{
    if list.len() > 0 {
        lemma_flat_len(list.drop_last(), width);
        assert(list.last().len() == width);
        assert(list.len() * width == (list.len() - 1) * width + width) by (nonlinear_arith)
            requires
                list.len() > 0,
        ;
    } else {
        assert(list.len() * width == 0) by (nonlinear_arith)
            requires
                list.len() == 0,
        ;
    }
}

/// A batch of rows of one width, no wider than the limit, stays within the placeholder limit.
proof fn lemma_batch_fits(list: Seq<RowModel>, requested: nat, width: nat, i: int)
    requires
        width <= MAX_PLACEHOLDERS,
        rows_have_width(list, width),
        0 <= i < chunks(list, batch_size(requested, width)).len(),
    ensures
        flat(chunks(list, batch_size(requested, width))[i]).len() <= MAX_PLACEHOLDERS,
        chunks(list, batch_size(requested, width))[i].len() * width <= MAX_PLACEHOLDERS,
{
    let n = batch_size(requested, width);
    let batch = chunks(list, n)[i];
    chunks_are_bounded(list, n, i);
    assert forall|j: int| 0 <= j < batch.len() implies (#[trigger] batch[j]).len() == width by {
        lemma_chunk_members(list, n, i, j);
        let k = choose|k: int| 0 <= k < list.len() && list[k] == batch[j];
        assert(list[k].len() == width);
    }
    lemma_flat_len(batch, width);
    if width == 0 {
        assert(batch.len() * width == 0) by (nonlinear_arith)
            requires
                width == 0,
        ;
    } else {
        let w = width as int;
        let most = MAX_PLACEHOLDERS as int / w;
        assert(most >= 1 && most * w <= MAX_PLACEHOLDERS) by (nonlinear_arith)
            requires
                1 <= w <= MAX_PLACEHOLDERS,
                most == MAX_PLACEHOLDERS as int / w,
        ;
        assert(n <= most);
        assert(batch.len() * width <= most * w) by (nonlinear_arith)
            requires
                batch.len() <= most,
                width == w,
        ;
    }
}

/// The rows of a plan have one cell per column, and its keys one per key column.
pub open spec fn plan_has_width(plan: PlanModel, width: nat, key_width: nat) -> bool {
    match plan {
        PlanModel::New { rows } => rows_have_width(rows, width),
        PlanModel::Keyed { to_insert, to_update, delete_keys } => {
            &&& rows_have_width(to_insert, width)
            &&& rows_have_width(to_update, width)
            &&& rows_have_width(delete_keys, key_width)
        },
        PlanModel::Unkeyed { to_insert, .. } => rows_have_width(to_insert, width),
    }
}

/// No more cells are present than there are.
proof fn lemma_present_len(row: RowModel)
    ensures
        present(row).len() <= row.len(),
    decreases row.len(),
{
    if row.len() > 0 {
        lemma_present_len(row.drop_last());
    }
}

/// No statement of a plan holds more placeholders than a prepared statement can, whatever batch size
/// was asked for, where a single row does not.
pub proof fn statements_stay_within_the_placeholder_limit(
    schema: SchemaModel,
    key: Option<Seq<Seq<char>>>,
    plan: PlanModel,
    requested: nat,
    i: int,
)
    requires
        schema.columns.len() <= MAX_PLACEHOLDERS,
        key matches Some(k) ==> k.len() <= MAX_PLACEHOLDERS,
        applicable(plan, key),
        plan_has_width(plan, schema.columns.len(), key->0.len()),
        0 <= i < plan_statements(schema, key, plan, requested).len(),
    ensures
        plan_statements(schema, key, plan, requested)[i].params.len() <= MAX_PLACEHOLDERS,
{
    let columns = schema.column_names();
    let width = schema.columns.len();
    assert(columns.len() == width);
    match plan {
        PlanModel::New { rows } => {
            lemma_batch_fits(rows, requested, width, i);
        },
        PlanModel::Keyed { to_insert, to_update, delete_keys } => {
            let all = to_insert + to_update;
            assert forall|j: int| 0 <= j < all.len() implies (#[trigger] all[j]).len() == width by {
                if j < to_insert.len() {
                    assert(all[j] == to_insert[j]);
                } else {
                    assert(all[j] == to_update[j - to_insert.len()]);
                }
            }
            let n = chunks(all, batch_size(requested, width)).len();
            if i < n {
                lemma_batch_fits(all, requested, width, i);
            } else {
                let k = key->0.len();
                lemma_batch_fits(delete_keys, requested, k, i - n);
            }
        },
        PlanModel::Unkeyed { to_insert, to_delete } => {
            let n = chunks(to_insert, batch_size(requested, width)).len();
            if i < n {
                lemma_batch_fits(to_insert, requested, width, i);
            } else {
                let row = to_delete[i - n].0;
                lemma_present_len(row.take(paired(columns, row) as int));
            }
        },
    }
}

/// A plan that changes nothing executes nothing.
pub proof fn empty_plans_execute_nothing(
    schema: SchemaModel,
    key: Option<Seq<Seq<char>>>,
    plan: PlanModel,
    requested: nat,
)
    requires
        plan.inserted() == 0,
        plan.updated() == 0,
        match plan {
            PlanModel::New { .. } => true,
            PlanModel::Keyed { delete_keys, .. } => delete_keys.len() == 0,
            PlanModel::Unkeyed { to_delete, .. } => to_delete.len() == 0,
        },
    ensures
        plan_statements(schema, key, plan, requested).len() == 0,
{
}

/// The bound values of all statements, one statement after the other.
pub open spec fn all_params(list: Seq<StatementModel>) -> Seq<Option<Option<Seq<u8>>>>
    decreases list.len(),
{
    if list.len() == 0 {
        Seq::empty()
    } else {
        list[0].params + all_params(list.skip(1))
    }
}

/// The cells of two lists of rows are those of the first, then those of the second.
pub proof fn lemma_flat_concat(a: Seq<RowModel>, b: Seq<RowModel>)
    ensures
        flat(a + b) == flat(a) + flat(b),
    decreases b.len(),
{
    if b.len() > 0 {
        assert((a + b).drop_last() =~= a + b.drop_last());
        lemma_flat_concat(a, b.drop_last());
        assert(flat(a + b) =~= flat(a) + flat(b));
    } else {
        assert(a + b =~= a);
        assert(flat(a) + flat(b) =~= flat(a));
    }
}

/// The statements that insert the batches of a list.
spec fn batch_statements(
    table: Seq<char>,
    columns: Seq<Seq<char>>,
    list: Seq<RowModel>,
    n: nat,
    tail: Seq<char>,
) -> Seq<StatementModel> {
    chunks(list, n).map_values(
        |batch: Seq<RowModel>| insert_statement(table, columns, batch, tail),
    )
}

/// Whatever the size of the batches, they bind every cell.
proof fn lemma_batches_bind_every_row(
    table: Seq<char>,
    columns: Seq<Seq<char>>,
    list: Seq<RowModel>,
    n: nat,
    tail: Seq<char>,
)
    requires
        n >= 1,
    ensures
        all_params(batch_statements(table, columns, list, n, tail)) == bound(flat(list)),
    decreases list.len(),
{
    let statements = batch_statements(table, columns, list, n, tail);
    if list.len() == 0 {
        assert(statements =~= Seq::empty());
        assert(bound(flat(list)) =~= Seq::empty());
    } else if list.len() <= n {
        assert(statements =~= seq![insert_statement(table, columns, list, tail)]);
        assert(statements.skip(1) =~= Seq::empty());
        assert(all_params(statements.skip(1)) =~= Seq::empty());
        assert(statements[0].params == bound(flat(list)));
        assert(all_params(statements) =~= bound(flat(list)));
    } else {
        let first = list.take(n as int);
        let rest = list.skip(n as int);
        lemma_batches_bind_every_row(table, columns, rest, n, tail);
        let more = batch_statements(table, columns, rest, n, tail);
        assert(statements =~= seq![insert_statement(table, columns, first, tail)] + more);
        assert(statements.skip(1) =~= more);
        assert(first + rest =~= list);
        lemma_flat_concat(first, rest);
        assert(all_params(statements) =~= bound(flat(list)));
    }
}

/// The statements that insert rows bind every cell of every row, in order and once, whatever the
/// size of the batches.
pub proof fn insert_statements_bind_every_row(
    table: Seq<char>,
    columns: Seq<Seq<char>>,
    list: Seq<RowModel>,
    requested: nat,
    tail: Seq<char>,
)
    ensures
        all_params(insert_statements(table, columns, list, requested, tail)) == bound(flat(list)),
{
    lemma_batches_bind_every_row(
        table,
        columns,
        list,
        batch_size(requested, columns.len()),
        tail,
    );
}

} // verus!
