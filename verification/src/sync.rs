//! The schema diff and the row plans of a sync. Nothing here touches a database: the plans say what
//! is to be executed, so that they can be computed for many tables at once and applied one by one.

use vstd::prelude::*;
use vstd::seq_lib::group_to_multiset_ensures;
use vstd::string::StringExecFns;

use crate::convergence::lemma_last_with_key;
use crate::ddl::{signatures, ColumnModel, SchemaModel, TableSchema};
use crate::diff::{
    all_have_keys, diff_keyed, diff_unkeyed, keyed_deletes, keyed_inserts, keyed_updates, places,
    unkeyed_deletes, unkeyed_inserts,
};
use crate::dml::{applicable, rows_have_width};
use crate::dumpfile::{inserts, schemas_of, InsertModel, InsertStmt};
use crate::order::{sort_strings, sorted};
use crate::plan::{PlanModel, TablePlan};
use crate::rows::{dump_rows, iter_dump_rows, rows, try_dump_rows, RowModel};
use crate::sqltext::{quote_ident, quoted};
use crate::table_map::TableMap;
use crate::text::{decode_lossy, holds, lossy_text, str_eq, strings_eq, texts};
use crate::values::Cell;

verus! {

/// The place of the first column with the given name, from `i` on.
pub open spec fn column_place(list: Seq<ColumnModel>, name: Seq<char>, i: int) -> Option<int>
    decreases list.len() - i,
{
    if i < 0 || i >= list.len() {
        None
    } else if list[i].name == name {
        Some(i)
    } else {
        column_place(list, name, i + 1)
    }
}

/// The places of a key's columns, or `None` when one of them is no column of the table.
pub open spec fn key_places(schema: SchemaModel, key: Seq<Seq<char>>) -> Option<Seq<int>> {
    if forall|k: int|
        0 <= k < key.len() ==> column_place(schema.columns, #[trigger] key[k], 0) is Some {
        Some(key.map_values(|name: Seq<char>| column_place(schema.columns, name, 0)->0))
    } else {
        None
    }
}

/// A place with no match before it that is itself a match or the end is the first.
proof fn lemma_column_place(list: Seq<ColumnModel>, name: Seq<char>, i: int, k: int)
    requires
        0 <= i <= k <= list.len(),
        forall|j: int| i <= j < k ==> (#[trigger] list[j]).name != name,
        k < list.len() ==> list[k].name == name,
    ensures
        column_place(list, name, i) == (if k < list.len() {
            Some(k)
        } else {
            None
        }),
    decreases k - i,
{
    if i < k {
        lemma_column_place(list, name, i + 1, k);
    }
}

/// The places of a key's columns in a row.
fn find_key_places(schema: &TableSchema, key_cols: &[String]) -> (r: Option<Vec<usize>>)
    ensures
        match key_places(schema@, texts(key_cols@)) {
            Some(idx) => r is Some && places(r->0@) == idx,
            None => r is None,
        },
{
    let ghost key = texts(key_cols@);
    let mut out: Vec<usize> = Vec::new();
    let mut k: usize = 0;
    while k < key_cols.len()
        invariant
            k <= key_cols@.len(),
            key == texts(key_cols@),
            out@.len() == k,
            forall|j: int|
                0 <= j < k ==> column_place(schema@.columns, #[trigger] key[j], 0) == Some(
                    out@[j] as int,
                ),
        decreases key_cols@.len() - k,
    {
        let name = key_cols[k].as_str();
        assert(key[k as int] == name@);
        let found = schema.column_index(name);
        proof {
            let end = match found {
                Some(i) => i as int,
                None => schema.columns@.len() as int,
            };
            assert forall|j: int| 0 <= j < end implies (#[trigger] schema@.columns[j]).name
                != name@ by {
                assert(schema@.columns[j] == schema.columns@[j]@);
            }
            lemma_column_place(schema@.columns, name@, 0, end);
        }
        match found {
            Some(i) => {
                out.push(i);
            },
            None => {
                return None;
            },
        }
        k = k + 1;
    }
    assert(places(out@) =~= key_places(schema@, key)->0);
    Some(out)
}

/// Whether every row is long enough to have a key.
fn have_keys(list: &[Vec<Cell>], key_idx: &[usize]) -> (r: bool)
    ensures
        r == all_have_keys(rows(list@), places(key_idx@)),
{
    let ghost all = rows(list@);
    let ghost idx = places(key_idx@);
    let mut i: usize = 0;
    while i < list.len()
        invariant
            i <= list@.len(),
            all == rows(list@),
            idx == places(key_idx@),
            forall|r: int, k: int|
                0 <= r < i && 0 <= k < idx.len() ==> 0 <= #[trigger] idx[k] < (#[trigger] all[r]).len(),
        decreases list@.len() - i,
    {
        let mut k: usize = 0;
        while k < key_idx.len()
            invariant
                i < list@.len(),
                k <= key_idx@.len(),
                all == rows(list@),
                idx == places(key_idx@),
                forall|j: int| 0 <= j < k ==> 0 <= #[trigger] idx[j] < all[i as int].len(),
            decreases key_idx@.len() - k,
        {
            if key_idx[k] >= list[i].len() {
                assert(!(idx[k as int] < all[i as int].len()));
                return false;
            }
            k = k + 1;
        }
        i = i + 1;
    }
    true
}

/// A plan for a table that was just created empty.
pub open spec fn is_new_plan(plan: PlanModel, dump: Seq<RowModel>) -> bool {
    plan == PlanModel::New { rows: dump }
}

/// A plan that turns the rows of a table into those of the dump, matched by the key at `idx`.
pub open spec fn is_keyed_plan(
    plan: PlanModel,
    idx: Seq<int>,
    local: Seq<RowModel>,
    dump: Seq<RowModel>,
) -> bool {
    match plan {
        PlanModel::Keyed { to_insert, to_update, delete_keys } => {
            &&& to_insert == keyed_inserts(idx, local, dump)
            &&& to_update == keyed_updates(idx, local, dump)
            &&& keyed_deletes(idx, local, dump, delete_keys)
        },
        _ => false,
    }
}

/// A plan that turns the rows of a table into those of the dump, compared as multisets.
pub open spec fn is_unkeyed_plan(
    plan: PlanModel,
    local: Seq<RowModel>,
    dump: Seq<RowModel>,
) -> bool {
    match plan {
        PlanModel::Unkeyed { to_insert, to_delete } => {
            &&& unkeyed_inserts(local, dump, to_insert)
            &&& unkeyed_deletes(local, dump, to_delete)
        },
        _ => false,
    }
}

/// The plan for a table that was just created empty: every row of the dump is new.
pub fn compute_new_table_plan(schema: &TableSchema, insert_stmts: &[InsertStmt<'_>]) -> (r:
    TablePlan)
    requires
        dump_rows(schema@, inserts(insert_stmts@)) is Some,
    ensures
        is_new_plan(r@, dump_rows(schema@, inserts(insert_stmts@))->0),
{
    TablePlan::New { rows: iter_dump_rows(schema, insert_stmts) }
}

/// The rows of a table and of the dump can be matched by a key: the dump is well-formed, the key's
/// columns exist, and every row is long enough to have them.
pub open spec fn keys_match_up(
    schema: SchemaModel,
    stmts: Seq<InsertModel>,
    key: Seq<Seq<char>>,
    local: Seq<RowModel>,
) -> bool {
    &&& dump_rows(schema, stmts) matches Some(dump)
    &&& key_places(schema, key) matches Some(idx)
    &&& all_have_keys(local, idx)
    &&& all_have_keys(dump, idx)
}

/// The plan for a table with a key, or `None` when rows cannot be matched by it.
pub fn try_compute_keyed_table_plan(
    schema: &TableSchema,
    insert_stmts: &[InsertStmt<'_>],
    key_cols: &[String],
    local_rows: &[Vec<Cell>],
) -> (r: Option<TablePlan>)
    ensures
        r is Some <==> keys_match_up(
            schema@,
            inserts(insert_stmts@),
            texts(key_cols@),
            rows(local_rows@),
        ),
        r matches Some(plan) ==> is_keyed_plan(
            plan@,
            key_places(schema@, texts(key_cols@))->0,
            rows(local_rows@),
            dump_rows(schema@, inserts(insert_stmts@))->0,
        ),
{
    let key_idx = match find_key_places(schema, key_cols) {
        Some(key_idx) => key_idx,
        None => {
            return None;
        },
    };
    let dump = match try_dump_rows(schema, insert_stmts) {
        Some(dump) => dump,
        None => {
            return None;
        },
    };
    if !have_keys(local_rows, key_idx.as_slice()) || !have_keys(
        dump.as_slice(),
        key_idx.as_slice(),
    ) {
        return None;
    }
    let (to_insert, to_update, delete_keys) = diff_keyed(key_idx.as_slice(), local_rows, dump);
    Some(TablePlan::Keyed { to_insert, to_update, delete_keys })
}

/// The plan for a table with a key: what to insert, update and delete so that the rows of the table
/// become those of the dump.
pub fn compute_keyed_table_plan(
    schema: &TableSchema,
    insert_stmts: &[InsertStmt<'_>],
    key_cols: &[String],
    local_rows: &[Vec<Cell>],
) -> (r: TablePlan)
    requires
        keys_match_up(schema@, inserts(insert_stmts@), texts(key_cols@), rows(local_rows@)),
    ensures
        is_keyed_plan(
            r@,
            key_places(schema@, texts(key_cols@))->0,
            rows(local_rows@),
            dump_rows(schema@, inserts(insert_stmts@))->0,
        ),
{
    try_compute_keyed_table_plan(schema, insert_stmts, key_cols, local_rows).unwrap()
}

/// The plan for a table without a key, or `None` when the dump is malformed.
pub fn try_compute_unkeyed_table_plan(
    schema: &TableSchema,
    insert_stmts: &[InsertStmt<'_>],
    local_rows: Vec<Vec<Cell>>,
) -> (r: Option<TablePlan>)
    ensures
        match dump_rows(schema@, inserts(insert_stmts@)) {
            Some(dump) => {
                &&& r is Some
                &&& is_unkeyed_plan(r->0@, rows(local_rows@), dump)
                &&& r->0@.deleted() <= u64::MAX
            },
            None => r is None,
        },
{
    let dump = match try_dump_rows(schema, insert_stmts) {
        Some(dump) => dump,
        None => {
            return None;
        },
    };
    let (to_insert, to_delete) = diff_unkeyed(local_rows, dump);
    Some(TablePlan::Unkeyed { to_insert, to_delete })
}

/// The plan for a table without a key: which rows to insert, and how many copies of which rows to
/// delete, so that the rows of the table become those of the dump as a multiset.
pub fn compute_unkeyed_table_plan(
    schema: &TableSchema,
    insert_stmts: &[InsertStmt<'_>],
    local_rows: Vec<Vec<Cell>>,
) -> (r: TablePlan)
    requires
        dump_rows(schema@, inserts(insert_stmts@)) is Some,
    ensures
        is_unkeyed_plan(
            r@,
            rows(local_rows@),
            dump_rows(schema@, inserts(insert_stmts@))->0,
        ),
        r@.deleted() <= u64::MAX,
{
    try_compute_unkeyed_table_plan(schema, insert_stmts, local_rows).unwrap()
}

/// A plan for a table of the dump, whose rows are computed by what is known of the table: all rows
/// of the dump are new where it was just created, else rows are matched by its key, or compared as
/// multisets where it has none.
pub open spec fn is_table_plan(
    plan: PlanModel,
    schema: SchemaModel,
    is_new: bool,
    local: Seq<RowModel>,
    dump: Seq<RowModel>,
) -> bool {
    if is_new {
        is_new_plan(plan, dump)
    } else {
        match schema.key() {
            Some(key) => is_keyed_plan(plan, key_places(schema, key)->0, local, dump),
            None => is_unkeyed_plan(plan, local, dump),
        }
    }
}

/// A plan for the table can be computed.
pub open spec fn has_table_plan(
    schema: SchemaModel,
    stmts: Seq<InsertModel>,
    is_new: bool,
    local: Seq<RowModel>,
) -> bool {
    if !is_new && schema.key() is Some {
        keys_match_up(schema, stmts, schema.key()->0, local)
    } else {
        dump_rows(schema, stmts) is Some
    }
}

/// The keys that a keyed plan deletes are as wide as the key.
proof fn lemma_delete_keys_width(
    idx: Seq<int>,
    local: Seq<RowModel>,
    dump: Seq<RowModel>,
    delete_keys: Seq<RowModel>,
)
    requires
        keyed_deletes(idx, local, dump, delete_keys),
    ensures
        rows_have_width(delete_keys, idx.len()),
{
    assert forall|i: int| 0 <= i < delete_keys.len() implies (#[trigger] delete_keys[i]).len()
        == idx.len() by {
        assert(delete_keys.contains(delete_keys[i]));
        lemma_last_with_key(local, idx, delete_keys[i]);
    }
}

/// The plan for one table of the dump, or `None` when the dump is malformed or rows cannot be
/// matched by the table's key. A table that was just created needs no rows of the database.
pub fn try_compute_table_plan(
    schema: &TableSchema,
    insert_stmts: &[InsertStmt<'_>],
    is_new: bool,
    local_rows: Vec<Vec<Cell>>,
) -> (r: Option<TablePlan>)
    ensures
        r is Some <==> has_table_plan(
            schema@,
            inserts(insert_stmts@),
            is_new,
            rows(local_rows@),
        ),
        r matches Some(plan) ==> {
            &&& is_table_plan(
                plan@,
                schema@,
                is_new,
                rows(local_rows@),
                dump_rows(schema@, inserts(insert_stmts@))->0,
            )
            &&& applicable(plan@, schema@.key())
            &&& plan is Unkeyed ==> plan@.deleted() <= u64::MAX
        },
{
    if is_new {
        return match try_dump_rows(schema, insert_stmts) {
            Some(rows) => Some(TablePlan::New { rows }),
            None => None,
        };
    }
    match schema.key_columns() {
        Some(key_cols) => {
            let r = try_compute_keyed_table_plan(
                schema,
                insert_stmts,
                key_cols,
                local_rows.as_slice(),
            );
            proof {
                if r is Some {
                    if let PlanModel::Keyed { delete_keys, .. } = r->0@ {
                        let idx = key_places(schema@, texts(key_cols@))->0;
                        lemma_delete_keys_width(
                            idx,
                            rows(local_rows@),
                            dump_rows(schema@, inserts(insert_stmts@))->0,
                            delete_keys,
                        );
                    }
                }
            }
            r
        },
        None => try_compute_unkeyed_table_plan(schema, insert_stmts, local_rows),
    }
}

/// What happens to the tables: which are dropped, created, dropped and created again, and left as
/// they are.
#[derive(Debug)]
pub struct DdlPlan {
    pub to_drop: Vec<String>,
    pub to_create: Vec<String>,
    pub to_rebuild: Vec<String>,
    pub unchanged: Vec<String>,
}

/// The content of a schema plan.
pub struct DdlModel {
    pub to_drop: Seq<Seq<char>>,
    pub to_create: Seq<Seq<char>>,
    pub to_rebuild: Seq<Seq<char>>,
    pub unchanged: Seq<Seq<char>>,
}

impl View for DdlPlan {
    type V = DdlModel;

    open spec fn view(&self) -> DdlModel {
        DdlModel {
            to_drop: texts(self.to_drop@),
            to_create: texts(self.to_create@),
            to_rebuild: texts(self.to_rebuild@),
            unchanged: texts(self.unchanged@),
        }
    }
}

impl Default for DdlPlan {
    fn default() -> (r: Self)
        ensures
            r.to_drop@.len() == 0,
            r.to_create@.len() == 0,
            r.to_rebuild@.len() == 0,
            r.unchanged@.len() == 0,
    {
        DdlPlan {
            to_drop: Vec::new(),
            to_create: Vec::new(),
            to_rebuild: Vec::new(),
            unchanged: Vec::new(),
        }
    }
}

/// Schemas by table name.
pub type Schemas = Map<Seq<char>, SchemaModel>;

/// What happens to a table of the dump.
pub enum Fate {
    Create,
    Rebuild,
    Keep,
}

/// A table that is not there is created, one whose columns or primary key differ is rebuilt, and
/// any other is kept.
pub open spec fn fate(dump: Schemas, local: Schemas, name: Seq<char>) -> Fate {
    if !local.contains_key(name) {
        Fate::Create
    } else if dump[name].shape() != local[name].shape() {
        Fate::Rebuild
    } else {
        Fate::Keep
    }
}

/// The names with the given fate, in order.
pub open spec fn with_fate(
    dump: Schemas,
    local: Schemas,
    order: Seq<Seq<char>>,
    f: Fate,
) -> Seq<Seq<char>>
    decreases order.len(),
{
    if order.len() == 0 {
        Seq::empty()
    } else {
        let done = with_fate(dump, local, order.drop_last(), f);
        if fate(dump, local, order.last()) == f {
            done.push(order.last())
        } else {
            done
        }
    }
}

/// `plan` is what turns the tables of the database into those of the dump: the tables that the dump
/// does not have are dropped, in the order of their names; those of the dump are created, rebuilt
/// or kept, in the order of the dump.
pub open spec fn is_ddl_plan(
    plan: DdlModel,
    dump: Schemas,
    order: Seq<Seq<char>>,
    local: Schemas,
) -> bool {
    &&& sorted(plan.to_drop)
    &&& plan.to_drop.no_duplicates()
    &&& forall|name: Seq<char>| #[trigger]
        plan.to_drop.contains(name) <==> local.contains_key(name) && !dump.contains_key(name)
    &&& plan.to_create == with_fate(dump, local, order, Fate::Create)
    &&& plan.to_rebuild == with_fate(dump, local, order, Fate::Rebuild)
    &&& plan.unchanged == with_fate(dump, local, order, Fate::Keep)
}

/// Whether two schemas agree in what affects the identity and shape of rows.
fn same_shape(a: &TableSchema, b: &TableSchema) -> (r: bool)
    ensures
        r == (a@.shape() == b@.shape()),
{
    let (columns_a, key_a) = a.signature();
    let (columns_b, key_b) = b.signature();
    if !strings_eq(key_a.as_slice(), key_b.as_slice()) {
        return false;
    }
    if columns_a.len() != columns_b.len() {
        assert(signatures(columns_a@).len() != signatures(columns_b@).len());
        return false;
    }
    let mut i: usize = 0;
    while i < columns_a.len()
        invariant
            i <= columns_a@.len(),
            columns_a@.len() == columns_b@.len(),
            signatures(columns_a@) == a@.shape().0,
            signatures(columns_b@) == b@.shape().0,
            forall|j: int|
                0 <= j < i ==> #[trigger] signatures(columns_a@)[j] == signatures(columns_b@)[j],
        decreases columns_a@.len() - i,
    {
        let x = &columns_a[i];
        let y = &columns_b[i];
        if !(str_eq(x.0.as_str(), y.0.as_str()) && str_eq(x.1.as_str(), y.1.as_str()) && x.2
            == y.2) {
            assert(signatures(columns_a@)[i as int] != signatures(columns_b@)[i as int]);
            return false;
        }
        i = i + 1;
    }
    assert(signatures(columns_a@) =~= signatures(columns_b@));
    true
}

/// The tables that the dump does not have, sorted by name.
fn find_dropped(
    dump_schemas: &TableMap<TableSchema>,
    local_schemas: &TableMap<TableSchema>,
) -> (r: Vec<String>)
    ensures
        sorted(texts(r@)),
        texts(r@).no_duplicates(),
        forall|name: Seq<char>| #[trigger]
            texts(r@).contains(name) <==> local_schemas@.contains_key(name)
                && !dump_schemas@.contains_key(name),
{
    let n = local_schemas.len();
    let ghost names = local_schemas.names();
    let mut out: Vec<String> = Vec::new();
    let mut i: usize = 0;
    assert(texts(out@) =~= Seq::empty());
    while i < n
        invariant
            i <= n,
            n == names.len(),
            names == local_schemas.names(),
            names.no_duplicates(),
            texts(out@).no_duplicates(),
            forall|name: Seq<char>| #[trigger]
                texts(out@).contains(name) <==> names.take(i as int).contains(name)
                    && !dump_schemas@.contains_key(name),
        decreases n - i,
    {
        let (name, _) = local_schemas.entry(i);
        proof {
            lemma_take_contains(names, i as int);
        }
        if !dump_schemas.contains(name) {
            let ghost done = texts(out@);
            let owned = name.to_owned();
            out.push(owned);
            proof {
                assert(texts(out@) =~= done.push(name@));
                lemma_push_contains(done, name@);
                assert(!names.take(i as int).contains(name@)) by {
                    if names.take(i as int).contains(name@) {
                        let j = choose|j: int|
                            0 <= j < names.take(i as int).len() && names.take(i as int)[j] == name@;
                        assert(names[j] == names[i as int]);
                    }
                }
                assert(!done.contains(name@));
            }
        }
        i = i + 1;
    }
    assert(names.take(i as int) =~= names);
    sort_distinct(out)
}

/// Sorts strings of which no two are equal.
fn sort_distinct(list: Vec<String>) -> (r: Vec<String>)
    requires
        texts(list@).no_duplicates(),
    ensures
        sorted(texts(r@)),
        texts(r@).no_duplicates(),
        forall|s: Seq<char>| #[trigger] texts(r@).contains(s) <==> texts(list@).contains(s),
{
    let r = sort_strings(list);
    proof {
        broadcast use group_to_multiset_ensures;

        let a = texts(list@);
        let b = texts(r@);
        a.lemma_multiset_has_no_duplicates();
        assert forall|x: Seq<char>| b.to_multiset().contains(x) implies b.to_multiset().count(x)
            == 1 by {
            assert(a.to_multiset().contains(x));
        }
        b.lemma_multiset_has_no_duplicates_conv();
        assert forall|s: Seq<char>| #[trigger] b.contains(s) <==> a.contains(s) by {
            assert(b.to_multiset().count(s) == a.to_multiset().count(s));
        }
    }
    r
}

/// The members of a sequence with one more at its end.
proof fn lemma_push_contains<A>(s: Seq<A>, a: A)
    ensures
        forall|x: A| #[trigger] s.push(a).contains(x) <==> s.contains(x) || x == a,
{
    assert forall|x: A| #[trigger] s.push(a).contains(x) <==> s.contains(x) || x == a by {
        if s.contains(x) {
            let i = choose|i: int| 0 <= i < s.len() && s[i] == x;
            assert(s.push(a)[i] == x);
        }
        if x == a {
            assert(s.push(a)[s.len() as int] == x);
        }
    }
}

/// The members of a prefix with one more.
proof fn lemma_take_contains<A>(s: Seq<A>, i: int)
    requires
        0 <= i < s.len(),
    ensures
        forall|x: A| #[trigger] s.take(i + 1).contains(x) <==> s.take(i).contains(x) || x == s[i],
{
    assert(s.take(i + 1) =~= s.take(i).push(s[i]));
    lemma_push_contains(s.take(i), s[i]);
}

/// Compares the tables of the dump with those of the database.
pub fn plan_ddl(
    dump_schemas: &TableMap<TableSchema>,
    dump_order: &[String],
    local_schemas: &TableMap<TableSchema>,
) -> (r: DdlPlan)
    requires
        forall|i: int|
            0 <= i < dump_order@.len() && local_schemas@.contains_key(#[trigger] dump_order@[i]@)
                ==> dump_schemas@.contains_key(dump_order@[i]@),
    ensures
        is_ddl_plan(
            r@,
            schemas_of(dump_schemas@),
            texts(dump_order@),
            schemas_of(local_schemas@),
        ),
{
    let ghost dump = schemas_of(dump_schemas@);
    let ghost local = schemas_of(local_schemas@);
    let ghost order = texts(dump_order@);
    let to_drop = find_dropped(dump_schemas, local_schemas);
    let mut to_create: Vec<String> = Vec::new();
    let mut to_rebuild: Vec<String> = Vec::new();
    let mut unchanged: Vec<String> = Vec::new();
    let mut i: usize = 0;
    proof {
        assert(order.take(0) =~= Seq::empty());
        assert(texts(to_create@) =~= Seq::empty());
        assert(texts(to_rebuild@) =~= Seq::empty());
        assert(texts(unchanged@) =~= Seq::empty());
    }
    while i < dump_order.len()
        invariant
            i <= dump_order@.len(),
            dump == schemas_of(dump_schemas@),
            local == schemas_of(local_schemas@),
            order == texts(dump_order@),
            forall|i: int|
                0 <= i < dump_order@.len() && local_schemas@.contains_key(
                    #[trigger] dump_order@[i]@,
                ) ==> dump_schemas@.contains_key(dump_order@[i]@),
            texts(to_create@) == with_fate(dump, local, order.take(i as int), Fate::Create),
            texts(to_rebuild@) == with_fate(dump, local, order.take(i as int), Fate::Rebuild),
            texts(unchanged@) == with_fate(dump, local, order.take(i as int), Fate::Keep),
        decreases dump_order@.len() - i,
    {
        let name = dump_order[i].clone();
        let ghost created = texts(to_create@);
        let ghost rebuilt = texts(to_rebuild@);
        let ghost kept = texts(unchanged@);
        proof {
            assert(order.take(i + 1).drop_last() =~= order.take(i as int));
            assert(order.take(i + 1).last() == name@);
        }
        match local_schemas.get(name.as_str()) {
            None => {
                to_create.push(name);
                assert(texts(to_create@) =~= created.push(name@));
            },
            Some(local_schema) => {
                assert(dump_schemas@.contains_key(dump_order@[i as int]@));
                match dump_schemas.get(name.as_str()) {
                    Some(dump_schema) => {
                        if same_shape(dump_schema, local_schema) {
                            unchanged.push(name);
                            assert(texts(unchanged@) =~= kept.push(name@));
                        } else {
                            to_rebuild.push(name);
                            assert(texts(to_rebuild@) =~= rebuilt.push(name@));
                        }
                    },
                    None => {},
                }
            },
        }
        i = i + 1;
    }
    assert(order.take(i as int) =~= order);
    DdlPlan { to_drop, to_create, to_rebuild, unchanged }
}

/// What is said of a table with more than one unique constraint.
pub open spec fn ambiguous_key_message(name: Seq<char>) -> Seq<char> {
    name
        + ": has more than one primary/unique key candidate — mysync can't tell which one INSERT ... ON DUPLICATE KEY UPDATE will actually conflict on"@
}

/// What is said of a table whose key is not the same in the database.
pub open spec fn drifted_key_message(name: Seq<char>) -> Seq<char> {
    name
        + ": primary/unique key differs between the dump and the local database — the key mysync would sync by isn't actually enforced locally"@
}

/// A table is loaded from the dump's own `CREATE TABLE`, so its keys are those of the dump.
pub open spec fn freshly_created(plan: DdlModel, name: Seq<char>) -> bool {
    plan.to_create.contains(name) || plan.to_rebuild.contains(name)
}

/// What makes it unsafe to sync a table of the dump by its key, if anything: the key is not the
/// only unique constraint, so that an upsert could collide on another one, or the database does not
/// enforce the same key. A table without a key gets no upserts.
pub open spec fn key_problem(
    schema: SchemaModel,
    local: Schemas,
    plan: DdlModel,
    name: Seq<char>,
) -> Option<Seq<char>> {
    if schema.key() is None {
        None
    } else if schema.only_key() is None {
        Some(ambiguous_key_message(name))
    } else if freshly_created(plan, name) || (local.contains_key(name) && local[name].only_key()
        == schema.only_key()) {
        None
    } else {
        Some(drifted_key_message(name))
    }
}

/// `message` is about a table of the dump.
pub open spec fn is_key_problem(
    dump: Schemas,
    local: Schemas,
    plan: DdlModel,
    message: Seq<char>,
) -> bool {
    exists|name: Seq<char>| #[trigger]
        dump.contains_key(name) && key_problem(dump[name], local, plan, name) == Some(message)
}

/// Messages about different tables differ.
proof fn lemma_messages_differ(a: Seq<char>, b: Seq<char>)
    ensures
        ambiguous_key_message(a) == ambiguous_key_message(b) ==> a == b,
        drifted_key_message(a) == drifted_key_message(b) ==> a == b,
        ambiguous_key_message(a) != drifted_key_message(b),
{
    reveal_strlit(
        ": has more than one primary/unique key candidate — mysync can't tell which one INSERT ... ON DUPLICATE KEY UPDATE will actually conflict on",
    );
    reveal_strlit(
        ": primary/unique key differs between the dump and the local database — the key mysync would sync by isn't actually enforced locally",
    );
    assert(ambiguous_key_message(a).take(a.len() as int) =~= a);
    assert(ambiguous_key_message(b).take(b.len() as int) =~= b);
    assert(drifted_key_message(a).take(a.len() as int) =~= a);
    assert(drifted_key_message(b).take(b.len() as int) =~= b);
    assert(ambiguous_key_message(a).last() == 'n');
    assert(drifted_key_message(b).last() == 'y');
}

/// What makes it unsafe to sync one table of the dump by its key.
fn find_key_problem(
    schema: &TableSchema,
    local_schemas: &TableMap<TableSchema>,
    plan: &DdlPlan,
    name: &str,
) -> (r: Option<String>)
    ensures
        match key_problem(schema@, schemas_of(local_schemas@), plan@, name@) {
            Some(message) => r is Some && r->0@ == message,
            None => r is None,
        },
{
    if schema.key_columns().is_none() {
        return None;
    }
    match schema.effective_key() {
        None => {
            let mut message = name.to_owned();
            message.append(
                ": has more than one primary/unique key candidate — mysync can't tell which one INSERT ... ON DUPLICATE KEY UPDATE will actually conflict on",
            );
            Some(message)
        },
        Some(dump_key) => {
            if holds(plan.to_create.as_slice(), name) || holds(plan.to_rebuild.as_slice(), name) {
                return None;
            }
            if let Some(local) = local_schemas.get(name) {
                if let Some(local_key) = local.effective_key() {
                    if strings_eq(local_key, dump_key) {
                        return None;
                    }
                }
            }
            let mut message = name.to_owned();
            message.append(
                ": primary/unique key differs between the dump and the local database — the key mysync would sync by isn't actually enforced locally",
            );
            Some(message)
        },
    }
}

/// Finds the tables where syncing by key would be unsafe, and says why, in the order of the
/// messages. The whole run should stop where there is one: an `INSERT ... ON DUPLICATE KEY UPDATE`
/// collides on any unique constraint, not only on the key that rows are matched by.
pub fn find_unsafe_key_tables(
    dump_schemas: &TableMap<TableSchema>,
    local_schemas: &TableMap<TableSchema>,
    plan: &DdlPlan,
) -> (r: Vec<String>)
    ensures
        sorted(texts(r@)),
        texts(r@).no_duplicates(),
        forall|message: Seq<char>| #[trigger]
            texts(r@).contains(message) <==> is_key_problem(
                schemas_of(dump_schemas@),
                schemas_of(local_schemas@),
                plan@,
                message,
            ),
{
    let ghost dump = schemas_of(dump_schemas@);
    let ghost local = schemas_of(local_schemas@);
    let n = dump_schemas.len();
    let ghost names = dump_schemas.names();
    let mut out: Vec<String> = Vec::new();
    let mut i: usize = 0;
    assert(texts(out@) =~= Seq::empty());
    while i < n
        invariant
            i <= n,
            n == names.len(),
            names == dump_schemas.names(),
            names.no_duplicates(),
            forall|name: Seq<char>| #[trigger]
                dump_schemas@.contains_key(name) <==> names.contains(name),
            dump == schemas_of(dump_schemas@),
            local == schemas_of(local_schemas@),
            texts(out@).no_duplicates(),
            forall|message: Seq<char>| #[trigger]
                texts(out@).contains(message) <==> exists|j: int|
                    0 <= j < i && key_problem(
                        dump[#[trigger] names[j]],
                        local,
                        plan@,
                        names[j],
                    ) == Some(message),
        decreases n - i,
    {
        let (name, schema) = dump_schemas.entry(i);
        assert(dump[name@] == schema@);
        let ghost done = texts(out@);
        if let Some(problem) = find_key_problem(schema, local_schemas, plan, name) {
            let ghost found = problem@;
            out.push(problem);
            proof {
                assert(texts(out@) =~= done.push(found));
                lemma_push_contains(done, found);
                assert(!done.contains(found)) by {
                    if done.contains(found) {
                        let j = choose|j: int|
                            0 <= j < i && key_problem(
                                dump[#[trigger] names[j]],
                                local,
                                plan@,
                                names[j],
                            ) == Some(found);
                        lemma_messages_differ(names[j], name@);
                        lemma_messages_differ(name@, names[j]);
                        assert(names[j] == names[i as int]);
                    }
                }
                assert(key_problem(dump[names[i as int]], local, plan@, names[i as int]) == Some(
                    found,
                ));
            }
        }
        i = i + 1;
    }
    proof {
        assert forall|message: Seq<char>| #[trigger]
            texts(out@).contains(message) <==> is_key_problem(dump, local, plan@, message) by {
            if texts(out@).contains(message) {
                let j = choose|j: int|
                    0 <= j < n && key_problem(
                        dump[#[trigger] names[j]],
                        local,
                        plan@,
                        names[j],
                    ) == Some(message);
                assert(names.contains(names[j]));
                assert(dump.contains_key(names[j]));
            }
            if is_key_problem(dump, local, plan@, message) {
                let name = choose|name: Seq<char>| #[trigger]
                    dump.contains_key(name) && key_problem(dump[name], local, plan@, name) == Some(
                        message,
                    );
                assert(dump_schemas@.contains_key(name));
                let j = choose|j: int| 0 <= j < names.len() && names[j] == name;
                assert(key_problem(dump[names[j]], local, plan@, names[j]) == Some(message));
            }
        }
    }
    sort_distinct(out)
}

/// The statement that drops a table.
pub open spec fn drop_sql(name: Seq<char>) -> Seq<char> {
    "DROP TABLE "@ + quoted(name)
}

/// The statement that creates a table: the exact text that the dump has for it.
pub open spec fn create_sql(schema: SchemaModel) -> Seq<char> {
    lossy_text(schema.raw_statement)
}

/// The statements that drop tables.
pub open spec fn drop_statements(names: Seq<Seq<char>>) -> Seq<Seq<char>> {
    names.map_values(|name: Seq<char>| drop_sql(name))
}

/// The statements that create tables.
pub open spec fn create_statements(dump: Schemas, names: Seq<Seq<char>>) -> Seq<Seq<char>> {
    names.map_values(|name: Seq<char>| create_sql(dump[name]))
}

/// The statements that drop each table and create it again.
pub open spec fn rebuild_statements(dump: Schemas, names: Seq<Seq<char>>) -> Seq<Seq<char>>
    decreases names.len(),
{
    if names.len() == 0 {
        Seq::empty()
    } else {
        rebuild_statements(dump, names.drop_last()).push(drop_sql(names.last())).push(
            create_sql(dump[names.last()]),
        )
    }
}

/// The statements of a schema plan, in order; none of them in a dry run.
pub open spec fn ddl_statements(dump: Schemas, plan: DdlModel, dry_run: bool) -> Seq<Seq<char>> {
    if dry_run {
        Seq::empty()
    } else {
        drop_statements(plan.to_drop) + rebuild_statements(dump, plan.to_rebuild)
            + create_statements(dump, plan.to_create)
    }
}

/// The statement that drops a table.
fn build_drop(name: &str) -> (r: String)
    ensures
        r@ == drop_sql(name@),
{
    let mut sql = String::new();
    sql.append("DROP TABLE ");
    sql.append(quote_ident(name).as_str());
    assert(sql@ =~= drop_sql(name@));
    sql
}

/// Every named table has a schema.
pub open spec fn all_known(dump: Schemas, names: Seq<Seq<char>>) -> bool {
    forall|i: int| 0 <= i < names.len() ==> dump.contains_key(#[trigger] names[i])
}

/// The statement that creates a table.
fn build_create(dump_schemas: &TableMap<TableSchema>, name: &str) -> (r: String)
    requires
        dump_schemas@.contains_key(name@),
    ensures
        r@ == create_sql(schemas_of(dump_schemas@)[name@]),
{
    let schema = dump_schemas.get(name).unwrap();
    decode_lossy(schema.raw_statement.as_slice())
}

/// The statements that bring the tables of the database to the schemas of the dump, to be executed
/// in order and outside any transaction: drops first, then tables to drop and create again, then
/// new tables. A dry run executes none.
pub fn execute_ddl(
    dump_schemas: &TableMap<TableSchema>,
    plan: &DdlPlan,
    dry_run: bool,
) -> (r: Vec<String>)
    requires
        dry_run || all_known(schemas_of(dump_schemas@), plan@.to_rebuild),
        dry_run || all_known(schemas_of(dump_schemas@), plan@.to_create),
    ensures
        texts(r@) == ddl_statements(schemas_of(dump_schemas@), plan@, dry_run),
        dry_run ==> r@.len() == 0,
{
    let ghost dump = schemas_of(dump_schemas@);
    let mut out: Vec<String> = Vec::new();
    assert(texts(out@) =~= Seq::empty());
    if dry_run {
        return out;
    }
    let ghost drops = drop_statements(plan@.to_drop);
    let mut i: usize = 0;
    assert(drops.take(0) =~= Seq::empty());
    while i < plan.to_drop.len()
        invariant
            i <= plan.to_drop@.len(),
            drops == drop_statements(plan@.to_drop),
            texts(out@) == drops.take(i as int),
        decreases plan.to_drop@.len() - i,
    {
        let ghost before = texts(out@);
        let sql = build_drop(plan.to_drop[i].as_str());
        out.push(sql);
        assert(texts(out@) =~= before.push(sql@));
        assert(drops.take(i + 1) =~= drops.take(i as int).push(sql@));
        i = i + 1;
    }
    assert(drops.take(i as int) =~= drops);
    let ghost rebuilt = plan@.to_rebuild;
    let mut i: usize = 0;
    assert(rebuilt.take(0) =~= Seq::empty());
    assert(texts(out@) =~= drops + rebuild_statements(dump, rebuilt.take(0)));
    while i < plan.to_rebuild.len()
        invariant
            i <= plan.to_rebuild@.len(),
            dump == schemas_of(dump_schemas@),
            rebuilt == plan@.to_rebuild,
            all_known(dump, rebuilt),
            texts(out@) == drops + rebuild_statements(dump, rebuilt.take(i as int)),
        decreases plan.to_rebuild@.len() - i,
    {
        let name = plan.to_rebuild[i].as_str();
        proof {
            assert(rebuilt[i as int] == name@);
            assert(rebuilt.take(i + 1).drop_last() =~= rebuilt.take(i as int));
            assert(rebuilt.take(i + 1).last() == name@);
        }
        let ghost before = texts(out@);
        let drop = build_drop(name);
        out.push(drop);
        let create = build_create(dump_schemas, name);
        out.push(create);
        assert(texts(out@) =~= before.push(drop@).push(create@));
        assert(texts(out@) =~= drops + rebuild_statements(dump, rebuilt.take(i + 1)));
        i = i + 1;
    }
    assert(rebuilt.take(i as int) =~= rebuilt);
    let ghost head = texts(out@);
    let ghost creates = create_statements(dump, plan@.to_create);
    let mut i: usize = 0;
    assert(head + creates.take(0) =~= head);
    while i < plan.to_create.len()
        invariant
            i <= plan.to_create@.len(),
            dump == schemas_of(dump_schemas@),
            all_known(dump, plan@.to_create),
            creates == create_statements(dump, plan@.to_create),
            texts(out@) == head + creates.take(i as int),
        decreases plan.to_create@.len() - i,
    {
        let name = plan.to_create[i].as_str();
        assert(plan@.to_create[i as int] == name@);
        let ghost before = texts(out@);
        let create = build_create(dump_schemas, name);
        out.push(create);
        proof {
            assert(texts(out@) =~= before.push(create@));
            assert(creates.take(i + 1) =~= creates.take(i as int).push(create@));
            assert(texts(out@) =~= head + creates.take(i + 1));
        }
        i = i + 1;
    }
    assert(creates.take(i as int) =~= creates);
    out
}

/// Every table of the dump has exactly one fate: its name is in exactly one of the lists to create,
/// to rebuild and to keep, and a table that is dropped is in none of them.
pub proof fn every_table_has_one_fate(
    plan: DdlModel,
    dump: Schemas,
    order: Seq<Seq<char>>,
    local: Schemas,
    name: Seq<char>,
)
    requires
        is_ddl_plan(plan, dump, order, local),
        all_known(dump, order),
    ensures
        order.contains(name) <==> plan.to_create.contains(name) || plan.to_rebuild.contains(name)
            || plan.unchanged.contains(name),
        !(plan.to_create.contains(name) && plan.to_rebuild.contains(name)),
        !(plan.to_create.contains(name) && plan.unchanged.contains(name)),
        !(plan.to_rebuild.contains(name) && plan.unchanged.contains(name)),
        plan.to_drop.contains(name) ==> !order.contains(name),
        plan.to_create.len() + plan.to_rebuild.len() + plan.unchanged.len() == order.len(),
{
    lemma_with_fate(dump, local, order, Fate::Create, name);
    lemma_with_fate(dump, local, order, Fate::Rebuild, name);
    lemma_with_fate(dump, local, order, Fate::Keep, name);
    lemma_fates_partition(dump, local, order);
    if order.contains(name) {
        let i = choose|i: int| 0 <= i < order.len() && order[i] == name;
        assert(dump.contains_key(order[i]));
    }
}

/// A name is listed under a fate where it is in the order and has that fate.
proof fn lemma_with_fate(
    dump: Schemas,
    local: Schemas,
    order: Seq<Seq<char>>,
    f: Fate,
    name: Seq<char>,
)
    ensures
        with_fate(dump, local, order, f).contains(name) <==> order.contains(name) && fate(
            dump,
            local,
            name,
        ) == f,
    decreases order.len(),
{
    if order.len() > 0 {
        let rest = order.drop_last();
        lemma_with_fate(dump, local, rest, f, name);
        lemma_push_contains(rest, order.last());
        assert(rest.push(order.last()) =~= order);
        lemma_push_contains(with_fate(dump, local, rest, f), order.last());
    }
}

/// The lists by fate are together as long as the order.
proof fn lemma_fates_partition(dump: Schemas, local: Schemas, order: Seq<Seq<char>>)
    ensures
        with_fate(dump, local, order, Fate::Create).len() + with_fate(
            dump,
            local,
            order,
            Fate::Rebuild,
        ).len() + with_fate(dump, local, order, Fate::Keep).len() == order.len(),
    decreases order.len(),
{
    if order.len() > 0 {
        lemma_fates_partition(dump, local, order.drop_last());
    }
}

/// The schemas of the database after a schema plan: dropped tables are gone, and those that were
/// rebuilt or created have the schema of the dump.
pub open spec fn after_ddl(local: Schemas, dump: Schemas, plan: DdlModel) -> Schemas {
    Map::new(
        |name: Seq<char>|
            freshly_created(plan, name) || (local.contains_key(name) && !plan.to_drop.contains(
                name,
            )),
        |name: Seq<char>|
            if freshly_created(plan, name) {
                dump[name]
            } else {
                local[name]
            },
    )
}

/// After its schema plan the database has exactly the tables of the dump, with the columns and
/// primary keys of the dump.
pub proof fn schema_plan_reaches_the_dump(
    plan: DdlModel,
    dump: Schemas,
    order: Seq<Seq<char>>,
    local: Schemas,
    name: Seq<char>,
)
    requires
        is_ddl_plan(plan, dump, order, local),
        forall|n: Seq<char>| #[trigger] dump.contains_key(n) <==> order.contains(n),
    ensures
        after_ddl(local, dump, plan).contains_key(name) <==> dump.contains_key(name),
        dump.contains_key(name) ==> after_ddl(local, dump, plan)[name].shape()
            == dump[name].shape(),
{
    lemma_with_fate(dump, local, order, Fate::Create, name);
    lemma_with_fate(dump, local, order, Fate::Rebuild, name);
    assert(plan.to_drop.contains(name) <==> local.contains_key(name) && !dump.contains_key(name));
}

/// Where the database has the tables of the dump already, with the same columns and primary keys,
/// no statement is executed, whatever else about the tables differs.
pub proof fn nothing_to_do_when_shapes_agree(
    plan: DdlModel,
    dump: Schemas,
    order: Seq<Seq<char>>,
    local: Schemas,
    dry_run: bool,
)
    requires
        is_ddl_plan(plan, dump, order, local),
        forall|n: Seq<char>| #[trigger] dump.contains_key(n) <==> order.contains(n),
        forall|n: Seq<char>| #[trigger] dump.contains_key(n) <==> local.contains_key(n),
        forall|n: Seq<char>| #[trigger]
            dump.contains_key(n) ==> dump[n].shape() == local[n].shape(),
    ensures
        ddl_statements(dump, plan, dry_run).len() == 0,
        plan.unchanged == order,
{
    assert(plan.to_drop.len() == 0) by {
        if plan.to_drop.len() > 0 {
            assert(plan.to_drop.contains(plan.to_drop[0]));
            assert(dump.contains_key(plan.to_drop[0]) <==> local.contains_key(plan.to_drop[0]));
        }
    }
    assert forall|i: int| 0 <= i < order.len() implies fate(dump, local, #[trigger] order[i])
        == Fate::Keep by {
        assert(order.contains(order[i]));
        assert(dump.contains_key(order[i]));
    }
    lemma_all_kept(dump, local, order);
    assert(plan.to_rebuild =~= Seq::empty());
    assert(plan.to_create =~= Seq::empty());
}

/// A second run against the same dump changes no schema: where the schemas of the database are those
/// that a schema plan left, the plan for them executes nothing.
pub proof fn schema_sync_is_idempotent(
    plan: DdlModel,
    dump: Schemas,
    order: Seq<Seq<char>>,
    local: Schemas,
    again: DdlModel,
    dry_run: bool,
)
    requires
        is_ddl_plan(plan, dump, order, local),
        forall|n: Seq<char>| #[trigger] dump.contains_key(n) <==> order.contains(n),
        is_ddl_plan(again, dump, order, after_ddl(local, dump, plan)),
    ensures
        ddl_statements(dump, again, dry_run).len() == 0,
{
    let after = after_ddl(local, dump, plan);
    assert forall|n: Seq<char>| #[trigger] dump.contains_key(n) <==> after.contains_key(n) by {
        schema_plan_reaches_the_dump(plan, dump, order, local, n);
    }
    assert forall|n: Seq<char>| #[trigger] dump.contains_key(n) implies dump[n].shape()
        == after[n].shape() by {
        schema_plan_reaches_the_dump(plan, dump, order, local, n);
    }
    nothing_to_do_when_shapes_agree(again, dump, order, after, dry_run);
}

/// Where every table is kept, the list of those is the order.
proof fn lemma_all_kept(dump: Schemas, local: Schemas, order: Seq<Seq<char>>)
    requires
        forall|i: int| 0 <= i < order.len() ==> fate(dump, local, #[trigger] order[i]) == Fate::Keep,
    ensures
        with_fate(dump, local, order, Fate::Keep) == order,
        with_fate(dump, local, order, Fate::Create).len() == 0,
        with_fate(dump, local, order, Fate::Rebuild).len() == 0,
    decreases order.len(),
{
    if order.len() > 0 {
        assert(order[order.len() - 1] == order.last());
        assert forall|i: int| 0 <= i < order.drop_last().len() implies fate(
            dump,
            local,
            #[trigger] order.drop_last()[i],
        ) == Fate::Keep by {
            assert(order.drop_last()[i] == order[i]);
        }
        lemma_all_kept(dump, local, order.drop_last());
        assert(order.drop_last().push(order.last()) =~= order);
    }
}

/// Schemas with the same columns and the same primary key have the same shape: indexes, default
/// values, the engine and the character set do not matter.
pub proof fn shape_ignores_the_rest(a: SchemaModel, b: SchemaModel)
    requires
        a.columns.len() == b.columns.len(),
        forall|i: int|
            0 <= i < a.columns.len() ==> {
                &&& (#[trigger] a.columns[i]).name == b.columns[i].name
                &&& a.columns[i].data_type == b.columns[i].data_type
                &&& a.columns[i].nullable == b.columns[i].nullable
            },
        a.primary_key == b.primary_key,
    ensures
        a.shape() == b.shape(),
{
    assert(a.shape().0 =~= b.shape().0);
}

/// A table that passes the key check, and is synced by its key, has that key as its only unique
/// constraint in the database, once the schema plan is carried out.
pub proof fn checked_keys_are_the_only_constraint(
    plan: DdlModel,
    dump: Schemas,
    order: Seq<Seq<char>>,
    local: Schemas,
    name: Seq<char>,
)
    requires
        is_ddl_plan(plan, dump, order, local),
        dump.contains_key(name),
        dump[name].key() is Some,
        key_problem(dump[name], local, plan, name) is None,
    ensures
        after_ddl(local, dump, plan).contains_key(name),
        after_ddl(local, dump, plan)[name].only_key() == dump[name].key(),
        after_ddl(local, dump, plan)[name].constraints() == 1,
{
    assert(plan.to_drop.contains(name) <==> local.contains_key(name) && !dump.contains_key(name));
}

/// The tables whose rows are synced: those of the dump that are not dropped, in order.
pub open spec fn without_dropped(order: Seq<Seq<char>>, to_drop: Seq<Seq<char>>) -> Seq<Seq<char>>
    decreases order.len(),
{
    if order.len() == 0 {
        Seq::empty()
    } else if to_drop.contains(order.last()) {
        without_dropped(order.drop_last(), to_drop)
    } else {
        without_dropped(order.drop_last(), to_drop).push(order.last())
    }
}

/// The tables whose rows are synced.
pub fn tables_to_sync(dump_order: &[String], plan: &DdlPlan) -> (r: Vec<String>)
    ensures
        texts(r@) == without_dropped(texts(dump_order@), plan@.to_drop),
{
    let ghost order = texts(dump_order@);
    let mut out: Vec<String> = Vec::new();
    let mut i: usize = 0;
    assert(order.take(0) =~= Seq::empty());
    assert(texts(out@) =~= Seq::empty());
    while i < dump_order.len()
        invariant
            i <= dump_order@.len(),
            order == texts(dump_order@),
            texts(out@) == without_dropped(order.take(i as int), plan@.to_drop),
        decreases dump_order@.len() - i,
    {
        proof {
            assert(order.take(i + 1).drop_last() =~= order.take(i as int));
            assert(order.take(i + 1).last() == dump_order@[i as int]@);
        }
        if !holds(plan.to_drop.as_slice(), dump_order[i].as_str()) {
            let ghost before = texts(out@);
            let name = dump_order[i].clone();
            out.push(name);
            assert(texts(out@) =~= before.push(name@));
        }
        i = i + 1;
    }
    assert(order.take(i as int) =~= order);
    out
}

/// Whether a table starts out empty, because it is created or rebuilt.
pub fn is_new_table(plan: &DdlPlan, name: &str) -> (r: bool)
    ensures
        r == freshly_created(plan@, name@),
{
    holds(plan.to_create.as_slice(), name) || holds(plan.to_rebuild.as_slice(), name)
}

/// Every table of the dump is synced.
pub proof fn no_table_is_left_out(
    plan: DdlModel,
    dump: Schemas,
    order: Seq<Seq<char>>,
    local: Schemas,
)
    requires
        is_ddl_plan(plan, dump, order, local),
        all_known(dump, order),
    ensures
        without_dropped(order, plan.to_drop) == order,
{
    lemma_nothing_dropped(dump, order, plan.to_drop);
}

/// Where no dropped table is in the order, all of it is left.
proof fn lemma_nothing_dropped(dump: Schemas, order: Seq<Seq<char>>, to_drop: Seq<Seq<char>>)
    requires
        forall|name: Seq<char>| #[trigger] to_drop.contains(name) ==> !dump.contains_key(name),
        all_known(dump, order),
    ensures
        without_dropped(order, to_drop) == order,
    decreases order.len(),
{
    if order.len() > 0 {
        assert(order[order.len() - 1] == order.last());
        assert forall|i: int| 0 <= i < order.drop_last().len() implies dump.contains_key(
            #[trigger] order.drop_last()[i],
        ) by {
            assert(order.drop_last()[i] == order[i]);
        }
        lemma_nothing_dropped(dump, order.drop_last(), to_drop);
        assert(order.drop_last().push(order.last()) =~= order);
    }
}

/// What a run does before it touches rows.
pub struct Preparation {
    /// What happens to the tables.
    pub plan: DdlPlan,
    /// Why the run is refused, if it is.
    pub problems: Vec<String>,
    /// The statements to execute, in order; none where the run is refused.
    pub ddl: Vec<String>,
}

/// Decides what happens to the tables, and whether the run is safe. Where it is not, it is refused as
/// a whole, and nothing is executed.
pub fn prepare(
    dump_schemas: &TableMap<TableSchema>,
    dump_order: &[String],
    local_schemas: &TableMap<TableSchema>,
    dry_run: bool,
) -> (r: Preparation)
    requires
        all_known(schemas_of(dump_schemas@), texts(dump_order@)),
    ensures
        is_ddl_plan(
            r.plan@,
            schemas_of(dump_schemas@),
            texts(dump_order@),
            schemas_of(local_schemas@),
        ),
        sorted(texts(r.problems@)),
        texts(r.problems@).no_duplicates(),
        forall|message: Seq<char>| #[trigger]
            texts(r.problems@).contains(message) <==> is_key_problem(
                schemas_of(dump_schemas@),
                schemas_of(local_schemas@),
                r.plan@,
                message,
            ),
        texts(r.ddl@) == (if r.problems@.len() > 0 {
            Seq::empty()
        } else {
            ddl_statements(schemas_of(dump_schemas@), r.plan@, dry_run)
        }),
        r.problems@.len() > 0 ==> r.ddl@.len() == 0,
        dry_run ==> r.ddl@.len() == 0,
{
    let ghost dump = schemas_of(dump_schemas@);
    let ghost local = schemas_of(local_schemas@);
    let ghost order = texts(dump_order@);
    proof {
        assert forall|i: int|
            0 <= i < dump_order@.len() && local_schemas@.contains_key(
                #[trigger] dump_order@[i]@,
            ) implies dump_schemas@.contains_key(dump_order@[i]@) by {
            assert(dump.contains_key(order[i]));
        }
    }
    let plan = plan_ddl(dump_schemas, dump_order, local_schemas);
    let problems = find_unsafe_key_tables(dump_schemas, local_schemas, &plan);
    let ddl = if problems.len() > 0 {
        let none: Vec<String> = Vec::new();
        assert(texts(none@) =~= Seq::empty());
        none
    } else {
        proof {
            lemma_fates_known(dump, local, order, Fate::Create);
            lemma_fates_known(dump, local, order, Fate::Rebuild);
        }
        execute_ddl(dump_schemas, &plan, dry_run)
    };
    Preparation { plan, problems, ddl }
}

/// What is listed under a fate is a table of the dump.
proof fn lemma_fates_known(dump: Schemas, local: Schemas, order: Seq<Seq<char>>, f: Fate)
    requires
        all_known(dump, order),
    ensures
        all_known(dump, with_fate(dump, local, order, f)),
{
    let list = with_fate(dump, local, order, f);
    assert forall|i: int| 0 <= i < list.len() implies dump.contains_key(#[trigger] list[i]) by {
        lemma_with_fate(dump, local, order, f, list[i]);
        assert(list.contains(list[i]));
        let j = choose|j: int| 0 <= j < order.len() && order[j] == list[i];
        assert(dump.contains_key(order[j]));
    }
}

} // verus!
