//! Rows: as a dump writes them, as a query returns them, and how they compare.

use vstd::prelude::*;
use vstd::slice::slice_to_vec;

use crate::bytes::{bytes_eq, contents, COMMA};
use crate::ddl::{SchemaModel, TableSchema};
use crate::dumpfile::{inserts, InsertModel, InsertStmt};
use crate::sqlstream::{paren_groups, split, split_toplevel};
use crate::text::{str_eq, strs};
use crate::values::{
    cell, cells, parse_value, try_parse_value_token, value_cell, value_to_cell, Cell,
};

verus! {

/// The content of a row.
pub type RowModel = Seq<Option<Seq<u8>>>;

/// The contents of a list of rows.
pub open spec fn rows(v: Seq<Vec<Cell>>) -> Seq<RowModel> {
    v.map_values(|r: Vec<Cell>| cells(r@))
}

/// Whether two cells are equal.
pub fn cell_eq(a: &Cell, b: &Cell) -> (r: bool)
    ensures
        r == (cell(*a) == cell(*b)),
{
    match (a, b) {
        (None, None) => true,
        (Some(a), Some(b)) => bytes_eq(a.as_slice(), b.as_slice()),
        _ => false,
    }
}

/// Whether two rows are equal.
pub fn row_eq(a: &[Cell], b: &[Cell]) -> (r: bool)
    ensures
        r == (cells(a@) == cells(b@)),
{
    if a.len() != b.len() {
        assert(cells(a@).len() != cells(b@).len());
        return false;
    }
    let mut i: usize = 0;
    while i < a.len()
        invariant
            i <= a@.len(),
            a@.len() == b@.len(),
            forall|j: int| 0 <= j < i ==> cell(#[trigger] a@[j]) == cell(b@[j]),
        decreases a@.len() - i,
    {
        if !cell_eq(&a[i], &b[i]) {
            assert(cells(a@)[i as int] != cells(b@)[i as int]);
            return false;
        }
        i = i + 1;
    }
    assert(cells(a@) =~= cells(b@));
    true
}

/// A copy of a cell.
pub fn clone_cell(c: &Cell) -> (r: Cell)
    ensures
        cell(r) == cell(*c),
{
    match c {
        None => None,
        Some(b) => Some(slice_to_vec(b.as_slice())),
    }
}

/// A copy of a row.
pub fn clone_row(row: &[Cell]) -> (r: Vec<Cell>)
    ensures
        cells(r@) == cells(row@),
{
    let mut out: Vec<Cell> = Vec::new();
    let mut i: usize = 0;
    while i < row.len()
        invariant
            i <= row@.len(),
            out@.len() == i,
            forall|j: int| 0 <= j < i ==> cell(#[trigger] out@[j]) == cell(row@[j]),
        decreases row@.len() - i,
    {
        out.push(clone_cell(&row[i]));
        i = i + 1;
    }
    assert(cells(out@) =~= cells(row@));
    out
}

/// The cells of a row that a text-protocol query returned; `None` when a value is neither NULL nor
/// bytes, which that protocol does not produce.
pub open spec fn fetched(values: Seq<mysql::Value>) -> Option<RowModel> {
    if forall|i: int| 0 <= i < values.len() ==> value_cell(#[trigger] values[i]) is Some {
        Some(values.map_values(|v: mysql::Value| value_cell(v)->0))
    } else {
        None
    }
}

/// The cells of a row that a text-protocol query returned; `None` when a value is neither NULL nor
/// bytes.
pub fn try_row_to_cells(row: Vec<mysql::Value>) -> (r: Option<Vec<Cell>>)
    ensures
        match fetched(row@) {
            Some(model) => r is Some && cells(r->0@) == model,
            None => r is None,
        },
{
    let ghost all = row@;
    let mut out: Vec<Cell> = Vec::new();
    for value in it: row
        invariant
            it.seq() == all,
            all == row@,
            out@.len() == it.index(),
            forall|j: int|
                0 <= j < out@.len() ==> value_cell(#[trigger] all[j]) == Some(cell(out@[j])),
    {
        assert(value == all[it.index()]);
        match value_to_cell(value) {
            Some(c) => {
                out.push(c);
            },
            None => {
                return None;
            },
        }
    }
    assert(cells(out@) =~= all.map_values(|v: mysql::Value| value_cell(v)->0));
    Some(out)
}

/// The cells of a row that a text-protocol query returned.
pub fn row_to_cells(row: Vec<mysql::Value>) -> (r: Vec<Cell>)
    requires
        fetched(row@) is Some,
    ensures
        Some(cells(r@)) == fetched(row@),
{
    try_row_to_cells(row).unwrap()
}

/// The last place of a name in a column list.
pub open spec fn last_place(list: Seq<Seq<char>>, name: Seq<char>) -> Option<int>
    decreases list.len(),
{
    if list.len() == 0 {
        None
    } else if list.last() == name {
        Some(list.len() - 1)
    } else {
        last_place(list.drop_last(), name)
    }
}

/// The `BIT` width by which the `k`-th value of a row is decoded, if any: that of the column which
/// the column list names there, or of the `k`-th column where there is no list.
pub open spec fn value_width(schema: SchemaModel, list: Option<Seq<Seq<char>>>, k: int) -> Option<
    u32,
> {
    match list {
        Some(names) => if k < names.len() {
            match schema.column(names[k]) {
                Some(column) => column.bit_width,
                None => None,
            }
        } else {
            None
        },
        None => if k < schema.columns.len() {
            schema.columns[k].bit_width
        } else {
            None
        },
    }
}

/// The values of a row as the dump lists them, or `None` when a token is malformed.
pub open spec fn listed_values(
    schema: SchemaModel,
    list: Option<Seq<Seq<char>>>,
    tokens: Seq<Seq<u8>>,
) -> Option<RowModel> {
    if forall|k: int|
        0 <= k < tokens.len() ==> parse_value(#[trigger] tokens[k], value_width(schema, list, k))
            is Some {
        Some(
            Seq::new(
                tokens.len(),
                |k: int| parse_value(tokens[k], value_width(schema, list, k))->0,
            ),
        )
    } else {
        None
    }
}

/// The values of a row in the order of the table's columns. Without a column list they are in that
/// order already. A column that the list leaves out gets its default; one for which the row is too
/// short is NULL.
pub open spec fn arranged(
    schema: SchemaModel,
    list: Option<Seq<Seq<char>>>,
    listed: RowModel,
) -> RowModel {
    match list {
        None => listed,
        Some(names) => Seq::new(
            schema.columns.len(),
            |i: int|
                match last_place(names, schema.columns[i].name) {
                    Some(k) => if k < listed.len() {
                        listed[k]
                    } else {
                        None
                    },
                    None => schema.columns[i].default.resolved(),
                },
        ),
    }
}

/// The row that one tuple of an `INSERT` statement denotes, or `None` when it is malformed.
pub open spec fn tuple_row(
    schema: SchemaModel,
    list: Option<Seq<Seq<char>>>,
    tuple: Seq<u8>,
) -> Option<RowModel> {
    match listed_values(schema, list, split(tuple, COMMA)) {
        Some(listed) => Some(arranged(schema, list, listed)),
        None => None,
    }
}

/// The rows that the tuples of an `INSERT` statement denote, or `None` when one is malformed.
pub open spec fn tuple_rows(
    schema: SchemaModel,
    list: Option<Seq<Seq<char>>>,
    tuples: Seq<Seq<u8>>,
) -> Option<Seq<RowModel>>
    decreases tuples.len(),
{
    if tuples.len() == 0 {
        Some(Seq::empty())
    } else {
        match (
            tuple_rows(schema, list, tuples.drop_last()),
            tuple_row(schema, list, tuples.last()),
        ) {
            (Some(before), Some(row)) => Some(before.push(row)),
            _ => None,
        }
    }
}

/// The rows that an `INSERT` statement adds to a table, or `None` when it is malformed.
pub open spec fn insert_rows(schema: SchemaModel, stmt: InsertModel) -> Option<Seq<RowModel>> {
    match paren_groups(stmt.data, stmt.values_start) {
        Some(tuples) => tuple_rows(schema, stmt.explicit_columns, tuples),
        None => None,
    }
}

/// The rows that a dump has for a table, or `None` when one of its statements is malformed.
pub open spec fn dump_rows(schema: SchemaModel, stmts: Seq<InsertModel>) -> Option<Seq<RowModel>>
    decreases stmts.len(),
{
    if stmts.len() == 0 {
        Some(Seq::empty())
    } else {
        match (dump_rows(schema, stmts.drop_last()), insert_rows(schema, stmts.last())) {
            (Some(before), Some(more)) => Some(before + more),
            _ => None,
        }
    }
}

/// A malformed tuple spoils every list that goes on from it.
proof fn lemma_tuple_rows_prefix(
    schema: SchemaModel,
    list: Option<Seq<Seq<char>>>,
    tuples: Seq<Seq<u8>>,
    n: int,
)
    requires
        0 <= n <= tuples.len(),
        tuple_rows(schema, list, tuples.take(n)) is None,
    ensures
        tuple_rows(schema, list, tuples) is None,
    decreases tuples.len() - n,
{
    if n < tuples.len() {
        assert(tuples.take(n + 1).drop_last() =~= tuples.take(n));
        lemma_tuple_rows_prefix(schema, list, tuples, n + 1);
    } else {
        assert(tuples.take(n) =~= tuples);
    }
}

/// A malformed statement spoils every list that goes on from it.
proof fn lemma_dump_rows_prefix(schema: SchemaModel, stmts: Seq<InsertModel>, n: int)
    requires
        0 <= n <= stmts.len(),
        dump_rows(schema, stmts.take(n)) is None,
    ensures
        dump_rows(schema, stmts) is None,
    decreases stmts.len() - n,
{
    if n < stmts.len() {
        assert(stmts.take(n + 1).drop_last() =~= stmts.take(n));
        lemma_dump_rows_prefix(schema, stmts, n + 1);
    } else {
        assert(stmts.take(n) =~= stmts);
    }
}

/// The last place of a name in a column list.
fn find_last(list: &[&str], name: &str) -> (r: Option<usize>)
    ensures
        match last_place(strs(list@), name@) {
            Some(k) => r is Some && r->0 == k && k < list@.len(),
            None => r is None,
        },
{
    let mut n: usize = list.len();
    assert(strs(list@).take(n as int) =~= strs(list@));
    while n > 0
        invariant
            n <= list@.len(),
            last_place(strs(list@).take(n as int), name@) == last_place(strs(list@), name@),
        decreases n,
    {
        assert(strs(list@).take(n as int).last() == list@[n - 1]@);
        assert(strs(list@).take(n as int).drop_last() =~= strs(list@).take(n - 1));
        n = n - 1;
        if str_eq(list[n], name) {
            return Some(n);
        }
    }
    None
}

/// How the tuples of one `INSERT` statement are read.
struct Layout {
    /// The `BIT` width for each value of a tuple; there is none beyond.
    widths: Vec<Option<u32>>,
    /// For each column of the table the place of its value in a tuple, where the statement has a
    /// column list.
    places: Option<Vec<Option<usize>>>,
}

impl Layout {
    spec fn matches(self, schema: SchemaModel, list: Option<Seq<Seq<char>>>) -> bool {
        &&& forall|k: int|
            #![trigger value_width(schema, list, k)]
            0 <= k ==> value_width(schema, list, k) == (if k < self.widths@.len() {
                self.widths@[k]
            } else {
                None
            })
        &&& match (list, self.places) {
            (None, None) => true,
            (Some(names), Some(places)) => {
                &&& places@.len() == schema.columns.len()
                &&& forall|i: int|
                    0 <= i < places@.len() ==> match #[trigger] places@[i] {
                        Some(k) => last_place(names, schema.columns[i].name) == Some(k as int),
                        None => last_place(names, schema.columns[i].name) is None,
                    }
            },
            _ => false,
        }
    }

    /// The layout for one column list, or for none.
    fn new(schema: &TableSchema, list: &Option<Vec<&str>>) -> (r: Self)
        ensures
            r.matches(
                schema@,
                match *list {
                    Some(names) => Some(strs(names@)),
                    None => None,
                },
            ),
    {
        match list {
            None => {
                let mut widths: Vec<Option<u32>> = Vec::new();
                let mut i: usize = 0;
                while i < schema.columns.len()
                    invariant
                        i <= schema.columns@.len(),
                        widths@.len() == i,
                        forall|j: int|
                            0 <= j < i ==> #[trigger] widths@[j] == schema@.columns[j].bit_width,
                    decreases schema.columns@.len() - i,
                {
                    widths.push(schema.columns[i].bit_width);
                    i = i + 1;
                }
                Layout { widths, places: None }
            },
            Some(names) => {
                let ghost model = strs(names@);
                let mut widths: Vec<Option<u32>> = Vec::new();
                let mut k: usize = 0;
                while k < names.len()
                    invariant
                        k <= names@.len(),
                        widths@.len() == k,
                        model == strs(names@),
                        forall|j: int|
                            0 <= j < k ==> #[trigger] widths@[j] == value_width(
                                schema@,
                                Some(model),
                                j,
                            ),
                    decreases names@.len() - k,
                {
                    assert(model[k as int] == names@[k as int]@);
                    let width = match schema.column_index(names[k]) {
                        Some(i) => schema.columns[i].bit_width,
                        None => None,
                    };
                    widths.push(width);
                    k = k + 1;
                }
                let mut places: Vec<Option<usize>> = Vec::new();
                let mut i: usize = 0;
                while i < schema.columns.len()
                    invariant
                        i <= schema.columns@.len(),
                        places@.len() == i,
                        model == strs(names@),
                        forall|j: int|
                            0 <= j < i ==> match #[trigger] places@[j] {
                                Some(k) => last_place(model, schema@.columns[j].name) == Some(
                                    k as int,
                                ),
                                None => last_place(model, schema@.columns[j].name) is None,
                            },
                    decreases schema.columns@.len() - i,
                {
                    places.push(find_last(names.as_slice(), schema.columns[i].name.as_str()));
                    i = i + 1;
                }
                Layout { widths, places: Some(places) }
            },
        }
    }

    /// The row that one tuple denotes.
    fn read(
        &self,
        schema: &TableSchema,
        Ghost(list): Ghost<Option<Seq<Seq<char>>>>,
        tuple: &[u8],
    ) -> (r: Option<Vec<Cell>>)
        requires
            self.matches(schema@, list),
        ensures
            match tuple_row(schema@, list, tuple@) {
                Some(row) => r is Some && cells(r->0@) == row,
                None => r is None,
            },
    {
        let tokens = split_toplevel(tuple, COMMA);
        let ghost all = contents(tokens@);
        let mut listed: Vec<Cell> = Vec::new();
        let mut k: usize = 0;
        while k < tokens.len()
            invariant
                k <= tokens@.len(),
                listed@.len() == k,
                self.matches(schema@, list),
                all == contents(tokens@),
                all == split(tuple@, COMMA),
                forall|j: int|
                    0 <= j < k ==> parse_value(#[trigger] all[j], value_width(schema@, list, j))
                        == Some(cell(listed@[j])),
            decreases tokens@.len() - k,
        {
            let width = if k < self.widths.len() {
                self.widths[k]
            } else {
                None
            };
            assert(width == value_width(schema@, list, k as int));
            assert(all[k as int] == tokens@[k as int]@);
            match try_parse_value_token(tokens[k], width) {
                Some(value) => {
                    listed.push(value.into_cell());
                },
                None => {
                    return None;
                },
            }
            k = k + 1;
        }
        assert(Some(cells(listed@)) == listed_values(schema@, list, all)) by {
            assert(cells(listed@) =~= listed_values(schema@, list, all)->0);
        }
        match &self.places {
            None => Some(listed),
            Some(places) => {
                let ghost want = arranged(schema@, list, cells(listed@));
                let mut row: Vec<Cell> = Vec::new();
                let mut i: usize = 0;
                while i < places.len()
                    invariant
                        i <= places@.len(),
                        row@.len() == i,
                        self.matches(schema@, list),
                        self.places == Some(*places),
                        want == arranged(schema@, list, cells(listed@)),
                        forall|j: int| 0 <= j < i ==> cell(#[trigger] row@[j]) == want[j],
                    decreases places@.len() - i,
                {
                    let value = match places[i] {
                        Some(k) => if k < listed.len() {
                            clone_cell(&listed[k])
                        } else {
                            None
                        },
                        None => schema.columns[i].default.resolve(),
                    };
                    row.push(value);
                    i = i + 1;
                }
                assert(cells(row@) =~= want);
                Some(row)
            },
        }
    }
}

/// Reads the rows of one `INSERT` statement and appends them to `out`; `false` when the statement
/// is malformed.
fn read_insert(schema: &TableSchema, stmt: &InsertStmt<'_>, out: &mut Vec<Vec<Cell>>) -> (r: bool)
    ensures
        match insert_rows(schema@, stmt@) {
            Some(more) => r && rows(final(out)@) == rows(old(out)@) + more,
            None => !r,
        },
{
    let ghost list = stmt@.explicit_columns;
    let tuples = match stmt.rows().try_collect() {
        Some(tuples) => tuples,
        None => {
            return false;
        },
    };
    let layout = Layout::new(schema, &stmt.explicit_columns);
    let ghost all = contents(tuples@);
    let ghost before = rows(out@);
    let mut i: usize = 0;
    assert(all.take(0) =~= Seq::<Seq<u8>>::empty());
    assert(before + Seq::empty() =~= before);
    while i < tuples.len()
        invariant
            i <= tuples@.len(),
            all == contents(tuples@),
            insert_rows(schema@, stmt@) == tuple_rows(schema@, list, all),
            layout.matches(schema@, list),
            before == rows(old(out)@),
            tuple_rows(schema@, list, all.take(i as int)) matches Some(done) && rows(out@) == before
                + done,
        decreases tuples@.len() - i,
    {
        proof {
            assert(all.take(i + 1).drop_last() =~= all.take(i as int));
            assert(all.take(i + 1).last() == tuples@[i as int]@);
            if tuple_rows(schema@, list, all.take(i + 1)) is None {
                lemma_tuple_rows_prefix(schema@, list, all, i + 1);
            }
        }
        match layout.read(schema, Ghost(list), tuples[i]) {
            Some(row) => {
                let ghost done = rows(out@);
                out.push(row);
                assert(rows(out@) =~= done.push(cells(row@)));
                assert(rows(out@) =~= before + tuple_rows(schema@, list, all.take(i + 1))->0);
            },
            None => {
                return false;
            },
        }
        i = i + 1;
    }
    assert(all.take(i as int) =~= all);
    true
}

/// The rows that the `INSERT` statements of a table add, each in the order of the table's columns;
/// `None` when a statement is malformed.
pub fn try_dump_rows(schema: &TableSchema, insert_stmts: &[InsertStmt<'_>]) -> (r: Option<
    Vec<Vec<Cell>>,
>)
    ensures
        match dump_rows(schema@, inserts(insert_stmts@)) {
            Some(model) => r is Some && rows(r->0@) == model,
            None => r is None,
        },
{
    let ghost all = inserts(insert_stmts@);
    let mut out: Vec<Vec<Cell>> = Vec::new();
    let mut i: usize = 0;
    assert(all.take(0) =~= Seq::<InsertModel>::empty());
    assert(rows(out@) =~= Seq::empty());
    while i < insert_stmts.len()
        invariant
            i <= insert_stmts@.len(),
            all == inserts(insert_stmts@),
            dump_rows(schema@, all.take(i as int)) == Some(rows(out@)),
        decreases insert_stmts@.len() - i,
    {
        proof {
            assert(all.take(i + 1).drop_last() =~= all.take(i as int));
            assert(all.take(i + 1).last() == insert_stmts@[i as int]@);
            if dump_rows(schema@, all.take(i + 1)) is None {
                lemma_dump_rows_prefix(schema@, all, i + 1);
            }
        }
        if !read_insert(schema, &insert_stmts[i], &mut out) {
            return None;
        }
        i = i + 1;
    }
    assert(all.take(i as int) =~= all);
    Some(out)
}

/// The rows that well-formed `INSERT` statements add to a table, each in the order of the table's
/// columns.
pub fn iter_dump_rows(schema: &TableSchema, insert_stmts: &[InsertStmt<'_>]) -> (r: Vec<Vec<Cell>>)
    requires
        dump_rows(schema@, inserts(insert_stmts@)) is Some,
    ensures
        Some(rows(r@)) == dump_rows(schema@, inserts(insert_stmts@)),
{
    try_dump_rows(schema, insert_stmts).unwrap()
}

} // verus!
