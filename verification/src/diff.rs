//! Compares the rows of a dump with those of a table: by a key, or as multisets.

use vstd::prelude::*;

use crate::plan::{counted, total};
use crate::row_table::RowTable;
use crate::rows::{clone_cell, clone_row, row_eq, rows, RowModel};
use crate::values::{cell, cells, Cell};

verus! {

/// Places of a key's columns, as mathematical integers.
pub open spec fn places(v: Seq<usize>) -> Seq<int> {
    v.map_values(|i: usize| i as int)
}

/// The cells of a row that make up its key.
pub open spec fn key_of(row: RowModel, idx: Seq<int>) -> RowModel {
    idx.map_values(|i: int| row[i])
}

/// Every row is long enough to have a key.
pub open spec fn all_have_keys(list: Seq<RowModel>, idx: Seq<int>) -> bool {
    forall|r: int, k: int|
        0 <= r < list.len() && 0 <= k < idx.len() ==> 0 <= #[trigger] idx[k] < (#[trigger] list[r]).len()
}

/// The last row with the given key.
pub open spec fn last_with(list: Seq<RowModel>, idx: Seq<int>, key: RowModel) -> Option<RowModel>
    decreases list.len(),
{
    if list.len() == 0 {
        None
    } else if key_of(list.last(), idx) == key {
        Some(list.last())
    } else {
        last_with(list.drop_last(), idx, key)
    }
}

/// There is a row with the given key.
pub open spec fn has_key(list: Seq<RowModel>, idx: Seq<int>, key: RowModel) -> bool {
    last_with(list, idx, key) is Some
}

/// A row of the dump takes the place of a row of the table: the table has a row with its key, and
/// no row of the dump ahead of it has the same one.
pub open spec fn replaces(
    idx: Seq<int>,
    local: Seq<RowModel>,
    ahead: Seq<RowModel>,
    row: RowModel,
) -> bool {
    has_key(local, idx, key_of(row, idx)) && !has_key(ahead, idx, key_of(row, idx))
}

/// The rows of the dump that take no place of a row of the table, in order.
pub open spec fn keyed_inserts(
    idx: Seq<int>,
    local: Seq<RowModel>,
    dump: Seq<RowModel>,
) -> Seq<RowModel>
    decreases dump.len(),
{
    if dump.len() == 0 {
        Seq::empty()
    } else {
        let ahead = dump.drop_last();
        let done = keyed_inserts(idx, local, ahead);
        if replaces(idx, local, ahead, dump.last()) {
            done
        } else {
            done.push(dump.last())
        }
    }
}

/// The rows of the dump that take the place of a row of the table and differ from it, in order.
pub open spec fn keyed_updates(
    idx: Seq<int>,
    local: Seq<RowModel>,
    dump: Seq<RowModel>,
) -> Seq<RowModel>
    decreases dump.len(),
{
    if dump.len() == 0 {
        Seq::empty()
    } else {
        let ahead = dump.drop_last();
        let row = dump.last();
        let done = keyed_updates(idx, local, ahead);
        if replaces(idx, local, ahead, row) && last_with(local, idx, key_of(row, idx)) != Some(row) {
            done.push(row)
        } else {
            done
        }
    }
}

/// `keys` are the keys of the table that the dump does not have, each once, in any order.
pub open spec fn keyed_deletes(
    idx: Seq<int>,
    local: Seq<RowModel>,
    dump: Seq<RowModel>,
    keys: Seq<RowModel>,
) -> bool {
    &&& keys.no_duplicates()
    &&& forall|key: RowModel| #[trigger]
        keys.contains(key) <==> has_key(local, idx, key) && !has_key(dump, idx, key)
}

/// The key of a row.
fn extract_key(row: &[Cell], key_idx: &[usize]) -> (r: Vec<Cell>)
    requires
        forall|k: int| 0 <= k < key_idx@.len() ==> #[trigger] key_idx@[k] < row@.len(),
    ensures
        cells(r@) == key_of(cells(row@), places(key_idx@)),
{
    let mut key: Vec<Cell> = Vec::new();
    let mut k: usize = 0;
    while k < key_idx.len()
        invariant
            k <= key_idx@.len(),
            key@.len() == k,
            forall|j: int| 0 <= j < key_idx@.len() ==> #[trigger] key_idx@[j] < row@.len(),
            forall|j: int| 0 <= j < k ==> cell(#[trigger] key@[j]) == cell(row@[key_idx@[j] as int]),
        decreases key_idx@.len() - k,
    {
        key.push(clone_cell(&row[key_idx[k]]));
        k = k + 1;
    }
    assert(cells(key@) =~= key_of(cells(row@), places(key_idx@)));
    key
}

/// The keys of a table, each with the place of the last row that has it.
struct KeyIndex {
    table: RowTable,
    latest: Vec<usize>,
}

impl KeyIndex {
    spec fn indexes(self, list: Seq<RowModel>, idx: Seq<int>) -> bool {
        &&& self.table.wf()
        &&& self.latest@.len() == self.table@.len()
        &&& forall|k: int|
            0 <= k < self.table@.len() ==> self.latest@[k] < list.len() && last_with(
                list,
                idx,
                #[trigger] self.table@[k],
            ) == Some(list[self.latest@[k] as int])
        &&& forall|key: RowModel| #[trigger] has_key(list, idx, key) ==> self.table@.contains(key)
    }

    /// The index of a list of rows.
    fn new(list: &[Vec<Cell>], key_idx: &[usize]) -> (r: Self)
        requires
            all_have_keys(rows(list@), places(key_idx@)),
        ensures
            r.indexes(rows(list@), places(key_idx@)),
    {
        let ghost all = rows(list@);
        let ghost idx = places(key_idx@);
        let mut r = KeyIndex { table: RowTable::new(list.len()), latest: Vec::new() };
        let mut i: usize = 0;
        while i < list.len()
            invariant
                i <= list@.len(),
                all == rows(list@),
                idx == places(key_idx@),
                all_have_keys(all, idx),
                r.indexes(all.take(i as int), idx),
            decreases list@.len() - i,
        {
            let row = &list[i];
            let ghost seen = all.take(i as int);
            let ghost more = all.take(i + 1);
            proof {
                assert(more.drop_last() =~= seen);
                assert(more.last() == cells(row@));
                assert forall|k: int| 0 <= k < key_idx@.len() implies #[trigger] key_idx@[k]
                    < row@.len() by {
                    assert(idx[k] < all[i as int].len());
                }
            }
            let key = extract_key(row.as_slice(), key_idx);
            let ghost key_model = cells(key@);
            let ghost before = r;
            match r.table.find(key.as_slice()) {
                Some(k) => {
                    r.latest.set(k, i);
                },
                None => {
                    r.table.add(key);
                    r.latest.push(i);
                },
            }
            proof {
                r.table.lemma_distinct();
                assert forall|k: int| 0 <= k < r.table@.len() implies r.latest@[k] < more.len()
                    && last_with(more, idx, #[trigger] r.table@[k]) == Some(
                    more[r.latest@[k] as int],
                ) by {
                    if k < before.table@.len() {
                        assert(r.table@[k] == before.table@[k]);
                        if r.table@[k] != key_model {
                            assert(seen[before.latest@[k] as int] == more[before.latest@[k] as int]);
                        }
                    }
                }
                assert forall|key: RowModel| #[trigger] has_key(
                    more,
                    idx,
                    key,
                ) implies r.table@.contains(key) by {
                    if key == key_model {
                        if before.table@.contains(key) {
                            let k = choose|k: int|
                                0 <= k < before.table@.len() && before.table@[k] == key;
                            assert(r.table@[k] == key);
                        } else {
                            assert(r.table@[r.table@.len() - 1] == key);
                        }
                    } else {
                        assert(has_key(seen, idx, key));
                        let k = choose|k: int|
                            0 <= k < before.table@.len() && before.table@[k] == key;
                        assert(r.table@[k] == key);
                    }
                }
            }
            i = i + 1;
        }
        assert(all.take(i as int) =~= all);
        r
    }
}

/// The rows to insert, the rows to update and the keys to delete that turn a table into what the
/// dump has, where rows are matched by the columns at `key_idx`.
pub fn diff_keyed(key_idx: &[usize], local: &[Vec<Cell>], dump: Vec<Vec<Cell>>) -> (r: (
    Vec<Vec<Cell>>,
    Vec<Vec<Cell>>,
    Vec<Vec<Cell>>,
))
    requires
        all_have_keys(rows(local@), places(key_idx@)),
        all_have_keys(rows(dump@), places(key_idx@)),
    ensures
        rows(r.0@) == keyed_inserts(places(key_idx@), rows(local@), rows(dump@)),
        rows(r.1@) == keyed_updates(places(key_idx@), rows(local@), rows(dump@)),
        keyed_deletes(places(key_idx@), rows(local@), rows(dump@), rows(r.2@)),
{
    let ghost idx = places(key_idx@);
    let ghost here = rows(local@);
    let ghost there = rows(dump@);
    let index = KeyIndex::new(local, key_idx);
    let n = index.table.len();
    let mut taken: Vec<bool> = Vec::new();
    let mut i: usize = 0;
    while i < n
        invariant
            i <= n,
            taken@.len() == i,
            forall|k: int| 0 <= k < i ==> !(#[trigger] taken@[k]),
        decreases n - i,
    {
        taken.push(false);
        i = i + 1;
    }
    let mut to_insert: Vec<Vec<Cell>> = Vec::new();
    let mut to_update: Vec<Vec<Cell>> = Vec::new();
    proof {
        assert(rows(to_insert@) =~= Seq::empty());
        assert(rows(to_update@) =~= Seq::empty());
        assert(there.take(0) =~= Seq::empty());
    }
    for row in it: dump
        invariant
            it.seq() == dump@,
            idx == places(key_idx@),
            here == rows(local@),
            there == rows(dump@),
            all_have_keys(there, idx),
            index.indexes(here, idx),
            taken@.len() == index.table@.len(),
            rows(to_insert@) == keyed_inserts(idx, here, there.take(it.index())),
            rows(to_update@) == keyed_updates(idx, here, there.take(it.index())),
            forall|k: int|
                0 <= k < taken@.len() ==> #[trigger] taken@[k] == has_key(
                    there.take(it.index()),
                    idx,
                    index.table@[k],
                ),
    {
        let ghost i = it.index();
        let ghost ahead = there.take(i);
        let ghost more = there.take(i + 1);
        let ghost model = cells(row@);
        proof {
            assert(more.drop_last() =~= ahead);
            assert(more.last() == model);
            assert(there[i] == model);
            assert forall|k: int| 0 <= k < key_idx@.len() implies #[trigger] key_idx@[k]
                < row@.len() by {
                assert(idx[k] < there[i].len());
            }
            index.table.lemma_distinct();
        }
        let key = extract_key(row.as_slice(), key_idx);
        let ghost key_model = cells(key@);
        let ghost inserts_before = rows(to_insert@);
        let ghost updates_before = rows(to_update@);
        match index.table.find(key.as_slice()) {
            None => {
                assert(!has_key(here, idx, key_model));
                to_insert.push(row);
                assert(rows(to_insert@) =~= inserts_before.push(model));
            },
            Some(k) => {
                assert(last_with(here, idx, index.table@[k as int]) == Some(
                    here[index.latest@[k as int] as int],
                ));
                if taken[k] {
                    to_insert.push(row);
                    assert(rows(to_insert@) =~= inserts_before.push(model));
                } else {
                    taken.set(k, true);
                    if !row_eq(local[index.latest[k]].as_slice(), row.as_slice()) {
                        to_update.push(row);
                        assert(rows(to_update@) =~= updates_before.push(model));
                    }
                }
            },
        }
    }
    proof {
        assert(there.take(there.len() as int) =~= there);
        index.table.lemma_distinct();
    }
    let mut delete_keys: Vec<Vec<Cell>> = Vec::new();
    let mut k: usize = 0;
    assert(rows(delete_keys@) =~= Seq::empty());
    while k < n
        invariant
            k <= n,
            n == index.table@.len(),
            n == taken@.len(),
            index.table@.no_duplicates(),
            rows(delete_keys@).no_duplicates(),
            forall|key: RowModel| #[trigger]
                rows(delete_keys@).contains(key) <==> exists|j: int|
                    0 <= j < k && !(#[trigger] taken@[j]) && index.table@[j] == key,
        decreases n - k,
    {
        if !taken[k] {
            let ghost before = rows(delete_keys@);
            let key = clone_row(index.table.row(k).as_slice());
            delete_keys.push(key);
            proof {
                let key_model = index.table@[k as int];
                assert(rows(delete_keys@) =~= before.push(key_model));
                assert(!before.contains(key_model));
                assert forall|key: RowModel| #[trigger]
                    rows(delete_keys@).contains(key) <==> exists|j: int|
                        0 <= j < k + 1 && !(#[trigger] taken@[j]) && index.table@[j] == key by {
                    if rows(delete_keys@).contains(key) {
                        if key == key_model {
                            assert(!taken@[k as int] && index.table@[k as int] == key);
                        } else {
                            let m = choose|m: int|
                                0 <= m < rows(delete_keys@).len() && rows(delete_keys@)[m] == key;
                            assert(before[m] == key);
                            assert(before.contains(key));
                        }
                    }
                    if exists|j: int|
                        0 <= j < k + 1 && !(#[trigger] taken@[j]) && index.table@[j] == key {
                        let j = choose|j: int|
                            0 <= j < k + 1 && !(#[trigger] taken@[j]) && index.table@[j] == key;
                        if j < k {
                            assert(before.contains(key));
                            let m = choose|m: int| 0 <= m < before.len() && before[m] == key;
                            assert(rows(delete_keys@)[m] == key);
                        } else {
                            assert(rows(delete_keys@)[before.len() as int] == key);
                        }
                    }
                }
            }
        }
        k = k + 1;
    }
    proof {
        assert forall|key: RowModel| #[trigger]
            rows(delete_keys@).contains(key) <==> has_key(here, idx, key) && !has_key(
                there,
                idx,
                key,
            ) by {
            if has_key(here, idx, key) && !has_key(there, idx, key) {
                assert(index.table@.contains(key));
                let j = choose|j: int| 0 <= j < index.table@.len() && index.table@[j] == key;
                assert(!taken@[j]);
            }
        }
    }
    (to_insert, to_update, delete_keys)
}

/// How often a row occurs in a list.
pub open spec fn count(list: Seq<RowModel>, row: RowModel) -> nat
    decreases list.len(),
{
    if list.len() == 0 {
        0
    } else {
        count(list.drop_last(), row) + (if list.last() == row {
            1nat
        } else {
            0nat
        })
    }
}

/// How much more often a row occurs in `a` than in `b`.
pub open spec fn surplus(a: Seq<RowModel>, b: Seq<RowModel>, row: RowModel) -> nat {
    if count(a, row) > count(b, row) {
        (count(a, row) - count(b, row)) as nat
    } else {
        0
    }
}

/// `added` holds, in any order, the copies of rows that the dump has more of than the table.
pub open spec fn unkeyed_inserts(
    local: Seq<RowModel>,
    dump: Seq<RowModel>,
    added: Seq<RowModel>,
) -> bool {
    forall|row: RowModel| #[trigger] count(added, row) == surplus(dump, local, row)
}

/// `removed` holds, in any order, each row that the table has more of than the dump, once, with how
/// many copies are too many.
pub open spec fn unkeyed_deletes(
    local: Seq<RowModel>,
    dump: Seq<RowModel>,
    removed: Seq<(RowModel, u64)>,
) -> bool {
    &&& forall|i: int, j: int|
        0 <= i < j < removed.len() ==> (#[trigger] removed[i]).0 != (#[trigger] removed[j]).0
    &&& forall|row: RowModel, n: u64| #[trigger]
        removed.contains((row, n)) <==> 0 < n && n == surplus(local, dump, row)
}

/// The sum of a list of numbers.
spec fn sum(list: Seq<usize>) -> nat
    decreases list.len(),
{
    if list.len() == 0 {
        0
    } else {
        sum(list.drop_last()) + list.last() as nat
    }
}

/// One number raised by one raises the sum by one.
proof fn lemma_sum_raise(list: Seq<usize>, k: int)
    requires
        0 <= k < list.len(),
        list[k] < usize::MAX,
    ensures
        sum(list.update(k, (list[k] + 1) as usize)) == sum(list) + 1,
    decreases list.len(),
{
    let raised = list.update(k, (list[k] + 1) as usize);
    if k == list.len() - 1 {
        assert(raised.drop_last() =~= list.drop_last());
    } else {
        lemma_sum_raise(list.drop_last(), k);
        assert(raised.drop_last() =~= list.drop_last().update(k, (list[k] + 1) as usize));
    }
}

/// A row occurs at most as often as there are rows, and not at all exactly where it is not found.
proof fn lemma_count(list: Seq<RowModel>, row: RowModel)
    ensures
        count(list, row) <= list.len(),
        count(list, row) > 0 <==> list.contains(row),
    decreases list.len(),
{
    if list.len() > 0 {
        lemma_count(list.drop_last(), row);
        assert(list.drop_last().contains(row) ==> list.contains(row));
        if list.contains(row) && list.last() != row {
            let i = choose|i: int| 0 <= i < list.len() && list[i] == row;
            assert(list.drop_last()[i] == row);
        }
        if list.last() == row {
            assert(list[list.len() - 1] == row);
        }
    }
}

/// Counts the rows of a list, and adds those to the table that are not in it yet.
fn count_rows(table: &mut RowTable, list: Vec<Vec<Cell>>) -> (r: Vec<usize>)
    requires
        old(table).wf(),
    ensures
        final(table).wf(),
        old(table)@.is_prefix_of(final(table)@),
        r@.len() == final(table)@.len(),
        forall|k: int|
            0 <= k < r@.len() ==> #[trigger] r@[k] == count(rows(list@), final(table)@[k]),
        forall|row: RowModel| #[trigger]
            count(rows(list@), row) > 0 ==> final(table)@.contains(row),
        sum(r@) == list@.len(),
{
    let ghost all = rows(list@);
    let ghost start = table@;
    let n = table.len();
    let mut counts: Vec<usize> = Vec::new();
    let mut k: usize = 0;
    while k < n
        invariant
            k <= n,
            counts@.len() == k,
            forall|j: int| 0 <= j < k ==> #[trigger] counts@[j] == 0,
            sum(counts@) == 0,
        decreases n - k,
    {
        let ghost before = counts@;
        counts.push(0);
        assert(counts@.drop_last() =~= before);
        k = k + 1;
    }
    let len = list.len();
    assert(all.take(0) =~= Seq::empty());
    assert(start.is_prefix_of(table@));
    for row in it: list
        invariant
            it.seq() == list@,
            len == list@.len(),
            all == rows(list@),
            table.wf(),
            start.is_prefix_of(table@),
            counts@.len() == table@.len(),
            forall|k: int|
                0 <= k < counts@.len() ==> #[trigger] counts@[k] == count(
                    all.take(it.index()),
                    table@[k],
                ),
            forall|row: RowModel| #[trigger]
                count(all.take(it.index()), row) > 0 ==> table@.contains(row),
            sum(counts@) == it.index(),
    {
        let ghost i = it.index();
        let ghost model = cells(row@);
        let ghost seen = all.take(i);
        let ghost more = all.take(i + 1);
        let ghost before = table@;
        let ghost counts_before = counts@;
        proof {
            assert(more.drop_last() =~= seen);
            assert(more.last() == model);
            lemma_count(seen, model);
        }
        match table.find(row.as_slice()) {
            Some(k) => {
                assert(counts@[k as int] == count(seen, table@[k as int]));
                let c = counts[k] + 1;
                proof {
                    lemma_sum_raise(counts@, k as int);
                }
                counts.set(k, c);
            },
            None => {
                table.add(row);
                counts.push(1);
                assert(counts@.drop_last() =~= counts_before);
            },
        }
        proof {
            table.lemma_distinct();
            assert forall|k: int| 0 <= k < counts@.len() implies #[trigger] counts@[k] == count(
                more,
                table@[k],
            ) by {
                if k < before.len() {
                    assert(table@[k] == before[k]);
                    assert(counts_before[k] == count(seen, before[k]));
                } else {
                    assert(table@[k] == model);
                }
            }
            assert forall|row: RowModel| #[trigger] count(more, row) > 0 implies table@.contains(
                row,
            ) by {
                if row == model {
                    if before.contains(model) {
                        let k = choose|k: int| 0 <= k < before.len() && before[k] == model;
                        assert(table@[k] == model);
                    } else {
                        assert(table@[before.len() as int] == model);
                    }
                } else {
                    assert(count(seen, row) > 0);
                    let k = choose|k: int| 0 <= k < before.len() && before[k] == row;
                    assert(table@[k] == row);
                }
            }
        }
    }
    assert(all.take(all.len() as int) =~= all);
    counts
}

/// Appends `n` copies of a row.
fn push_copies(out: &mut Vec<Vec<Cell>>, row: &[Cell], n: usize)
    ensures
        forall|r: RowModel| #[trigger]
            count(rows(final(out)@), r) == count(rows(old(out)@), r) + (if r == cells(row@) {
                n as nat
            } else {
                0
            }),
{
    let mut i: usize = 0;
    while i < n
        invariant
            i <= n,
            forall|r: RowModel| #[trigger]
                count(rows(out@), r) == count(rows(old(out)@), r) + (if r == cells(row@) {
                    i as nat
                } else {
                    0
                }),
        decreases n - i,
    {
        let ghost before = rows(out@);
        out.push(clone_row(row));
        proof {
            assert(rows(out@) =~= before.push(cells(row@)));
            assert(rows(out@).drop_last() =~= before);
            assert forall|r: RowModel| #[trigger]
                count(rows(out@), r) == count(rows(old(out)@), r) + (if r == cells(row@) {
                    (i + 1) as nat
                } else {
                    0
                }) by {
                assert(count(before, r) == count(rows(out@).drop_last(), r));
            }
        }
        i = i + 1;
    }
}

/// The rows to insert, and the rows to delete with how many copies of each, that turn a table into
/// what the dump has, where rows are compared as multisets.
pub fn diff_unkeyed(local: Vec<Vec<Cell>>, dump: Vec<Vec<Cell>>) -> (r: (
    Vec<Vec<Cell>>,
    Vec<(Vec<Cell>, u64)>,
))
    ensures
        unkeyed_inserts(rows(local@), rows(dump@), rows(r.0@)),
        unkeyed_deletes(rows(local@), rows(dump@), counted(r.1@)),
        total(counted(r.1@)) <= local@.len(),
        total(counted(r.1@)) <= u64::MAX,
{
    let ghost here = rows(local@);
    let ghost there = rows(dump@);
    let mut table = RowTable::new(local.len());
    let local_counts = count_rows(&mut table, local);
    let ghost known = table@;
    let dump_counts = count_rows(&mut table, dump);
    let n = table.len();
    let mut to_insert: Vec<Vec<Cell>> = Vec::new();
    let mut to_delete: Vec<(Vec<Cell>, u64)> = Vec::new();
    let mut k: usize = 0;
    proof {
        table.lemma_distinct();
        assert(rows(to_insert@) =~= Seq::empty());
        assert(counted(to_delete@) =~= Seq::empty());
        assert(local_counts@.take(0) =~= Seq::<usize>::empty());
        assert forall|j: int| 0 <= j < n implies count(here, #[trigger] table@[j]) == (if j
            < local_counts@.len() {
            local_counts@[j] as nat
        } else {
            0
        }) by {
            if j < local_counts@.len() {
                assert(table@[j] == known[j]);
            } else if count(here, table@[j]) > 0 {
                assert(known.contains(table@[j]));
                let i = choose|i: int| 0 <= i < known.len() && known[i] == table@[j];
                assert(table@[i] == table@[j]);
            }
        }
    }
    while k < n
        invariant
            k <= n,
            n == table@.len(),
            n == dump_counts@.len(),
            local_counts@.len() <= n,
            table@.no_duplicates(),
            forall|j: int|
                0 <= j < n ==> count(here, #[trigger] table@[j]) == (if j < local_counts@.len() {
                    local_counts@[j] as nat
                } else {
                    0
                }),
            forall|j: int| 0 <= j < n ==> #[trigger] dump_counts@[j] == count(there, table@[j]),
            forall|row: RowModel| #[trigger]
                count(rows(to_insert@), row) == (if table@.take(k as int).contains(row) {
                    surplus(there, here, row)
                } else {
                    0
                }),
            forall|i: int, j: int|
                0 <= i < j < to_delete@.len() ==> (#[trigger] counted(to_delete@)[i]).0 != (
                #[trigger] counted(to_delete@)[j]).0,
            forall|row: RowModel, m: u64| #[trigger]
                counted(to_delete@).contains((row, m)) <==> table@.take(k as int).contains(row)
                    && 0 < m && m == surplus(here, there, row),
            total(counted(to_delete@)) <= sum(
                local_counts@.take(
                    if k < local_counts@.len() {
                        k as int
                    } else {
                        local_counts@.len() as int
                    },
                ),
            ),
        decreases n - k,
    {
        let ghost row = table@[k as int];
        let ghost seen = table@.take(k as int);
        let ghost more = table@.take(k + 1);
        let ghost inserted = rows(to_insert@);
        let ghost deleted = counted(to_delete@);
        proof {
            assert(more =~= seen.push(row));
            assert(!seen.contains(row)) by {
                if seen.contains(row) {
                    let j = choose|j: int| 0 <= j < seen.len() && seen[j] == row;
                    assert(table@[j] == table@[k as int]);
                }
            }
            assert forall|r: RowModel| #[trigger] more.contains(r) <==> seen.contains(r) || r
                == row by {
                if seen.contains(r) {
                    let j = choose|j: int| 0 <= j < seen.len() && seen[j] == r;
                    assert(more[j] == r);
                }
                if r == row {
                    assert(more[k as int] == r);
                }
            }
            if k < local_counts@.len() {
                assert(local_counts@.take(k + 1).drop_last() =~= local_counts@.take(k as int));
            }
        }
        let l = if k < local_counts.len() {
            local_counts[k]
        } else {
            0
        };
        let d = dump_counts[k];
        assert(l == count(here, row) && d == count(there, row));
        if d > l {
            push_copies(&mut to_insert, table.row(k).as_slice(), d - l);
            assert(more.contains(row));
        } else if l > d {
            let extra = (l - d) as u64;
            to_delete.push((clone_row(table.row(k).as_slice()), extra));
            proof {
                let now = counted(to_delete@);
                assert(now =~= deleted.push((row, extra)));
                assert(now.drop_last() =~= deleted);
                assert forall|r: RowModel, m: u64| #[trigger]
                    now.contains((r, m)) <==> more.contains(r) && 0 < m && m == surplus(
                        here,
                        there,
                        r,
                    ) by {
                    if now.contains((r, m)) {
                        let j = choose|j: int| 0 <= j < now.len() && now[j] == (r, m);
                        if j < deleted.len() {
                            assert(deleted[j] == (r, m));
                            assert(deleted.contains((r, m)));
                        }
                    }
                    if more.contains(r) && 0 < m && m == surplus(here, there, r) {
                        if seen.contains(r) {
                            assert(deleted.contains((r, m)));
                            let j = choose|j: int| 0 <= j < deleted.len() && deleted[j] == (r, m);
                            assert(now[j] == (r, m));
                        } else {
                            assert(now[deleted.len() as int] == (r, m));
                        }
                    }
                }
                assert forall|i: int, j: int| 0 <= i < j < now.len() implies (#[trigger] now[i]).0
                    != (#[trigger] now[j]).0 by {
                    if j == deleted.len() {
                        assert(now[i] == deleted[i]);
                        assert(deleted.contains((deleted[i].0, deleted[i].1)));
                        assert(seen.contains(deleted[i].0));
                    } else {
                        assert(now[i] == deleted[i] && now[j] == deleted[j]);
                    }
                }
            }
        }
        k = k + 1;
    }
    proof {
        assert(table@.take(n as int) =~= table@);
        assert(local_counts@.take(local_counts@.len() as int) =~= local_counts@);
        assert forall|row: RowModel| #[trigger] count(rows(to_insert@), row) == surplus(
            there,
            here,
            row,
        ) by {
            if surplus(there, here, row) > 0 {
                assert(count(there, row) > 0);
            }
        }
        assert forall|row: RowModel, m: u64| #[trigger]
            counted(to_delete@).contains((row, m)) <==> 0 < m && m == surplus(here, there, row) by {
            if surplus(here, there, row) > 0 {
                assert(count(here, row) > 0);
                assert(known.contains(row));
                let j = choose|j: int| 0 <= j < known.len() && known[j] == row;
                assert(table@[j] == row);
            }
        }
    }
    (to_insert, to_delete)
}

} // verus!
