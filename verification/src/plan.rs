//! What has to change in one table, and how much that is.

use vstd::prelude::*;

use crate::rows::{rows, RowModel};
use crate::values::{cells, Cell};

verus! {

/// How many rows of a table change.
#[derive(Debug, Clone, Copy)]
pub struct TableStats {
    pub inserted: u64,
    pub updated: u64,
    pub deleted: u64,
}

impl Default for TableStats {
    fn default() -> (r: Self)
        ensures
            r == (TableStats { inserted: 0, updated: 0, deleted: 0 }),
    {
        TableStats { inserted: 0, updated: 0, deleted: 0 }
    }
}

/// What has to change in one table, with nothing executed yet.
pub enum TablePlan {
    /// The table was just created empty: every row of the dump is new.
    New { rows: Vec<Vec<Cell>> },
    /// Rows are matched by a key.
    Keyed {
        to_insert: Vec<Vec<Cell>>,
        to_update: Vec<Vec<Cell>>,
        delete_keys: Vec<Vec<Cell>>,
    },
    /// There is no key: rows are compared as a multiset. Each row to delete comes with how many of
    /// its copies go.
    Unkeyed { to_insert: Vec<Vec<Cell>>, to_delete: Vec<(Vec<Cell>, u64)> },
}

/// The content of a plan.
pub enum PlanModel {
    New { rows: Seq<RowModel> },
    Keyed { to_insert: Seq<RowModel>, to_update: Seq<RowModel>, delete_keys: Seq<RowModel> },
    Unkeyed { to_insert: Seq<RowModel>, to_delete: Seq<(RowModel, u64)> },
}

/// The contents of a list of rows with counts.
pub open spec fn counted(v: Seq<(Vec<Cell>, u64)>) -> Seq<(RowModel, u64)> {
    v.map_values(|e: (Vec<Cell>, u64)| (cells(e.0@), e.1))
}

impl View for TablePlan {
    type V = PlanModel;

    open spec fn view(&self) -> PlanModel {
        match self {
            TablePlan::New { rows: r } => PlanModel::New { rows: rows(r@) },
            TablePlan::Keyed { to_insert, to_update, delete_keys } => PlanModel::Keyed {
                to_insert: rows(to_insert@),
                to_update: rows(to_update@),
                delete_keys: rows(delete_keys@),
            },
            TablePlan::Unkeyed { to_insert, to_delete } => PlanModel::Unkeyed {
                to_insert: rows(to_insert@),
                to_delete: counted(to_delete@),
            },
        }
    }
}

/// The sum of the counts.
pub open spec fn total(list: Seq<(RowModel, u64)>) -> nat
    decreases list.len(),
{
    if list.len() == 0 {
        0
    } else {
        total(list.drop_last()) + list.last().1 as nat
    }
}

/// A part of the counts sums up to no more than all of them.
proof fn lemma_total_prefix(list: Seq<(RowModel, u64)>, n: int)
    requires
        0 <= n <= list.len(),
    ensures
        total(list.take(n)) <= total(list),
    decreases list.len() - n,
{
    if n < list.len() {
        lemma_total_prefix(list, n + 1);
        assert(list.take(n + 1).drop_last() =~= list.take(n));
    } else {
        assert(list.take(n) =~= list);
    }
}

impl PlanModel {
    /// The number of rows that are inserted.
    pub open spec fn inserted(self) -> nat {
        match self {
            PlanModel::New { rows } => rows.len(),
            PlanModel::Keyed { to_insert, .. } => to_insert.len(),
            PlanModel::Unkeyed { to_insert, .. } => to_insert.len(),
        }
    }

    /// The number of rows that are updated.
    pub open spec fn updated(self) -> nat {
        match self {
            PlanModel::Keyed { to_update, .. } => to_update.len(),
            _ => 0,
        }
    }

    /// The number of rows that are deleted.
    pub open spec fn deleted(self) -> nat {
        match self {
            PlanModel::New { .. } => 0,
            PlanModel::Keyed { delete_keys, .. } => delete_keys.len(),
            PlanModel::Unkeyed { to_delete, .. } => total(to_delete),
        }
    }

    /// Nothing changes.
    pub open spec fn is_empty(self) -> bool {
        self.inserted() == 0 && self.updated() == 0 && self.deleted() == 0
    }
}

impl TablePlan {
    /// How many rows the plan changes.
    pub fn stats(&self) -> (r: TableStats)
        requires
            self is Unkeyed ==> self@.deleted() <= u64::MAX,
        ensures
            r.inserted == self@.inserted(),
            r.updated == self@.updated(),
            r.deleted == self@.deleted(),
    {
        match self {
            TablePlan::New { rows } => TableStats {
                inserted: rows.len() as u64,
                updated: 0,
                deleted: 0,
            },
            TablePlan::Keyed { to_insert, to_update, delete_keys } => TableStats {
                inserted: to_insert.len() as u64,
                updated: to_update.len() as u64,
                deleted: delete_keys.len() as u64,
            },
            TablePlan::Unkeyed { to_insert, to_delete } => {
                let ghost all = counted(to_delete@);
                let mut deleted: u64 = 0;
                let mut i: usize = 0;
                assert(all.take(0) =~= Seq::empty());
                while i < to_delete.len()
                    invariant
                        i <= to_delete@.len(),
                        all == counted(to_delete@),
                        total(all) <= u64::MAX,
                        deleted == total(all.take(i as int)),
                    decreases to_delete@.len() - i,
                {
                    proof {
                        lemma_total_prefix(all, i + 1);
                        assert(all.take(i + 1).drop_last() =~= all.take(i as int));
                    }
                    deleted = deleted + to_delete[i].1;
                    i = i + 1;
                }
                assert(all.take(i as int) =~= all);
                TableStats { inserted: to_insert.len() as u64, updated: 0, deleted }
            },
        }
    }
}

} // verus!
