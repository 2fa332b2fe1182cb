//! The course of a run: which transactions there are, when one is committed or rolled back, and what
//! is reported. The database work itself is done by the caller, which performs the actions that a
//! run asks for and tells it what became of them.

use vstd::prelude::*;
use vstd::seq_lib::group_to_multiset_ensures;
use vstd::string::StringExecFns;

use crate::plan::TableStats;
use crate::sqltext::{decimal_text, push_decimal};

verus! {

/// What a run waits for.
#[derive(Debug, Clone, Copy)]
pub enum Phase {
    /// A transaction is being opened.
    Opening,
    /// A transaction is open, and the plan of a table is awaited.
    Open,
    /// The plan of a table is being applied.
    Applying,
    /// The transaction is being committed or rolled back.
    Ending,
    /// All transactions have ended.
    Finished,
    /// Something failed. The open transaction, if any, is not committed.
    Failed,
}

/// What happened.
#[derive(Debug, Clone, Copy)]
pub enum Event {
    /// The transaction is open.
    Opened,
    /// The plan of one table is there, with how many rows it changes.
    Planned(TableStats),
    /// The plan is applied.
    Applied,
    /// There are no further plans for this transaction.
    AllPlanned,
    /// The transaction is committed or rolled back, as was asked for.
    Ended,
    /// What was asked for failed.
    Broken,
}

/// What is to be done next.
#[derive(Debug, Clone, Copy)]
pub enum Action {
    /// Open a transaction for the tables from `first` up to, but not including, `last`, and compute
    /// their plans.
    Begin { first: usize, last: usize },
    /// Wait for the next plan.
    AwaitPlan,
    /// Apply the plan.
    Apply,
    /// Commit the transaction.
    Commit,
    /// Roll the transaction back.
    Rollback,
    /// Report success.
    Finish,
    /// Give up: drop the open transaction without committing it, and report the failure.
    Abort,
}

/// The state of a run over a number of tables.
#[derive(Debug, Clone, Copy)]
pub struct SyncRun {
    /// The number of tables.
    pub tables: usize,
    /// The number of tables per transaction.
    pub chunk_size: usize,
    /// Nothing is applied or committed.
    pub dry_run: bool,
    pub phase: Phase,
    /// The first table of the current transaction. The transactions of all tables ahead have ended.
    pub first: usize,
    /// The table behind the last one of the current transaction.
    pub last: usize,
    /// The number of tables that are done.
    pub completed: usize,
    /// The rows that changed in those tables.
    pub totals: TableStats,
    /// The rows that change in the table whose plan is being applied.
    pub pending: TableStats,
}

/// The sum of two counts.
pub open spec fn sum_of(a: TableStats, b: TableStats) -> TableStats {
    TableStats {
        inserted: (a.inserted + b.inserted) as u64,
        updated: (a.updated + b.updated) as u64,
        deleted: (a.deleted + b.deleted) as u64,
    }
}

/// The sum of two counts fits into 64 bits.
pub open spec fn sum_fits(a: TableStats, b: TableStats) -> bool {
    &&& a.inserted + b.inserted <= u64::MAX
    &&& a.updated + b.updated <= u64::MAX
    &&& a.deleted + b.deleted <= u64::MAX
}

/// Adds up counts.
pub fn add_stats(a: TableStats, b: TableStats) -> (r: TableStats)
    requires
        sum_fits(a, b),
    ensures
        r == sum_of(a, b),
{
    TableStats {
        inserted: a.inserted + b.inserted,
        updated: a.updated + b.updated,
        deleted: a.deleted + b.deleted,
    }
}

/// Whether counts can be added up.
pub fn stats_fit(a: TableStats, b: TableStats) -> (r: bool)
    ensures
        r == sum_fits(a, b),
{
    b.inserted <= u64::MAX - a.inserted && b.updated <= u64::MAX - a.updated && b.deleted
        <= u64::MAX - a.deleted
}

/// The number of tables per transaction: all of them in one where no number is given.
pub open spec fn tables_per_transaction(tables: nat, tables_per_commit: nat) -> nat {
    if tables_per_commit > 0 {
        tables_per_commit
    } else if tables > 0 {
        tables
    } else {
        1
    }
}

/// The end of a transaction that starts with table `first`.
pub open spec fn chunk_end(tables: usize, chunk_size: usize, first: usize) -> usize {
    if first + chunk_size < tables {
        (first + chunk_size) as usize
    } else {
        tables
    }
}

impl SyncRun {
    /// The parts of the state fit together.
    pub open spec fn wf(self) -> bool {
        &&& self.chunk_size >= 1
        &&& self.first <= self.last <= self.tables
        &&& match self.phase {
            Phase::Opening | Phase::Open | Phase::Applying | Phase::Ending => {
                &&& self.first < self.last
                &&& self.last == chunk_end(self.tables, self.chunk_size, self.first)
            },
            Phase::Finished => self.first == self.tables && self.completed == self.tables,
            Phase::Failed => true,
        }
        &&& self.phase is Opening ==> self.completed == self.first
        &&& self.phase is Ending ==> self.completed == self.last
        &&& self.phase is Applying ==> self.has_room(self.pending)
    }

    /// One more table with the given changes can be counted.
    pub open spec fn has_room(self, stats: TableStats) -> bool {
        sum_fits(self.totals, stats) && self.completed < usize::MAX
    }

    /// The event can be counted.
    pub open spec fn countable(self, event: Event) -> bool {
        event matches Event::Planned(stats) ==> self.has_room(stats)
    }

    /// The first state of a run.
    pub open spec fn initial(tables: usize, tables_per_commit: usize, dry_run: bool) -> SyncRun {
        let chunk_size = tables_per_transaction(tables as nat, tables_per_commit as nat) as usize;
        let zero = TableStats { inserted: 0, updated: 0, deleted: 0 };
        SyncRun {
            tables,
            chunk_size,
            dry_run,
            phase: if tables > 0 {
                Phase::Opening
            } else {
                Phase::Finished
            },
            first: 0,
            last: if tables > 0 {
                chunk_end(tables, chunk_size, 0)
            } else {
                0
            },
            completed: 0,
            totals: zero,
            pending: zero,
        }
    }

    /// What a run asks for in a state.
    pub open spec fn action(self) -> Action {
        match self.phase {
            Phase::Opening => Action::Begin { first: self.first, last: self.last },
            Phase::Open => Action::AwaitPlan,
            Phase::Applying => Action::Apply,
            Phase::Ending => if self.dry_run {
                Action::Rollback
            } else {
                Action::Commit
            },
            Phase::Finished => Action::Finish,
            Phase::Failed => Action::Abort,
        }
    }

    /// The state with one more table done.
    pub open spec fn counted(self, stats: TableStats) -> SyncRun {
        SyncRun {
            phase: Phase::Open,
            completed: (self.completed + 1) as usize,
            totals: sum_of(self.totals, stats),
            ..self
        }
    }

    /// The state after an event. One that does not fit the state is a failure, and nothing changes
    /// the outcome of a run that has one. In particular there is no end of plans before every table
    /// of the transaction, and every table ahead of it, is done.
    pub open spec fn after(self, event: Event) -> SyncRun {
        match (self.phase, event) {
            (Phase::Finished, _) => self,
            (Phase::Opening, Event::Opened) => SyncRun { phase: Phase::Open, ..self },
            (Phase::Open, Event::Planned(stats)) => if self.dry_run {
                self.counted(stats)
            } else {
                SyncRun { phase: Phase::Applying, pending: stats, ..self }
            },
            (Phase::Applying, Event::Applied) => self.counted(self.pending),
            (Phase::Open, Event::AllPlanned) => if self.completed == self.last {
                SyncRun { phase: Phase::Ending, ..self }
            } else {
                SyncRun { phase: Phase::Failed, ..self }
            },
            (Phase::Ending, Event::Ended) => if self.last < self.tables {
                SyncRun {
                    phase: Phase::Opening,
                    first: self.last,
                    last: chunk_end(self.tables, self.chunk_size, self.last),
                    ..self
                }
            } else {
                SyncRun { phase: Phase::Finished, first: self.last, ..self }
            },
            _ => SyncRun { phase: Phase::Failed, ..self },
        }
    }

    /// Starts a run: says with `action` what to do first.
    pub fn new(tables: usize, tables_per_commit: usize, dry_run: bool) -> (r: SyncRun)
        ensures
            r == Self::initial(tables, tables_per_commit, dry_run),
            r.wf(),
    {
        let chunk_size = if tables_per_commit > 0 {
            tables_per_commit
        } else if tables > 0 {
            tables
        } else {
            1
        };
        let zero = TableStats { inserted: 0, updated: 0, deleted: 0 };
        SyncRun {
            tables,
            chunk_size,
            dry_run,
            phase: if tables > 0 {
                Phase::Opening
            } else {
                Phase::Finished
            },
            first: 0,
            last: if tables > 0 {
                find_chunk_end(tables, chunk_size, 0)
            } else {
                0
            },
            completed: 0,
            totals: zero,
            pending: zero,
        }
    }

    /// What is to be done next.
    pub fn next_action(&self) -> (r: Action)
        ensures
            r == self.action(),
    {
        match self.phase {
            Phase::Opening => Action::Begin { first: self.first, last: self.last },
            Phase::Open => Action::AwaitPlan,
            Phase::Applying => Action::Apply,
            Phase::Ending => if self.dry_run {
                Action::Rollback
            } else {
                Action::Commit
            },
            Phase::Finished => Action::Finish,
            Phase::Failed => Action::Abort,
        }
    }

    /// Whether an event can be counted.
    pub fn can_count(&self, event: Event) -> (r: bool)
        ensures
            r == self.countable(event),
    {
        match event {
            Event::Planned(stats) => stats_fit(self.totals, stats) && self.completed < usize::MAX,
            _ => true,
        }
    }

    /// Goes on after an event, and says what is to be done next.
    pub fn step(&mut self, event: Event) -> (r: Action)
        requires
            old(self).wf(),
            old(self).countable(event),
        ensures
            *final(self) == old(self).after(event),
            r == final(self).action(),
            final(self).wf(),
    {
        match (self.phase, event) {
            (Phase::Finished, _) => {},
            (Phase::Opening, Event::Opened) => {
                self.phase = Phase::Open;
            },
            (Phase::Open, Event::Planned(stats)) => {
                if self.dry_run {
                    self.completed = self.completed + 1;
                    self.totals = add_stats(self.totals, stats);
                } else {
                    self.phase = Phase::Applying;
                    self.pending = stats;
                }
            },
            (Phase::Applying, Event::Applied) => {
                self.phase = Phase::Open;
                self.completed = self.completed + 1;
                self.totals = add_stats(self.totals, self.pending);
            },
            (Phase::Open, Event::AllPlanned) => {
                if self.completed == self.last {
                    self.phase = Phase::Ending;
                } else {
                    self.phase = Phase::Failed;
                }
            },
            (Phase::Ending, Event::Ended) => {
                self.first = self.last;
                if self.last < self.tables {
                    self.phase = Phase::Opening;
                    self.last = find_chunk_end(self.tables, self.chunk_size, self.first);
                } else {
                    self.phase = Phase::Finished;
                }
            },
            _ => {
                self.phase = Phase::Failed;
            },
        }
        self.next_action()
    }
}

/// The end of a transaction that starts with table `first`.
fn find_chunk_end(tables: usize, chunk_size: usize, first: usize) -> (r: usize)
    requires
        first <= tables,
    ensures
        r == chunk_end(tables, chunk_size, first),
{
    if chunk_size < tables - first {
        first + chunk_size
    } else {
        tables
    }
}

/// The state of a run after a course of events.
pub open spec fn run_after(start: SyncRun, events: Seq<Event>) -> SyncRun
    decreases events.len(),
{
    if events.len() == 0 {
        start
    } else {
        run_after(start, events.drop_last()).after(events.last())
    }
}

/// The number of transactions that were committed: those whose commit was asked for and done.
pub open spec fn commits(start: SyncRun, events: Seq<Event>) -> nat
    decreases events.len(),
{
    if events.len() == 0 {
        0
    } else {
        let before = run_after(start, events.drop_last());
        commits(start, events.drop_last()) + (if before.action() is Commit && events.last()
            is Ended {
            1nat
        } else {
            0nat
        })
    }
}

/// What stays as it is, and what every state of a run satisfies.
proof fn lemma_run(tables: usize, tables_per_commit: usize, dry_run: bool, events: Seq<Event>)
    ensures
        ({
            let start = SyncRun::initial(tables, tables_per_commit, dry_run);
            let s = run_after(start, events);
            let n = commits(start, events);
            &&& s.tables == tables
            &&& s.chunk_size == start.chunk_size
            &&& s.dry_run == dry_run
            &&& s.chunk_size >= 1
            &&& s.first <= s.last <= s.tables
            &&& match s.phase {
                Phase::Opening | Phase::Open | Phase::Applying | Phase::Ending => {
                    &&& s.first < s.last
                    &&& s.last == chunk_end(s.tables, s.chunk_size, s.first)
                },
                Phase::Finished => s.first == s.tables && s.completed == s.tables,
                Phase::Failed => s.first < s.last,
            }
            &&& s.phase is Opening ==> s.completed == s.first
            &&& s.phase is Ending ==> s.completed == s.last
            &&& dry_run ==> !(s.phase is Applying) && n == 0
            &&& !dry_run && !(s.phase is Finished) ==> s.first == n * s.chunk_size
            &&& !dry_run && s.phase is Finished && tables > 0 ==> n >= 1 && (n - 1)
                * s.chunk_size < tables <= n * s.chunk_size
        }),
    decreases events.len(),
{
    let start = SyncRun::initial(tables, tables_per_commit, dry_run);
    if events.len() == 0 {
        assert(0 * start.chunk_size == 0) by (nonlinear_arith);
    } else {
        lemma_run(tables, tables_per_commit, dry_run, events.drop_last());
        let before = run_after(start, events.drop_last());
        let n = commits(start, events.drop_last());
        let c = start.chunk_size as int;
        assert((n + 1) * c == n * c + c) by (nonlinear_arith);
        assert((n + 1 - 1) * c == n * c);
    }
}

/// A commit is asked for only when every table of the transaction, and every table ahead of it, is
/// done, and a run finishes only when all tables are.
pub proof fn nothing_is_committed_before_it_is_complete(
    tables: usize,
    tables_per_commit: usize,
    dry_run: bool,
    events: Seq<Event>,
)
    ensures
        ({
            let s = run_after(SyncRun::initial(tables, tables_per_commit, dry_run), events);
            &&& s.action() is Commit ==> s.completed == s.last
            &&& s.action() is Rollback ==> s.completed == s.last
            &&& s.phase is Finished ==> s.completed == tables
        }),
{
    lemma_run(tables, tables_per_commit, dry_run, events);
}

/// A run with a single transaction does all or nothing: one that has not finished, because it is
/// under way or because something failed, has committed nothing; a commit is asked for only when all
/// tables are done; and one that has finished has all tables done and has committed exactly once.
pub proof fn single_transaction_is_all_or_nothing(tables: usize, events: Seq<Event>)
    ensures
        ({
            let start = SyncRun::initial(tables, 0, false);
            let s = run_after(start, events);
            &&& !(s.phase is Finished) ==> commits(start, events) == 0
            &&& s.action() is Commit ==> s.completed == tables
            &&& s.phase is Finished ==> s.completed == tables
            &&& s.phase is Finished && tables > 0 ==> commits(start, events) == 1
        }),
{
    lemma_run(tables, 0, false, events);
    let start = SyncRun::initial(tables, 0, false);
    let s = run_after(start, events);
    let n = commits(start, events) as int;
    let c = s.chunk_size as int;
    if tables > 0 {
        assert(c == tables);
        if s.phase is Finished {
            if n >= 2 {
                assert((n - 1) * c >= c) by (nonlinear_arith)
                    requires
                        n >= 2,
                        c >= 1,
                ;
            }
        } else if n >= 1 {
            assert(n * c >= c) by (nonlinear_arith)
                requires
                    n >= 1,
                    c >= 1,
            ;
        }
    } else {
        lemma_no_tables(events);
    }
}

/// A run over no tables has nothing to do.
proof fn lemma_no_tables(events: Seq<Event>)
    ensures
        run_after(SyncRun::initial(0, 0, false), events).phase is Finished,
    decreases events.len(),
{
    if events.len() > 0 {
        lemma_no_tables(events.drop_last());
    }
}

/// With a number of tables per transaction, a run that fails leaves exactly the transactions that
/// had ended committed: the tables ahead of the current transaction, and no others.
pub proof fn failure_keeps_only_whole_transactions(
    tables: usize,
    tables_per_commit: usize,
    events: Seq<Event>,
)
    requires
        tables_per_commit > 0,
        run_after(SyncRun::initial(tables, tables_per_commit, false), events).phase is Failed,
    ensures
        ({
            let start = SyncRun::initial(tables, tables_per_commit, false);
            let s = run_after(start, events);
            s.first == commits(start, events) * tables_per_commit && s.first < tables
        }),
{
    lemma_run(tables, tables_per_commit, false, events);
}

/// A dry run neither applies nor commits anything.
pub proof fn dry_runs_change_nothing(tables: usize, tables_per_commit: usize, events: Seq<Event>)
    ensures
        ({
            let start = SyncRun::initial(tables, tables_per_commit, true);
            let asked = run_after(start, events).action();
            &&& !(asked is Apply)
            &&& !(asked is Commit)
            &&& commits(start, events) == 0
        }),
{
    lemma_run(tables, tables_per_commit, true, events);
}

/// A failure is final: whatever happens afterwards, the run asks for nothing but to give up, and
/// nothing is committed any more.
pub proof fn failure_is_final(start: SyncRun, events: Seq<Event>, more: Seq<Event>)
    requires
        run_after(start, events).phase is Failed,
    ensures
        run_after(start, events + more) == run_after(start, events),
        run_after(start, events + more).action() is Abort,
        commits(start, events + more) == commits(start, events),
    decreases more.len(),
{
    if more.len() == 0 {
        assert(events + more =~= events);
    } else {
        failure_is_final(start, events, more.drop_last());
        assert((events + more).drop_last() =~= events + more.drop_last());
        assert((events + more).last() == more.last());
    }
}

/// A failure of whatever was asked for ends a run that is under way.
pub proof fn failures_end_the_run(start: SyncRun, events: Seq<Event>)
    requires
        !(run_after(start, events).phase is Finished),
    ensures
        run_after(start, events.push(Event::Broken)).phase is Failed,
{
    assert(events.push(Event::Broken).drop_last() =~= events);
}

/// Every table gets its turn: transactions start where the last one ended, hold at least one table
/// and no more than asked for, and the run finishes only behind the last table.
pub proof fn transactions_cover_all_tables(
    tables: usize,
    tables_per_commit: usize,
    dry_run: bool,
    events: Seq<Event>,
)
    ensures
        ({
            let start = SyncRun::initial(tables, tables_per_commit, dry_run);
            let s = run_after(start, events);
            &&& s.action() matches Action::Begin { first, last } ==> {
                &&& first == s.first
                &&& first < last <= tables
                &&& last - first <= tables_per_transaction(tables as nat, tables_per_commit as nat)
            }
            &&& s.action() is Finish ==> s.first == tables
            &&& s.after(Event::Ended).phase is Opening ==> s.after(Event::Ended).first == s.last
        }),
{
    lemma_run(tables, tables_per_commit, dry_run, events);
}

/// Counts without a bound.
pub struct Totals {
    pub inserted: nat,
    pub updated: nat,
    pub deleted: nat,
}

/// The sums of a list of counts.
pub open spec fn totals_of(list: Seq<TableStats>) -> Totals
    decreases list.len(),
{
    if list.len() == 0 {
        Totals { inserted: 0, updated: 0, deleted: 0 }
    } else {
        let before = totals_of(list.drop_last());
        Totals {
            inserted: before.inserted + list.last().inserted as nat,
            updated: before.updated + list.last().updated as nat,
            deleted: before.deleted + list.last().deleted as nat,
        }
    }
}

/// Counts are those sums.
pub open spec fn amount_to(stats: TableStats, totals: Totals) -> bool {
    &&& stats.inserted == totals.inserted
    &&& stats.updated == totals.updated
    &&& stats.deleted == totals.deleted
}

/// The plans that a run has carried out, or, in a dry run, would have.
pub open spec fn reported(start: SyncRun, events: Seq<Event>) -> Seq<TableStats>
    decreases events.len(),
{
    if events.len() == 0 {
        Seq::empty()
    } else {
        let done = reported(start, events.drop_last());
        let before = run_after(start, events.drop_last());
        match (before.phase, events.last()) {
            (Phase::Open, Event::Planned(stats)) => if before.dry_run {
                done.push(stats)
            } else {
                done
            },
            (Phase::Applying, Event::Applied) => done.push(before.pending),
            _ => done,
        }
    }
}

/// Every event can be counted when it comes.
pub open spec fn all_countable(start: SyncRun, events: Seq<Event>) -> bool
    decreases events.len(),
{
    events.len() > 0 ==> {
        &&& all_countable(start, events.drop_last())
        &&& run_after(start, events.drop_last()).countable(events.last())
    }
}

/// What a run reports is what it did: at any time the number of tables done is the number of plans
/// carried out, and the totals are the sums of their counts.
pub proof fn totals_are_those_of_the_plans(
    tables: usize,
    tables_per_commit: usize,
    dry_run: bool,
    events: Seq<Event>,
)
    requires
        all_countable(SyncRun::initial(tables, tables_per_commit, dry_run), events),
    ensures
        ({
            let start = SyncRun::initial(tables, tables_per_commit, dry_run);
            let s = run_after(start, events);
            &&& s.completed == reported(start, events).len()
            &&& amount_to(s.totals, totals_of(reported(start, events)))
            &&& s.phase is Applying ==> s.has_room(s.pending)
        }),
    decreases events.len(),
{
    let start = SyncRun::initial(tables, tables_per_commit, dry_run);
    if events.len() > 0 {
        totals_are_those_of_the_plans(tables, tables_per_commit, dry_run, events.drop_last());
        let done = reported(start, events.drop_last());
        let list = reported(start, events);
        if list.len() > done.len() {
            assert(list.drop_last() =~= done);
        }
    }
}

/// What happens with the plans of one transaction when nothing fails: each one comes, and is applied
/// unless it is a dry run.
pub open spec fn plan_events(list: Seq<TableStats>, dry_run: bool) -> Seq<Event>
    decreases list.len(),
{
    if list.len() == 0 {
        Seq::empty()
    } else {
        let before = plan_events(list.drop_last(), dry_run).push(Event::Planned(list.last()));
        if dry_run {
            before
        } else {
            before.push(Event::Applied)
        }
    }
}

/// The course of a run from table `first` on when nothing fails and the plans of the tables come in
/// the given order.
pub open spec fn smooth_course(
    plans: Seq<TableStats>,
    chunk_size: usize,
    dry_run: bool,
    first: usize,
) -> Seq<Event>
    decreases plans.len() - first,
{
    let last = chunk_end(plans.len() as usize, chunk_size, first);
    if first >= plans.len() || plans.len() > usize::MAX || chunk_size == 0 {
        Seq::empty()
    } else {
        seq![Event::Opened] + plan_events(plans.subrange(first as int, last as int), dry_run)
            + seq![Event::AllPlanned, Event::Ended] + smooth_course(
            plans,
            chunk_size,
            dry_run,
            last,
        )
    }
}

/// A course of events after another.
proof fn lemma_run_concat(start: SyncRun, a: Seq<Event>, b: Seq<Event>)
    ensures
        run_after(start, a + b) == run_after(run_after(start, a), b),
    decreases b.len(),
{
    if b.len() > 0 {
        assert((a + b).drop_last() =~= a + b.drop_last());
        lemma_run_concat(start, a, b.drop_last());
    } else {
        assert(a + b =~= a);
    }
}

/// The sums of two lists together.
proof fn lemma_totals_concat(a: Seq<TableStats>, b: Seq<TableStats>)
    ensures
        totals_of(a + b).inserted == totals_of(a).inserted + totals_of(b).inserted,
        totals_of(a + b).updated == totals_of(a).updated + totals_of(b).updated,
        totals_of(a + b).deleted == totals_of(a).deleted + totals_of(b).deleted,
    decreases b.len(),
{
    if b.len() > 0 {
        assert((a + b).drop_last() =~= a + b.drop_last());
        lemma_totals_concat(a, b.drop_last());
    } else {
        assert(a + b =~= a);
    }
}

/// The sums fit into 64 bits.
pub open spec fn totals_fit(totals: Totals) -> bool {
    &&& totals.inserted <= u64::MAX
    &&& totals.updated <= u64::MAX
    &&& totals.deleted <= u64::MAX
}

/// The plans of one transaction, when nothing fails.
proof fn lemma_plan_events(s: SyncRun, done: Seq<TableStats>, list: Seq<TableStats>)
    requires
        s.phase is Open,
        s.completed == done.len(),
        amount_to(s.totals, totals_of(done)),
        totals_fit(totals_of(done + list)),
        done.len() + list.len() <= usize::MAX,
    ensures
        ({
            let after = run_after(s, plan_events(list, s.dry_run));
            &&& after.phase is Open
            &&& after.completed == done.len() + list.len()
            &&& amount_to(after.totals, totals_of(done + list))
            &&& after.tables == s.tables
            &&& after.chunk_size == s.chunk_size
            &&& after.dry_run == s.dry_run
            &&& after.first == s.first
            &&& after.last == s.last
        }),
    decreases list.len(),
{
    if list.len() == 0 {
        assert(done + list =~= done);
    } else {
        let less = list.drop_last();
        assert((done + list).drop_last() =~= done + less);
        lemma_plan_events(s, done, less);
        let events = plan_events(less, s.dry_run);
        let planned = events.push(Event::Planned(list.last()));
        let middle = run_after(s, events);
        assert(planned.drop_last() =~= events);
        assert(run_after(s, planned) == middle.after(Event::Planned(list.last())));
        assert(planned.push(Event::Applied).drop_last() =~= planned);
        assert(run_after(s, planned.push(Event::Applied)) == run_after(s, planned).after(
            Event::Applied,
        ));
        assert((done + list).last() == list.last());
    }
}

/// One event is one step.
proof fn lemma_one_event(s: SyncRun, event: Event)
    ensures
        run_after(s, seq![event]) == s.after(event),
{
    let a = seq![event];
    assert(a.drop_last() =~= Seq::empty());
    assert(run_after(s, a.drop_last()) == s);
}

/// Two events are two steps.
proof fn lemma_two_events(s: SyncRun, one: Event, two: Event)
    ensures
        run_after(s, seq![one, two]) == s.after(one).after(two),
{
    let c = seq![one, two];
    assert(c.drop_last() =~= seq![one]);
    lemma_one_event(s, one);
    assert(run_after(s, c) == run_after(s, c.drop_last()).after(two));
}

/// One transaction after another, when nothing fails.
proof fn lemma_smooth_course(s: SyncRun, plans: Seq<TableStats>)
    requires
        plans.len() == s.tables,
        s.chunk_size >= 1,
        s.first <= s.tables,
        s.completed == s.first,
        amount_to(s.totals, totals_of(plans.take(s.first as int))),
        totals_fit(totals_of(plans)),
        if s.first < s.tables {
            s.phase is Opening && s.last == chunk_end(s.tables, s.chunk_size, s.first)
        } else {
            s.phase is Finished
        },
    ensures
        ({
            let after = run_after(s, smooth_course(plans, s.chunk_size, s.dry_run, s.first));
            &&& after.phase is Finished
            &&& after.completed == s.tables
            &&& amount_to(after.totals, totals_of(plans))
        }),
    decreases s.tables - s.first,
{
    if s.first < s.tables {
        let first = s.first as int;
        let last = s.last as int;
        let list = plans.subrange(first, last);
        let done = plans.take(first);
        let rest = smooth_course(plans, s.chunk_size, s.dry_run, s.last);
        let opened = s.after(Event::Opened);
        assert(done + list =~= plans.take(last));
        assert(plans.take(last) + plans.skip(last) =~= plans);
        lemma_totals_concat(plans.take(last), plans.skip(last));
        lemma_plan_events(opened, done, list);
        let a = seq![Event::Opened];
        let b = plan_events(list, s.dry_run);
        let c = seq![Event::AllPlanned, Event::Ended];
        lemma_one_event(s, Event::Opened);
        lemma_run_concat(s, a, b);
        lemma_run_concat(s, a + b, c);
        lemma_run_concat(s, a + b + c, rest);
        let middle = run_after(opened, b);
        let next = middle.after(Event::AllPlanned).after(Event::Ended);
        lemma_two_events(middle, Event::AllPlanned, Event::Ended);
        assert(run_after(s, a + b + c) == next);
        lemma_smooth_course(next, plans);
    } else {
        assert(plans.take(s.first as int) =~= plans);
    }
}

/// A run in which nothing fails finishes with every table done, and reports the sums of the counts of
/// all plans. A dry run reports exactly the same as a real one, whatever the number of tables per
/// transaction.
pub proof fn dry_runs_report_what_real_ones_do(plans: Seq<TableStats>, tables_per_commit: usize)
    requires
        plans.len() <= usize::MAX,
        totals_fit(totals_of(plans)),
    ensures
        ({
            let tables = plans.len() as usize;
            let wet = SyncRun::initial(tables, tables_per_commit, false);
            let dry = SyncRun::initial(tables, tables_per_commit, true);
            let done = run_after(wet, smooth_course(plans, wet.chunk_size, false, 0));
            let tried = run_after(dry, smooth_course(plans, dry.chunk_size, true, 0));
            &&& done.phase is Finished
            &&& tried.phase is Finished
            &&& done.completed == tables
            &&& tried.completed == tables
            &&& amount_to(done.totals, totals_of(plans))
            &&& amount_to(tried.totals, totals_of(plans))
            &&& tried.totals == done.totals
        }),
{
    let tables = plans.len() as usize;
    assert(plans.take(0) =~= Seq::empty());
    lemma_smooth_course(SyncRun::initial(tables, tables_per_commit, false), plans);
    lemma_smooth_course(SyncRun::initial(tables, tables_per_commit, true), plans);
}

/// One plan taken out of a list takes its counts out of the sums.
proof fn lemma_totals_remove(list: Seq<TableStats>, i: int)
    requires
        0 <= i < list.len(),
    ensures
        totals_of(list).inserted == totals_of(list.remove(i)).inserted + list[i].inserted,
        totals_of(list).updated == totals_of(list.remove(i)).updated + list[i].updated,
        totals_of(list).deleted == totals_of(list.remove(i)).deleted + list[i].deleted,
{
    let a = list.take(i);
    let b = seq![list[i]];
    let c = list.skip(i + 1);
    assert(list =~= a + b + c);
    assert(list.remove(i) =~= a + c);
    lemma_totals_concat(a + b, c);
    lemma_totals_concat(a, b);
    lemma_totals_concat(a, c);
    assert(b.drop_last() =~= Seq::empty());
    assert(totals_of(b.drop_last()) == (Totals { inserted: 0, updated: 0, deleted: 0 }));
}

/// The sums do not depend on the order in which the plans of the tables come, and so not on how many
/// workers compute them.
pub proof fn totals_do_not_depend_on_order(a: Seq<TableStats>, b: Seq<TableStats>)
    requires
        a.to_multiset() == b.to_multiset(),
    ensures
        totals_of(a) == totals_of(b),
    decreases a.len(),
{
    broadcast use group_to_multiset_ensures;

    assert(a.len() == a.to_multiset().len());
    assert(b.len() == b.to_multiset().len());
    if a.len() > 0 {
        let x = a.last();
        assert(a[a.len() - 1] == x);
        assert(a.contains(x));
        assert(b.to_multiset().count(x) > 0);
        let i = choose|i: int| 0 <= i < b.len() && b[i] == x;
        lemma_totals_remove(b, i);
        lemma_totals_remove(a, a.len() - 1);
        assert(a.remove(a.len() - 1).to_multiset() =~= b.remove(i).to_multiset());
        totals_do_not_depend_on_order(a.remove(a.len() - 1), b.remove(i));
    }
}

/// A number, or one where it is zero.
pub open spec fn at_least_one(n: usize) -> usize {
    if n > 1 {
        n
    } else {
        1
    }
}

/// The number of worker threads: as many as asked for, but no more than there are tables, and at
/// least one.
pub fn worker_count(jobs: usize, tables: usize) -> (r: usize)
    ensures
        r == (if at_least_one(jobs) < at_least_one(tables) {
            at_least_one(jobs)
        } else {
            at_least_one(tables)
        }),
        r >= 1,
        jobs >= 1 ==> r <= jobs,
        tables >= 1 ==> r <= tables,
        r == 1 || r == jobs || r == tables,
{
    let wanted = if jobs > 1 {
        jobs
    } else {
        1
    };
    let most = if tables > 1 {
        tables
    } else {
        1
    };
    if wanted < most {
        wanted
    } else {
        most
    }
}

/// The number of worker threads where none is asked for: the number of cores, or four where that is
/// not known, and no more than eight.
pub fn default_jobs(cores: Option<usize>) -> (r: usize)
    ensures
        r == (match cores {
            Some(n) => if n < 8 {
                n
            } else {
                8
            },
            None => 4,
        }),
        r <= 8,
        cores matches Some(n) ==> r <= n && (n <= 8 ==> r == n) && (n > 8 ==> r == 8),
{
    match cores {
        Some(n) => if n < 8 {
            n
        } else {
            8
        },
        None => 4,
    }
}

/// The line that reports one table: how many tables are done, and how many rows of this one were
/// inserted, updated and deleted, or that none was.
pub open spec fn progress_text(
    completed: nat,
    total: nat,
    table: Seq<char>,
    stats: TableStats,
) -> Seq<char> {
    let head = "  ["@ + decimal_text(completed) + "/"@ + decimal_text(total) + "] "@ + table;
    if stats.inserted > 0 || stats.updated > 0 || stats.deleted > 0 {
        head + ": +"@ + decimal_text(stats.inserted as nat) + " ~"@ + decimal_text(
            stats.updated as nat,
        ) + " -"@ + decimal_text(stats.deleted as nat)
    } else {
        head + ": unchanged"@
    }
}

/// The line that reports one table.
pub fn progress_line(completed: usize, total: usize, table: &str, stats: &TableStats) -> (r: String)
    ensures
        r@ == progress_text(completed as nat, total as nat, table@, *stats),
{
    let mut line = String::new();
    line.append("  [");
    push_decimal(&mut line, completed as u64);
    line.append("/");
    push_decimal(&mut line, total as u64);
    line.append("] ");
    line.append(table);
    if stats.inserted > 0 || stats.updated > 0 || stats.deleted > 0 {
        line.append(": +");
        push_decimal(&mut line, stats.inserted);
        line.append(" ~");
        push_decimal(&mut line, stats.updated);
        line.append(" -");
        push_decimal(&mut line, stats.deleted);
    } else {
        line.append(": unchanged");
    }
    assert(line@ =~= progress_text(completed as nat, total as nat, table@, *stats));
    line
}

} // verus!
