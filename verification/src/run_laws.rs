//! How a run answers to events, and what its totals are.

use vstd::prelude::*;

use crate::plan::TableStats;
use crate::run::{at_least_one, progress_text, totals_of, Action, Event, Phase, SyncRun};
use crate::sqltext::{decimal_text, decimal_text_reads_back};
use crate::text::is_decimal;

verus! {

/// The event is an answer to what was asked for.
pub open spec fn answers(event: Event, asked: Action) -> bool {
    match asked {
        Action::Begin { .. } => event is Opened,
        Action::AwaitPlan => event is Planned || event is AllPlanned,
        Action::Apply => event is Applied,
        Action::Commit => event is Ended,
        Action::Rollback => event is Ended,
        _ => false,
    }
}

/// An event that is no answer to what was asked for makes the run fail where it stands, unless it has
/// finished already. So does the end of the plans while a table of the transaction is not done.
pub proof fn events_that_do_not_fit_are_failures(s: SyncRun, event: Event)
    requires
        !(s.action() is Finish),
        !answers(event, s.action()) || event is AllPlanned && s.completed != s.last,
    ensures
        s.after(event) == (SyncRun { phase: Phase::Failed, ..s }),
        s.after(event).action() is Abort,
{
}

/// What a run asks for next after each answer. A plan is applied before the table counts as done, except
/// in a dry run; a dry run ends its transactions by taking everything back.
pub proof fn answers_lead_on(s: SyncRun, stats: TableStats)
    ensures
        s.action() is Begin ==> s.after(Event::Opened).action() is AwaitPlan,
        s.action() is AwaitPlan && s.dry_run ==> s.after(Event::Planned(stats)).action()
            is AwaitPlan && s.after(Event::Planned(stats)).completed == (s.completed + 1) as usize,
        s.action() is AwaitPlan && !s.dry_run ==> s.after(Event::Planned(stats)).action() is Apply
            && s.after(Event::Planned(stats)).completed == s.completed && s.after(
            Event::Planned(stats),
        ).totals == s.totals && s.after(Event::Planned(stats)).pending == stats,
        s.action() is Apply ==> s.after(Event::Applied).action() is AwaitPlan && s.after(
            Event::Applied,
        ).completed == (s.completed + 1) as usize,
        s.action() is AwaitPlan && s.completed == s.last ==> s.after(Event::AllPlanned).action()
            == (if s.dry_run {
            Action::Rollback
        } else {
            Action::Commit
        }),
        s.action() is Commit || s.action() is Rollback ==> s.after(Event::Ended).action() == (
        if s.last < s.tables {
            Action::Begin { first: s.last, last: s.after(Event::Ended).last }
        } else {
            Action::Finish
        }),
{
}

/// A run starts with a transaction for its first tables: as many as asked for, or all where no number is
/// given. Nothing is done or counted yet. A run over no tables has nothing to do. A dry run starts as a
/// real one does.
pub proof fn runs_start_with_their_first_tables(
    tables: usize,
    tables_per_commit: usize,
    dry_run: bool,
)
    ensures
        ({
            let s = SyncRun::initial(tables, tables_per_commit, dry_run);
            &&& s.tables == tables
            &&& s.dry_run == dry_run
            &&& s.completed == 0
            &&& s.totals.inserted == 0 && s.totals.updated == 0 && s.totals.deleted == 0
            &&& tables_per_commit > 0 ==> s.chunk_size == tables_per_commit
            &&& tables_per_commit == 0 && tables > 0 ==> s.chunk_size == tables
            &&& s.chunk_size >= 1
            &&& tables == 0 ==> s.action() is Finish
            &&& tables > 0 ==> s.action() == (Action::Begin {
                first: 0,
                last: if 0 < tables_per_commit < tables {
                    tables_per_commit
                } else {
                    tables
                },
            })
        }),
{
}

/// Each transaction starts where the last one ended and holds as many tables as the first, but for what is
/// left at the end. What is not asked about stays as it is.
pub proof fn transactions_are_equally_large(s: SyncRun)
    requires
        s.action() is Commit || s.action() is Rollback,
        s.last < s.tables,
    ensures
        ({
            let next = s.after(Event::Ended);
            &&& next.first == s.last
            &&& next.last == (if s.last + s.chunk_size < s.tables {
                s.last + s.chunk_size
            } else {
                s.tables as int
            })
            &&& next.tables == s.tables && next.chunk_size == s.chunk_size && next.dry_run
                == s.dry_run
            &&& next.completed == s.completed && next.totals == s.totals
        }),
{
}

/// The totals of a list of counts are the sums over its members, one by one.
pub proof fn totals_are_sums(list: Seq<TableStats>)
    ensures
        totals_of(list).inserted == list.fold_left(0int, |n: int, s: TableStats| n + s.inserted),
        totals_of(list).updated == list.fold_left(0int, |n: int, s: TableStats| n + s.updated),
        totals_of(list).deleted == list.fold_left(0int, |n: int, s: TableStats| n + s.deleted),
    decreases list.len(),
{
    reveal(Seq::fold_left);
    if list.len() > 0 {
        totals_are_sums(list.drop_last());
    }
}

/// A number that is at least one stays, and nothing becomes smaller.
pub proof fn at_least_one_is_the_next_such_number(n: usize)
    ensures
        n >= 1 ==> at_least_one(n) == n,
        at_least_one(0) == 1,
{
}

/// Two texts that are told apart by what follows their digits.
proof fn lemma_digits_end(a: Seq<char>, b: Seq<char>, x: Seq<char>, y: Seq<char>)
    requires
        is_decimal(a),
        is_decimal(b),
        x.len() > 0,
        y.len() > 0,
        !('0' <= x[0] <= '9'),
        !('0' <= y[0] <= '9'),
        a + x == b + y,
    ensures
        a == b,
        x == y,
{
    let s = a + x;
    if a.len() < b.len() {
        assert(s[a.len() as int] == x[0]);
        assert((b + y)[a.len() as int] == b[a.len() as int]);
        assert('0' <= b[a.len() as int] <= '9');
    } else if b.len() < a.len() {
        assert((b + y)[b.len() as int] == y[0]);
        assert(s[b.len() as int] == a[b.len() as int]);
        assert('0' <= a[b.len() as int] <= '9');
    }
    assert(a =~= s.take(a.len() as int));
    assert(b =~= (b + y).take(a.len() as int));
    assert(x =~= s.skip(a.len() as int));
    assert(y =~= (b + y).skip(a.len() as int));
}

/// A part of a line behind a common head.
proof fn lemma_same_tail(head: Seq<char>, x: Seq<char>, y: Seq<char>)
    requires
        head + x == head + y,
    ensures
        x == y,
{
    assert(x =~= (head + x).skip(head.len() as int));
    assert(y =~= (head + y).skip(head.len() as int));
}

/// The part of a line about changes.
spec fn changes_text(stats: TableStats) -> Seq<char> {
    ": +"@ + (decimal_text(stats.inserted as nat) + (" ~"@ + (decimal_text(stats.updated as nat) + (
    " -"@ + decimal_text(stats.deleted as nat)))))
}

/// A line is its head and the changes.
proof fn lemma_line(completed: nat, total: nat, table: Seq<char>, stats: TableStats)
    ensures
        ({
            let head = "  ["@ + decimal_text(completed) + "/"@ + decimal_text(total) + "] "@ + table;
            let text = progress_text(completed, total, table, stats);
            text == head + (if stats.inserted > 0 || stats.updated > 0 || stats.deleted > 0 {
                changes_text(stats)
            } else {
                ": unchanged"@
            })
        }),
{
    let head = "  ["@ + decimal_text(completed) + "/"@ + decimal_text(total) + "] "@ + table;
    assert(progress_text(completed, total, table, stats) =~= head + (if stats.inserted > 0
        || stats.updated > 0 || stats.deleted > 0 {
        changes_text(stats)
    } else {
        ": unchanged"@
    }));
}

/// The line about a table tells every change in it: two lines about the same table are equal only where
/// equally many rows were inserted, updated and deleted.
pub proof fn lines_tell_every_change(
    completed: nat,
    total: nat,
    table: Seq<char>,
    a: TableStats,
    b: TableStats,
)
    requires
        progress_text(completed, total, table, a) == progress_text(completed, total, table, b),
    ensures
        a.inserted == b.inserted,
        a.updated == b.updated,
        a.deleted == b.deleted,
{
    reveal_strlit(": unchanged");
    reveal_strlit(": +");
    reveal_strlit(" ~");
    reveal_strlit(" -");
    let head = "  ["@ + decimal_text(completed) + "/"@ + decimal_text(total) + "] "@ + table;
    lemma_line(completed, total, table, a);
    lemma_line(completed, total, table, b);
    let x = if a.inserted > 0 || a.updated > 0 || a.deleted > 0 {
        changes_text(a)
    } else {
        ": unchanged"@
    };
    let y = if b.inserted > 0 || b.updated > 0 || b.deleted > 0 {
        changes_text(b)
    } else {
        ": unchanged"@
    };
    lemma_same_tail(head, x, y);
    assert(changes_text(a)[2] == '+');
    assert(changes_text(b)[2] == '+');
    assert(": unchanged"@[2] == 'u');
    if a.inserted > 0 || a.updated > 0 || a.deleted > 0 {
        decimal_text_reads_back(a.inserted as nat);
        decimal_text_reads_back(b.inserted as nat);
        decimal_text_reads_back(a.updated as nat);
        decimal_text_reads_back(b.updated as nat);
        decimal_text_reads_back(a.deleted as nat);
        decimal_text_reads_back(b.deleted as nat);
        let a3 = " -"@ + decimal_text(a.deleted as nat);
        let b3 = " -"@ + decimal_text(b.deleted as nat);
        let a2 = " ~"@ + (decimal_text(a.updated as nat) + a3);
        let b2 = " ~"@ + (decimal_text(b.updated as nat) + b3);
        lemma_same_tail(
            ": +"@,
            decimal_text(a.inserted as nat) + a2,
            decimal_text(b.inserted as nat) + b2,
        );
        lemma_digits_end(
            decimal_text(a.inserted as nat),
            decimal_text(b.inserted as nat),
            a2,
            b2,
        );
        lemma_same_tail(
            " ~"@,
            decimal_text(a.updated as nat) + a3,
            decimal_text(b.updated as nat) + b3,
        );
        lemma_digits_end(decimal_text(a.updated as nat), decimal_text(b.updated as nat), a3, b3);
        lemma_same_tail(" -"@, decimal_text(a.deleted as nat), decimal_text(b.deleted as nat));
    }
}

} // verus!
