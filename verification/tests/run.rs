//! The course of a run.

use mysync::plan::TableStats;
use mysync::run::{
    add_stats, default_jobs, progress_line, stats_fit, worker_count, Action, Event, SyncRun,
};

fn stats(inserted: u64, updated: u64, deleted: u64) -> TableStats {
    TableStats { inserted, updated, deleted }
}

/// Plays events, and gives back what the run asked for after each.
fn play(run: &mut SyncRun, events: &[Event]) -> Vec<String> {
    events
        .iter()
        .map(|&e| {
            assert!(run.can_count(e));
            format!("{:?}", run.step(e))
        })
        .collect()
}

#[test]
fn one_transaction_is_committed_at_the_end() {
    let mut run = SyncRun::new(2, 0, false);
    assert!(matches!(run.next_action(), Action::Begin { first: 0, last: 2 }));
    let asked = play(
        &mut run,
        &[
            Event::Opened,
            Event::Planned(stats(1, 2, 3)),
            Event::Applied,
            Event::Planned(stats(10, 0, 0)),
            Event::Applied,
            Event::AllPlanned,
            Event::Ended,
        ],
    );
    assert_eq!(asked, ["AwaitPlan", "Apply", "AwaitPlan", "Apply", "AwaitPlan", "Commit", "Finish"]);
    assert_eq!(run.completed, 2);
    assert_eq!((run.totals.inserted, run.totals.updated, run.totals.deleted), (11, 2, 3));
}

#[test]
fn a_failure_is_never_committed() {
    let courses: [&[Event]; 4] = [
        &[Event::Broken],
        &[Event::Opened, Event::Broken],
        &[Event::Opened, Event::Planned(TableStats { inserted: 1, updated: 0, deleted: 0 }), Event::Broken],
        &[Event::Opened, Event::AllPlanned, Event::Broken],
    ];
    for course in courses {
        let mut run = SyncRun::new(3, 0, false);
        let asked = play(&mut run, course);
        assert_eq!(asked.last().unwrap(), "Abort");
        // Nothing changes the outcome.
        assert_eq!(play(&mut run, &[Event::Opened, Event::AllPlanned, Event::Ended]), ["Abort", "Abort", "Abort"]);
        assert_eq!(run.first, 0);
    }
}

#[test]
fn tables_are_committed_in_chunks() {
    let mut run = SyncRun::new(5, 2, false);
    let mut begun = vec![];
    let mut commits = 0;
    let mut action = run.next_action();
    loop {
        action = match action {
            Action::Begin { first, last } => {
                begun.push((first, last));
                run.step(Event::Opened)
            },
            Action::AwaitPlan => {
                if run.completed < run.last {
                    run.step(Event::Planned(stats(1, 0, 0)))
                } else {
                    run.step(Event::AllPlanned)
                }
            },
            Action::Apply => run.step(Event::Applied),
            Action::Commit => {
                commits += 1;
                run.step(Event::Ended)
            },
            Action::Finish => break,
            other => panic!("{other:?}"),
        };
    }
    assert_eq!(begun, vec![(0, 2), (2, 4), (4, 5)]);
    assert_eq!(commits, 3);
    assert_eq!(run.completed, 5);
    assert_eq!(run.totals.inserted, 5);
}

#[test]
fn a_missing_plan_is_never_committed() {
    let mut run = SyncRun::new(2, 0, false);
    let asked = play(
        &mut run,
        &[Event::Opened, Event::Planned(stats(1, 0, 0)), Event::Applied, Event::AllPlanned, Event::Ended],
    );
    assert_eq!(asked, ["AwaitPlan", "Apply", "AwaitPlan", "Abort", "Abort"]);
    assert_eq!(run.completed, 1);
    // Nor is one plan too many.
    let mut run = SyncRun::new(1, 0, true);
    let one = Event::Planned(stats(1, 0, 0));
    assert_eq!(play(&mut run, &[Event::Opened, one, one, Event::AllPlanned]).last().unwrap(), "Abort");
}

#[test]
fn a_dry_run_reports_what_a_real_one_does() {
    let plans = [stats(1, 2, 3), stats(0, 0, 0), stats(7, 0, 1)];
    let mut reports = vec![];
    for (tables_per_commit, dry_run) in [(0, false), (0, true), (2, false), (2, true)] {
        let mut run = SyncRun::new(plans.len(), tables_per_commit, dry_run);
        let mut action = run.next_action();
        loop {
            action = match action {
                Action::Begin { .. } => run.step(Event::Opened),
                Action::AwaitPlan if run.completed < run.last => run.step(Event::Planned(plans[run.completed])),
                Action::AwaitPlan => run.step(Event::AllPlanned),
                Action::Apply => run.step(Event::Applied),
                Action::Commit | Action::Rollback => run.step(Event::Ended),
                Action::Finish => break,
                other => panic!("{other:?}"),
            };
        }
        reports.push((run.completed, run.totals.inserted, run.totals.updated, run.totals.deleted));
    }
    assert_eq!(reports, vec![(3, 8, 2, 4); 4]);
}

#[test]
fn a_failure_keeps_the_chunks_before_it() {
    let mut run = SyncRun::new(5, 2, false);
    let one = Event::Planned(stats(1, 0, 0));
    play(
        &mut run,
        &[Event::Opened, one, Event::Applied, one, Event::Applied, Event::AllPlanned, Event::Ended, Event::Opened],
    );
    assert_eq!(play(&mut run, &[Event::Broken]), ["Abort"]);
    assert_eq!(run.first, 2);
}

#[test]
fn dry_runs_apply_and_commit_nothing() {
    let mut run = SyncRun::new(1, 0, true);
    let asked = play(
        &mut run,
        &[Event::Opened, Event::Planned(stats(5, 0, 1)), Event::AllPlanned, Event::Ended],
    );
    assert_eq!(asked, ["AwaitPlan", "AwaitPlan", "Rollback", "Finish"]);
    assert_eq!(run.totals.inserted, 5);
    assert_eq!(run.completed, 1);
}

#[test]
fn a_run_over_no_tables_is_done_at_once() {
    assert!(matches!(SyncRun::new(0, 0, false).next_action(), Action::Finish));
    assert!(matches!(SyncRun::new(0, 7, true).next_action(), Action::Finish));
}

#[test]
fn huge_chunks_hold_all_tables() {
    let run = SyncRun::new(usize::MAX, usize::MAX, false);
    assert!(matches!(run.next_action(), Action::Begin { first: 0, last: usize::MAX }));
}

#[test]
fn events_that_do_not_fit_are_failures() {
    let mut run = SyncRun::new(1, 0, false);
    assert!(matches!(run.step(Event::Ended), Action::Abort));
}

#[test]
fn counts_add_up_where_they_fit() {
    let sum = add_stats(stats(1, 2, 3), stats(10, 20, 30));
    assert_eq!((sum.inserted, sum.updated, sum.deleted), (11, 22, 33));
    assert!(!stats_fit(stats(u64::MAX, 0, 0), stats(1, 0, 0)));
    assert!(!stats_fit(stats(0, u64::MAX, 0), stats(0, 1, 0)));
    assert!(!stats_fit(stats(0, 0, u64::MAX), stats(0, 0, 1)));
    assert!(stats_fit(stats(u64::MAX, 0, 0), stats(0, 1, 1)));
    let mut run = SyncRun::new(1, 0, true);
    run.step(Event::Opened);
    run.step(Event::Planned(stats(u64::MAX, 0, 0)));
    assert!(!run.can_count(Event::Planned(stats(1, 0, 0))));
    assert!(run.can_count(Event::AllPlanned));
}

#[test]
fn workers_are_neither_too_many_nor_none() {
    assert_eq!(worker_count(4, 10), 4);
    assert_eq!(worker_count(4, 2), 2);
    assert_eq!(worker_count(0, 10), 1);
    assert_eq!(worker_count(4, 0), 1);
    assert_eq!(default_jobs(Some(2)), 2);
    assert_eq!(default_jobs(Some(64)), 8);
    assert_eq!(default_jobs(None), 4);
}

#[test]
fn progress_is_reported() {
    assert_eq!(progress_line(3, 12, "users", &stats(1, 0, 20)), "  [3/12] users: +1 ~0 -20");
    assert_eq!(progress_line(1, 1, "t", &stats(0, 0, 0)), "  [1/1] t: unchanged");
}
