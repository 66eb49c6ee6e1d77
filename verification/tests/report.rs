use wgx::report::{aggregate, summarize, verdict, Aggregator, Summary, Verdict};
use wgx::scheduler::TaskOutcome;
use wgx::status::{FailurePolicy, Reason, TaskState};

fn outcome(node: usize, check: usize, state: TaskState, reason: Reason) -> TaskOutcome {
    TaskOutcome {
        task: node * 10 + check,
        node,
        check,
        node_id: format!("node{}", node),
        check_id: format!("check{}", check),
        state,
        reason,
        attempts: if state == TaskState::Succeeded || state == TaskState::Failed { 1 } else { 0 },
        errors: Vec::new(),
        elapsed_ms: 0,
        timestamp_ms: 0,
    }
}

fn good(node: usize, check: usize) -> TaskOutcome {
    outcome(node, check, TaskState::Succeeded, Reason::Passed)
}

fn failed(node: usize, check: usize) -> TaskOutcome {
    outcome(node, check, TaskState::Failed, Reason::AttemptsExhausted)
}

fn blocked(node: usize, check: usize) -> TaskOutcome {
    outcome(node, check, TaskState::Blocked, Reason::UpstreamFailed)
}

fn aborted(node: usize, check: usize) -> TaskOutcome {
    outcome(node, check, TaskState::Skipped, Reason::RunAborted)
}

fn cancelled(node: usize, check: usize) -> TaskOutcome {
    outcome(node, check, TaskState::Skipped, Reason::Cancelled)
}

#[test]
fn verdict_is_partial_failure_when_one_node_fails() {
    let outcomes = vec![good(1, 0), good(1, 1), good(2, 0), failed(2, 1)];
    assert_eq!(verdict(&outcomes, FailurePolicy::BestEffort), Verdict::PartialFailure);
    assert_eq!(aggregate(outcomes, FailurePolicy::BestEffort).verdict, Verdict::PartialFailure);
}

#[test]
fn verdict_is_success_when_all_tasks_succeed() {
    let outcomes = vec![good(1, 0), good(1, 1), good(2, 0), good(2, 1)];
    assert_eq!(verdict(&outcomes, FailurePolicy::BestEffort), Verdict::Success);
    assert_eq!(verdict(&outcomes, FailurePolicy::FailFast), Verdict::Success);
}

#[test]
fn verdict_is_failure_when_fail_fast_stops_the_run() {
    let outcomes = vec![good(1, 0), failed(1, 1), aborted(2, 0), aborted(2, 1)];
    assert_eq!(verdict(&outcomes, FailurePolicy::FailFast), Verdict::Failure);
    let outcomes = vec![failed(1, 0), blocked(1, 1), aborted(2, 0)];
    assert_eq!(verdict(&outcomes, FailurePolicy::FailFast), Verdict::Failure);
}

#[test]
fn verdict_of_no_tasks_is_success() {
    assert_eq!(verdict(&vec![], FailurePolicy::BestEffort), Verdict::Success);
    assert_eq!(verdict(&vec![], FailurePolicy::FailFast), Verdict::Success);
}

#[test]
fn verdict_is_failure_when_nothing_succeeded() {
    assert_eq!(verdict(&vec![failed(1, 0), failed(2, 0)], FailurePolicy::BestEffort), Verdict::Failure);
    assert_eq!(verdict(&vec![failed(1, 0), blocked(1, 1)], FailurePolicy::BestEffort), Verdict::Failure);
    assert_eq!(verdict(&vec![cancelled(1, 0), cancelled(2, 0)], FailurePolicy::BestEffort), Verdict::Failure);
}

#[test]
fn verdict_under_best_effort_is_partial_though_every_node_has_a_failure() {
    let outcomes = vec![good(1, 0), failed(1, 1), good(2, 0), failed(2, 1)];
    assert_eq!(verdict(&outcomes, FailurePolicy::BestEffort), Verdict::PartialFailure);
    assert_eq!(verdict(&outcomes, FailurePolicy::FailFast), Verdict::Failure);
}

#[test]
fn verdict_under_fail_fast_is_partial_when_a_node_is_clean() {
    let outcomes = vec![good(1, 0), good(1, 1), failed(2, 0)];
    assert_eq!(verdict(&outcomes, FailurePolicy::FailFast), Verdict::PartialFailure);
}

#[test]
fn skip_by_cancellation_does_not_count_against_a_node() {
    let outcomes = vec![good(1, 0), failed(1, 1), good(2, 0), cancelled(2, 1)];
    assert_eq!(verdict(&outcomes, FailurePolicy::FailFast), Verdict::PartialFailure);
    let outcomes = vec![good(1, 0), failed(1, 1), good(2, 0), aborted(2, 1)];
    assert_eq!(verdict(&outcomes, FailurePolicy::FailFast), Verdict::Failure);
}

#[test]
fn summary_counts_each_final_state() {
    let outcomes = vec![good(1, 0), failed(1, 1), blocked(1, 2), good(2, 0), aborted(2, 1), cancelled(2, 2), good(3, 0)];
    assert_eq!(
        summarize(&outcomes),
        Summary { total: 7, succeeded: 3, failed: 1, skipped: 2, blocked: 1 }
    );
    assert_eq!(summarize(&vec![]), Summary { total: 0, succeeded: 0, failed: 0, skipped: 0, blocked: 0 });
}

#[test]
fn aggregator_orders_outcomes_by_node_and_check() {
    let mut agg = Aggregator::new(FailurePolicy::BestEffort);
    for o in [good(2, 1), failed(1, 3), good(3, 0), good(1, 0), blocked(2, 0), good(1, 1)] {
        assert!(agg.record(o));
    }
    assert_eq!(agg.len(), 6);
    let report = agg.finish();
    let keys: Vec<(usize, usize)> = report.outcomes.iter().map(|o| (o.node, o.check)).collect();
    assert_eq!(keys, vec![(1, 0), (1, 1), (1, 3), (2, 0), (2, 1), (3, 0)]);
    assert_eq!(report.verdict, Verdict::PartialFailure);
    assert_eq!(report.summary, Summary { total: 6, succeeded: 4, failed: 1, skipped: 0, blocked: 1 });
    assert_eq!(report.get(1, 3).unwrap().state, TaskState::Failed);
    assert_eq!(report.get(2, 0).unwrap().check_id, "check0");
    assert!(report.get(1, 2).is_none());
    assert!(report.get(4, 0).is_none());
}

#[test]
fn aggregator_gives_the_same_report_for_any_order_of_arrival() {
    let a = aggregate(vec![good(1, 0), failed(2, 0), good(2, 1), blocked(1, 1)], FailurePolicy::FailFast);
    let b = aggregate(vec![blocked(1, 1), good(2, 1), failed(2, 0), good(1, 0)], FailurePolicy::FailFast);
    let keys = |r: &wgx::report::FleetReport| -> Vec<(usize, usize, TaskState)> {
        r.outcomes.iter().map(|o| (o.node, o.check, o.state)).collect()
    };
    assert_eq!(keys(&a), keys(&b));
    assert_eq!(a.verdict, b.verdict);
    assert_eq!(a.summary, b.summary);
}

#[test]
fn aggregator_refuses_a_second_outcome_for_a_pair() {
    let mut agg = Aggregator::new(FailurePolicy::BestEffort);
    assert!(agg.record(good(1, 0)));
    assert!(!agg.record(failed(1, 0)));
    assert!(agg.record(failed(1, 1)));
    assert_eq!(agg.len(), 2);
    let report = agg.finish();
    assert_eq!(report.get(1, 0).unwrap().state, TaskState::Succeeded);
}

#[test]
fn aggregator_refuses_an_outcome_that_is_not_final() {
    let mut agg = Aggregator::new(FailurePolicy::BestEffort);
    assert!(!agg.record(outcome(1, 0, TaskState::Running, Reason::Unresolved)));
    assert!(!agg.record(outcome(1, 1, TaskState::Pending, Reason::Unresolved)));
    assert!(!agg.record(outcome(1, 2, TaskState::Retrying, Reason::Unresolved)));
    assert_eq!(agg.len(), 0);
    assert_eq!(agg.finish().verdict, Verdict::Success);
}

#[test]
fn exit_code_is_zero_for_success_only() {
    assert_eq!(Verdict::Success.exit_code(), 0);
    assert_eq!(Verdict::PartialFailure.exit_code(), 1);
    assert_eq!(Verdict::Failure.exit_code(), 2);
}
