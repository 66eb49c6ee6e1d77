use wgx::graph::build;
use wgx::model::{CheckDefinition, Fleet, Node, Operation, RetryPolicy, TagSelector};
use wgx::scheduler::{Dispatch, RunConfig, Scheduler, SchedulerError, TaskOutcome};
use wgx::status::{ErrorKind, ExecResult, FailurePolicy, Reason, TaskState};

fn s(text: &str) -> String {
    text.to_string()
}

fn strings(list: &[&str]) -> Vec<String> {
    list.iter().map(|t| t.to_string()).collect()
}

fn node(id: &str, tags: &[&str]) -> Node {
    Node { id: s(id), tags: strings(tags), address: s("") }
}

fn check(id: &str, deps: &[&str], max_attempts: u32, idempotent: bool) -> CheckDefinition {
    CheckDefinition {
        id: s(id),
        selector: TagSelector::Any,
        depends_on: strings(deps),
        timeout_ms: 1000,
        retry: RetryPolicy { max_attempts, backoff_base_ms: 100, backoff_cap_ms: 1000 },
        idempotent,
    }
}

fn scheduler(nodes: &[&str], checks: Vec<CheckDefinition>, concurrency: usize, policy: FailurePolicy) -> Scheduler {
    let fleet = Fleet::new(nodes.iter().map(|n| node(n, &[])).collect()).unwrap();
    let op = Operation::new(s("op"), checks).unwrap();
    let graph = build(&fleet, &op).unwrap();
    Scheduler::new(graph, RunConfig { concurrency, failure_policy: policy })
}

fn ok() -> ExecResult {
    ExecResult::Completed { success: true, detail: s("fine") }
}

fn bad(detail: &str) -> ExecResult {
    ExecResult::Completed { success: false, detail: s(detail) }
}

/// Runs the scheduler to its end, one attempt at a time. `exec` answers each
/// dispatch; `calls` counts the attempts by task.
fn drive(
    sched: &mut Scheduler,
    exec: &mut dyn FnMut(&Dispatch) -> ExecResult,
    calls: &mut Vec<u32>,
) -> Vec<TaskOutcome> {
    let mut outcomes = Vec::new();
    calls.resize(sched.len(), 0);
    while let Some(d) = sched.next_dispatch() {
        calls[d.task] += 1;
        let result = exec(&d);
        let done = sched.complete_attempt(d.task, result, 10, 1000, 0).unwrap();
        outcomes.extend(done.outcomes);
        if done.state == TaskState::Retrying {
            assert!(sched.requeue(d.task));
        }
    }
    outcomes
}

#[test]
fn new_scheduler_starts_tasks_as_the_graph_does() {
    let sched = scheduler(&["n1"], vec![check("a", &[], 1, true), check("b", &["a"], 1, true)], 2, FailurePolicy::BestEffort);
    assert_eq!(sched.len(), 2);
    assert_eq!(sched.state_of(0), Some(TaskState::Ready));
    assert_eq!(sched.state_of(1), Some(TaskState::Pending));
    assert_eq!(sched.state_of(2), None);
    assert_eq!(sched.attempts_of(0), Some(0));
    assert_eq!(sched.attempts_of(2), None);
    assert_eq!(sched.running(), 0);
    assert!(!sched.is_finished());
    assert!(!sched.is_cancelled());
    assert!(!sched.is_halted());
}

#[test]
fn retry_until_success_counts_three_attempts() {
    let mut sched = scheduler(&["n1"], vec![check("flaky", &[], 3, true)], 1, FailurePolicy::BestEffort);
    let mut calls = Vec::new();
    let mut n = 0;
    let outcomes = drive(&mut sched, &mut |_| { n += 1; if n <= 2 { bad("not yet") } else { ok() } }, &mut calls);
    assert_eq!(calls, vec![3]);
    assert_eq!(outcomes.len(), 1);
    let o = &outcomes[0];
    assert_eq!(o.state, TaskState::Succeeded);
    assert_eq!(o.reason, Reason::Passed);
    assert_eq!(o.attempts, 3);
    assert_eq!(o.errors.len(), 2);
    assert_eq!(o.errors[0].attempt, 1);
    assert_eq!(o.errors[1].attempt, 2);
    assert_eq!(o.errors[0].kind, ErrorKind::CheckFailed);
    assert_eq!(o.errors[1].message, "not yet");
    assert_eq!(o.elapsed_ms, 30);
    assert_eq!(o.timestamp_ms, 1000);
    assert_eq!(o.node_id, "n1");
    assert_eq!(o.check_id, "flaky");
    assert!(sched.is_finished());
}

#[test]
fn failure_of_a_check_that_is_not_idempotent_is_final() {
    let mut sched = scheduler(&["n1"], vec![check("once", &[], 3, false)], 1, FailurePolicy::BestEffort);
    let mut calls = Vec::new();
    let outcomes = drive(&mut sched, &mut |_| bad("broken"), &mut calls);
    assert_eq!(calls, vec![1]);
    assert_eq!(outcomes.len(), 1);
    assert_eq!(outcomes[0].state, TaskState::Failed);
    assert_eq!(outcomes[0].attempts, 1);
    assert_eq!(outcomes[0].reason, Reason::NotIdempotent);
    assert_eq!(outcomes[0].errors.len(), 1);
    assert_eq!(outcomes[0].errors[0].message, "broken");
}

#[test]
fn failure_after_the_last_attempt_is_final() {
    let mut sched = scheduler(&["n1"], vec![check("hopeless", &[], 3, true)], 1, FailurePolicy::BestEffort);
    let mut calls = Vec::new();
    let outcomes = drive(&mut sched, &mut |_| bad("no"), &mut calls);
    assert_eq!(calls, vec![3]);
    assert_eq!(outcomes[0].state, TaskState::Failed);
    assert_eq!(outcomes[0].attempts, 3);
    assert_eq!(outcomes[0].reason, Reason::AttemptsExhausted);
    assert_eq!(outcomes[0].errors.len(), 3);
}

#[test]
fn a_task_with_no_attempts_allowed_is_still_attempted_once() {
    let mut sched = scheduler(&["n1"], vec![check("zero", &[], 0, true)], 1, FailurePolicy::BestEffort);
    let mut calls = Vec::new();
    let outcomes = drive(&mut sched, &mut |_| bad("no"), &mut calls);
    assert_eq!(calls, vec![1]);
    assert_eq!(outcomes[0].state, TaskState::Failed);
    assert_eq!(outcomes[0].reason, Reason::AttemptsExhausted);
}

#[test]
fn failed_dependency_blocks_the_dependent() {
    let mut sched =
        scheduler(&["n1"], vec![check("a", &[], 1, true), check("b", &["a"], 3, true), check("c", &["b"], 3, true)], 2, FailurePolicy::BestEffort);
    let mut calls = Vec::new();
    let outcomes = drive(&mut sched, &mut |_| bad("down"), &mut calls);
    assert_eq!(calls, vec![1, 0, 0]);
    assert_eq!(outcomes.len(), 3);
    assert_eq!(outcomes[0].state, TaskState::Failed);
    for o in &outcomes[1..] {
        assert_eq!(o.state, TaskState::Blocked);
        assert_eq!(o.attempts, 0);
        assert_eq!(o.reason, Reason::UpstreamFailed);
        assert_eq!(o.reason.text(), "upstream dependency failed");
        assert!(o.errors.is_empty());
        assert_eq!(o.elapsed_ms, 0);
    }
    assert_eq!(sched.state_of(1), Some(TaskState::Blocked));
    assert_eq!(sched.state_of(2), Some(TaskState::Blocked));
}

#[test]
fn failure_on_one_node_leaves_the_other_node_alone() {
    let mut sched = scheduler(&["n1", "n2"], vec![check("a", &[], 1, true), check("b", &["a"], 1, true)], 1, FailurePolicy::BestEffort);
    let mut calls = Vec::new();
    let outcomes = drive(&mut sched, &mut |d| if d.node == 0 { bad("down") } else { ok() }, &mut calls);
    assert_eq!(calls, vec![1, 0, 1, 1]);
    let states: Vec<TaskState> = (0..4).map(|t| sched.state_of(t).unwrap()).collect();
    assert_eq!(states, vec![TaskState::Failed, TaskState::Blocked, TaskState::Succeeded, TaskState::Succeeded]);
    assert_eq!(outcomes.len(), 4);
}

#[test]
fn dependent_becomes_ready_only_after_the_dependency_succeeds() {
    let mut sched = scheduler(&["n1"], vec![check("a", &[], 1, true), check("b", &["a"], 1, true)], 4, FailurePolicy::BestEffort);
    let d = sched.next_dispatch().unwrap();
    assert_eq!((d.task, d.attempt, d.timeout_ms), (0, 1, 1000));
    assert_eq!(sched.state_of(0), Some(TaskState::Running));
    assert_eq!(sched.state_of(1), Some(TaskState::Pending));
    assert!(sched.next_dispatch().is_none());
    let done = sched.complete_attempt(0, ok(), 5, 50, 0).unwrap();
    assert_eq!(done.state, TaskState::Succeeded);
    assert_eq!(done.backoff_ms, 0);
    assert_eq!(done.outcomes.len(), 1);
    assert_eq!(sched.state_of(1), Some(TaskState::Ready));
    let d = sched.next_dispatch().unwrap();
    assert_eq!(d.task, 1);
}

#[test]
fn pool_never_runs_more_than_its_size() {
    let checks = vec![check("a", &[], 1, true), check("b", &[], 1, true), check("c", &[], 1, true)];
    let mut sched = scheduler(&["n1", "n2"], checks, 2, FailurePolicy::BestEffort);
    let mut in_flight: Vec<usize> = Vec::new();
    let mut finished = 0;
    loop {
        while let Some(d) = sched.next_dispatch() {
            in_flight.push(d.task);
            assert!(sched.running() <= 2);
        }
        assert_eq!(sched.running(), in_flight.len());
        if in_flight.is_empty() {
            break;
        }
        assert_eq!(in_flight.len(), 2.min(6 - finished));
        let t = in_flight.remove(0);
        sched.complete_attempt(t, ok(), 1, 1, 0).unwrap();
        finished += 1;
    }
    assert_eq!(finished, 6);
    assert!(sched.is_finished());
}

#[test]
fn pool_of_size_zero_dispatches_nothing() {
    let mut sched = scheduler(&["n1"], vec![check("a", &[], 1, true)], 0, FailurePolicy::BestEffort);
    assert!(sched.next_dispatch().is_none());
    assert_eq!(sched.state_of(0), Some(TaskState::Ready));
}

#[test]
fn retrying_task_frees_its_worker_and_waits_for_requeue() {
    let mut sched = scheduler(&["n1"], vec![check("a", &[], 3, true), check("b", &[], 1, true)], 1, FailurePolicy::BestEffort);
    let d = sched.next_dispatch().unwrap();
    assert_eq!(d.task, 0);
    let done = sched.complete_attempt(0, ExecResult::TransportError { message: s("unreachable") }, 7, 10, 0).unwrap();
    assert_eq!(done.state, TaskState::Retrying);
    assert_eq!(done.backoff_ms, 100);
    assert!(done.outcomes.is_empty());
    assert_eq!(sched.running(), 0);
    let d = sched.next_dispatch().unwrap();
    assert_eq!(d.task, 1);
    sched.complete_attempt(1, ok(), 1, 11, 0).unwrap();
    assert!(sched.next_dispatch().is_none());
    assert!(!sched.requeue(1));
    assert!(!sched.requeue(9));
    assert!(sched.requeue(0));
    assert!(!sched.requeue(0));
    let d = sched.next_dispatch().unwrap();
    assert_eq!((d.task, d.attempt), (0, 2));
    let done = sched.complete_attempt(0, bad("again"), 7, 20, 30).unwrap();
    assert_eq!(done.state, TaskState::Retrying);
    assert_eq!(done.backoff_ms, 200 - 30);
}

#[test]
fn attempt_over_its_deadline_is_a_timeout() {
    let mut sched = scheduler(&["n1"], vec![check("slow", &[], 1, true)], 1, FailurePolicy::BestEffort);
    sched.next_dispatch().unwrap();
    let done = sched.complete_attempt(0, ok(), 1001, 5, 0).unwrap();
    assert_eq!(done.state, TaskState::Failed);
    assert_eq!(done.outcomes[0].errors[0].kind, ErrorKind::Timeout);
    assert_eq!(done.outcomes[0].errors[0].message, "deadline exceeded");
    assert_eq!(done.outcomes[0].elapsed_ms, 1001);
}

#[test]
fn attempt_that_takes_exactly_the_timeout_is_in_time() {
    let mut sched = scheduler(&["n1"], vec![check("slow", &[], 1, true)], 1, FailurePolicy::BestEffort);
    sched.next_dispatch().unwrap();
    let done = sched.complete_attempt(0, ok(), 1000, 5, 0).unwrap();
    assert_eq!(done.state, TaskState::Succeeded);
}

#[test]
fn transport_error_is_recorded_with_its_message() {
    let mut sched = scheduler(&["n1"], vec![check("a", &[], 1, true)], 1, FailurePolicy::BestEffort);
    sched.next_dispatch().unwrap();
    let done = sched.complete_attempt(0, ExecResult::TransportError { message: s("no route") }, 3, 5, 0).unwrap();
    assert_eq!(done.outcomes[0].errors[0].kind, ErrorKind::TransportFailure);
    assert_eq!(done.outcomes[0].errors[0].message, "no route");
}

#[test]
fn elapsed_time_saturates() {
    let mut c = check("a", &[], 2, true);
    c.timeout_ms = u64::MAX;
    let mut sched = scheduler(&["n1"], vec![c], 1, FailurePolicy::BestEffort);
    sched.next_dispatch().unwrap();
    sched.complete_attempt(0, bad("x"), u64::MAX - 1, 5, 0).unwrap();
    sched.requeue(0);
    sched.next_dispatch().unwrap();
    let done = sched.complete_attempt(0, ok(), 10, 6, 0).unwrap();
    assert_eq!(done.outcomes[0].elapsed_ms, u64::MAX);
}

#[test]
fn report_for_a_task_that_is_not_running_is_refused() {
    let mut sched = scheduler(&["n1"], vec![check("a", &[], 1, true), check("b", &["a"], 1, true)], 1, FailurePolicy::BestEffort);
    assert_eq!(sched.complete_attempt(0, ok(), 1, 1, 0).unwrap_err(), SchedulerError::NotRunning);
    assert_eq!(sched.complete_attempt(1, ok(), 1, 1, 0).unwrap_err(), SchedulerError::NotRunning);
    assert_eq!(sched.complete_attempt(2, ok(), 1, 1, 0).unwrap_err(), SchedulerError::UnknownTask);
    assert_eq!(sched.state_of(0), Some(TaskState::Ready));
    sched.next_dispatch().unwrap();
    sched.complete_attempt(0, ok(), 1, 1, 0).unwrap();
    assert_eq!(sched.complete_attempt(0, ok(), 1, 1, 0).unwrap_err(), SchedulerError::NotRunning);
}

#[test]
fn fail_fast_skips_what_has_not_started() {
    let checks = vec![check("a", &[], 1, true), check("b", &["a"], 1, true), check("c", &[], 1, true)];
    let mut sched = scheduler(&["n1", "n2"], checks, 1, FailurePolicy::FailFast);
    let mut calls = Vec::new();
    let outcomes = drive(&mut sched, &mut |_| bad("down"), &mut calls);
    assert_eq!(calls, vec![1, 0, 0, 0, 0, 0]);
    let states: Vec<TaskState> = outcomes.iter().map(|o| o.state).collect();
    assert_eq!(
        states,
        vec![
            TaskState::Failed,
            TaskState::Blocked,
            TaskState::Skipped,
            TaskState::Skipped,
            TaskState::Skipped,
            TaskState::Skipped
        ]
    );
    for o in &outcomes[2..] {
        assert_eq!(o.reason, Reason::RunAborted);
        assert_eq!(o.reason.text(), "run aborted");
        assert_eq!(o.attempts, 0);
    }
    assert!(sched.is_halted());
    assert!(!sched.is_cancelled());
    assert!(sched.is_finished());
}

#[test]
fn fail_fast_lets_the_attempts_in_flight_end() {
    let checks = vec![check("a", &[], 3, true), check("b", &[], 3, true), check("c", &[], 3, true)];
    let mut sched = scheduler(&["n1"], checks, 2, FailurePolicy::FailFast);
    assert_eq!(sched.next_dispatch().unwrap().task, 0);
    assert_eq!(sched.next_dispatch().unwrap().task, 1);
    // Task 0 uses up its attempts at once: three failures, two of them retried.
    sched.complete_attempt(0, bad("1"), 1, 1, 0).unwrap();
    sched.requeue(0);
    assert_eq!(sched.next_dispatch().unwrap().task, 0);
    sched.complete_attempt(0, bad("2"), 1, 2, 0).unwrap();
    sched.requeue(0);
    assert_eq!(sched.next_dispatch().unwrap().task, 0);
    let done = sched.complete_attempt(0, bad("3"), 1, 3, 0).unwrap();
    assert_eq!(done.state, TaskState::Failed);
    assert_eq!(done.outcomes.len(), 2);
    assert_eq!(done.outcomes[1].task, 2);
    assert_eq!(done.outcomes[1].state, TaskState::Skipped);
    assert_eq!(sched.state_of(1), Some(TaskState::Running));
    assert!(sched.next_dispatch().is_none());
    // The attempt in flight fails after the stop: no retry, though attempts are left.
    let done = sched.complete_attempt(1, bad("late"), 1, 4, 0).unwrap();
    assert_eq!(done.state, TaskState::Failed);
    assert_eq!(done.outcomes[0].reason, Reason::RunStopped);
    assert_eq!(done.outcomes[0].attempts, 1);
    assert!(sched.is_finished());
}

#[test]
fn cancel_skips_what_has_not_started_and_keeps_what_runs() {
    let checks = vec![check("a", &[], 1, true), check("b", &["a"], 1, true), check("c", &[], 1, true)];
    let mut sched = scheduler(&["n1"], checks, 1, FailurePolicy::BestEffort);
    let d = sched.next_dispatch().unwrap();
    assert_eq!(d.task, 0);
    let skipped = sched.cancel(77);
    assert!(sched.is_cancelled());
    assert_eq!(skipped.len(), 2);
    for o in &skipped {
        assert_eq!(o.state, TaskState::Skipped);
        assert_eq!(o.reason, Reason::Cancelled);
        assert_eq!(o.reason.text(), "cancelled");
        assert_eq!(o.attempts, 0);
        assert_eq!(o.timestamp_ms, 77);
    }
    assert_eq!(skipped[0].task, 1);
    assert_eq!(skipped[1].task, 2);
    assert_eq!(sched.state_of(0), Some(TaskState::Running));
    assert!(sched.next_dispatch().is_none());
    assert!(!sched.is_finished());
    let done = sched.complete_attempt(0, ok(), 3, 80, 0).unwrap();
    assert_eq!(done.state, TaskState::Succeeded);
    assert_eq!(done.outcomes.len(), 1);
    assert_eq!(sched.state_of(1), Some(TaskState::Skipped));
    assert!(sched.next_dispatch().is_none());
    assert!(sched.is_finished());
    assert!(sched.cancel(90).is_empty());
}

#[test]
fn cancel_skips_a_task_that_waits_for_a_retry() {
    let mut sched = scheduler(&["n1"], vec![check("a", &[], 3, true)], 1, FailurePolicy::BestEffort);
    sched.next_dispatch().unwrap();
    sched.complete_attempt(0, bad("x"), 4, 1, 0).unwrap();
    let skipped = sched.cancel(5);
    assert_eq!(skipped.len(), 1);
    assert_eq!(skipped[0].state, TaskState::Skipped);
    assert_eq!(skipped[0].attempts, 1);
    assert_eq!(skipped[0].errors.len(), 1);
    assert_eq!(skipped[0].elapsed_ms, 4);
    assert!(!sched.requeue(0));
}

#[test]
fn cancel_before_anything_ran_skips_everything() {
    let mut sched = scheduler(&["n1", "n2"], vec![check("a", &[], 1, true), check("b", &["a"], 1, true)], 2, FailurePolicy::FailFast);
    let skipped = sched.cancel(1);
    assert_eq!(skipped.len(), 4);
    assert!(skipped.iter().all(|o| o.state == TaskState::Skipped && o.reason == Reason::Cancelled));
    assert!(sched.next_dispatch().is_none());
    assert!(sched.is_finished());
}

#[test]
fn every_task_gets_one_outcome() {
    let checks = vec![
        check("a", &[], 2, true),
        check("b", &["a"], 1, false),
        check("c", &["a"], 1, true),
        check("d", &["b", "c"], 1, true),
    ];
    let mut sched = scheduler(&["n1", "n2", "n3"], checks, 3, FailurePolicy::BestEffort);
    let mut calls = Vec::new();
    let mut turn = 0;
    let outcomes = drive(&mut sched, &mut |_| { turn += 1; if turn % 3 == 0 { bad("x") } else { ok() } }, &mut calls);
    let mut tasks: Vec<usize> = outcomes.iter().map(|o| o.task).collect();
    tasks.sort();
    assert_eq!(tasks, (0..12).collect::<Vec<usize>>());
    for o in &outcomes {
        assert_eq!(Some(o.state), sched.state_of(o.task));
        assert_eq!(o.attempts, calls[o.task]);
    }
}
