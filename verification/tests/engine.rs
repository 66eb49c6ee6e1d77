use wgx::engine::{run, run_streaming, Attempt, CheckExecutor, RunControl, RunError};
use wgx::graph::GraphError;
use wgx::model::{CheckDefinition, CheckRegistry, Fleet, Node, Operation, RetryPolicy, TagSelector};
use wgx::report::{Summary, Verdict};
use wgx::scheduler::RunConfig;
use wgx::status::{ErrorKind, ExecResult, FailurePolicy, Reason, TaskState};

fn s(text: &str) -> String {
    text.to_string()
}

fn strings(list: &[&str]) -> Vec<String> {
    list.iter().map(|t| t.to_string()).collect()
}

fn node(id: &str, tags: &[&str]) -> Node {
    Node { id: s(id), tags: strings(tags), address: format!("tcp://{}", id) }
}

fn check(id: &str, selector: TagSelector, deps: &[&str], max_attempts: u32, idempotent: bool) -> CheckDefinition {
    CheckDefinition {
        id: s(id),
        selector,
        depends_on: strings(deps),
        timeout_ms: 500,
        retry: RetryPolicy { max_attempts, backoff_base_ms: 100, backoff_cap_ms: 250 },
        idempotent,
    }
}

fn registry(ops: Vec<(&str, Vec<CheckDefinition>)>) -> CheckRegistry {
    let mut registry = CheckRegistry::new();
    for (name, checks) in ops {
        registry.register(Operation::new(s(name), checks).unwrap()).unwrap();
    }
    registry
}

fn config(concurrency: usize, failure_policy: FailurePolicy) -> RunConfig {
    RunConfig { concurrency, failure_policy }
}

/// Answers each attempt from a script, by node and check; without an entry
/// the attempt passes. Each entry is used once, in order.
struct Script {
    failures: Vec<(String, String)>,
    calls: Vec<(String, String, u32, u64)>,
}

impl Script {
    fn new(failures: &[(&str, &str)]) -> Script {
        Script { failures: failures.iter().map(|(n, c)| (s(n), s(c))).collect(), calls: Vec::new() }
    }

    fn count(&self, node: &str, check: &str) -> usize {
        self.calls.iter().filter(|(n, c, _, _)| n == node && c == check).count()
    }
}

impl CheckExecutor for Script {
    fn execute(&mut self, node: &Node, check: &CheckDefinition, attempt: u32, deadline_ms: u64) -> Attempt {
        self.calls.push((node.id.clone(), check.id.clone(), attempt, deadline_ms));
        let found = self.failures.iter().position(|(n, c)| *n == node.id && *c == check.id);
        match found {
            Some(i) => {
                self.failures.remove(i);
                Attempt { result: ExecResult::Completed { success: false, detail: s("scripted failure") }, elapsed_ms: 20 }
            },
            None => Attempt { result: ExecResult::Completed { success: true, detail: s("ok") }, elapsed_ms: 10 },
        }
    }
}

/// A clock that advances with every question, and a cancellation that fires
/// once the run has asked `cancel_after` times whether to go on.
struct Control {
    clock: u64,
    asked: usize,
    cancel_after: Option<usize>,
    pauses: Vec<u64>,
}

impl Control {
    fn new() -> Control {
        Control { clock: 0, asked: 0, cancel_after: None, pauses: Vec::new() }
    }

    fn cancelling_after(asked: usize) -> Control {
        Control { clock: 0, asked: 0, cancel_after: Some(asked), pauses: Vec::new() }
    }
}

impl RunControl for Control {
    fn cancelled(&mut self) -> bool {
        self.asked += 1;
        match self.cancel_after {
            Some(limit) => self.asked > limit,
            None => false,
        }
    }

    fn now_ms(&mut self) -> u64 {
        self.clock += 1;
        self.clock
    }

    fn jitter(&mut self) -> u64 {
        0
    }

    fn pause(&mut self, delay_ms: u64) {
        self.pauses.push(delay_ms);
    }
}

fn two_nodes() -> Fleet {
    Fleet::new(vec![node("node1", &["web"]), node("node2", &["web"])]).unwrap()
}

fn smoke() -> Vec<CheckDefinition> {
    vec![
        check("connectivity", TagSelector::Any, &[], 1, true),
        check("service-health", TagSelector::Any, &["connectivity"], 1, true),
    ]
}

#[test]
fn run_reports_success_when_every_task_succeeds() {
    let registry = registry(vec![("smoke", smoke())]);
    let mut exec = Script::new(&[]);
    let mut control = Control::new();
    let report = run(&two_nodes(), &registry, &s("smoke"), config(2, FailurePolicy::BestEffort), &mut exec, &mut control).unwrap();
    assert_eq!(report.verdict, Verdict::Success);
    assert_eq!(report.verdict.exit_code(), 0);
    assert_eq!(report.summary, Summary { total: 4, succeeded: 4, failed: 0, skipped: 0, blocked: 0 });
    assert_eq!(exec.calls.len(), 4);
    assert!(exec.calls.iter().all(|(_, _, attempt, deadline)| *attempt == 1 && *deadline == 500));
    let keys: Vec<(usize, usize)> = report.outcomes.iter().map(|o| (o.node, o.check)).collect();
    assert_eq!(keys, vec![(0, 0), (0, 1), (1, 0), (1, 1)]);
}

#[test]
fn run_reports_partial_failure_when_one_node_has_a_failed_task() {
    let registry = registry(vec![("smoke", smoke())]);
    let mut exec = Script::new(&[("node2", "service-health")]);
    let mut control = Control::new();
    let report = run(&two_nodes(), &registry, &s("smoke"), config(1, FailurePolicy::BestEffort), &mut exec, &mut control).unwrap();
    assert_eq!(report.verdict, Verdict::PartialFailure);
    assert_eq!(report.summary, Summary { total: 4, succeeded: 3, failed: 1, skipped: 0, blocked: 0 });
    assert_eq!(report.get(1, 1).unwrap().state, TaskState::Failed);
    assert_eq!(report.get(0, 1).unwrap().state, TaskState::Succeeded);
    assert_ne!(report.verdict.exit_code(), 0);
}

#[test]
fn run_under_fail_fast_skips_the_rest_and_reports_failure() {
    let registry = registry(vec![("smoke", smoke())]);
    let mut exec = Script::new(&[("node1", "connectivity")]);
    let mut control = Control::new();
    let report = run(&two_nodes(), &registry, &s("smoke"), config(1, FailurePolicy::FailFast), &mut exec, &mut control).unwrap();
    assert_eq!(report.verdict, Verdict::Failure);
    assert_eq!(exec.calls.len(), 1);
    assert_eq!(report.get(0, 0).unwrap().state, TaskState::Failed);
    assert_eq!(report.get(0, 1).unwrap().state, TaskState::Blocked);
    assert_eq!(report.get(1, 0).unwrap().state, TaskState::Skipped);
    assert_eq!(report.get(1, 0).unwrap().reason, Reason::RunAborted);
    assert_eq!(report.get(1, 1).unwrap().state, TaskState::Skipped);
    assert_eq!(report.summary, Summary { total: 4, succeeded: 0, failed: 1, skipped: 2, blocked: 1 });
}

#[test]
fn run_retries_until_the_check_passes() {
    let registry = registry(vec![("doctor", vec![check("disk", TagSelector::Any, &[], 3, true)])]);
    let fleet = Fleet::new(vec![node("n1", &[])]).unwrap();
    let mut exec = Script::new(&[("n1", "disk"), ("n1", "disk")]);
    let mut control = Control::new();
    let report = run(&fleet, &registry, &s("doctor"), config(1, FailurePolicy::BestEffort), &mut exec, &mut control).unwrap();
    let o = report.get(0, 0).unwrap();
    assert_eq!(o.state, TaskState::Succeeded);
    assert_eq!(o.attempts, 3);
    assert_eq!(o.errors.len(), 2);
    assert_eq!(o.errors[0].kind, ErrorKind::CheckFailed);
    assert_eq!(o.elapsed_ms, 50);
    assert_eq!(exec.calls.iter().map(|c| c.2).collect::<Vec<u32>>(), vec![1, 2, 3]);
    assert_eq!(control.pauses, vec![100, 200]);
    assert_eq!(report.verdict, Verdict::Success);
}

#[test]
fn run_does_not_retry_a_check_that_is_not_idempotent() {
    let registry = registry(vec![("doctor", vec![check("format", TagSelector::Any, &[], 3, false)])]);
    let fleet = Fleet::new(vec![node("n1", &[])]).unwrap();
    let mut exec = Script::new(&[("n1", "format")]);
    let mut control = Control::new();
    let report = run(&fleet, &registry, &s("doctor"), config(1, FailurePolicy::BestEffort), &mut exec, &mut control).unwrap();
    let o = report.get(0, 0).unwrap();
    assert_eq!(o.state, TaskState::Failed);
    assert_eq!(o.attempts, 1);
    assert_eq!(exec.calls.len(), 1);
    assert!(control.pauses.is_empty());
    assert_eq!(report.verdict, Verdict::Failure);
}

#[test]
fn run_blocks_the_dependent_of_a_failed_task_without_calling_the_executor() {
    let registry = registry(vec![(
        "ab",
        vec![check("a", TagSelector::Any, &[], 1, true), check("b", TagSelector::Any, &["a"], 3, true)],
    )]);
    let fleet = Fleet::new(vec![node("n1", &[])]).unwrap();
    let mut exec = Script::new(&[("n1", "a")]);
    let mut control = Control::new();
    let report = run(&fleet, &registry, &s("ab"), config(4, FailurePolicy::BestEffort), &mut exec, &mut control).unwrap();
    assert_eq!(report.get(0, 0).unwrap().state, TaskState::Failed);
    let b = report.get(0, 1).unwrap();
    assert_eq!(b.state, TaskState::Blocked);
    assert_eq!(b.attempts, 0);
    assert_eq!(b.reason.text(), "upstream dependency failed");
    assert_eq!(exec.count("n1", "b"), 0);
    assert_eq!(exec.count("n1", "a"), 1);
}

#[test]
fn run_refuses_a_cycle_before_any_task_runs() {
    let registry = registry(vec![(
        "loop",
        vec![
            check("a", TagSelector::Any, &["b"], 1, true),
            check("b", TagSelector::Any, &["a"], 1, true),
            check("c", TagSelector::Any, &[], 1, true),
        ],
    )]);
    let mut exec = Script::new(&[]);
    let mut control = Control::new();
    let r = run(&two_nodes(), &registry, &s("loop"), config(2, FailurePolicy::BestEffort), &mut exec, &mut control);
    match r {
        Err(RunError::Graph(GraphError::CyclicDependency(ids))) => {
            let mut sorted = ids.clone();
            sorted.sort();
            assert_eq!(sorted, strings(&["a", "b"]));
        },
        _ => panic!("a cycle was run"),
    }
    assert_eq!(exec.calls.len(), 0);
    assert_eq!(control.asked, 0);
}

#[test]
fn run_refuses_a_dependency_that_does_not_apply() {
    let registry = registry(vec![(
        "mixed",
        vec![
            check("db-up", TagSelector::Tag(s("db")), &[], 1, true),
            check("http", TagSelector::Tag(s("web")), &["db-up"], 1, true),
        ],
    )]);
    let mut exec = Script::new(&[]);
    let mut control = Control::new();
    let r = run(&two_nodes(), &registry, &s("mixed"), config(2, FailurePolicy::BestEffort), &mut exec, &mut control);
    match r {
        Err(RunError::Graph(e)) => {
            assert_eq!(e.message(), "dependency not applicable to node: http needs db-up on node1");
        },
        _ => panic!("a dependency that does not apply was run"),
    }
    assert_eq!(exec.calls.len(), 0);
}

#[test]
fn run_refuses_an_unknown_operation() {
    let registry = registry(vec![("smoke", smoke())]);
    let mut exec = Script::new(&[]);
    let mut control = Control::new();
    let r = run(&two_nodes(), &registry, &s("metrics"), config(2, FailurePolicy::BestEffort), &mut exec, &mut control);
    match r {
        Err(RunError::UnknownOperation(name)) => assert_eq!(name, "metrics"),
        _ => panic!("an unknown operation was run"),
    }
    assert_eq!(exec.calls.len(), 0);
}

#[test]
fn run_refuses_a_pool_without_workers() {
    let registry = registry(vec![("smoke", smoke())]);
    let mut exec = Script::new(&[]);
    let mut control = Control::new();
    let r = run(&two_nodes(), &registry, &s("smoke"), config(0, FailurePolicy::BestEffort), &mut exec, &mut control);
    assert!(matches!(r, Err(RunError::NoWorkers)));
    assert_eq!(exec.calls.len(), 0);
}

#[test]
fn run_leaves_out_pairs_that_are_not_selected() {
    let registry = registry(vec![(
        "doctor",
        vec![check("http", TagSelector::Tag(s("web")), &[], 1, true), check("repl", TagSelector::Tag(s("db")), &[], 1, true)],
    )]);
    let fleet = Fleet::new(vec![node("w", &["web"]), node("idle", &[]), node("d", &["db"])]).unwrap();
    let mut exec = Script::new(&[]);
    let mut control = Control::new();
    let report = run(&fleet, &registry, &s("doctor"), config(2, FailurePolicy::BestEffort), &mut exec, &mut control).unwrap();
    let keys: Vec<(usize, usize)> = report.outcomes.iter().map(|o| (o.node, o.check)).collect();
    assert_eq!(keys, vec![(0, 0), (2, 1)]);
    assert!(report.get(1, 0).is_none());
    assert!(report.get(0, 1).is_none());
}

#[test]
fn run_of_an_empty_operation_is_a_success() {
    let registry = registry(vec![("noop", vec![])]);
    let mut exec = Script::new(&[]);
    let mut control = Control::new();
    let report = run(&two_nodes(), &registry, &s("noop"), config(1, FailurePolicy::FailFast), &mut exec, &mut control).unwrap();
    assert_eq!(report.verdict, Verdict::Success);
    assert_eq!(report.summary.total, 0);
}

#[test]
fn cancellation_mid_run_skips_what_has_not_started() {
    let registry = registry(vec![("smoke", smoke())]);
    let mut exec = Script::new(&[]);
    // The run asks before each dispatch: the first answer lets one task run.
    let mut control = Control::cancelling_after(1);
    let outcomes =
        run_streaming(&two_nodes(), &registry, &s("smoke"), config(1, FailurePolicy::BestEffort), &mut exec, &mut control).unwrap();
    assert_eq!(exec.calls.len(), 1);
    assert_eq!(outcomes.len(), 4);
    assert_eq!(outcomes[0].state, TaskState::Succeeded);
    assert_eq!((outcomes[0].node_id.as_str(), outcomes[0].check_id.as_str()), ("node1", "connectivity"));
    for o in &outcomes[1..] {
        assert_eq!(o.state, TaskState::Skipped);
        assert_eq!(o.reason, Reason::Cancelled);
        assert_eq!(o.reason.text(), "cancelled");
        assert_eq!(o.attempts, 0);
    }
}

#[test]
fn cancellation_before_the_start_runs_nothing() {
    let registry = registry(vec![("smoke", smoke())]);
    let mut exec = Script::new(&[]);
    let mut control = Control::cancelling_after(0);
    let report = run(&two_nodes(), &registry, &s("smoke"), config(3, FailurePolicy::BestEffort), &mut exec, &mut control).unwrap();
    assert_eq!(exec.calls.len(), 0);
    assert_eq!(report.summary, Summary { total: 4, succeeded: 0, failed: 0, skipped: 4, blocked: 0 });
    assert_eq!(report.verdict, Verdict::Failure);
}

#[test]
fn cancellation_during_a_backoff_skips_the_retry() {
    let registry = registry(vec![("doctor", vec![check("disk", TagSelector::Any, &[], 3, true)])]);
    let fleet = Fleet::new(vec![node("n1", &[])]).unwrap();
    let mut exec = Script::new(&[("n1", "disk"), ("n1", "disk")]);
    let mut control = Control::cancelling_after(1);
    let outcomes = run_streaming(&fleet, &registry, &s("doctor"), config(1, FailurePolicy::BestEffort), &mut exec, &mut control).unwrap();
    assert_eq!(exec.calls.len(), 1);
    assert_eq!(outcomes.len(), 1);
    assert_eq!(outcomes[0].state, TaskState::Skipped);
    assert_eq!(outcomes[0].reason, Reason::Cancelled);
    assert_eq!(outcomes[0].attempts, 1);
    assert_eq!(outcomes[0].errors.len(), 1);
}

#[test]
fn streaming_run_hands_out_one_outcome_per_task_in_order_of_resolution() {
    let registry = registry(vec![("smoke", smoke())]);
    let mut exec = Script::new(&[("node1", "connectivity")]);
    let mut control = Control::new();
    let outcomes =
        run_streaming(&two_nodes(), &registry, &s("smoke"), config(2, FailurePolicy::BestEffort), &mut exec, &mut control).unwrap();
    let got: Vec<(usize, usize, TaskState)> = outcomes.iter().map(|o| (o.node, o.check, o.state)).collect();
    assert_eq!(
        got,
        vec![
            (0, 0, TaskState::Failed),
            (0, 1, TaskState::Blocked),
            (1, 0, TaskState::Succeeded),
            (1, 1, TaskState::Succeeded),
        ]
    );
    let stamps: Vec<u64> = outcomes.iter().map(|o| o.timestamp_ms).collect();
    assert!(stamps.windows(2).all(|w| w[0] <= w[1]));
}

#[test]
fn run_error_has_an_exit_code_of_its_own() {
    let e = RunError::UnknownOperation(s("metrics"));
    assert_eq!(e.exit_code(), 3);
    assert_eq!(e.message(), "unknown operation: metrics");
    assert_eq!(RunError::NoWorkers.exit_code(), 3);
    assert_eq!(RunError::NoWorkers.message(), "the worker pool has no worker");
    let g = RunError::Graph(GraphError::CyclicDependency(strings(&["a", "b", "c"])));
    assert_eq!(g.message(), "dependency cycle: a -> b -> c");
    assert_eq!(RunError::Graph(GraphError::CyclicDependency(strings(&["a"]))).message(), "dependency cycle: a");
    for v in [Verdict::Success, Verdict::PartialFailure, Verdict::Failure] {
        assert_ne!(v.exit_code(), g.exit_code());
    }
}

#[test]
fn outcome_names_the_error_that_decided_it() {
    let registry = registry(vec![("doctor", vec![check("disk", TagSelector::Any, &[], 1, true), check("late", TagSelector::Any, &["disk"], 1, true)])]);
    let fleet = Fleet::new(vec![node("n1", &[]), node("n2", &[])]).unwrap();
    let mut exec = Script::new(&[("n1", "disk")]);
    let mut control = Control::cancelling_after(1);
    let outcomes = run_streaming(&fleet, &registry, &s("doctor"), config(1, FailurePolicy::BestEffort), &mut exec, &mut control).unwrap();
    let kinds: Vec<(TaskState, Option<ErrorKind>)> = outcomes.iter().map(|o| (o.state, o.error_kind())).collect();
    assert_eq!(
        kinds,
        vec![
            (TaskState::Failed, Some(ErrorKind::CheckFailed)),
            (TaskState::Blocked, None),
            (TaskState::Skipped, Some(ErrorKind::Cancelled)),
            (TaskState::Skipped, Some(ErrorKind::Cancelled)),
        ]
    );
}
