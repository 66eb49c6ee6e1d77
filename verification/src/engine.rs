//! A run from end to end on the calling thread: the task graph is built, the
//! scheduler is driven until every task has reached its final state, and the
//! outcomes are handed back, raw or as a report.
//!
//! What lies outside the library comes in through two traits: the executor,
//! which reaches the nodes, and the control, which holds the clock, the
//! source of jitter, the pause between attempts and the cancellation signal.
//! Nothing is assumed of either: what a run guarantees, it guarantees
//! whatever they answer.

use crate::count::lemma_count_none;
use crate::graph::{
    GraphError, Task, applicable, applies, build, covers, lemma_one_task_per_pair, refused_by, task_at,
    task_of_pair, tasks_wf,
};
use crate::laws::{
    evolves, lemma_cancel_evolves, lemma_completion_evolves, lemma_dispatch_evolves, lemma_requeue_evolves,
};
use crate::model::{
    CheckDefinition, CheckRegistry, Fleet, Identified, Node, Operation, distinct_idents, has_ident,
};
use crate::order::has_cycle;
use crate::report::{FleetReport, Verdict, aggregate, counts_in, has_pair, last_of_pair};
use crate::scheduler::{
    Dispatch, RunConfig, Scheduler, SchedulerView, TaskOutcome, bystander_step, cancel_step, completion_step,
    dispatch_step, is_running, outcome_at, outcome_of, outcomes_of_step, requeue_step, resolved_in_step,
};
use crate::status::{ErrorKind, ExecResult, Reason, TaskState, attempt_failure, attempt_message};
use vstd::prelude::*;

verus! {

/// What the executor answers for one attempt.
#[derive(Debug)]
pub struct Attempt {
    pub result: ExecResult,
    /// The time the attempt took, in milliseconds.
    pub elapsed_ms: u64,
}

/// Reaches a node and runs a check on it.
pub trait CheckExecutor {
    /// Runs attempt number `attempt` of the check on the node, for no longer
    /// than `deadline_ms` milliseconds.
    fn execute(&mut self, node: &Node, check: &CheckDefinition, attempt: u32, deadline_ms: u64) -> Attempt;
}

/// The clock, the chance and the will of whoever started the run.
pub trait RunControl {
    /// Whether the run is to be cancelled. Asked before each dispatch.
    fn cancelled(&mut self) -> bool;

    /// The time, in milliseconds.
    fn now_ms(&mut self) -> u64;

    /// Any number. It shortens the delay before a retry.
    fn jitter(&mut self) -> u64;

    /// Lets `delay_ms` milliseconds pass before a retry.
    fn pause(&mut self, delay_ms: u64);
}

/// Why a run did not start.
#[derive(Debug)]
pub enum RunError {
    /// No operation of this name is registered.
    UnknownOperation(String),
    /// No task graph could be built.
    Graph(GraphError),
    /// The worker pool has no worker.
    NoWorkers,
}

impl RunError {
    /// The error in words.
    pub open spec fn text(&self) -> Seq<char> {
        match self {
            RunError::UnknownOperation(name) => "unknown operation: "@ + name@,
            RunError::Graph(e) => e.text(),
            RunError::NoWorkers => "the worker pool has no worker"@,
        }
    }

    pub fn message(&self) -> (r: String)
        ensures
            r@ == self.text(),
    {
        match self {
            RunError::UnknownOperation(name) => {
                let mut text = "unknown operation: ".to_string();
                text.append(name.as_str());
                text
            },
            RunError::Graph(e) => e.message(),
            RunError::NoWorkers => "the worker pool has no worker".to_string(),
        }
    }

    /// The exit code of a process whose run did not start. It differs from
    /// the exit code of every verdict.
    pub fn exit_code(&self) -> (r: u8)
        ensures
            r == 3,
            r != Verdict::Success.spec_exit_code(),
            r != Verdict::PartialFailure.spec_exit_code(),
            r != Verdict::Failure.spec_exit_code(),
    {
        3
    }
}

/// The operation of this name in the registry.
pub open spec fn operation_named(registry: Seq<Operation>, name: Seq<char>) -> Operation {
    registry[choose|i: int| 0 <= i < registry.len() && (#[trigger] registry[i]).ident() == name]
}

/// The outcomes are those of the fleet and the operation: one for each node
/// and each check that applies to it, each in a final state, and no other.
pub open spec fn one_outcome_per_pair(fleet: Seq<Node>, op: Operation, outcomes: Seq<TaskOutcome>) -> bool {
    &&& forall|j: int|
        0 <= j < outcomes.len() ==> {
            &&& (#[trigger] outcomes[j]).state.is_terminal()
            &&& outcomes[j].node < fleet.len()
            &&& outcomes[j].check < op@.checks.len()
            &&& applies(fleet, op@, outcomes[j].node as int, outcomes[j].check as int)
            &&& outcomes[j].node_id@ == fleet[outcomes[j].node as int].id@
            &&& outcomes[j].check_id@ == op@.checks[outcomes[j].check as int].id@
        }
    &&& forall|n: int, c: int|
        0 <= n < fleet.len() && 0 <= c < op@.checks.len() && #[trigger] applies(fleet, op@, n, c)
            ==> has_pair(outcomes, n as usize, c as usize)
    &&& forall|i: int, j: int|
        0 <= i < j < outcomes.len() ==> !((#[trigger] outcomes[i]).node == (#[trigger] outcomes[j]).node
            && outcomes[i].check == outcomes[j].check)
}

/// The attempts a task may use: those its check allows, and one at least.
pub open spec fn budget(task: Task) -> int {
    if task.retry.max_attempts >= 1 {
        task.retry.max_attempts as int
    } else {
        1
    }
}

/// The steps that task `t` may still take: none in a final state; else two
/// for each attempt left, and one or two more.
pub open spec fn weight(v: SchedulerView, t: int) -> int {
    if v.states[t].is_terminal() {
        0
    } else {
        2 * (budget(v.tasks[t]) - v.attempts[t]) + if v.states[t] == TaskState::Running {
            2int
        } else {
            1int
        }
    }
}

/// The steps that the first `n` tasks may still take together.
pub open spec fn work_left(v: SchedulerView, n: int) -> int
    decreases n,
{
    if n <= 0 {
        0
    } else {
        work_left(v, n - 1) + weight(v, n - 1)
    }
}

/// A task that has not ended may take two steps at least.
proof fn lemma_weight_floor(v: SchedulerView, t: int)
    requires
        v.wf(),
        0 <= t < v.tasks.len(),
    ensures
        weight(v, t) >= 0,
        !v.states[t].is_terminal() ==> weight(v, t) >= 2,
{
    assert(v.task_coherent(t));
}

/// The steps left are not negative.
proof fn lemma_work_floor(v: SchedulerView, n: int)
    requires
        v.wf(),
        0 <= n <= v.tasks.len(),
    ensures
        work_left(v, n) >= 0,
    decreases n,
{
    if n > 0 {
        lemma_work_floor(v, n - 1);
        lemma_weight_floor(v, n - 1);
    }
}

/// Where no task may take more steps than before, and task `t0` fewer by
/// `d`, fewer steps by `d` are left.
proof fn lemma_work_shrinks(pre: SchedulerView, post: SchedulerView, n: int, t0: int, d: int)
    requires
        pre.tasks == post.tasks,
        0 <= n <= pre.tasks.len(),
        0 <= t0 < pre.tasks.len(),
        d >= 0,
        forall|t: int| 0 <= t < pre.tasks.len() ==> #[trigger] weight(post, t) <= weight(pre, t),
        weight(post, t0) + d <= weight(pre, t0),
    ensures
        work_left(post, n) + (if t0 < n {
            d
        } else {
            0
        }) <= work_left(pre, n),
    decreases n,
{
    if n > 0 {
        lemma_work_shrinks(pre, post, n - 1, t0, d);
        assert(weight(post, n - 1) <= weight(pre, n - 1));
    }
}

/// A dispatch takes one step.
proof fn lemma_dispatch_work(pre: SchedulerView, post: SchedulerView, d: Dispatch)
    requires
        pre.wf(),
        dispatch_step(pre, post, Some(d)),
    ensures
        work_left(post, pre.tasks.len() as int) + 1 <= work_left(pre, pre.tasks.len() as int),
{
    let t0 = d.task as int;
    assert(pre.task_coherent(t0));
    assert forall|t: int| 0 <= t < pre.tasks.len() implies #[trigger] weight(post, t) <= weight(pre, t) by {}
    lemma_work_shrinks(pre, post, pre.tasks.len() as int, t0, 1);
}

/// The end of an attempt takes one step at least.
proof fn lemma_completion_work(pre: SchedulerView, post: SchedulerView, t0: int, failure: Option<ErrorKind>, message: Seq<char>, elapsed_ms: u64)
    requires
        pre.wf(),
        0 <= t0 < pre.tasks.len(),
        pre.states[t0] == TaskState::Running,
        completion_step(pre, post, t0, failure, message, elapsed_ms),
    ensures
        work_left(post, pre.tasks.len() as int) + 1 <= work_left(pre, pre.tasks.len() as int),
{
    assert(pre.task_coherent(t0));
    assert forall|t: int| 0 <= t < pre.tasks.len() implies #[trigger] weight(post, t) <= weight(pre, t) by {
        lemma_weight_floor(pre, t);
        if t != t0 {
            assert(bystander_step(pre, post, t, Reason::RunAborted));
        }
    }
    lemma_work_shrinks(pre, post, pre.tasks.len() as int, t0, 1);
}

/// A cancellation adds no step.
proof fn lemma_cancel_work(pre: SchedulerView, post: SchedulerView)
    requires
        pre.wf(),
        cancel_step(pre, post),
    ensures
        work_left(post, pre.tasks.len() as int) <= work_left(pre, pre.tasks.len() as int),
{
    if pre.tasks.len() > 0 {
        assert forall|t: int| 0 <= t < pre.tasks.len() implies #[trigger] weight(post, t) <= weight(pre, t) by {
            lemma_weight_floor(pre, t);
            assert(bystander_step(pre, post, t, Reason::Cancelled));
        }
        lemma_work_shrinks(pre, post, pre.tasks.len() as int, 0, 0);
    }
}

/// Queueing a task again adds no step.
proof fn lemma_requeue_work(pre: SchedulerView, post: SchedulerView, t0: int)
    requires
        pre.wf(),
        0 <= t0 < pre.tasks.len(),
        pre.states[t0] == TaskState::Retrying,
        requeue_step(pre, post, t0),
    ensures
        work_left(post, pre.tasks.len() as int) <= work_left(pre, pre.tasks.len() as int),
{
    assert forall|t: int| 0 <= t < pre.tasks.len() implies #[trigger] weight(post, t) <= weight(pre, t) by {}
    lemma_work_shrinks(pre, post, pre.tasks.len() as int, t0, 0);
}

/// A pending task waits for a task that can still move: where no task is
/// ready, running or waiting for a retry, none is pending.
proof fn lemma_no_stuck_pending(v: SchedulerView, t: int)
    requires
        v.wf(),
        0 <= t < v.tasks.len(),
        forall|u: int|
            0 <= u < v.tasks.len() ==> (#[trigger] v.states[u]) != TaskState::Ready && v.states[u]
                != TaskState::Running && v.states[u] != TaskState::Retrying,
    ensures
        v.states[t] != TaskState::Pending,
    decreases t,
{
    if v.states[t] == TaskState::Pending {
        assert(v.task_settled(t));
        let k = choose|k: int|
            0 <= k < v.tasks[t].deps.len() && v.states[(#[trigger] v.tasks[t].deps[k]) as int]
                != TaskState::Succeeded;
        let d = v.tasks[t].deps[k] as int;
        assert(d < t);
        assert(!v.states[v.tasks[t].deps[k] as int].is_dead());
        lemma_no_stuck_pending(v, d);
    }
}

/// The outcomes account for the run: each is that of a task in its final
/// state, every task in a final state has one, and none has two.
pub open spec fn accounts(v: SchedulerView, outcomes: Seq<TaskOutcome>) -> bool {
    &&& forall|j: int|
        0 <= j < outcomes.len() ==> {
            &&& (#[trigger] outcomes[j]).task < v.tasks.len()
            &&& outcomes[j].node == v.tasks[outcomes[j].task as int].node
            &&& outcomes[j].check == v.tasks[outcomes[j].task as int].check
            &&& outcomes[j].node_id@ == v.tasks[outcomes[j].task as int].node_id@
            &&& outcomes[j].check_id@ == v.tasks[outcomes[j].task as int].check_id@
            &&& outcomes[j].state.is_terminal()
            &&& v.states[outcomes[j].task as int].is_terminal()
        }
    &&& forall|t: int|
        0 <= t < v.tasks.len() && (#[trigger] v.states[t]).is_terminal() ==> exists|j: int|
            outcome_at(outcomes, j, t)
    &&& forall|i: int, j: int|
        0 <= i < j < outcomes.len() ==> (#[trigger] outcomes[i]).task != (#[trigger] outcomes[j]).task
}

/// The outcomes of one more step, added to outcomes that account for the
/// run before it, account for the run after it: step by step every task
/// gets one outcome, when it reaches its final state, and never a second.
pub proof fn lemma_accounts_step(pre: SchedulerView, post: SchedulerView, had: Seq<TaskOutcome>, new: Seq<TaskOutcome>, now: u64)
    requires
        pre.wf(),
        post.states.len() == pre.tasks.len(),
        accounts(pre, had),
        evolves(pre, post),
        outcomes_of_step(pre.states, post, new, now),
    ensures
        accounts(post, had + new),
{
    let all = had + new;
    assert forall|j: int| 0 <= j < all.len() implies {
        &&& (#[trigger] all[j]).task < post.tasks.len()
        &&& all[j].node == post.tasks[all[j].task as int].node
        &&& all[j].check == post.tasks[all[j].task as int].check
        &&& all[j].node_id@ == post.tasks[all[j].task as int].node_id@
        &&& all[j].check_id@ == post.tasks[all[j].task as int].check_id@
        &&& all[j].state.is_terminal()
        &&& post.states[all[j].task as int].is_terminal()
    } by {
        if j < had.len() {
            assert(all[j] == had[j]);
            let t = had[j].task as int;
            assert(pre.states[t].is_terminal());
            assert(post.states[t] == pre.states[t]);
        } else {
            assert(all[j] == new[j - had.len()]);
            assert(outcome_of(post, new[j - had.len()], now));
        }
    }
    assert forall|t: int| 0 <= t < post.tasks.len() && (#[trigger] post.states[t]).is_terminal() implies exists|
        j: int,
    | outcome_at(all, j, t) by {
        if pre.states[t].is_terminal() {
            let j = choose|j: int| outcome_at(had, j, t);
            assert(all[j] == had[j]);
            assert(outcome_at(all, j, t));
        } else {
            assert(resolved_in_step(pre.states, post, t));
            let i = choose|i: int| outcome_at(new, i, t);
            assert(all[had.len() + i] == new[i]);
            assert(outcome_at(all, had.len() + i, t));
        }
    }
    assert forall|i: int, j: int| 0 <= i < j < all.len() implies (#[trigger] all[i]).task != (
    #[trigger] all[j]).task by {
        if j < had.len() {
            assert(all[i] == had[i] && all[j] == had[j]);
        } else if i >= had.len() {
            assert(all[i] == new[i - had.len()] && all[j] == new[j - had.len()]);
        } else {
            assert(all[i] == had[i] && all[j] == new[j - had.len()]);
            assert(resolved_in_step(pre.states, post, new[j - had.len()].task as int));
        }
    }
}

/// Outcomes that account for a run in which every task has ended are those
/// of the fleet and the operation whose tasks the run has.
proof fn lemma_accounts_all(fleet: Seq<Node>, op: Operation, v: SchedulerView, outcomes: Seq<TaskOutcome>)
    requires
        covers(fleet, op@, v.tasks),
        v.states.len() == v.tasks.len(),
        accounts(v, outcomes),
        forall|t: int| 0 <= t < v.tasks.len() ==> (#[trigger] v.states[t]).is_terminal(),
    ensures
        one_outcome_per_pair(fleet, op, outcomes),
{
    lemma_one_task_per_pair(fleet, op@, v.tasks);
    assert forall|j: int| 0 <= j < outcomes.len() implies {
        &&& (#[trigger] outcomes[j]).state.is_terminal()
        &&& outcomes[j].node < fleet.len()
        &&& outcomes[j].check < op@.checks.len()
        &&& applies(fleet, op@, outcomes[j].node as int, outcomes[j].check as int)
        &&& outcomes[j].node_id@ == fleet[outcomes[j].node as int].id@
        &&& outcomes[j].check_id@ == op@.checks[outcomes[j].check as int].id@
    } by {
        let t = outcomes[j].task as int;
        assert(task_of_pair(fleet, op@, v.tasks[t]));
    }
    assert forall|n: int, c: int|
        0 <= n < fleet.len() && 0 <= c < op@.checks.len() && #[trigger] applies(
            fleet,
            op@,
            n,
            c,
        ) implies has_pair(outcomes, n as usize, c as usize) by {
        let t = choose|t: int| task_at(v.tasks, t, n, c);
        assert(v.states[t].is_terminal());
        let j = choose|j: int| outcome_at(outcomes, j, t);
        assert(outcomes[j].node == n as usize && outcomes[j].check == c as usize);
    }
    assert forall|i: int, j: int| 0 <= i < j < outcomes.len() implies !((#[trigger] outcomes[i]).node == (
    #[trigger] outcomes[j]).node && outcomes[i].check == outcomes[j].check) by {
        let s = outcomes[i].task as int;
        let t = outcomes[j].task as int;
        if outcomes[i].node == outcomes[j].node && outcomes[i].check == outcomes[j].check {
            assert(task_at(v.tasks, s, outcomes[i].node as int, outcomes[i].check as int));
            assert(task_at(v.tasks, t, outcomes[i].node as int, outcomes[i].check as int));
        }
    }
}

/// Runs the operation on the fleet, one attempt after another, and hands
/// back the outcomes in the order in which the tasks were resolved.
///
/// The run does not start where no operation of that name is registered,
/// where no task graph can be built, or where the pool has no worker. Else
/// it ends, whatever the executor and the control answer, with one outcome
/// for each node and each check that applies to it.
pub fn run_streaming<E: CheckExecutor, C: RunControl>(
    fleet: &Fleet,
    registry: &CheckRegistry,
    operation: &String,
    config: RunConfig,
    executor: &mut E,
    control: &mut C,
) -> (r: Result<Vec<TaskOutcome>, RunError>)
    requires
        fleet.wf(),
        registry.wf(),
    ensures
        match r {
            Ok(outcomes) => one_outcome_per_pair(fleet@, operation_named(registry@, operation@), outcomes@),
            Err(RunError::UnknownOperation(name)) => name@ == operation@,
            Err(RunError::Graph(e)) => refused_by(fleet@, operation_named(registry@, operation@)@, e),
            Err(RunError::NoWorkers) => true,
        },
        !has_ident(registry@, operation@) <==> r is Err && r->Err_0 is UnknownOperation,
        has_ident(registry@, operation@) ==> {
            let op = operation_named(registry@, operation@)@;
            &&& (r is Err && r->Err_0 is Graph) <==> has_cycle(op.links) || !applicable(fleet@, op)
            &&& r is Ok <==> !has_cycle(op.links) && applicable(fleet@, op) && config.concurrency > 0
        },
        r is Err ==> *final(executor) == *old(executor) && *final(control) == *old(control),
{
    let op = match registry.lookup(operation) {
        Some(op) => op,
        None => {
            return Err(RunError::UnknownOperation(operation.clone()));
        },
    };
    proof {
        lemma_named(registry@, operation@, *op);
    }
    let graph = match build(fleet, op) {
        Ok(graph) => graph,
        Err(e) => {
            return Err(RunError::Graph(e));
        },
    };
    if config.concurrency == 0 {
        return Err(RunError::NoWorkers);
    }
    let ghost tasks = graph@;
    let mut sched = Scheduler::new(graph, config);
    let mut outcomes: Vec<TaskOutcome> = Vec::new();
    let n = sched.len();
    proof {
        let v = sched@;
        assert forall|t: int| 0 <= t < v.tasks.len() implies !(#[trigger] v.states[t]).is_terminal() && v.states[t]
            != TaskState::Running && v.states[t] != TaskState::Retrying by {
            assert(tasks_wf(tasks));
        }
        lemma_work_floor(v, n as int);
    }
    loop
        invariant
            fleet.wf(),
            op.wf(),
            covers(fleet@, op@, tasks),
            sched.wf(),
            sched@.tasks == tasks,
            n == tasks.len(),
            sched@.concurrency > 0,
            accounts(sched@, outcomes@),
            forall|t: int|
                0 <= t < tasks.len() ==> (#[trigger] sched@.states[t]) != TaskState::Running && sched@.states[t]
                    != TaskState::Retrying,
            work_left(sched@, n as int) >= 0,
        ensures
            sched.wf(),
            sched@.tasks == tasks,
            covers(fleet@, op@, tasks),
            accounts(sched@, outcomes@),
            forall|t: int| 0 <= t < tasks.len() ==> (#[trigger] sched@.states[t]).is_terminal(),
        decreases work_left(sched@, n as int),
    {
        if control.cancelled() && !sched.is_cancelled() {
            let now = control.now_ms();
            let ghost pre = sched@;
            let ghost had = outcomes@;
            let mut skipped = sched.cancel(now);
            proof {
                lemma_cancel_evolves(pre, sched@);
                lemma_accounts_step(pre, sched@, had, skipped@, now);
                lemma_cancel_work(pre, sched@);
                assert forall|t: int| 0 <= t < tasks.len() implies (#[trigger] sched@.states[t])
                    != TaskState::Running && sched@.states[t] != TaskState::Retrying by {
                    assert(bystander_step(pre, sched@, t, Reason::Cancelled));
                }
            }
            outcomes.append(&mut skipped);
        }
        let ghost mid = sched@;
        match sched.next_dispatch() {
            None => {
                proof {
                    let v = sched@;
                    lemma_work_floor(v, n as int);
                    lemma_count_none(v.states, is_running());
                    assert forall|t: int| 0 <= t < tasks.len() implies (#[trigger] v.states[t]).is_terminal() by {
                        assert(v.task_settled(t));
                        if !v.halted() {
                            lemma_no_stuck_pending(v, t);
                        }
                    }
                }
                break ;
            },
            Some(d) => {
                let ghost dispatched = sched@;
                proof {
                    lemma_dispatch_evolves(mid, dispatched, Some(d));
                    lemma_dispatch_work(mid, dispatched, d);
                    assert(task_of_pair(fleet@, op@, tasks[d.task as int]));
                    assert(accounts(dispatched, outcomes@)) by {
                        assert forall|t: int|
                            0 <= t < tasks.len() && (#[trigger] dispatched.states[t]).is_terminal() implies exists|
                            j: int,
                        | outcome_at(outcomes@, j, t) by {
                            assert(mid.states[t].is_terminal());
                        }
                    }
                }
                let node = fleet.node(d.node);
                let check = op.check(d.check);
                let attempt = executor.execute(node, check, d.attempt, d.timeout_ms);
                let now = control.now_ms();
                let jitter = control.jitter();
                let ghost had = outcomes@;
                match sched.complete_attempt(d.task, attempt.result, attempt.elapsed_ms, now, jitter) {
                    Ok(done) => {
                        let ghost completed = sched@;
                        let ghost failure = attempt_failure(
                            dispatched.tasks[d.task as int].timeout_ms,
                            attempt.elapsed_ms,
                            attempt.result,
                        );
                        let ghost message = attempt_message(
                            dispatched.tasks[d.task as int].timeout_ms,
                            attempt.elapsed_ms,
                            attempt.result,
                        );
                        proof {
                            lemma_completion_evolves(
                                dispatched,
                                completed,
                                d.task as int,
                                failure,
                                message,
                                attempt.elapsed_ms,
                            );
                            lemma_accounts_step(dispatched, completed, had, done.outcomes@, now);
                            lemma_completion_work(
                                dispatched,
                                completed,
                                d.task as int,
                                failure,
                                message,
                                attempt.elapsed_ms,
                            );
                            assert forall|t: int| 0 <= t < tasks.len() && t != d.task implies (
                            #[trigger] completed.states[t]) != TaskState::Running && completed.states[t]
                                != TaskState::Retrying by {
                                assert(bystander_step(dispatched, completed, t, Reason::RunAborted));
                            }
                        }
                        let mut resolved = done.outcomes;
                        outcomes.append(&mut resolved);
                        if done.state == TaskState::Retrying {
                            control.pause(done.backoff_ms);
                            sched.requeue(d.task);
                            proof {
                                lemma_requeue_evolves(completed, sched@, d.task as int);
                                lemma_requeue_work(completed, sched@, d.task as int);
                                assert(outcomes_of_step(completed.states, sched@, Seq::empty(), now)) by {
                                    assert forall|u: int| #[trigger]
                                        resolved_in_step(completed.states, sched@, u) implies false by {}
                                }
                                lemma_accounts_step(completed, sched@, outcomes@, Seq::empty(), now);
                                assert(outcomes@ + Seq::<TaskOutcome>::empty() =~= outcomes@);
                            }
                        }
                        proof {
                            lemma_work_floor(sched@, n as int);
                        }
                    },
                    Err(_) => {
                        assert(false);
                    },
                }
            },
        }
    }
    proof {
        lemma_accounts_all(fleet@, *op, sched@, outcomes@);
    }
    Ok(outcomes)
}

/// The operation that the registry was found to hold under a name is the
/// operation of that name.
proof fn lemma_named(registry: Seq<Operation>, name: Seq<char>, op: Operation)
    requires
        distinct_idents(registry),
        exists|i: int| 0 <= i < registry.len() && registry[i] == op && op@.name == name,
    ensures
        operation_named(registry, name) == op,
        has_ident(registry, name),
{
    let i = choose|i: int| 0 <= i < registry.len() && registry[i] == op && op@.name == name;
    assert(registry[i].ident() == name);
    let j = choose|j: int| 0 <= j < registry.len() && (#[trigger] registry[j]).ident() == name;
    if i < j {
        assert(registry[i].ident() != registry[j].ident());
    } else if j < i {
        assert(registry[j].ident() != registry[i].ident());
    }
}

/// Runs the operation on the fleet, one attempt after another, and reports
/// what became of every task: the outcomes by node and check, the counts
/// and the verdict under the failure policy of `config`.
pub fn run<E: CheckExecutor, C: RunControl>(
    fleet: &Fleet,
    registry: &CheckRegistry,
    operation: &String,
    config: RunConfig,
    executor: &mut E,
    control: &mut C,
) -> (r: Result<FleetReport, RunError>)
    requires
        fleet.wf(),
        registry.wf(),
    ensures
        match r {
            Ok(report) => {
                let op = operation_named(registry@, operation@)@;
                &&& report.wf(config.failure_policy)
                &&& forall|n: usize, c: usize| #[trigger]
                    has_pair(report.outcomes@, n, c) <==> n < fleet@.len() && c < op.checks.len() && applies(
                        fleet@,
                        op,
                        n as int,
                        c as int,
                    )
            },
            Err(RunError::UnknownOperation(name)) => name@ == operation@,
            Err(RunError::Graph(e)) => refused_by(fleet@, operation_named(registry@, operation@)@, e),
            Err(RunError::NoWorkers) => true,
        },
        !has_ident(registry@, operation@) <==> r is Err && r->Err_0 is UnknownOperation,
        has_ident(registry@, operation@) ==> {
            let op = operation_named(registry@, operation@)@;
            &&& (r is Err && r->Err_0 is Graph) <==> has_cycle(op.links) || !applicable(fleet@, op)
            &&& r is Ok <==> !has_cycle(op.links) && applicable(fleet@, op) && config.concurrency > 0
        },
        r is Err ==> *final(executor) == *old(executor) && *final(control) == *old(control),
{
    match run_streaming(fleet, registry, operation, config, executor, control) {
        Err(e) => Err(e),
        Ok(outcomes) => {
            let ghost given = outcomes@;
            let ghost op = operation_named(registry@, operation@);
            let report = aggregate(outcomes, config.failure_policy);
            proof {
                assert forall|n: usize, c: usize| #[trigger]
                    has_pair(report.outcomes@, n, c) <==> n < fleet@.len() && c < op@.checks.len() && applies(
                        fleet@,
                        op@,
                        n as int,
                        c as int,
                    ) by {
                    if has_pair(report.outcomes@, n, c) {
                        let j = choose|j: int|
                            0 <= j < report.outcomes.len() && (#[trigger] report.outcomes[j]).node == n
                                && report.outcomes[j].check == c;
                        assert(counts_in(given, report.outcomes[j]));
                        let i = choose|i: int| #[trigger]
                            last_of_pair(given, i) && given[i] == report.outcomes[j];
                        assert(given[i].node == n);
                    }
                    if n < fleet@.len() && c < op@.checks.len() && applies(fleet@, op@, n as int, c as int) {
                        assert(has_pair(given, n, c));
                        let i = choose|i: int|
                            0 <= i < given.len() && (#[trigger] given[i]).node == n && given[i].check == c;
                        assert(given[i].state.is_terminal());
                    }
                }
            }
            Ok(report)
        },
    }
}

} // verus!
