//! The scheduler: a state machine over the tasks of one run.
//!
//! The scheduler decides; it does not execute. Whoever drives it asks for the
//! next task to dispatch, runs the attempt, and reports how the attempt
//! ended. Each step hands back the outcomes of the tasks it resolved.

use crate::backoff::{backoff_delay, backoff_delay_spec};
use crate::count::{count_of, lemma_count_none, lemma_count_update};
use crate::graph::{Task, TaskGraph};
use crate::status::{
    AttemptError, AttemptVerdict, ErrorKind, ExecResult, FailurePolicy, Reason, TaskState, attempt_failure,
    attempt_message, classify_attempt,
};
use vstd::prelude::*;

verus! {

/// How a run is to be carried out.
#[derive(Clone, Copy, Debug)]
pub struct RunConfig {
    /// The size of the worker pool: how many attempts may be in flight at once.
    pub concurrency: usize,
    pub failure_policy: FailurePolicy,
}

/// The predicate that a task is running.
pub open spec fn is_running() -> spec_fn(TaskState) -> bool {
    |s: TaskState| s == TaskState::Running
}

/// A state that blocks every dependent: the task failed, or was itself blocked.
pub open spec fn is_broken(s: TaskState) -> bool {
    s == TaskState::Failed || s == TaskState::Blocked
}

/// The state of a run, as the scheduler sees it.
pub struct SchedulerView {
    pub tasks: Seq<Task>,
    pub states: Seq<TaskState>,
    /// For each task, the number of attempts dispatched so far.
    pub attempts: Seq<u32>,
    pub reasons: Seq<Reason>,
    /// For each task, the errors of its failed attempts, oldest first.
    pub errors: Seq<Seq<AttemptError>>,
    /// For each task, the time its attempts have taken together, in milliseconds.
    pub elapsed: Seq<u64>,
    pub concurrency: usize,
    pub policy: FailurePolicy,
    /// The run was cancelled from outside.
    pub cancelled: bool,
    /// A task failed under the fail-fast policy.
    pub aborted: bool,
}

impl SchedulerView {
    /// The run was stopped: nothing new is dispatched.
    pub open spec fn halted(self) -> bool {
        self.cancelled || self.aborted
    }

    /// The number of tasks that are running.
    pub open spec fn running(self) -> nat {
        count_of(self.states, is_running())
    }

    /// Every dependency of task `t` has succeeded.
    pub open spec fn deps_succeeded(self, t: int) -> bool {
        forall|k: int|
            0 <= k < self.tasks[t].deps.len() ==> self.states[(#[trigger] self.tasks[t].deps[k]) as int]
                == TaskState::Succeeded
    }

    /// Some dependency of task `t` has failed or was blocked.
    pub open spec fn dep_broken(self, t: int) -> bool {
        exists|k: int|
            0 <= k < self.tasks[t].deps.len() && is_broken(
                self.states[(#[trigger] self.tasks[t].deps[k]) as int],
            )
    }

    /// Some dependency of task `t` did not succeed and never will.
    pub open spec fn dep_dead(self, t: int) -> bool {
        exists|k: int|
            0 <= k < self.tasks[t].deps.len() && self.states[(#[trigger] self.tasks[t].deps[k]) as int].is_dead()
    }

    /// A retry of task `t` is in order after a failed attempt: the check may
    /// be repeated, attempts are left, and the run has not been stopped.
    pub open spec fn may_retry(self, t: int) -> bool {
        self.tasks[t].idempotent && self.attempts[t] < self.tasks[t].retry.max_attempts && !self.halted()
    }

    /// What holds of one task at every moment, also in the middle of a step.
    pub open spec fn task_coherent(self, t: int) -> bool {
        let s = self.states[t];
        &&& s.is_started() ==> self.deps_succeeded(t)
        &&& s == TaskState::Blocked ==> self.dep_broken(t) && self.reasons[t] == Reason::UpstreamFailed
        &&& (s == TaskState::Pending || s == TaskState::Blocked) ==> self.attempts[t] == 0
        &&& (s == TaskState::Running || s == TaskState::Retrying || s == TaskState::Succeeded || s
            == TaskState::Failed) ==> self.attempts[t] >= 1
        &&& (s == TaskState::Ready || s == TaskState::Retrying) ==> self.attempts[t] == 0 || (
        self.tasks[t].idempotent && self.attempts[t] < self.tasks[t].retry.max_attempts)
        &&& s == TaskState::Running ==> self.attempts[t] == 1 || (self.tasks[t].idempotent
            && self.attempts[t] <= self.tasks[t].retry.max_attempts)
        &&& self.errors[t].len() + (if s == TaskState::Running || s == TaskState::Succeeded {
            1nat
        } else {
            0nat
        }) == self.attempts[t]
        &&& s == TaskState::Succeeded ==> self.reasons[t] == Reason::Passed
        &&& s == TaskState::Failed ==> self.reasons[t] == Reason::AttemptsExhausted || self.reasons[t]
            == Reason::NotIdempotent || self.reasons[t] == Reason::RunStopped
        &&& s == TaskState::Skipped ==> self.reasons[t] == Reason::RunAborted || self.reasons[t]
            == Reason::Cancelled
        &&& !s.is_terminal() ==> self.reasons[t] == Reason::Unresolved
    }

    /// What holds of one task between two steps: a pending task waits for a
    /// dependency that may still succeed, and after a stop no task waits.
    pub open spec fn task_settled(self, t: int) -> bool {
        &&& self.states[t] == TaskState::Pending ==> !self.dep_dead(t) && !self.deps_succeeded(t)
        &&& self.halted() ==> !self.states[t].is_waiting()
    }

    /// What holds at every moment, also in the middle of a step.
    pub open spec fn coherent(self) -> bool {
        &&& self.states.len() == self.tasks.len()
        &&& self.attempts.len() == self.tasks.len()
        &&& self.reasons.len() == self.tasks.len()
        &&& self.errors.len() == self.tasks.len()
        &&& self.elapsed.len() == self.tasks.len()
        &&& forall|t: int, k: int|
            0 <= t < self.tasks.len() && 0 <= k < self.tasks[t].deps.len() ==> (
            #[trigger] self.tasks[t].deps[k]) < t
        &&& self.running() <= self.concurrency
        &&& forall|t: int| 0 <= t < self.tasks.len() ==> #[trigger] self.task_coherent(t)
        &&& !self.halted() ==> forall|t: int|
            0 <= t < self.tasks.len() ==> (#[trigger] self.states[t]) != TaskState::Skipped
        &&& self.aborted <==> self.policy == FailurePolicy::FailFast && self.some_failed()
    }

    /// Some task has failed.
    pub open spec fn some_failed(self) -> bool {
        exists|t: int| 0 <= t < self.tasks.len() && (#[trigger] self.states[t]) == TaskState::Failed
    }

    /// What holds between any two steps of a run.
    pub open spec fn wf(self) -> bool {
        &&& self.coherent()
        &&& forall|t: int| 0 <= t < self.tasks.len() ==> #[trigger] self.task_settled(t)
    }

    /// The state in which a step leaves task `u`, which was in state `a` and
    /// is not the task that the step is about. A pending task is blocked
    /// where a dependency failed or was blocked, skipped where the run was
    /// stopped, ready where every dependency succeeded. A task that waits
    /// for a dispatch is skipped where the run was stopped. Any other task
    /// stays as it is. `self` is the run after the step.
    pub open spec fn settled_state(self, a: TaskState, u: int) -> TaskState {
        if a == TaskState::Pending {
            if self.dep_broken(u) {
                TaskState::Blocked
            } else if self.halted() {
                TaskState::Skipped
            } else if self.deps_succeeded(u) {
                TaskState::Ready
            } else {
                TaskState::Pending
            }
        } else if a == TaskState::Ready || a == TaskState::Retrying {
            if self.halted() {
                TaskState::Skipped
            } else {
                a
            }
        } else {
            a
        }
    }
}

/// What a step does to task `u`, which is not the task that the step is
/// about: its state becomes the settled one, with the reason that belongs to
/// it, and nothing else of it changes.
pub open spec fn bystander_step(pre: SchedulerView, post: SchedulerView, u: int, skip_reason: Reason) -> bool {
    &&& post.states[u] == post.settled_state(pre.states[u], u)
    &&& post.reasons[u] == if post.states[u] == pre.states[u] {
        pre.reasons[u]
    } else if post.states[u] == TaskState::Blocked {
        Reason::UpstreamFailed
    } else if post.states[u] == TaskState::Skipped {
        skip_reason
    } else {
        Reason::Unresolved
    }
    &&& post.attempts[u] == pre.attempts[u]
    &&& post.errors[u] == pre.errors[u]
    &&& post.elapsed[u] == pre.elapsed[u]
}

/// The parts of a run that no step changes.
pub open spec fn same_run(pre: SchedulerView, post: SchedulerView) -> bool {
    &&& post.tasks == pre.tasks
    &&& post.concurrency == pre.concurrency
    &&& post.policy == pre.policy
}

/// What the driver is to do next: run one attempt of a task.
#[derive(Clone, Copy, Debug)]
pub struct Dispatch {
    /// The position of the task in the graph.
    pub task: usize,
    /// The position of the node in the fleet.
    pub node: usize,
    /// The position of the check in the operation.
    pub check: usize,
    /// The number of this attempt, counted from 1.
    pub attempt: u32,
    /// The deadline of the attempt, in milliseconds from its start.
    pub timeout_ms: u64,
}

/// One step of dispatching: with `None` nothing changes, and the run is
/// stopped, the pool is full or no task is ready; else the first ready task
/// starts running and its attempt is counted.
pub open spec fn dispatch_step(pre: SchedulerView, post: SchedulerView, r: Option<Dispatch>) -> bool {
    match r {
        None => {
            &&& post == pre
            &&& pre.halted() || pre.running() >= pre.concurrency || forall|t: int|
                0 <= t < pre.tasks.len() ==> (#[trigger] pre.states[t]) != TaskState::Ready
        },
        Some(d) => {
            &&& !pre.halted()
            &&& pre.running() < pre.concurrency
            &&& d.task < pre.tasks.len()
            &&& pre.states[d.task as int] == TaskState::Ready
            &&& forall|t: int| 0 <= t < d.task ==> (#[trigger] pre.states[t]) != TaskState::Ready
            &&& d.node == pre.tasks[d.task as int].node
            &&& d.check == pre.tasks[d.task as int].check
            &&& d.timeout_ms == pre.tasks[d.task as int].timeout_ms
            &&& d.attempt == pre.attempts[d.task as int] + 1
            &&& post == SchedulerView {
                states: pre.states.update(d.task as int, TaskState::Running),
                attempts: pre.attempts.update(d.task as int, d.attempt),
                ..pre
            }
        },
    }
}

/// The scheduler of one run.
pub struct Scheduler {
    tasks: Vec<Task>,
    states: Vec<TaskState>,
    attempts: Vec<u32>,
    reasons: Vec<Reason>,
    errors: Vec<Vec<AttemptError>>,
    elapsed: Vec<u64>,
    running: usize,
    concurrency: usize,
    policy: FailurePolicy,
    cancelled: bool,
    aborted: bool,
}

impl View for Scheduler {
    type V = SchedulerView;

    closed spec fn view(&self) -> SchedulerView {
        SchedulerView {
            tasks: self.tasks@,
            states: self.states@,
            attempts: self.attempts@,
            reasons: self.reasons@,
            errors: Seq::new(self.errors.len() as nat, |t: int| self.errors[t]@),
            elapsed: self.elapsed@,
            concurrency: self.concurrency,
            policy: self.policy,
            cancelled: self.cancelled,
            aborted: self.aborted,
        }
    }
}

impl Scheduler {
    /// The scheduler keeps count of the running tasks.
    pub closed spec fn counted(&self) -> bool {
        self.running == self@.running()
    }

    /// What holds of a scheduler between any two steps.
    pub open spec fn wf(&self) -> bool {
        self@.wf() && self.counted()
    }

    /// A scheduler for the tasks of `graph`, each in the state in which the
    /// graph starts it, with no attempt made.
    pub fn new(graph: TaskGraph, config: RunConfig) -> (r: Scheduler)
        requires
            graph.wf(),
        ensures
            r.wf(),
            r@.tasks == graph@,
            r@.states == Seq::new(graph@.len(), |t: int| graph@[t].state),
            r@.attempts == Seq::new(graph@.len(), |t: int| 0u32),
            r@.reasons == Seq::new(graph@.len(), |t: int| Reason::Unresolved),
            r@.errors == Seq::new(graph@.len(), |t: int| Seq::<AttemptError>::empty()),
            r@.elapsed == Seq::new(graph@.len(), |t: int| 0u64),
            r@.concurrency == config.concurrency,
            r@.policy == config.failure_policy,
            !r@.cancelled,
            !r@.aborted,
    {
        let tasks = graph.into_tasks();
        let n = tasks.len();
        let mut states: Vec<TaskState> = Vec::new();
        let mut attempts: Vec<u32> = Vec::new();
        let mut reasons: Vec<Reason> = Vec::new();
        let mut errors: Vec<Vec<AttemptError>> = Vec::new();
        let mut elapsed: Vec<u64> = Vec::new();
        let mut t: usize = 0;
        while t < n
            invariant
                n == tasks.len(),
                t <= n,
                states.len() == t,
                attempts.len() == t,
                reasons.len() == t,
                errors.len() == t,
                elapsed.len() == t,
                forall|u: int| 0 <= u < t ==> states[u] == tasks[u].state,
                forall|u: int| 0 <= u < t ==> attempts[u] == 0,
                forall|u: int| 0 <= u < t ==> reasons[u] == Reason::Unresolved,
                forall|u: int| 0 <= u < t ==> (#[trigger] errors[u])@ == Seq::<AttemptError>::empty(),
                forall|u: int| 0 <= u < t ==> elapsed[u] == 0,
            decreases n - t,
        {
            states.push(tasks[t].state);
            attempts.push(0);
            reasons.push(Reason::Unresolved);
            errors.push(Vec::new());
            elapsed.push(0);
            t += 1;
        }
        let r = Scheduler {
            tasks,
            states,
            attempts,
            reasons,
            errors,
            elapsed,
            running: 0,
            concurrency: config.concurrency,
            policy: config.failure_policy,
            cancelled: false,
            aborted: false,
        };
        proof {
            let v = r@;
            lemma_count_none(v.states, is_running());
            assert(!v.some_failed());
            assert forall|u: int| 0 <= u < v.tasks.len() implies #[trigger] v.task_coherent(u) by {}
            assert forall|u: int| 0 <= u < v.tasks.len() implies #[trigger] v.task_settled(u) by {
                if v.tasks[u].deps.len() > 0 {
                    let d = v.tasks[u].deps[0];
                    assert(v.states[d as int] != TaskState::Succeeded);
                    assert forall|k: int| 0 <= k < v.tasks[u].deps.len() implies !v.states[(
                    #[trigger] v.tasks[u].deps[k]) as int].is_dead() by {
                        let d2 = v.tasks[u].deps[k];
                        assert(v.states[d2 as int] == v.tasks[d2 as int].state);
                    }
                }
            }
            assert(v.states =~= Seq::new(graph@.len(), |t: int| graph@[t].state));
            assert(v.attempts =~= Seq::new(graph@.len(), |t: int| 0u32));
            assert(v.reasons =~= Seq::new(graph@.len(), |t: int| Reason::Unresolved));
            assert(v.errors =~= Seq::new(graph@.len(), |t: int| Seq::<AttemptError>::empty()));
            assert(v.elapsed =~= Seq::new(graph@.len(), |t: int| 0u64));
        }
        r
    }

    pub fn len(&self) -> (r: usize)
        ensures
            r == self@.tasks.len(),
    {
        self.tasks.len()
    }

    pub fn task(&self, t: usize) -> (r: &Task)
        requires
            t < self@.tasks.len(),
        ensures
            *r == self@.tasks[t as int],
    {
        &self.tasks[t]
    }

    /// The state of task `t`, or `None` where the run holds no such task.
    pub fn state_of(&self, t: usize) -> (r: Option<TaskState>)
        requires
            self.wf(),
        ensures
            r == if t < self@.tasks.len() {
                Some(self@.states[t as int])
            } else {
                None
            },
    {
        if t < self.states.len() {
            Some(self.states[t])
        } else {
            None
        }
    }

    /// The number of attempts of task `t` dispatched so far.
    pub fn attempts_of(&self, t: usize) -> (r: Option<u32>)
        requires
            self.wf(),
        ensures
            r == if t < self@.tasks.len() {
                Some(self@.attempts[t as int])
            } else {
                None
            },
    {
        if t < self.attempts.len() {
            Some(self.attempts[t])
        } else {
            None
        }
    }

    /// The number of tasks that are running.
    pub fn running(&self) -> (r: usize)
        requires
            self.wf(),
        ensures
            r == self@.running(),
            r <= self@.concurrency,
    {
        self.running
    }

    pub fn is_cancelled(&self) -> (r: bool)
        ensures
            r == self@.cancelled,
    {
        self.cancelled
    }

    /// Whether the run was stopped, by cancellation or by a failure under the fail-fast policy.
    pub fn is_halted(&self) -> (r: bool)
        ensures
            r == self@.halted(),
    {
        self.cancelled || self.aborted
    }

    /// Whether every task has reached its final state.
    pub fn is_finished(&self) -> (r: bool)
        requires
            self.wf(),
        ensures
            r == forall|t: int| 0 <= t < self@.tasks.len() ==> (#[trigger] self@.states[t]).is_terminal(),
    {
        let mut t: usize = 0;
        while t < self.states.len()
            invariant
                self.wf(),
                t <= self.states.len(),
                forall|u: int| 0 <= u < t ==> (#[trigger] self.states[u]).is_terminal(),
            decreases self.states.len() - t,
        {
            if !self.states[t].terminal() {
                return false;
            }
            t += 1;
        }
        true
    }

    /// Picks the next task to run, if one may run now: the first task that
    /// is ready, unless the run was stopped or the pool is full.
    pub fn next_dispatch(&mut self) -> (r: Option<Dispatch>)
        requires
            old(self).wf(),
        ensures
            final(self).wf(),
            dispatch_step(old(self)@, final(self)@, r),
    {
        if self.cancelled || self.aborted || self.running >= self.concurrency {
            return None;
        }
        let mut t: usize = 0;
        while t < self.states.len()
            invariant
                self.wf(),
                t <= self.states.len(),
                *self == *old(self),
                !self.cancelled && !self.aborted && self.running < self.concurrency,
                forall|u: int| 0 <= u < t ==> (#[trigger] self.states[u]) != TaskState::Ready,
            decreases self.states.len() - t,
        {
            if self.states[t] == TaskState::Ready {
                let ghost pre = self@;
                proof {
                    assert(pre.task_coherent(t as int));
                    lemma_count_update(pre.states, t as int, TaskState::Running, is_running());
                }
                let attempt = self.attempts[t] + 1;
                self.states[t] = TaskState::Running;
                self.attempts[t] = attempt;
                self.running = self.running + 1;
                let d = Dispatch {
                    task: t,
                    node: self.tasks[t].node,
                    check: self.tasks[t].check,
                    attempt,
                    timeout_ms: self.tasks[t].timeout_ms,
                };
                proof {
                    let post = self@;
                    assert(post.errors =~= pre.errors);
                    assert(post == SchedulerView {
                        states: pre.states.update(t as int, TaskState::Running),
                        attempts: pre.attempts.update(t as int, attempt),
                        ..pre
                    });
                    lemma_kind_kept(pre, post, t as int);
                    lemma_failed_kept(pre, post);
                    assert forall|u: int| 0 <= u < post.tasks.len() implies #[trigger] post.task_coherent(
                        u,
                    ) by {
                        assert(pre.task_coherent(u));
                        assert(post.deps_succeeded(u) == pre.deps_succeeded(u));
                        assert(post.dep_broken(u) == pre.dep_broken(u));
                    }
                    assert forall|u: int| 0 <= u < post.tasks.len() implies #[trigger] post.task_settled(
                        u,
                    ) by {
                        assert(pre.task_settled(u));
                        assert(post.deps_succeeded(u) == pre.deps_succeeded(u));
                        assert(post.dep_dead(u) == pre.dep_dead(u));
                    }
                }
                return Some(d);
            }
            t += 1;
        }
        None
    }
}

/// Whether two states count alike for the tasks that depend on a task.
pub open spec fn same_kind(x: TaskState, y: TaskState) -> bool {
    &&& (x == TaskState::Succeeded) == (y == TaskState::Succeeded)
    &&& x.is_dead() == y.is_dead()
    &&& is_broken(x) == is_broken(y)
}

/// Where the dependencies of task `u` count alike in two runs, what is said
/// of them holds in both or in neither.
proof fn lemma_deps_agree(a: SchedulerView, b: SchedulerView, u: int)
    requires
        a.tasks == b.tasks,
        forall|k: int|
            0 <= k < a.tasks[u].deps.len() ==> same_kind(
                a.states[(#[trigger] a.tasks[u].deps[k]) as int],
                b.states[a.tasks[u].deps[k] as int],
            ),
    ensures
        a.deps_succeeded(u) == b.deps_succeeded(u),
        a.dep_dead(u) == b.dep_dead(u),
        a.dep_broken(u) == b.dep_broken(u),
{
    let deps = a.tasks[u].deps;
    if a.dep_dead(u) {
        let k = choose|k: int| 0 <= k < deps.len() && a.states[(#[trigger] a.tasks[u].deps[k]) as int].is_dead();
        assert(b.states[b.tasks[u].deps[k] as int].is_dead());
    }
    if b.dep_dead(u) {
        let k = choose|k: int| 0 <= k < deps.len() && b.states[(#[trigger] b.tasks[u].deps[k]) as int].is_dead();
        assert(a.states[a.tasks[u].deps[k] as int].is_dead());
    }
    if a.dep_broken(u) {
        let k = choose|k: int| 0 <= k < deps.len() && is_broken(a.states[(#[trigger] a.tasks[u].deps[k]) as int]);
        assert(is_broken(b.states[b.tasks[u].deps[k] as int]));
    }
    if b.dep_broken(u) {
        let k = choose|k: int| 0 <= k < deps.len() && is_broken(b.states[(#[trigger] b.tasks[u].deps[k]) as int]);
        assert(is_broken(a.states[a.tasks[u].deps[k] as int]));
    }
    if a.deps_succeeded(u) && !b.deps_succeeded(u) {
        let k = choose|k: int|
            0 <= k < deps.len() && b.states[(#[trigger] b.tasks[u].deps[k]) as int] != TaskState::Succeeded;
        assert(a.states[a.tasks[u].deps[k] as int] == TaskState::Succeeded);
    }
    if b.deps_succeeded(u) && !a.deps_succeeded(u) {
        let k = choose|k: int|
            0 <= k < deps.len() && a.states[(#[trigger] a.tasks[u].deps[k]) as int] != TaskState::Succeeded;
        assert(b.states[b.tasks[u].deps[k] as int] == TaskState::Succeeded);
    }
}

/// Where one task changes its state for one that counts alike, what is said
/// of the dependencies of any task holds after the change as before.
proof fn lemma_kind_kept(pre: SchedulerView, post: SchedulerView, t: int)
    requires
        pre.tasks == post.tasks,
        pre.states.len() == pre.tasks.len(),
        post.states.len() == pre.tasks.len(),
        0 <= t < pre.tasks.len(),
        forall|t2: int, k: int|
            0 <= t2 < pre.tasks.len() && 0 <= k < pre.tasks[t2].deps.len() ==> (
            #[trigger] pre.tasks[t2].deps[k]) < t2,
        forall|u: int| 0 <= u < pre.tasks.len() && u != t ==> post.states[u] == pre.states[u],
        same_kind(pre.states[t], post.states[t]),
    ensures
        forall|u: int|
            0 <= u < pre.tasks.len() ==> {
                &&& #[trigger] post.deps_succeeded(u) == pre.deps_succeeded(u)
                &&& #[trigger] post.dep_dead(u) == pre.dep_dead(u)
                &&& #[trigger] post.dep_broken(u) == pre.dep_broken(u)
            },
{
    assert forall|u: int| 0 <= u < pre.tasks.len() implies {
        &&& #[trigger] post.deps_succeeded(u) == pre.deps_succeeded(u)
        &&& #[trigger] post.dep_dead(u) == pre.dep_dead(u)
        &&& #[trigger] post.dep_broken(u) == pre.dep_broken(u)
    } by {
        assert forall|k: int| 0 <= k < pre.tasks[u].deps.len() implies same_kind(
            pre.states[(#[trigger] pre.tasks[u].deps[k]) as int],
            post.states[pre.tasks[u].deps[k] as int],
        ) by {}
        lemma_deps_agree(pre, post, u);
    }
}

/// A change that makes no task fail and no failed task anything else leaves
/// it as it was whether some task has failed.
proof fn lemma_failed_kept(pre: SchedulerView, post: SchedulerView)
    requires
        pre.tasks == post.tasks,
        forall|u: int|
            0 <= u < pre.tasks.len() ==> (#[trigger] post.states[u] == TaskState::Failed) == (pre.states[u]
                == TaskState::Failed),
    ensures
        post.some_failed() == pre.some_failed(),
{
    if pre.some_failed() {
        let u = choose|u: int| 0 <= u < pre.tasks.len() && (#[trigger] pre.states[u]) == TaskState::Failed;
        assert(post.states[u] == TaskState::Failed);
    }
    if post.some_failed() {
        let u = choose|u: int| 0 <= u < post.tasks.len() && (#[trigger] post.states[u]) == TaskState::Failed;
        assert(pre.states[u] == TaskState::Failed);
    }
}

/// The reason that settling records with the new state `b` of a task that was in state `a`.
pub open spec fn settled_reason(a: TaskState, b: TaskState, was: Reason, skip_reason: Reason) -> Reason {
    if b == a {
        was
    } else if b == TaskState::Blocked {
        Reason::UpstreamFailed
    } else if b == TaskState::Skipped {
        skip_reason
    } else {
        Reason::Unresolved
    }
}

/// In the middle of settling the run `x`: the tasks before `i` are settled,
/// the others are as they were.
pub open spec fn settling(x: SchedulerView, cur: SchedulerView, i: int, skip_reason: Reason) -> bool {
    &&& cur.coherent()
    &&& same_run(x, cur)
    &&& cur.cancelled == x.cancelled
    &&& cur.aborted == x.aborted
    &&& cur.attempts == x.attempts
    &&& cur.errors == x.errors
    &&& cur.elapsed == x.elapsed
    &&& 0 <= i <= cur.tasks.len()
    &&& forall|u: int| 0 <= u < i ==> #[trigger] cur.task_settled(u)
    &&& forall|u: int| 0 <= u < i ==> #[trigger] bystander_step(x, cur, u, skip_reason)
    &&& forall|u: int|
        i <= u < cur.tasks.len() ==> (#[trigger] cur.states[u]) == x.states[u] && cur.reasons[u]
            == x.reasons[u]
}

/// Settling task `i` keeps what holds in the middle of settling.
proof fn lemma_settle_one(x: SchedulerView, cur: SchedulerView, nxt: SchedulerView, i: int, skip_reason: Reason)
    requires
        settling(x, cur, i, skip_reason),
        i < cur.tasks.len(),
        skip_reason == Reason::RunAborted || skip_reason == Reason::Cancelled,
        nxt == (SchedulerView {
            states: cur.states.update(i, cur.settled_state(cur.states[i], i)),
            reasons: cur.reasons.update(
                i,
                settled_reason(
                    cur.states[i],
                    cur.settled_state(cur.states[i], i),
                    cur.reasons[i],
                    skip_reason,
                ),
            ),
            ..cur
        }),
    ensures
        settling(x, nxt, i + 1, skip_reason),
{
    let a = cur.states[i];
    let b = cur.settled_state(a, i);
    assert(cur.task_coherent(i));
    // No task before `i`, nor `i` itself, depends on `i` or on a later task.
    assert forall|u: int| 0 <= u <= i implies {
        &&& #[trigger] nxt.deps_succeeded(u) == cur.deps_succeeded(u)
        &&& #[trigger] nxt.dep_dead(u) == cur.dep_dead(u)
        &&& #[trigger] nxt.dep_broken(u) == cur.dep_broken(u)
    } by {
        assert forall|k: int| 0 <= k < cur.tasks[u].deps.len() implies same_kind(
            cur.states[(#[trigger] cur.tasks[u].deps[k]) as int],
            nxt.states[cur.tasks[u].deps[k] as int],
        ) by {
            assert(cur.tasks[u].deps[k] < u);
        }
        lemma_deps_agree(cur, nxt, u);
    }
    // A task after `i` keeps a dependency that succeeded, failed or was blocked.
    assert forall|u: int| 0 <= u < cur.tasks.len() && cur.deps_succeeded(u) implies nxt.deps_succeeded(u) by {
        assert forall|k: int| 0 <= k < nxt.tasks[u].deps.len() implies nxt.states[(
        #[trigger] nxt.tasks[u].deps[k]) as int] == TaskState::Succeeded by {
            assert(cur.states[cur.tasks[u].deps[k] as int] == TaskState::Succeeded);
        }
    }
    assert forall|u: int| 0 <= u < cur.tasks.len() && cur.dep_broken(u) implies nxt.dep_broken(u) by {
        let k = choose|k: int|
            0 <= k < cur.tasks[u].deps.len() && is_broken(cur.states[(#[trigger] cur.tasks[u].deps[k]) as int]);
        assert(is_broken(nxt.states[nxt.tasks[u].deps[k] as int]));
    }
    lemma_count_update(cur.states, i, b, is_running());
    lemma_failed_kept(cur, nxt);
    if !cur.halted() {
        assert forall|u: int| 0 <= u < cur.tasks.len() implies !cur.states[u].is_dead() || is_broken(
            cur.states[u],
        ) by {}
        if a == TaskState::Pending && !cur.dep_broken(i) && cur.dep_dead(i) {
            let k = choose|k: int|
                0 <= k < cur.tasks[i].deps.len() && cur.states[(#[trigger] cur.tasks[i].deps[k]) as int].is_dead();
            assert(is_broken(cur.states[cur.tasks[i].deps[k] as int]));
        }
    }
    assert forall|u: int| 0 <= u < nxt.tasks.len() implies #[trigger] nxt.task_coherent(u) by {
        assert(cur.task_coherent(u));
    }
    assert forall|u: int| 0 <= u < i + 1 implies #[trigger] nxt.task_settled(u) by {
        if u < i {
            assert(cur.task_settled(u));
        }
    }
    assert forall|u: int| 0 <= u < i + 1 implies #[trigger] bystander_step(x, nxt, u, skip_reason) by {
        if u < i {
            assert(bystander_step(x, cur, u, skip_reason));
        }
    }
}

/// A run in the middle of settling, with every task settled, is well formed.
proof fn lemma_settled(x: SchedulerView, cur: SchedulerView, skip_reason: Reason)
    requires
        settling(x, cur, cur.tasks.len() as int, skip_reason),
    ensures
        cur.wf(),
        forall|u: int| 0 <= u < cur.tasks.len() ==> #[trigger] bystander_step(x, cur, u, skip_reason),
{
}

/// What became of one task in a run.
#[derive(Debug)]
pub struct TaskOutcome {
    /// The position of the task in the graph.
    pub task: usize,
    /// The position of the node in the fleet.
    pub node: usize,
    /// The position of the check in the operation.
    pub check: usize,
    pub node_id: String,
    pub check_id: String,
    /// The final state of the task.
    pub state: TaskState,
    pub reason: Reason,
    /// The number of attempts made.
    pub attempts: u32,
    /// The errors of the failed attempts, oldest first.
    pub errors: Vec<AttemptError>,
    /// The time the attempts took together, in milliseconds.
    pub elapsed_ms: u64,
    /// When the task reached its final state.
    pub timestamp_ms: u64,
}

impl TaskOutcome {
    /// The kind of error that decided the outcome: that of the last failed
    /// attempt for a failed task, `Cancelled` for a task that was skipped
    /// because the run was cancelled, and none otherwise.
    pub open spec fn decisive_error(&self) -> Option<ErrorKind> {
        if self.state == TaskState::Failed && self.errors.len() > 0 {
            Some(self.errors@.last().kind)
        } else if self.state == TaskState::Skipped && self.reason == Reason::Cancelled {
            Some(ErrorKind::Cancelled)
        } else {
            None
        }
    }

    pub fn error_kind(&self) -> (r: Option<ErrorKind>)
        ensures
            r == self.decisive_error(),
    {
        if self.state == TaskState::Failed && self.errors.len() > 0 {
            Some(self.errors[self.errors.len() - 1].kind)
        } else if self.state == TaskState::Skipped && self.reason == Reason::Cancelled {
            Some(ErrorKind::Cancelled)
        } else {
            None
        }
    }
}

/// The outcome says of its task what the run `post` holds of it, and is stamped `now`.
pub open spec fn outcome_of(post: SchedulerView, o: TaskOutcome, now: u64) -> bool {
    let u = o.task as int;
    &&& u < post.tasks.len()
    &&& o.node == post.tasks[u].node
    &&& o.check == post.tasks[u].check
    &&& o.node_id@ == post.tasks[u].node_id@
    &&& o.check_id@ == post.tasks[u].check_id@
    &&& o.state == post.states[u]
    &&& o.reason == post.reasons[u]
    &&& o.attempts == post.attempts[u]
    &&& o.errors@ == post.errors[u]
    &&& o.elapsed_ms == post.elapsed[u]
    &&& o.timestamp_ms == now
}

/// Task `u` reached its final state between `before` and `post`.
pub open spec fn resolved_in_step(before: Seq<TaskState>, post: SchedulerView, u: int) -> bool {
    0 <= u < post.tasks.len() && !before[u].is_terminal() && post.states[u].is_terminal()
}

/// Outcome `i` is that of task `u`.
pub open spec fn outcome_at(outcomes: Seq<TaskOutcome>, i: int, u: int) -> bool {
    0 <= i < outcomes.len() && outcomes[i].task == u
}

/// The outcomes are those of the tasks that reached their final state in
/// the step from `before` to `post`: one for each, in the order of the tasks.
pub open spec fn outcomes_of_step(before: Seq<TaskState>, post: SchedulerView, outcomes: Seq<TaskOutcome>, now: u64) -> bool {
    &&& forall|i: int|
        0 <= i < outcomes.len() ==> outcome_of(post, #[trigger] outcomes[i], now) && resolved_in_step(
            before,
            post,
            outcomes[i].task as int,
        )
    &&& forall|i: int, j: int|
        0 <= i < j < outcomes.len() ==> (#[trigger] outcomes[i]).task < (#[trigger] outcomes[j]).task
    &&& forall|u: int| #[trigger]
        resolved_in_step(before, post, u) ==> exists|i: int| outcome_at(outcomes, i, u)
}

/// Cancelling a run: the run is marked cancelled, every task that waits is
/// skipped with the reason `Cancelled`, and every other task stays as it is.
pub open spec fn cancel_step(pre: SchedulerView, post: SchedulerView) -> bool {
    &&& same_run(pre, post)
    &&& post.cancelled
    &&& post.aborted == pre.aborted
    &&& forall|u: int| 0 <= u < pre.tasks.len() ==> #[trigger] bystander_step(pre, post, u, Reason::Cancelled)
}

impl Scheduler {
    /// A copy of the states of the tasks.
    fn snapshot(&self) -> (r: Vec<TaskState>)
        ensures
            r@ == self@.states,
    {
        let mut r: Vec<TaskState> = Vec::new();
        let mut t: usize = 0;
        while t < self.states.len()
            invariant
                t <= self.states.len(),
                r.len() == t,
                forall|u: int| 0 <= u < t ==> r[u] == self.states[u],
            decreases self.states.len() - t,
        {
            r.push(self.states[t]);
            t += 1;
        }
        assert(r@ =~= self.states@);
        r
    }

    /// Whether a dependency of task `t` failed or was blocked.
    fn has_broken_dep(&self, t: usize) -> (r: bool)
        requires
            self@.coherent(),
            t < self@.tasks.len(),
        ensures
            r == self@.dep_broken(t as int),
    {
        let deps = &self.tasks[t].deps;
        let mut k: usize = 0;
        while k < deps.len()
            invariant
                self@.coherent(),
                t < self@.tasks.len(),
                deps == self.tasks[t as int].deps,
                k <= deps.len(),
                forall|k2: int| 0 <= k2 < k ==> !is_broken(self.states[(#[trigger] deps[k2]) as int]),
            decreases deps.len() - k,
        {
            assert(self@.tasks[t as int].deps[k as int] < t);
            let s = self.states[deps[k]];
            if s == TaskState::Failed || s == TaskState::Blocked {
                return true;
            }
            k += 1;
        }
        false
    }

    /// Whether every dependency of task `t` has succeeded.
    fn all_deps_succeeded(&self, t: usize) -> (r: bool)
        requires
            self@.coherent(),
            t < self@.tasks.len(),
        ensures
            r == self@.deps_succeeded(t as int),
    {
        let deps = &self.tasks[t].deps;
        let mut k: usize = 0;
        while k < deps.len()
            invariant
                self@.coherent(),
                t < self@.tasks.len(),
                deps == self.tasks[t as int].deps,
                k <= deps.len(),
                forall|k2: int| 0 <= k2 < k ==> self.states[(#[trigger] deps[k2]) as int] == TaskState::Succeeded,
            decreases deps.len() - k,
        {
            assert(self@.tasks[t as int].deps[k as int] < t);
            if self.states[deps[k]] != TaskState::Succeeded {
                return false;
            }
            k += 1;
        }
        true
    }

    /// Brings every task that waits into the state that belongs to it, in one
    /// pass in the order of the tasks: a task stands behind the tasks it
    /// depends on.
    fn settle(&mut self, skip_reason: Reason)
        requires
            old(self)@.coherent(),
            old(self).counted(),
            skip_reason == Reason::RunAborted || skip_reason == Reason::Cancelled,
        ensures
            final(self).wf(),
            same_run(old(self)@, final(self)@),
            final(self)@.cancelled == old(self)@.cancelled,
            final(self)@.aborted == old(self)@.aborted,
            forall|u: int|
                0 <= u < old(self)@.tasks.len() ==> #[trigger] bystander_step(
                    old(self)@,
                    final(self)@,
                    u,
                    skip_reason,
                ),
    {
        let ghost x = self@;
        let n = self.tasks.len();
        let halted = self.cancelled || self.aborted;
        let mut i: usize = 0;
        while i < n
            invariant
                n == self@.tasks.len(),
                halted == self@.halted(),
                skip_reason == Reason::RunAborted || skip_reason == Reason::Cancelled,
                settling(x, self@, i as int, skip_reason),
                self.counted(),
            decreases n - i,
        {
            let ghost cur = self@;
            let a = self.states[i];
            let b = match a {
                TaskState::Pending => {
                    if self.has_broken_dep(i) {
                        TaskState::Blocked
                    } else if halted {
                        TaskState::Skipped
                    } else if self.all_deps_succeeded(i) {
                        TaskState::Ready
                    } else {
                        TaskState::Pending
                    }
                },
                TaskState::Ready | TaskState::Retrying => {
                    if halted {
                        TaskState::Skipped
                    } else {
                        a
                    }
                },
                _ => a,
            };
            let reason = if b == a {
                self.reasons[i]
            } else {
                match b {
                    TaskState::Blocked => Reason::UpstreamFailed,
                    TaskState::Skipped => skip_reason,
                    _ => Reason::Unresolved,
                }
            };
            self.states[i] = b;
            self.reasons[i] = reason;
            proof {
                let nxt = self@;
                assert(nxt.errors =~= cur.errors);
                assert(nxt == SchedulerView {
                    states: cur.states.update(i as int, b),
                    reasons: cur.reasons.update(i as int, reason),
                    ..cur
                });
                lemma_settle_one(x, cur, nxt, i as int, skip_reason);
                lemma_count_update(cur.states, i as int, b, is_running());
            }
            i += 1;
        }
        proof {
            lemma_settled(x, self@, skip_reason);
        }
    }

    /// The outcomes of the tasks that reached their final state since `before` was taken.
    fn collect_outcomes(&self, before: &Vec<TaskState>, now_ms: u64) -> (r: Vec<TaskOutcome>)
        requires
            self.wf(),
            before.len() == self@.tasks.len(),
        ensures
            outcomes_of_step(before@, self@, r@, now_ms),
    {
        let mut outcomes: Vec<TaskOutcome> = Vec::new();
        let mut u: usize = 0;
        while u < self.tasks.len()
            invariant
                self.wf(),
                before.len() == self@.tasks.len(),
                u <= self@.tasks.len(),
                forall|i: int|
                    0 <= i < outcomes.len() ==> outcome_of(self@, #[trigger] outcomes[i], now_ms)
                        && resolved_in_step(before@, self@, outcomes[i].task as int) && outcomes[i].task < u,
                forall|i: int, j: int|
                    0 <= i < j < outcomes.len() ==> (#[trigger] outcomes[i]).task < (#[trigger] outcomes[j]).task,
                forall|u2: int|
                    0 <= u2 < u && #[trigger] resolved_in_step(before@, self@, u2) ==> exists|i: int|
                        outcome_at(outcomes@, i, u2),
            decreases self@.tasks.len() - u,
        {
            if !before[u].terminal() && self.states[u].terminal() {
                let errors = self.errors_of(u);
                let task = &self.tasks[u];
                let outcome = TaskOutcome {
                    task: u,
                    node: task.node,
                    check: task.check,
                    node_id: task.node_id.clone(),
                    check_id: task.check_id.clone(),
                    state: self.states[u],
                    reason: self.reasons[u],
                    attempts: self.attempts[u],
                    errors,
                    elapsed_ms: self.elapsed[u],
                    timestamp_ms: now_ms,
                };
                let ghost prev = outcomes@;
                outcomes.push(outcome);
                proof {
                    assert forall|u2: int|
                        0 <= u2 < u + 1 && #[trigger] resolved_in_step(
                            before@,
                            self@,
                            u2,
                        ) implies exists|i: int| outcome_at(outcomes@, i, u2) by {
                        if u2 < u {
                            let i = choose|i: int| outcome_at(prev, i, u2);
                            assert(outcome_at(outcomes@, i, u2));
                        } else {
                            assert(outcome_at(outcomes@, prev.len() as int, u2));
                        }
                    }
                }
            }
            u += 1;
        }
        outcomes
    }

    /// A copy of the errors of the failed attempts of task `t`.
    fn errors_of(&self, t: usize) -> (r: Vec<AttemptError>)
        requires
            self.wf(),
            t < self@.tasks.len(),
        ensures
            r@ == self@.errors[t as int],
    {
        let list = &self.errors[t];
        let mut r: Vec<AttemptError> = Vec::new();
        let mut i: usize = 0;
        while i < list.len()
            invariant
                i <= list.len(),
                r.len() == i,
                forall|j: int| 0 <= j < i ==> r[j] == list[j],
            decreases list.len() - i,
        {
            r.push(list[i].duplicate());
            i += 1;
        }
        assert(r@ =~= list@);
        r
    }

    /// Cancels the run. Nothing is dispatched from now on. Every task that
    /// waits, whether it has never started or waits for a retry, is skipped
    /// with the reason `Cancelled`; attempts in flight go on, and their
    /// results are still taken. The outcomes of the skipped tasks are handed
    /// back, stamped `now_ms`.
    pub fn cancel(&mut self, now_ms: u64) -> (r: Vec<TaskOutcome>)
        requires
            old(self).wf(),
        ensures
            final(self).wf(),
            cancel_step(old(self)@, final(self)@),
            outcomes_of_step(old(self)@.states, final(self)@, r@, now_ms),
    {
        let before = self.snapshot();
        let ghost pre = self@;
        self.cancelled = true;
        proof {
            let mid = self@;
            assert(mid.errors =~= pre.errors);
            assert(mid == SchedulerView { cancelled: true, ..pre });
            assert forall|u: int| 0 <= u < mid.tasks.len() implies #[trigger] mid.task_coherent(u) by {
                assert(pre.task_coherent(u));
                assert(mid.deps_succeeded(u) == pre.deps_succeeded(u));
                assert(mid.dep_broken(u) == pre.dep_broken(u));
            }
            assert(mid.some_failed() == pre.some_failed());
            if !pre.halted() {
                assert forall|u: int| 0 <= u < mid.tasks.len() implies (#[trigger] mid.states[u])
                    != TaskState::Skipped by {
                    assert(pre.states[u] != TaskState::Skipped);
                }
            }
        }
        self.settle(Reason::Cancelled);
        proof {
            let mid = SchedulerView { cancelled: true, ..pre };
            let post = self@;
            assert forall|u: int| 0 <= u < pre.tasks.len() implies #[trigger] bystander_step(
                pre,
                post,
                u,
                Reason::Cancelled,
            ) by {
                assert(bystander_step(mid, post, u, Reason::Cancelled));
            }
        }
        self.collect_outcomes(&before, now_ms)
    }
}

/// Why the scheduler did not take the report of an attempt.
#[derive(Clone, Copy, Debug, PartialEq, Eq, Structural)]
pub enum SchedulerError {
    /// The run holds no task at this position.
    UnknownTask,
    /// The task has no attempt in flight.
    NotRunning,
}

/// What the scheduler made of the report of an attempt.
#[derive(Debug)]
pub struct Completion {
    /// The state of the task now: `Succeeded`, `Failed`, or `Retrying`.
    pub state: TaskState,
    /// Where the task is `Retrying`, the delay after which it is to be
    /// queued again, in milliseconds; else 0.
    pub backoff_ms: u64,
    /// The outcomes of the tasks that the step resolved.
    pub outcomes: Vec<TaskOutcome>,
}

/// The reason recorded with a task whose failed attempt is not followed by a retry.
pub open spec fn failure_reason(pre: SchedulerView, t: int) -> Reason {
    if !pre.tasks[t].idempotent {
        Reason::NotIdempotent
    } else if pre.attempts[t] >= pre.tasks[t].retry.max_attempts {
        Reason::AttemptsExhausted
    } else {
        Reason::RunStopped
    }
}

/// The state of task `t` after its attempt ended with `failure`: a success
/// settles it; a failure is followed by a retry where one is in order, and
/// is final otherwise.
pub open spec fn completed_state(pre: SchedulerView, t: int, failure: Option<ErrorKind>) -> TaskState {
    match failure {
        None => TaskState::Succeeded,
        Some(_) => if pre.may_retry(t) {
            TaskState::Retrying
        } else {
            TaskState::Failed
        },
    }
}

/// The reason recorded with task `t` after its attempt ended with `failure`.
pub open spec fn completed_reason(pre: SchedulerView, t: int, failure: Option<ErrorKind>) -> Reason {
    match failure {
        None => Reason::Passed,
        Some(_) => if pre.may_retry(t) {
            Reason::Unresolved
        } else {
            failure_reason(pre, t)
        },
    }
}

/// The sum of two times, or the largest time where the sum is larger.
pub open spec fn add_saturating(a: u64, b: u64) -> u64 {
    if a + b > u64::MAX {
        u64::MAX
    } else {
        (a + b) as u64
    }
}

/// The step in which the attempt of task `t` ends, with `failure` and
/// `message` as the attempt was judged, after `elapsed_ms`.
///
/// The task succeeds, fails for good, or waits for a retry. A failure for
/// good under the fail-fast policy stops the run. Every other task is
/// settled: the tasks that depend on a failed task are blocked, and on them
/// those that depend on these; where the run is stopped, the tasks that
/// still wait are skipped with the reason `RunAborted`; a pending task
/// whose dependencies have all succeeded becomes ready.
pub open spec fn completion_step(pre: SchedulerView, post: SchedulerView, t: int, failure: Option<ErrorKind>, message: Seq<char>, elapsed_ms: u64) -> bool {
    &&& same_run(pre, post)
    &&& post.cancelled == pre.cancelled
    &&& post.aborted == (pre.aborted || (pre.policy == FailurePolicy::FailFast && completed_state(
        pre,
        t,
        failure,
    ) == TaskState::Failed))
    &&& post.states[t] == completed_state(pre, t, failure)
    &&& post.reasons[t] == completed_reason(pre, t, failure)
    &&& post.attempts[t] == pre.attempts[t]
    &&& post.elapsed[t] == add_saturating(pre.elapsed[t], elapsed_ms)
    &&& match failure {
        None => post.errors[t] == pre.errors[t],
        Some(kind) => {
            &&& post.errors[t].len() == pre.errors[t].len() + 1
            &&& post.errors[t].drop_last() == pre.errors[t]
            &&& post.errors[t].last().attempt == pre.attempts[t]
            &&& post.errors[t].last().kind == kind
            &&& post.errors[t].last().message@ == message
        },
    }
    &&& forall|u: int|
        0 <= u < pre.tasks.len() && u != t ==> #[trigger] bystander_step(pre, post, u, Reason::RunAborted)
}

/// The step in which task `t`, whose backoff delay is over, is queued again.
pub open spec fn requeue_step(pre: SchedulerView, post: SchedulerView, t: int) -> bool {
    post == (SchedulerView { states: pre.states.update(t, TaskState::Ready), ..pre })
}

/// The run after the attempt of task `t` has ended and before the other tasks are settled.
proof fn lemma_completed_coherent(pre: SchedulerView, mid: SchedulerView, t: int)
    requires
        pre.wf(),
        0 <= t < pre.tasks.len(),
        pre.states[t] == TaskState::Running,
        same_run(pre, mid),
        mid.cancelled == pre.cancelled,
        mid.states.len() == pre.states.len(),
        mid.reasons.len() == pre.reasons.len(),
        mid.attempts == pre.attempts,
        mid.errors.len() == pre.errors.len(),
        mid.elapsed.len() == pre.elapsed.len(),
        forall|u: int|
            0 <= u < pre.tasks.len() && u != t ==> mid.states[u] == pre.states[u] && mid.reasons[u]
                == pre.reasons[u] && mid.errors[u] == pre.errors[u],
        mid.errors[t].len() == if mid.states[t] == TaskState::Succeeded {
            pre.errors[t].len()
        } else {
            pre.errors[t].len() + 1
        },
        mid.states[t] == TaskState::Succeeded || mid.states[t] == TaskState::Failed || mid.states[t]
            == TaskState::Retrying,
        mid.states[t] == TaskState::Succeeded ==> mid.reasons[t] == Reason::Passed,
        mid.states[t] == TaskState::Failed ==> mid.reasons[t] == failure_reason(pre, t),
        mid.states[t] == TaskState::Retrying ==> mid.reasons[t] == Reason::Unresolved && pre.may_retry(t),
        mid.aborted == (pre.aborted || (pre.policy == FailurePolicy::FailFast && mid.states[t]
            == TaskState::Failed)),
    ensures
        mid.coherent(),
        mid.running() + 1 == pre.running(),
{
    assert(pre.task_coherent(t));
    assert(mid.states =~= pre.states.update(t, mid.states[t]));
    lemma_count_update(pre.states, t, mid.states[t], is_running());
    // No task that has started, and no blocked task, owes that to task `t`,
    // which was running.
    assert forall|u: int| 0 <= u < pre.tasks.len() && pre.deps_succeeded(u) implies mid.deps_succeeded(u) by {
        assert forall|k: int| 0 <= k < mid.tasks[u].deps.len() implies mid.states[(
        #[trigger] mid.tasks[u].deps[k]) as int] == TaskState::Succeeded by {
            assert(pre.states[pre.tasks[u].deps[k] as int] == TaskState::Succeeded);
        }
    }
    assert forall|u: int| 0 <= u < pre.tasks.len() && pre.dep_broken(u) implies mid.dep_broken(u) by {
        let k = choose|k: int|
            0 <= k < pre.tasks[u].deps.len() && is_broken(pre.states[(#[trigger] pre.tasks[u].deps[k]) as int]);
        assert(is_broken(mid.states[mid.tasks[u].deps[k] as int]));
    }
    assert forall|u: int| 0 <= u < mid.tasks.len() implies #[trigger] mid.task_coherent(u) by {
        assert(pre.task_coherent(u));
    }
    if mid.states[t] == TaskState::Failed {
        assert(mid.some_failed());
    } else {
        lemma_failed_kept(pre, mid);
    }
    if !mid.halted() {
        assert forall|u: int| 0 <= u < mid.tasks.len() implies (#[trigger] mid.states[u])
            != TaskState::Skipped by {
            assert(pre.states[u] != TaskState::Skipped);
        }
    }
}

impl Scheduler {
    /// Takes the report of the attempt of task `task` that was in flight.
    ///
    /// `result` is what the executor handed back, `elapsed_ms` the time the
    /// attempt took, `now_ms` the time of the report, and `jitter` any
    /// number, drawn for this report, that shortens the delay before a retry.
    ///
    /// The attempt is judged first: it has failed where it took longer than
    /// the timeout of the check, whatever was reported. A failure is
    /// followed by a retry where the check may be repeated, attempts are
    /// left and the run has not been stopped. A report for a task that is
    /// not running is refused and changes nothing.
    pub fn complete_attempt(
        &mut self,
        task: usize,
        result: ExecResult,
        elapsed_ms: u64,
        now_ms: u64,
        jitter: u64,
    ) -> (r: Result<Completion, SchedulerError>)
        requires
            old(self).wf(),
        ensures
            final(self).wf(),
            r is Ok <==> task < old(self)@.tasks.len() && old(self)@.states[task as int]
                == TaskState::Running,
            r matches Err(e) ==> final(self)@ == old(self)@ && e == if task < old(self)@.tasks.len() {
                SchedulerError::NotRunning
            } else {
                SchedulerError::UnknownTask
            },
            r matches Ok(done) ==> {
                &&& completion_step(
                    old(self)@,
                    final(self)@,
                    task as int,
                    attempt_failure(old(self)@.tasks[task as int].timeout_ms, elapsed_ms, result),
                    attempt_message(old(self)@.tasks[task as int].timeout_ms, elapsed_ms, result),
                    elapsed_ms,
                )
                &&& done.state == final(self)@.states[task as int]
                &&& done.backoff_ms == if done.state == TaskState::Retrying {
                    backoff_delay_spec(
                        old(self)@.tasks[task as int].retry,
                        old(self)@.attempts[task as int],
                        jitter,
                    )
                } else {
                    0
                }
                &&& outcomes_of_step(old(self)@.states, final(self)@, done.outcomes@, now_ms)
            },
    {
        if task >= self.tasks.len() {
            return Err(SchedulerError::UnknownTask);
        }
        if self.states[task] != TaskState::Running {
            return Err(SchedulerError::NotRunning);
        }
        let before = self.snapshot();
        let ghost pre = self@;
        let ghost failure = attempt_failure(pre.tasks[task as int].timeout_ms, elapsed_ms, result);
        let ghost message = attempt_message(pre.tasks[task as int].timeout_ms, elapsed_ms, result);
        proof {
            assert(pre.task_coherent(task as int));
            lemma_count_update(pre.states, task as int, TaskState::Succeeded, is_running());
        }
        let verdict = classify_attempt(self.tasks[task].timeout_ms, elapsed_ms, result);
        let attempts = self.attempts[task];
        let total = self.elapsed[task].saturating_add(elapsed_ms);
        self.elapsed[task] = total;
        let mut backoff_ms: u64 = 0;
        match verdict {
            AttemptVerdict::Passed => {
                self.states[task] = TaskState::Succeeded;
                self.reasons[task] = Reason::Passed;
            },
            AttemptVerdict::Failed { kind, message } => {
                self.errors[task].push(AttemptError { attempt: attempts, kind, message });
                let idempotent = self.tasks[task].idempotent;
                let max_attempts = self.tasks[task].retry.max_attempts;
                if idempotent && attempts < max_attempts && !self.cancelled && !self.aborted {
                    self.states[task] = TaskState::Retrying;
                    backoff_ms = backoff_delay(&self.tasks[task].retry, attempts, jitter);
                } else {
                    let reason = if !idempotent {
                        Reason::NotIdempotent
                    } else if attempts >= max_attempts {
                        Reason::AttemptsExhausted
                    } else {
                        Reason::RunStopped
                    };
                    self.states[task] = TaskState::Failed;
                    self.reasons[task] = reason;
                    if self.policy == FailurePolicy::FailFast {
                        self.aborted = true;
                    }
                }
            },
        }
        self.running = self.running - 1;
        let ghost mid = self@;
        proof {
            lemma_completed_coherent(pre, mid, task as int);
        }
        self.settle(Reason::RunAborted);
        proof {
            let post = self@;
            assert(bystander_step(mid, post, task as int, Reason::RunAborted));
            assert forall|u: int| 0 <= u < pre.tasks.len() && u != task implies #[trigger] bystander_step(
                pre,
                post,
                u,
                Reason::RunAborted,
            ) by {
                assert(bystander_step(mid, post, u, Reason::RunAborted));
                assert(mid.errors[u] == pre.errors[u]);
            }
            assert(mid.errors[task as int] == self.errors[task as int]@);
            if failure is Some {
                assert(mid.errors[task as int].drop_last() =~= pre.errors[task as int]);
            }
        }
        let outcomes = self.collect_outcomes(&before, now_ms);
        Ok(Completion { state: self.states[task], backoff_ms, outcomes })
    }

    /// Queues task `task` again once its backoff delay is over. Answers
    /// whether the task was waiting for a retry; where it was not, nothing changes.
    pub fn requeue(&mut self, task: usize) -> (r: bool)
        requires
            old(self).wf(),
        ensures
            final(self).wf(),
            r == (task < old(self)@.tasks.len() && old(self)@.states[task as int] == TaskState::Retrying),
            r ==> requeue_step(old(self)@, final(self)@, task as int),
            !r ==> final(self)@ == old(self)@,
    {
        if task >= self.tasks.len() {
            return false;
        }
        if self.states[task] != TaskState::Retrying {
            return false;
        }
        let ghost pre = self@;
        self.states[task] = TaskState::Ready;
        proof {
            let post = self@;
            assert(post.errors =~= pre.errors);
            assert(post == SchedulerView { states: pre.states.update(task as int, TaskState::Ready), ..pre });
            assert(pre.task_settled(task as int));
            lemma_count_update(pre.states, task as int, TaskState::Ready, is_running());
            lemma_kind_kept(pre, post, task as int);
            lemma_failed_kept(pre, post);
            assert forall|u: int| 0 <= u < post.tasks.len() implies #[trigger] post.task_coherent(u) by {
                assert(pre.task_coherent(u));
                assert(post.deps_succeeded(u) == pre.deps_succeeded(u));
                assert(post.dep_broken(u) == pre.dep_broken(u));
            }
            assert forall|u: int| 0 <= u < post.tasks.len() implies #[trigger] post.task_settled(u) by {
                assert(pre.task_settled(u));
                assert(post.deps_succeeded(u) == pre.deps_succeeded(u));
                assert(post.dep_dead(u) == pre.dep_dead(u));
            }
        }
        true
    }
}

} // verus!
