//! What holds of every run, whatever the executor reports and in whatever
//! order the reports come in.

use crate::count::lemma_count_update;
use crate::scheduler::{
    Dispatch, SchedulerView, bystander_step, cancel_step, completed_state, completion_step, dispatch_step,
    is_broken, is_running, requeue_step,
};
use crate::status::{ErrorKind, FailurePolicy, Reason, TaskState};
use vstd::prelude::*;

verus! {

/// A change of state that a task may make in one step.
pub open spec fn legal_move(a: TaskState, b: TaskState) -> bool {
    ||| a == b
    ||| a == TaskState::Pending && (b == TaskState::Ready || b == TaskState::Blocked || b
        == TaskState::Skipped)
    ||| a == TaskState::Ready && (b == TaskState::Running || b == TaskState::Skipped)
    ||| a == TaskState::Running && (b == TaskState::Succeeded || b == TaskState::Failed || b
        == TaskState::Retrying)
    ||| a == TaskState::Retrying && (b == TaskState::Ready || b == TaskState::Skipped)
}

/// From `pre` to `post` every task made a legal move, and no count of attempts fell.
pub open spec fn evolves(pre: SchedulerView, post: SchedulerView) -> bool {
    &&& post.tasks == pre.tasks
    &&& forall|t: int|
        0 <= t < pre.tasks.len() ==> legal_move(pre.states[t], #[trigger] post.states[t]) && pre.attempts[t]
            <= post.attempts[t]
}

/// A task in a final state stays in it: a legal move leads nowhere from there.
pub proof fn lemma_final_state_stays(pre: SchedulerView, post: SchedulerView, t: int)
    requires
        evolves(pre, post),
        0 <= t < pre.tasks.len(),
        pre.states[t].is_terminal(),
    ensures
        post.states[t] == pre.states[t],
{
    assert(legal_move(pre.states[t], post.states[t]));
}

/// Dispatching moves tasks legally.
pub proof fn lemma_dispatch_evolves(pre: SchedulerView, post: SchedulerView, r: Option<Dispatch>)
    requires
        pre.wf(),
        dispatch_step(pre, post, r),
    ensures
        evolves(pre, post),
{
}

/// Queueing a task again moves tasks legally.
pub proof fn lemma_requeue_evolves(pre: SchedulerView, post: SchedulerView, t: int)
    requires
        pre.wf(),
        0 <= t < pre.tasks.len(),
        pre.states[t] == TaskState::Retrying,
        requeue_step(pre, post, t),
    ensures
        evolves(pre, post),
{
}

/// Cancelling moves tasks legally.
pub proof fn lemma_cancel_evolves(pre: SchedulerView, post: SchedulerView)
    requires
        pre.wf(),
        cancel_step(pre, post),
    ensures
        evolves(pre, post),
{
    assert forall|t: int| 0 <= t < pre.tasks.len() implies legal_move(pre.states[t], #[trigger] post.states[t])
        && pre.attempts[t] <= post.attempts[t] by {
        assert(bystander_step(pre, post, t, Reason::Cancelled));
    }
}

/// The end of an attempt moves tasks legally.
pub proof fn lemma_completion_evolves(pre: SchedulerView, post: SchedulerView, t: int, failure: Option<ErrorKind>, message: Seq<char>, elapsed_ms: u64)
    requires
        pre.wf(),
        post.wf(),
        0 <= t < pre.tasks.len(),
        pre.states[t] == TaskState::Running,
        completion_step(pre, post, t, failure, message, elapsed_ms),
    ensures
        evolves(pre, post),
{
    assert forall|u: int| 0 <= u < pre.tasks.len() implies legal_move(pre.states[u], #[trigger] post.states[u])
        && pre.attempts[u] <= post.attempts[u] by {
        if u != t {
            assert(bystander_step(pre, post, u, Reason::RunAborted));
        }
    }
}

/// No more tasks run than the pool has workers: in every state of a run,
/// and so after every dispatch, which adds one running task only where the
/// pool has room.
pub proof fn lemma_pool_bound(pre: SchedulerView, post: SchedulerView, r: Option<Dispatch>)
    requires
        pre.wf(),
        dispatch_step(pre, post, r),
    ensures
        pre.running() <= pre.concurrency,
        post.running() <= post.concurrency,
        r is Some ==> post.running() == pre.running() + 1,
        r is None ==> post.running() == pre.running(),
{
    if r is Some {
        let t = r->0.task as int;
        lemma_count_update(pre.states, t, TaskState::Running, is_running());
    }
}

/// A task that depends on a task that failed, or that was blocked in turn,
/// is blocked and was never attempted, unless it had been skipped before,
/// when the run was stopped.
pub proof fn lemma_failed_dependency_blocks(v: SchedulerView, a: int, b: int)
    requires
        v.wf(),
        0 <= b < v.tasks.len(),
        exists|k: int| 0 <= k < v.tasks[b].deps.len() && #[trigger] v.tasks[b].deps[k] == a,
        is_broken(v.states[a]),
        v.states[b] != TaskState::Skipped,
    ensures
        v.states[b] == TaskState::Blocked,
        v.reasons[b] == Reason::UpstreamFailed,
        v.attempts[b] == 0,
{
    let k = choose|k: int| 0 <= k < v.tasks[b].deps.len() && #[trigger] v.tasks[b].deps[k] == a;
    assert(v.task_coherent(b));
    assert(v.task_settled(b));
    assert(v.states[v.tasks[b].deps[k] as int].is_dead());
}

/// When a task fails for good, the pending tasks that depend on it are
/// blocked in the same step.
pub proof fn lemma_failure_blocks_dependents(pre: SchedulerView, post: SchedulerView, t: int, failure: Option<ErrorKind>, message: Seq<char>, elapsed_ms: u64, u: int)
    requires
        pre.wf(),
        0 <= t < pre.tasks.len(),
        0 <= u < pre.tasks.len(),
        completion_step(pre, post, t, failure, message, elapsed_ms),
        post.states[t] == TaskState::Failed,
        exists|k: int| 0 <= k < pre.tasks[u].deps.len() && #[trigger] pre.tasks[u].deps[k] == t,
        pre.states[u] == TaskState::Pending,
    ensures
        post.states[u] == TaskState::Blocked,
        post.reasons[u] == Reason::UpstreamFailed,
        post.attempts[u] == 0,
{
    let k = choose|k: int| 0 <= k < pre.tasks[u].deps.len() && #[trigger] pre.tasks[u].deps[k] == t;
    assert(pre.tasks[u].deps[k] < u);
    assert(bystander_step(pre, post, u, Reason::RunAborted));
    assert(is_broken(post.states[post.tasks[u].deps[k] as int]));
    assert(pre.task_coherent(u));
}

/// Cancelling breaks no task: a task that is failed or blocked afterwards was so before.
proof fn lemma_cancel_breaks_none(pre: SchedulerView, post: SchedulerView, u: int)
    requires
        pre.wf(),
        cancel_step(pre, post),
        0 <= u < pre.tasks.len(),
        is_broken(post.states[u]),
    ensures
        is_broken(pre.states[u]),
    decreases u,
{
    assert(bystander_step(pre, post, u, Reason::Cancelled));
    if pre.states[u] == TaskState::Pending {
        let k = choose|k: int|
            0 <= k < post.tasks[u].deps.len() && is_broken(post.states[(#[trigger] post.tasks[u].deps[k]) as int]);
        let d = pre.tasks[u].deps[k] as int;
        assert(d < u);
        lemma_cancel_breaks_none(pre, post, d);
        assert(pre.task_settled(u));
        assert(pre.states[pre.tasks[u].deps[k] as int].is_dead());
    }
}

/// After a cancellation every task that waited is skipped with the reason
/// `Cancelled`, whether or not it had started before; a running task is
/// still running; and a task in a final state is as it was.
pub proof fn lemma_cancel_skips_waiting(pre: SchedulerView, post: SchedulerView, u: int)
    requires
        pre.wf(),
        cancel_step(pre, post),
        0 <= u < pre.tasks.len(),
    ensures
        pre.states[u].is_waiting() ==> post.states[u] == TaskState::Skipped && post.reasons[u]
            == Reason::Cancelled,
        !pre.states[u].is_waiting() ==> post.states[u] == pre.states[u] && post.reasons[u]
            == pre.reasons[u],
        post.attempts[u] == pre.attempts[u],
{
    assert(bystander_step(pre, post, u, Reason::Cancelled));
    if pre.states[u] == TaskState::Pending && post.dep_broken(u) {
        let k = choose|k: int|
            0 <= k < post.tasks[u].deps.len() && is_broken(post.states[(#[trigger] post.tasks[u].deps[k]) as int]);
        let d = pre.tasks[u].deps[k] as int;
        assert(d < u);
        lemma_cancel_breaks_none(pre, post, d);
        assert(pre.task_settled(u));
        assert(pre.states[pre.tasks[u].deps[k] as int].is_dead());
    }
}

/// A cancelled run stays cancelled, step after step.
pub proof fn lemma_cancelled_stays(pre: SchedulerView, post: SchedulerView, r: Option<Dispatch>, t: int, failure: Option<ErrorKind>, message: Seq<char>, elapsed_ms: u64)
    requires
        pre.cancelled,
        dispatch_step(pre, post, r) || requeue_step(pre, post, t) || cancel_step(pre, post)
            || completion_step(pre, post, t, failure, message, elapsed_ms),
    ensures
        post.cancelled,
{
}

/// Nothing is dispatched in a cancelled run.
pub proof fn lemma_no_dispatch_after_cancel(pre: SchedulerView, post: SchedulerView, r: Option<Dispatch>)
    requires
        pre.cancelled,
        dispatch_step(pre, post, r),
    ensures
        r is None,
        post == pre,
{
}

/// An attempt that was in flight when the run was stopped still settles its
/// task: with a success the task succeeds, with a failure it fails, and no
/// retry follows.
pub proof fn lemma_attempt_after_stop_is_final(pre: SchedulerView, post: SchedulerView, t: int, failure: Option<ErrorKind>, message: Seq<char>, elapsed_ms: u64)
    requires
        pre.halted(),
        completion_step(pre, post, t, failure, message, elapsed_ms),
    ensures
        post.states[t] == if failure is None {
            TaskState::Succeeded
        } else {
            TaskState::Failed
        },
{
}

/// Under the fail-fast policy the step in which a task fails for good stops
/// the run: of the tasks that waited, those that depend on a failed or
/// blocked task are blocked, and all the others are skipped with the reason
/// `RunAborted`. No task waits afterwards.
pub proof fn lemma_fail_fast_stops_run(pre: SchedulerView, post: SchedulerView, t: int, failure: Option<ErrorKind>, message: Seq<char>, elapsed_ms: u64, u: int)
    requires
        pre.wf(),
        pre.policy == FailurePolicy::FailFast,
        0 <= t < pre.tasks.len(),
        0 <= u < pre.tasks.len(),
        u != t,
        completion_step(pre, post, t, failure, message, elapsed_ms),
        post.states[t] == TaskState::Failed,
    ensures
        post.aborted,
        pre.states[u].is_waiting() ==> (post.states[u] == TaskState::Skipped && post.reasons[u]
            == Reason::RunAborted) || (post.states[u] == TaskState::Blocked && pre.states[u]
            == TaskState::Pending && post.dep_broken(u)),
        !pre.states[u].is_waiting() ==> post.states[u] == pre.states[u],
{
    assert(completed_state(pre, t, failure) == TaskState::Failed);
    assert(bystander_step(pre, post, u, Reason::RunAborted));
}

} // verus!
