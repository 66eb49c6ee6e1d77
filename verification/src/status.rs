//! Task states, attempt results and the reasons recorded with an outcome.

use vstd::prelude::*;

verus! {

/// The life cycle of a task.
///
/// `Succeeded`, `Failed`, `Skipped` and `Blocked` are terminal: a task that
/// reaches one of them never changes again.
#[derive(Clone, Copy, Debug, PartialEq, Eq, Structural)]
pub enum TaskState {
    /// Waiting for a dependency on the same node.
    Pending,
    /// All dependencies succeeded; may be dispatched.
    Ready,
    /// An attempt is in flight.
    Running,
    /// The last attempt failed and a retry is waiting out its backoff delay.
    Retrying,
    Succeeded,
    Failed,
    Skipped,
    Blocked,
}

impl TaskState {
    /// A terminal state never changes again.
    pub open spec fn is_terminal(self) -> bool {
        self == TaskState::Succeeded || self == TaskState::Failed || self == TaskState::Skipped
            || self == TaskState::Blocked
    }

    /// A state that blocks every dependent: the task did not succeed and never will.
    pub open spec fn is_dead(self) -> bool {
        self == TaskState::Failed || self == TaskState::Skipped || self == TaskState::Blocked
    }

    /// A state in which the task waits for a dispatch that a stop of the run takes away.
    pub open spec fn is_waiting(self) -> bool {
        self == TaskState::Pending || self == TaskState::Ready || self == TaskState::Retrying
    }

    /// A state that is only entered after every dependency has succeeded.
    pub open spec fn is_started(self) -> bool {
        self == TaskState::Ready || self == TaskState::Running || self == TaskState::Retrying
            || self == TaskState::Succeeded || self == TaskState::Failed
    }

    pub fn terminal(self) -> (r: bool)
        ensures
            r == self.is_terminal(),
    {
        match self {
            TaskState::Succeeded | TaskState::Failed | TaskState::Skipped | TaskState::Blocked => true,
            _ => false,
        }
    }
}

/// What the run does with unrelated work once a task has failed.
#[derive(Clone, Copy, Debug, PartialEq, Eq, Structural)]
pub enum FailurePolicy {
    /// The first failure stops the run: every task not in flight is skipped.
    FailFast,
    /// Independent branches go on regardless of failures elsewhere.
    BestEffort,
}

impl Default for FailurePolicy {
    fn default() -> (r: FailurePolicy)
        ensures
            r == FailurePolicy::BestEffort,
    {
        FailurePolicy::BestEffort
    }
}

/// Why an attempt, or a task, did not succeed.
#[derive(Clone, Copy, Debug, PartialEq, Eq, Structural)]
pub enum ErrorKind {
    /// The attempt ran longer than the check's timeout.
    Timeout,
    /// The executor could not reach the node.
    TransportFailure,
    /// The check ran and reported a failure.
    CheckFailed,
    /// The run was cancelled before the task could start.
    Cancelled,
}

/// Why a task ended in its final state.
#[derive(Clone, Copy, Debug, PartialEq, Eq, Structural)]
pub enum Reason {
    /// The task has not ended yet.
    Unresolved,
    /// An attempt succeeded.
    Passed,
    /// The last allowed attempt failed.
    AttemptsExhausted,
    /// An attempt failed and the check is not safe to repeat.
    NotIdempotent,
    /// An attempt failed after the run had been stopped, so no retry was made.
    RunStopped,
    /// A dependency on the same node failed, was skipped or was blocked.
    UpstreamFailed,
    /// Another task failed under the fail-fast policy.
    RunAborted,
    /// The run was cancelled from outside.
    Cancelled,
}

impl Reason {
    /// The text shown to a person who reads the report.
    pub open spec fn text_spec(self) -> Seq<char> {
        match self {
            Reason::Unresolved => "unresolved"@,
            Reason::Passed => "check passed"@,
            Reason::AttemptsExhausted => "attempts exhausted"@,
            Reason::NotIdempotent => "retry not safe"@,
            Reason::RunStopped => "run stopped before retry"@,
            Reason::UpstreamFailed => "upstream dependency failed"@,
            Reason::RunAborted => "run aborted"@,
            Reason::Cancelled => "cancelled"@,
        }
    }

    pub fn text(self) -> (r: &'static str)
        ensures
            r@ == self.text_spec(),
    {
        match self {
            Reason::Unresolved => "unresolved",
            Reason::Passed => "check passed",
            Reason::AttemptsExhausted => "attempts exhausted",
            Reason::NotIdempotent => "retry not safe",
            Reason::RunStopped => "run stopped before retry",
            Reason::UpstreamFailed => "upstream dependency failed",
            Reason::RunAborted => "run aborted",
            Reason::Cancelled => "cancelled",
        }
    }
}

/// The error of one failed attempt.
#[derive(Debug)]
pub struct AttemptError {
    /// The number of the attempt, counted from 1.
    pub attempt: u32,
    pub kind: ErrorKind,
    pub message: String,
}

impl AttemptError {
    pub fn duplicate(&self) -> (r: AttemptError)
        ensures
            r == *self,
    {
        AttemptError { attempt: self.attempt, kind: self.kind, message: self.message.clone() }
    }
}

/// What the executor hands back for one attempt.
#[derive(Debug)]
pub enum ExecResult {
    /// The check ran on the node and reported `success` with a detail text.
    Completed { success: bool, detail: String },
    /// The node could not be reached.
    TransportError { message: String },
}

/// How the scheduler judges one attempt.
#[derive(Debug)]
pub enum AttemptVerdict {
    Passed,
    Failed { kind: ErrorKind, message: String },
}

/// The kind of failure of one attempt, or `None` where it passed: a function
/// of the check's timeout, the time the attempt took and what the executor
/// reported. An attempt that overran its deadline has failed, whatever was
/// reported.
pub open spec fn attempt_failure(timeout_ms: u64, elapsed_ms: u64, result: ExecResult) -> Option<
    ErrorKind,
> {
    if elapsed_ms > timeout_ms {
        Some(ErrorKind::Timeout)
    } else {
        match result {
            ExecResult::Completed { success, detail } => if success {
                None
            } else {
                Some(ErrorKind::CheckFailed)
            },
            ExecResult::TransportError { message } => Some(ErrorKind::TransportFailure),
        }
    }
}

/// The message recorded with a failed attempt.
pub open spec fn attempt_message(timeout_ms: u64, elapsed_ms: u64, result: ExecResult) -> Seq<char> {
    if elapsed_ms > timeout_ms {
        "deadline exceeded"@
    } else {
        match result {
            ExecResult::Completed { success, detail } => detail@,
            ExecResult::TransportError { message } => message@,
        }
    }
}

/// Judges one attempt.
pub fn classify_attempt(timeout_ms: u64, elapsed_ms: u64, result: ExecResult) -> (r: AttemptVerdict)
    ensures
        match r {
            AttemptVerdict::Passed => attempt_failure(timeout_ms, elapsed_ms, result) is None,
            AttemptVerdict::Failed { kind, message } => attempt_failure(
                timeout_ms,
                elapsed_ms,
                result,
            ) == Some(kind) && message@ == attempt_message(timeout_ms, elapsed_ms, result),
        },
{
    if elapsed_ms > timeout_ms {
        return AttemptVerdict::Failed {
            kind: ErrorKind::Timeout,
            message: "deadline exceeded".to_string(),
        };
    }
    match result {
        ExecResult::Completed { success, detail } => {
            if success {
                AttemptVerdict::Passed
            } else {
                AttemptVerdict::Failed { kind: ErrorKind::CheckFailed, message: detail }
            }
        },
        ExecResult::TransportError { message } => AttemptVerdict::Failed {
            kind: ErrorKind::TransportFailure,
            message,
        },
    }
}

} // verus!
