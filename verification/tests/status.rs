use wgx::status::{classify_attempt, AttemptVerdict, ErrorKind, ExecResult, FailurePolicy, Reason, TaskState};

#[test]
fn terminal_states_are_the_four_final_ones() {
    let terminal = [TaskState::Succeeded, TaskState::Failed, TaskState::Skipped, TaskState::Blocked];
    let open = [TaskState::Pending, TaskState::Ready, TaskState::Running, TaskState::Retrying];
    assert!(terminal.iter().all(|s| s.terminal()));
    assert!(open.iter().all(|s| !s.terminal()));
}

#[test]
fn default_policy_is_best_effort() {
    assert_eq!(FailurePolicy::default(), FailurePolicy::BestEffort);
}

#[test]
fn reason_texts_are_fixed() {
    assert_eq!(Reason::UpstreamFailed.text(), "upstream dependency failed");
    assert_eq!(Reason::RunAborted.text(), "run aborted");
    assert_eq!(Reason::Cancelled.text(), "cancelled");
    assert_eq!(Reason::Passed.text(), "check passed");
    assert_eq!(Reason::AttemptsExhausted.text(), "attempts exhausted");
    assert_eq!(Reason::NotIdempotent.text(), "retry not safe");
    assert_eq!(Reason::RunStopped.text(), "run stopped before retry");
    assert_eq!(Reason::Unresolved.text(), "unresolved");
}

#[test]
fn classify_passes_a_success_in_time() {
    let r = classify_attempt(100, 100, ExecResult::Completed { success: true, detail: "ok".to_string() });
    assert!(matches!(r, AttemptVerdict::Passed));
}

#[test]
fn classify_fails_a_reported_failure() {
    match classify_attempt(100, 5, ExecResult::Completed { success: false, detail: "disk full".to_string() }) {
        AttemptVerdict::Failed { kind, message } => {
            assert_eq!(kind, ErrorKind::CheckFailed);
            assert_eq!(message, "disk full");
        },
        _ => panic!("a failure passed"),
    }
}

#[test]
fn classify_fails_a_transport_error() {
    match classify_attempt(100, 5, ExecResult::TransportError { message: "refused".to_string() }) {
        AttemptVerdict::Failed { kind, message } => {
            assert_eq!(kind, ErrorKind::TransportFailure);
            assert_eq!(message, "refused");
        },
        _ => panic!("a transport error passed"),
    }
}

#[test]
fn classify_puts_the_deadline_before_the_report() {
    for result in [
        ExecResult::Completed { success: true, detail: "ok".to_string() },
        ExecResult::Completed { success: false, detail: "bad".to_string() },
        ExecResult::TransportError { message: "refused".to_string() },
    ] {
        match classify_attempt(100, 101, result) {
            AttemptVerdict::Failed { kind, message } => {
                assert_eq!(kind, ErrorKind::Timeout);
                assert_eq!(message, "deadline exceeded");
            },
            _ => panic!("an attempt over its deadline passed"),
        }
    }
}
