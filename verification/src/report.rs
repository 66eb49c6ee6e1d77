//! The report of a run: the outcomes by node and check, the counts by final
//! state, and the verdict.

use crate::count::{count_of, lemma_count_push};
use crate::scheduler::TaskOutcome;
use crate::status::{FailurePolicy, Reason, TaskState};
use vstd::prelude::*;

verus! {

/// What a run amounts to.
#[derive(Clone, Copy, Debug, PartialEq, Eq, Structural)]
pub enum Verdict {
    /// Every task succeeded.
    Success,
    /// Some tasks did not succeed, and the run is no `Failure`.
    PartialFailure,
    /// No task succeeded; or the policy is fail-fast and every node has an
    /// outcome that is neither a success nor a skip by cancellation.
    Failure,
}

impl Verdict {
    /// The exit code of a process whose run ended so: zero for `Success`,
    /// one for `PartialFailure`, two for `Failure`.
    pub open spec fn spec_exit_code(self) -> u8 {
        match self {
            Verdict::Success => 0u8,
            Verdict::PartialFailure => 1u8,
            Verdict::Failure => 2u8,
        }
    }

    pub fn exit_code(self) -> (r: u8)
        ensures
            r == self.spec_exit_code(),
            r == 0 <==> self == Verdict::Success,
    {
        match self {
            Verdict::Success => 0,
            Verdict::PartialFailure => 1,
            Verdict::Failure => 2,
        }
    }
}

/// How many tasks ended in each final state.
#[derive(Clone, Copy, Debug, PartialEq, Eq, Structural)]
pub struct Summary {
    pub total: usize,
    pub succeeded: usize,
    pub failed: usize,
    pub skipped: usize,
    pub blocked: usize,
}

/// The outcome counts against its node: it is neither a success nor a skip
/// because the run was cancelled.
pub open spec fn troubles(o: TaskOutcome) -> bool {
    o.state != TaskState::Succeeded && !(o.state == TaskState::Skipped && o.reason == Reason::Cancelled)
}

/// Every outcome is a success.
pub open spec fn all_succeeded(outcomes: Seq<TaskOutcome>) -> bool {
    forall|i: int| 0 <= i < outcomes.len() ==> (#[trigger] outcomes[i]).state == TaskState::Succeeded
}

/// No outcome is a success.
pub open spec fn none_succeeded(outcomes: Seq<TaskOutcome>) -> bool {
    forall|i: int| 0 <= i < outcomes.len() ==> (#[trigger] outcomes[i]).state != TaskState::Succeeded
}

/// Node `node` has an outcome that counts against it.
pub open spec fn node_troubled(outcomes: Seq<TaskOutcome>, node: usize) -> bool {
    exists|i: int| 0 <= i < outcomes.len() && (#[trigger] outcomes[i]).node == node && troubles(outcomes[i])
}

/// Every node that has an outcome has one that counts against it.
pub open spec fn every_node_troubled(outcomes: Seq<TaskOutcome>) -> bool {
    forall|i: int| 0 <= i < outcomes.len() ==> node_troubled(outcomes, (#[trigger] outcomes[i]).node)
}

/// The verdict on a set of outcomes under a failure policy.
///
/// `Success` where every task succeeded, and so for a run without tasks.
/// Else `Failure` where no task succeeded, or where the policy is fail-fast
/// and every node has an outcome that counts against it. Else `PartialFailure`.
pub open spec fn verdict_of(outcomes: Seq<TaskOutcome>, policy: FailurePolicy) -> Verdict {
    if all_succeeded(outcomes) {
        Verdict::Success
    } else if none_succeeded(outcomes) || (policy == FailurePolicy::FailFast && every_node_troubled(
        outcomes,
    )) {
        Verdict::Failure
    } else {
        Verdict::PartialFailure
    }
}

/// The predicate that an outcome has the final state `state`.
pub open spec fn ended(state: TaskState) -> spec_fn(TaskOutcome) -> bool {
    |o: TaskOutcome| o.state == state
}

/// The counts of a set of outcomes.
pub open spec fn summary_of(outcomes: Seq<TaskOutcome>) -> Summary {
    Summary {
        total: outcomes.len() as usize,
        succeeded: count_of(outcomes, ended(TaskState::Succeeded)) as usize,
        failed: count_of(outcomes, ended(TaskState::Failed)) as usize,
        skipped: count_of(outcomes, ended(TaskState::Skipped)) as usize,
        blocked: count_of(outcomes, ended(TaskState::Blocked)) as usize,
    }
}

/// Outcome `a` stands before outcome `b`: by node, then by check.
pub open spec fn key_less(a: TaskOutcome, b: TaskOutcome) -> bool {
    a.node < b.node || (a.node == b.node && a.check < b.check)
}

/// The outcomes stand by node and then by check, and no node and check has two.
pub open spec fn sorted_by_key(outcomes: Seq<TaskOutcome>) -> bool {
    forall|i: int, j: int|
        0 <= i < j < outcomes.len() ==> key_less(#[trigger] outcomes[i], #[trigger] outcomes[j])
}

/// An outcome for this node and check is among the outcomes.
pub open spec fn has_pair(outcomes: Seq<TaskOutcome>, node: usize, check: usize) -> bool {
    exists|i: int|
        0 <= i < outcomes.len() && (#[trigger] outcomes[i]).node == node && outcomes[i].check == check
}

/// Every outcome is in a final state.
pub open spec fn all_final(outcomes: Seq<TaskOutcome>) -> bool {
    forall|i: int| 0 <= i < outcomes.len() ==> (#[trigger] outcomes[i]).state.is_terminal()
}

/// The report of a run.
#[derive(Debug)]
pub struct FleetReport {
    /// One outcome for each node and check that was selected, by node and then by check.
    pub outcomes: Vec<TaskOutcome>,
    pub verdict: Verdict,
    pub summary: Summary,
}

impl FleetReport {
    /// The outcomes are in order, and the verdict and the counts are theirs
    /// under `policy`.
    pub open spec fn wf(&self, policy: FailurePolicy) -> bool {
        &&& sorted_by_key(self.outcomes@)
        &&& all_final(self.outcomes@)
        &&& self.verdict == verdict_of(self.outcomes@, policy)
        &&& self.summary == summary_of(self.outcomes@)
    }

    /// The first outcome of this node and check, if the report holds one.
    pub fn get(&self, node: usize, check: usize) -> (r: Option<&TaskOutcome>)
        ensures
            match r {
                Some(o) => o.node == node && o.check == check && exists|i: int|
                    0 <= i < self.outcomes.len() && self.outcomes[i] == *o && forall|j: int|
                        0 <= j < i ==> !((#[trigger] self.outcomes[j]).node == node && self.outcomes[j].check
                            == check),
                None => !has_pair(self.outcomes@, node, check),
            },
    {
        let mut i: usize = 0;
        while i < self.outcomes.len()
            invariant
                i <= self.outcomes.len(),
                forall|j: int|
                    0 <= j < i ==> !((#[trigger] self.outcomes[j]).node == node && self.outcomes[j].check
                        == check),
            decreases self.outcomes.len() - i,
        {
            if self.outcomes[i].node == node && self.outcomes[i].check == check {
                return Some(&self.outcomes[i]);
            }
            i += 1;
        }
        None
    }
}

/// Collects the outcomes of a run as they come in, in any order.
pub struct Aggregator {
    policy: FailurePolicy,
    outcomes: Vec<TaskOutcome>,
}

impl View for Aggregator {
    type V = Seq<TaskOutcome>;

    closed spec fn view(&self) -> Seq<TaskOutcome> {
        self.outcomes@
    }
}

impl Aggregator {
    pub closed spec fn policy(&self) -> FailurePolicy {
        self.policy
    }

    /// The outcomes taken so far are final and stand in order.
    pub open spec fn wf(&self) -> bool {
        sorted_by_key(self@) && all_final(self@)
    }

    pub fn new(policy: FailurePolicy) -> (r: Aggregator)
        ensures
            r.wf(),
            r@ == Seq::<TaskOutcome>::empty(),
            r.policy() == policy,
    {
        Aggregator { policy, outcomes: Vec::new() }
    }

    pub fn len(&self) -> (r: usize)
        ensures
            r == self@.len(),
    {
        self.outcomes.len()
    }

    /// Takes one outcome, and puts it in its place by node and check. An
    /// outcome whose state is not final is refused, and so is a second
    /// outcome for one node and check: the answer is then `false`, and
    /// nothing changes.
    pub fn record(&mut self, outcome: TaskOutcome) -> (accepted: bool)
        requires
            old(self).wf(),
        ensures
            final(self).wf(),
            final(self).policy() == old(self).policy(),
            accepted == (outcome.state.is_terminal() && !has_pair(old(self)@, outcome.node, outcome.check)),
            !accepted ==> final(self)@ == old(self)@,
            accepted ==> exists|at: int|
                0 <= at <= old(self)@.len() && final(self)@ == #[trigger] old(self)@.insert(at, outcome),
    {
        if !outcome.state.terminal() {
            return false;
        }
        let mut i: usize = 0;
        while i < self.outcomes.len() && (self.outcomes[i].node < outcome.node || (self.outcomes[i].node
            == outcome.node && self.outcomes[i].check < outcome.check))
            invariant
                i <= self.outcomes.len(),
                *self == *old(self),
                forall|j: int| 0 <= j < i ==> key_less(#[trigger] self.outcomes[j], outcome),
            decreases self.outcomes.len() - i,
        {
            i += 1;
        }
        let ghost pre = self@;
        if i < self.outcomes.len() && self.outcomes[i].node == outcome.node && self.outcomes[i].check
            == outcome.check {
            return false;
        }
        proof {
            assert forall|j: int| i <= j < pre.len() implies key_less(outcome, #[trigger] pre[j]) by {
                if j > i {
                    assert(key_less(pre[i as int], pre[j]));
                }
            }
            if has_pair(pre, outcome.node, outcome.check) {
                let j = choose|j: int|
                    0 <= j < pre.len() && (#[trigger] pre[j]).node == outcome.node && pre[j].check
                        == outcome.check;
                if j < i {
                    assert(key_less(pre[j], outcome));
                } else {
                    assert(key_less(outcome, pre[j]));
                }
            }
        }
        self.outcomes.insert(i, outcome);
        proof {
            let post = self@;
            assert(post == pre.insert(i as int, outcome));
            assert forall|a: int, b: int| 0 <= a < b < post.len() implies key_less(
                #[trigger] post[a],
                #[trigger] post[b],
            ) by {
                let pa = if a < i { a } else { a - 1 };
                let pb = if b < i { b } else { b - 1 };
                if a != i && b != i {
                    assert(post[a] == pre[pa]);
                    assert(post[b] == pre[pb]);
                    assert(key_less(pre[pa], pre[pb]));
                } else if a == i {
                    assert(post[b] == pre[pb]);
                    assert(key_less(outcome, pre[pb]));
                } else {
                    assert(post[a] == pre[pa]);
                    assert(key_less(pre[pa], outcome));
                }
            }
            assert forall|a: int| 0 <= a < post.len() implies (#[trigger] post[a]).state.is_terminal() by {
                if a < i {
                    assert(post[a] == pre[a]);
                } else if a > i {
                    assert(post[a] == pre[a - 1]);
                }
            }
        }
        true
    }

    /// The report of the outcomes taken.
    pub fn finish(self) -> (r: FleetReport)
        requires
            self.wf(),
        ensures
            r.outcomes@ == self@,
            r.wf(self.policy()),
    {
        let verdict = verdict(&self.outcomes, self.policy);
        let summary = summarize(&self.outcomes);
        FleetReport { outcomes: self.outcomes, verdict, summary }
    }
}

/// Whether node `node` has an outcome that counts against it.
fn is_node_troubled(outcomes: &Vec<TaskOutcome>, node: usize) -> (r: bool)
    ensures
        r == node_troubled(outcomes@, node),
{
    let mut i: usize = 0;
    while i < outcomes.len()
        invariant
            i <= outcomes.len(),
            forall|j: int| 0 <= j < i ==> !((#[trigger] outcomes[j]).node == node && troubles(outcomes[j])),
        decreases outcomes.len() - i,
    {
        let o = &outcomes[i];
        if o.node == node && o.state != TaskState::Succeeded && !(o.state == TaskState::Skipped && o.reason
            == Reason::Cancelled) {
            return true;
        }
        i += 1;
    }
    false
}

/// The verdict on the outcomes under the policy.
pub fn verdict(outcomes: &Vec<TaskOutcome>, policy: FailurePolicy) -> (r: Verdict)
    ensures
        r == verdict_of(outcomes@, policy),
{
    let mut all: bool = true;
    let mut none: bool = true;
    let mut every: bool = true;
    let mut i: usize = 0;
    while i < outcomes.len()
        invariant
            i <= outcomes.len(),
            all == forall|j: int| 0 <= j < i ==> (#[trigger] outcomes[j]).state == TaskState::Succeeded,
            none == forall|j: int| 0 <= j < i ==> (#[trigger] outcomes[j]).state != TaskState::Succeeded,
            every == forall|j: int| 0 <= j < i ==> node_troubled(outcomes@, (#[trigger] outcomes[j]).node),
        decreases outcomes.len() - i,
    {
        if outcomes[i].state == TaskState::Succeeded {
            none = false;
        } else {
            all = false;
        }
        // Where the outcomes of one node stand together, the node is looked at once.
        if every && (i == 0 || outcomes[i - 1].node != outcomes[i].node) {
            every = is_node_troubled(outcomes, outcomes[i].node);
        }
        i += 1;
    }
    if all {
        Verdict::Success
    } else if none || (policy == FailurePolicy::FailFast && every) {
        Verdict::Failure
    } else {
        Verdict::PartialFailure
    }
}

/// The number of outcomes in the final state `state`.
fn count_ended(outcomes: &Vec<TaskOutcome>, state: TaskState) -> (r: usize)
    ensures
        r == count_of(outcomes@, ended(state)),
{
    let mut n: usize = 0;
    let mut i: usize = 0;
    while i < outcomes.len()
        invariant
            i <= outcomes.len(),
            n == count_of(outcomes@.take(i as int), ended(state)),
            n <= i,
        decreases outcomes.len() - i,
    {
        proof {
            assert(outcomes@.take(i + 1) =~= outcomes@.take(i as int).push(outcomes[i as int]));
            lemma_count_push(outcomes@.take(i as int), outcomes[i as int], ended(state));
        }
        if outcomes[i].state == state {
            n += 1;
        }
        i += 1;
    }
    assert(outcomes@.take(outcomes.len() as int) =~= outcomes@);
    n
}

/// The counts of the outcomes.
pub fn summarize(outcomes: &Vec<TaskOutcome>) -> (r: Summary)
    ensures
        r == summary_of(outcomes@),
{
    Summary {
        total: outcomes.len(),
        succeeded: count_ended(outcomes, TaskState::Succeeded),
        failed: count_ended(outcomes, TaskState::Failed),
        skipped: count_ended(outcomes, TaskState::Skipped),
        blocked: count_ended(outcomes, TaskState::Blocked),
    }
}

/// Outcome `i` of `given` is final, and no later outcome of `given` is final
/// and for the same node and check.
pub open spec fn last_of_pair(given: Seq<TaskOutcome>, i: int) -> bool {
    &&& 0 <= i < given.len()
    &&& given[i].state.is_terminal()
    &&& forall|i2: int|
        i < i2 < given.len() && (#[trigger] given[i2]).state.is_terminal() ==> !(given[i2].node
            == given[i].node && given[i2].check == given[i].check)
}

/// Outcome `o` is the last one that `given` holds for its node and check.
pub open spec fn counts_in(given: Seq<TaskOutcome>, o: TaskOutcome) -> bool {
    exists|i: int| #[trigger] last_of_pair(given, i) && given[i] == o
}

/// The report of the outcomes, in whatever order they are given. Outcomes
/// whose state is not final are left out; of several outcomes for one node
/// and check the last one counts.
pub fn aggregate(outcomes: Vec<TaskOutcome>, policy: FailurePolicy) -> (r: FleetReport)
    ensures
        r.wf(policy),
        forall|i: int|
            0 <= i < outcomes.len() && (#[trigger] outcomes[i]).state.is_terminal() ==> has_pair(
                r.outcomes@,
                outcomes[i].node,
                outcomes[i].check,
            ),
        forall|j: int| 0 <= j < r.outcomes.len() ==> counts_in(outcomes@, #[trigger] r.outcomes[j]),
{
    let ghost given = outcomes@;
    let mut aggregator = Aggregator::new(policy);
    let mut rest = outcomes;
    // Outcomes are taken from the back: the first one taken for a node and check stays.
    while rest.len() > 0
        invariant
            aggregator.wf(),
            aggregator.policy() == policy,
            rest.len() <= given.len(),
            rest@ == given.take(rest.len() as int),
            forall|i: int|
                rest.len() <= i < given.len() && (#[trigger] given[i]).state.is_terminal() ==> has_pair(
                    aggregator@,
                    given[i].node,
                    given[i].check,
                ),
            forall|j: int| 0 <= j < aggregator@.len() ==> counts_in(given, #[trigger] aggregator@[j]),
        decreases rest.len(),
    {
        let ghost taken = aggregator@;
        let ghost at = rest.len() - 1;
        let outcome = rest.pop().unwrap();
        assert(outcome == given[at]);
        let accepted = aggregator.record(outcome);
        proof {
            let now = aggregator@;
            assert(rest@ =~= given.take(rest.len() as int));
            if accepted {
                let pos = choose|pos: int| 0 <= pos <= taken.len() && now == #[trigger] taken.insert(pos, outcome);
                assert(last_of_pair(given, at)) by {
                    assert forall|i2: int|
                        at < i2 < given.len() && (#[trigger] given[i2]).state.is_terminal() implies !(
                    given[i2].node == given[at].node && given[i2].check == given[at].check) by {
                        assert(has_pair(taken, given[i2].node, given[i2].check));
                    }
                }
                assert forall|j: int| 0 <= j < now.len() implies counts_in(given, #[trigger] now[j]) by {
                    if j < pos {
                        assert(now[j] == taken[j]);
                    } else if j > pos {
                        assert(now[j] == taken[j - 1]);
                    } else {
                        assert(last_of_pair(given, at) && given[at] == now[j]);
                    }
                }
                assert forall|i: int|
                    rest.len() <= i < given.len() && (#[trigger] given[i]).state.is_terminal() implies has_pair(
                    now,
                    given[i].node,
                    given[i].check,
                ) by {
                    if i == at {
                        assert(now[pos] == outcome);
                    } else {
                        let j = choose|j: int|
                            0 <= j < taken.len() && (#[trigger] taken[j]).node == given[i].node && taken[j].check
                                == given[i].check;
                        if j < pos {
                            assert(now[j] == taken[j]);
                        } else {
                            assert(now[j + 1] == taken[j]);
                        }
                    }
                }
            }
        }
    }
    aggregator.finish()
}

/// A run in which every task succeeded is a `Success`, and no other run is.
pub proof fn lemma_success_iff_all_succeeded(outcomes: Seq<TaskOutcome>, policy: FailurePolicy)
    ensures
        verdict_of(outcomes, policy) == Verdict::Success <==> all_succeeded(outcomes),
{
}

/// Under the fail-fast policy a run with a failed task is a `Failure` where
/// every node has an outcome that counts against it, and also where no
/// task succeeded.
pub proof fn lemma_fail_fast_failure(outcomes: Seq<TaskOutcome>, failed: int)
    requires
        0 <= failed < outcomes.len(),
        outcomes[failed].state == TaskState::Failed,
        every_node_troubled(outcomes) || none_succeeded(outcomes),
    ensures
        verdict_of(outcomes, FailurePolicy::FailFast) == Verdict::Failure,
{
}

/// Under the best-effort policy a run in which some task succeeded and some
/// task did not is a `PartialFailure`.
pub proof fn lemma_mixed_is_partial(outcomes: Seq<TaskOutcome>, good: int, bad: int)
    requires
        0 <= good < outcomes.len(),
        0 <= bad < outcomes.len(),
        outcomes[good].state == TaskState::Succeeded,
        outcomes[bad].state != TaskState::Succeeded,
    ensures
        verdict_of(outcomes, FailurePolicy::BestEffort) == Verdict::PartialFailure,
{
}

} // verus!
