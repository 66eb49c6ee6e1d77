//! The task graph: one task for each node and each check that applies to it,
//! with the dependencies between the tasks of one node.

use crate::model::{Fleet, Node, Operation, OperationView, RetryPolicy, rows};
use crate::order::{
    depends_on, has_cycle, is_cycle, is_least_order, least_eligible, least_order, links_in_range, place_of,
};
use crate::status::TaskState;
use vstd::prelude::*;

verus! {

/// One check to run on one node.
#[derive(Debug)]
pub struct Task {
    /// The position of the node in the fleet.
    pub node: usize,
    /// The position of the check in the operation.
    pub check: usize,
    pub node_id: String,
    pub check_id: String,
    /// The positions, in the graph, of the tasks that must succeed first.
    pub deps: Vec<usize>,
    /// The deadline of one attempt, in milliseconds.
    pub timeout_ms: u64,
    pub retry: RetryPolicy,
    pub idempotent: bool,
    /// The state in which the task starts.
    pub state: TaskState,
}

/// Why no task graph could be built.
#[derive(Debug)]
pub enum GraphError {
    /// These checks depend on each other in a circle: each on the next, the last on the first.
    CyclicDependency(Vec<String>),
    /// The check applies to the node, but a check it depends on does not.
    DependencyNotApplicable { node: String, check: String, dependency: String },
}

/// The first `n` names, with an arrow between each two.
pub open spec fn chained(names: Seq<String>, n: int) -> Seq<char>
    decreases n,
{
    if n <= 0 {
        Seq::<char>::empty()
    } else if n == 1 {
        names[0]@
    } else {
        chained(names, n - 1) + " -> "@ + names[n - 1]@
    }
}

impl GraphError {
    /// The error in words.
    pub open spec fn text(&self) -> Seq<char> {
        match self {
            GraphError::CyclicDependency(names) => "dependency cycle: "@ + chained(
                names@,
                names.len() as int,
            ),
            GraphError::DependencyNotApplicable { node, check, dependency } => "dependency not applicable to node: "@
                + check@ + " needs "@ + dependency@ + " on "@ + node@,
        }
    }

    pub fn message(&self) -> (r: String)
        ensures
            r@ == self.text(),
    {
        match self {
            GraphError::CyclicDependency(names) => {
                let mut chain = String::new();
                let mut i: usize = 0;
                while i < names.len()
                    invariant
                        i <= names.len(),
                        chain@ == chained(names@, i as int),
                    decreases names.len() - i,
                {
                    if i > 0 {
                        chain.append(" -> ");
                    }
                    chain.append(names[i].as_str());
                    proof {
                        if i == 0 {
                            assert(Seq::<char>::empty() + names[0]@ =~= names[0]@);
                        }
                    }
                    i += 1;
                }
                let mut text = "dependency cycle: ".to_string();
                text.append(chain.as_str());
                text
            },
            GraphError::DependencyNotApplicable { node, check, dependency } => {
                let mut text = "dependency not applicable to node: ".to_string();
                text.append(check.as_str());
                text.append(" needs ");
                text.append(dependency.as_str());
                text.append(" on ");
                text.append(node.as_str());
                text
            },
        }
    }
}

/// Check `c` of the operation applies to node `n` of the fleet.
pub open spec fn applies(fleet: Seq<Node>, op: OperationView, n: int, c: int) -> bool {
    op.checks[c].selector.selects(fleet[n].tags@)
}

/// On node `n`, every check that applies depends only on checks that apply.
pub open spec fn node_applicable(fleet: Seq<Node>, op: OperationView, n: int) -> bool {
    forall|c: int, k: int|
        0 <= c < op.checks.len() && 0 <= k < op.links[c].len() && applies(fleet, op, n, c) ==> applies(
            fleet,
            op,
            n,
            (#[trigger] op.links[c][k]) as int,
        )
}

/// On every node, every check that applies depends only on checks that apply.
pub open spec fn applicable(fleet: Seq<Node>, op: OperationView) -> bool {
    forall|n: int| 0 <= n < fleet.len() ==> node_applicable(fleet, op, n)
}

/// On node `n`, check `c` applies and its dependency `k` does not, and this
/// is the first such case, by node, then by check, then by position in the
/// check's list.
pub open spec fn first_inapplicable_at(fleet: Seq<Node>, op: OperationView, n: int, c: int, k: int) -> bool {
    &&& 0 <= n < fleet.len()
    &&& 0 <= c < op.checks.len()
    &&& 0 <= k < op.links[c].len()
    &&& applies(fleet, op, n, c)
    &&& !applies(fleet, op, n, op.links[c][k] as int)
    &&& forall|n2: int| 0 <= n2 < n ==> node_applicable(fleet, op, n2)
    &&& forall|c2: int, k2: int|
        0 <= c2 < c && 0 <= k2 < op.links[c2].len() && applies(fleet, op, n, c2) ==> applies(
            fleet,
            op,
            n,
            (#[trigger] op.links[c2][k2]) as int,
        )
    &&& forall|k2: int| 0 <= k2 < k ==> applies(fleet, op, n, (#[trigger] op.links[c][k2]) as int)
}

/// The task stands for a node and a check that applies to it, and carries
/// what the check defines.
pub open spec fn task_of_pair(fleet: Seq<Node>, op: OperationView, task: Task) -> bool {
    &&& task.node < fleet.len()
    &&& task.check < op.checks.len()
    &&& applies(fleet, op, task.node as int, task.check as int)
    &&& task.node_id@ == fleet[task.node as int].id@
    &&& task.check_id@ == op.checks[task.check as int].id@
    &&& task.timeout_ms == op.checks[task.check as int].timeout_ms
    &&& task.retry == op.checks[task.check as int].retry
    &&& task.idempotent == op.checks[task.check as int].idempotent
}

/// Task `t` stands for node `n` and check `c`.
pub open spec fn task_at(tasks: Seq<Task>, t: int, n: int, c: int) -> bool {
    0 <= t < tasks.len() && tasks[t].node == n && tasks[t].check == c
}

/// Task `a` stands before task `b`: on an earlier node, or on the same node
/// with a check that comes earlier in `order`.
pub open spec fn precedes(order: Seq<usize>, a: Task, b: Task) -> bool {
    a.node < b.node || (a.node == b.node && place_of(order, a.check) < place_of(order, b.check))
}

/// The dependencies of task `t` are the tasks, on the same node, of the
/// checks that its check depends on.
pub open spec fn deps_of_pair(op: OperationView, tasks: Seq<Task>, t: int) -> bool {
    &&& tasks[t].deps.len() == op.links[tasks[t].check as int].len()
    &&& forall|k: int|
        0 <= k < tasks[t].deps.len() ==> task_at(
            tasks,
            (#[trigger] tasks[t].deps[k]) as int,
            tasks[t].node as int,
            op.links[tasks[t].check as int][k] as int,
        )
}

/// The tasks are those of the first `n` nodes of the fleet and the operation:
/// one for each node and each check that applies to it, node by node, and on
/// each node by the place of the check in `order`.
pub open spec fn covers_upto(fleet: Seq<Node>, op: OperationView, tasks: Seq<Task>, order: Seq<usize>, n: int) -> bool {
    &&& forall|t: int|
        0 <= t < tasks.len() ==> task_of_pair(fleet, op, #[trigger] tasks[t]) && tasks[t].node < n
    &&& forall|t: int| 0 <= t < tasks.len() ==> #[trigger] deps_of_pair(op, tasks, t)
    &&& forall|n2: int, c: int|
        0 <= n2 < n && 0 <= c < op.checks.len() && #[trigger] applies(fleet, op, n2, c) ==> exists|t: int|
            task_at(tasks, t, n2, c)
    &&& forall|s: int, t: int|
        0 <= s < t < tasks.len() ==> precedes(order, #[trigger] tasks[s], #[trigger] tasks[t])
}

/// The tasks are those of the fleet and the operation: one for each node and
/// each check that applies to it, node by node, and on each node in the
/// order in which the checks may run.
pub open spec fn covers(fleet: Seq<Node>, op: OperationView, tasks: Seq<Task>) -> bool {
    exists|order: Seq<usize>|
        is_least_order(op.links, order) && covers_upto(fleet, op, tasks, order, fleet.len() as int)
}

/// What holds of the tasks of any graph: a task depends only on tasks that
/// stand before it, on the same node, and starts `Ready` if it depends on
/// none, else `Pending`.
pub open spec fn tasks_wf(tasks: Seq<Task>) -> bool {
    &&& forall|t: int, k: int|
        0 <= t < tasks.len() && 0 <= k < tasks[t].deps.len() ==> {
            &&& (#[trigger] tasks[t].deps[k]) < t
            &&& tasks[tasks[t].deps[k] as int].node == tasks[t].node
        }
    &&& forall|t: int|
        0 <= t < tasks.len() ==> (#[trigger] tasks[t]).state == if tasks[t].deps.len() == 0 {
            TaskState::Ready
        } else {
            TaskState::Pending
        }
}

/// The tasks of one run.
pub struct TaskGraph {
    tasks: Vec<Task>,
}

impl View for TaskGraph {
    type V = Seq<Task>;

    closed spec fn view(&self) -> Seq<Task> {
        self.tasks@
    }
}

impl TaskGraph {
    pub open spec fn wf(&self) -> bool {
        tasks_wf(self@)
    }

    pub fn len(&self) -> (r: usize)
        ensures
            r == self@.len(),
    {
        self.tasks.len()
    }

    pub fn task(&self, t: usize) -> (r: &Task)
        requires
            t < self@.len(),
        ensures
            *r == self@[t as int],
    {
        &self.tasks[t]
    }

    /// Hands the tasks out, in the order of the graph.
    pub fn into_tasks(self) -> (r: Vec<Task>)
        ensures
            r@ == self@,
    {
        self.tasks
    }

    /// The first task of this node and check, if the graph holds one.
    pub fn find(&self, node: usize, check: usize) -> (r: Option<usize>)
        ensures
            match r {
                Some(t) => task_at(self@, t as int, node as int, check as int) && forall|s: int|
                    0 <= s < t ==> !task_at(self@, s, node as int, check as int),
                None => forall|t: int| !task_at(self@, t, node as int, check as int),
            },
    {
        let mut t: usize = 0;
        while t < self.tasks.len()
            invariant
                t <= self.tasks.len(),
                forall|s: int| 0 <= s < t ==> !task_at(self@, s, node as int, check as int),
            decreases self.tasks.len() - t,
        {
            if self.tasks[t].node == node && self.tasks[t].check == check {
                return Some(t);
            }
            t += 1;
        }
        None
    }
}

/// For each check, whether it applies to the node.
fn select_checks(op: &Operation, node: &Node) -> (r: Vec<bool>)
    ensures
        r.len() == op@.checks.len(),
        forall|c: int| 0 <= c < r.len() ==> r[c] == op@.checks[c].selector.selects(node.tags@),
{
    let mut selected: Vec<bool> = Vec::new();
    let mut c: usize = 0;
    while c < op.len()
        invariant
            c <= op@.checks.len(),
            selected.len() == c,
            forall|c2: int| 0 <= c2 < c ==> selected[c2] == op@.checks[c2].selector.selects(node.tags@),
        decreases op@.checks.len() - c,
    {
        selected.push(op.check(c).selector.matches(&node.tags));
        c += 1;
    }
    selected
}

/// The first check, and its first dependency, such that the check is selected
/// and the dependency is not.
#[verifier::loop_isolation(false)]
fn first_unselected_dependency(links: &Vec<Vec<usize>>, selected: &Vec<bool>) -> (r: Option<(usize, usize)>)
    requires
        links_in_range(rows(links@)),
        selected.len() == links.len(),
    ensures
        match r {
            Some((c, k)) => {
                &&& c < links.len()
                &&& k < links[c as int].len()
                &&& selected[c as int]
                &&& !selected[links[c as int][k as int] as int]
                &&& forall|c2: int, k2: int|
                    0 <= c2 < c && 0 <= k2 < links[c2].len() && selected[c2] ==> selected[(
                    #[trigger] links[c2][k2]) as int]
                &&& forall|k2: int| 0 <= k2 < k ==> selected[(#[trigger] links[c as int][k2]) as int]
            },
            None => forall|c2: int, k2: int|
                0 <= c2 < links.len() && 0 <= k2 < links[c2].len() && selected[c2] ==> selected[(
                #[trigger] links[c2][k2]) as int],
        },
{
    let mut c: usize = 0;
    while c < links.len()
        invariant
            c <= links.len(),
            links_in_range(rows(links@)),
            selected.len() == links.len(),
            forall|c2: int, k2: int|
                0 <= c2 < c && 0 <= k2 < links[c2].len() && selected[c2] ==> selected[(
                #[trigger] links[c2][k2]) as int],
        decreases links.len() - c,
    {
        if selected[c] {
            let row = &links[c];
            let mut k: usize = 0;
            while k < row.len()
                invariant
                    c < links.len(),
                    row == links[c as int],
                    k <= row.len(),
                    links_in_range(rows(links@)),
                    selected.len() == links.len(),
                    forall|k2: int| 0 <= k2 < k ==> selected[(#[trigger] row[k2]) as int],
                decreases row.len() - k,
            {
                assert(rows(links@)[c as int][k as int] < links.len());
                if !selected[row[k]] {
                    return Some((c, k));
                }
                k += 1;
            }
        }
        c += 1;
    }
    None
}

/// In an order, a check stands at one place only.
pub proof fn lemma_place_of(deps: Seq<Seq<usize>>, order: Seq<usize>, q: int)
    requires
        is_least_order(deps, order),
        0 <= q < order.len(),
    ensures
        place_of(order, order[q]) == q,
{
    let p = place_of(order, order[q]);
    assert(0 <= p < order.len() && order[p] == order[q]);
    if p < q {
        let upto = order.take(q);
        assert(least_eligible(deps, upto, order[q]));
        assert(upto[p] == order[q]);
    } else if p > q {
        let upto = order.take(p);
        assert(least_eligible(deps, upto, order[p]));
        assert(upto[q] == order[p]);
    }
}

/// Adds the tasks of node `n` behind those of the nodes before it.
#[verifier::loop_isolation(false)]
fn add_node_tasks(
    tasks: &mut Vec<Task>,
    fleet: &Fleet,
    n: usize,
    op: &Operation,
    order: &Vec<usize>,
    selected: &Vec<bool>,
)
    requires
        op.wf(),
        n < fleet@.len(),
        is_least_order(op@.links, order@),
        selected.len() == op@.checks.len(),
        forall|c: int| 0 <= c < selected.len() ==> selected[c] == applies(fleet@, op@, n as int, c),
        node_applicable(fleet@, op@, n as int),
        tasks_wf(old(tasks)@),
        covers_upto(fleet@, op@, old(tasks)@, order@, n as int),
    ensures
        tasks_wf(final(tasks)@),
        covers_upto(fleet@, op@, final(tasks)@, order@, n + 1),
{
    let ghost before = tasks@;
    let ghost table = op@.links;
    let base = tasks.len();
    let links = op.links();
    let node = fleet.node(n);
    let mut slot: Vec<usize> = vec![0usize; op.len()];
    let mut p: usize = 0;
    while p < order.len()
        invariant
            p <= order.len(),
            slot.len() == op@.checks.len(),
            tasks.len() >= base,
            tasks@.take(base as int) == before,
            tasks_wf(tasks@),
            forall|t: int| 0 <= t < tasks.len() ==> task_of_pair(fleet@, op@, #[trigger] tasks[t]),
            forall|t: int| 0 <= t < tasks.len() ==> #[trigger] deps_of_pair(op@, tasks@, t),
            forall|t: int|
                base <= t < tasks.len() ==> (#[trigger] tasks[t]).node == n && place_of(
                    order@,
                    tasks[t].check,
                ) < p,
            forall|s: int, t: int|
                base <= s < t < tasks.len() ==> place_of(order@, (#[trigger] tasks[s]).check) < place_of(
                    order@,
                    (#[trigger] tasks[t]).check,
                ),
            forall|q: int|
                0 <= q < p && selected[order[q] as int] ==> base <= slot[(#[trigger] order[q]) as int]
                    && task_at(tasks@, slot[order[q] as int] as int, n as int, order[q] as int),
        decreases order.len() - p,
    {
        let c = order[p];
        proof {
            lemma_place_of(table, order@, p as int);
            assert(least_eligible(table, order@.take(p as int), order[p as int]));
            assert forall|q: int| 0 <= q < p implies order[q] != c by {
                assert(order@.take(p as int)[q] == order[q]);
            }
        }
        if selected[c] {
            let row = &links[c];
            assert(table[c as int] == row@);
            let mut deps: Vec<usize> = Vec::new();
            let mut k: usize = 0;
            while k < row.len()
                invariant
                    k <= row.len(),
                    deps.len() == k,
                    forall|k2: int|
                        0 <= k2 < k ==> task_at(
                            tasks@,
                            (#[trigger] deps[k2]) as int,
                            n as int,
                            row[k2] as int,
                        ),
                decreases row.len() - k,
            {
                let d = row[k];
                proof {
                    assert(table[c as int][k as int] == d);
                    assert(order@.take(p as int).contains(d));
                    let q = choose|q: int| 0 <= q < order@.take(p as int).len() && order@.take(p as int)[q] == d;
                    assert(order[q] == d);
                    assert(applies(fleet@, op@, n as int, table[c as int][k as int] as int));
                    assert(selected[d as int]);
                    assert(task_at(tasks@, slot[order[q] as int] as int, n as int, order[q] as int));
                }
                deps.push(slot[d]);
                k += 1;
            }
            let state = if row.len() == 0 {
                TaskState::Ready
            } else {
                TaskState::Pending
            };
            let check = op.check(c);
            let task = Task {
                node: n,
                check: c,
                node_id: node.id.clone(),
                check_id: check.id.clone(),
                deps,
                timeout_ms: check.timeout_ms,
                retry: check.retry,
                idempotent: check.idempotent,
                state,
            };
            let ghost prev = tasks@;
            let ghost prev_slot = slot@;
            slot.set(c, tasks.len());
            tasks.push(task);
            proof {
                let now = tasks@;
                let last = prev.len() as int;
                assert(now.take(base as int) =~= prev.take(base as int));
                assert forall|t: int| 0 <= t < prev.len() implies now[t] == prev[t] by {}
                assert forall|t: int, n2: int, c2: int| task_at(prev, t, n2, c2) implies task_at(
                    now,
                    t,
                    n2,
                    c2,
                ) by {}
                assert forall|t: int| 0 <= t < now.len() implies #[trigger] deps_of_pair(op@, now, t) by {
                    if t < last {
                        assert(deps_of_pair(op@, prev, t));
                    }
                }
                assert forall|t: int| 0 <= t < now.len() implies task_of_pair(fleet@, op@, #[trigger] now[t]) by {
                    if t < last {
                        assert(task_of_pair(fleet@, op@, prev[t]));
                    }
                }
                assert forall|q: int| 0 <= q < p + 1 && selected[order[q] as int] implies base <= slot[(
                #[trigger] order[q]) as int] && task_at(
                    now,
                    slot[order[q] as int] as int,
                    n as int,
                    order[q] as int,
                ) by {
                    if q < p {
                        assert(slot[order[q] as int] == prev_slot[order[q] as int]);
                        assert(task_at(prev, prev_slot[order[q] as int] as int, n as int, order[q] as int));
                    }
                }
                assert(tasks_wf(now)) by {
                    assert forall|t: int, k2: int| 0 <= t < now.len() && 0 <= k2 < now[t].deps.len() implies (
                    #[trigger] now[t].deps[k2]) < t && now[now[t].deps[k2] as int].node == now[t].node by {
                        if t < last {
                            assert(prev[t].deps[k2] < t);
                        } else {
                            assert(task_at(prev, now[t].deps[k2] as int, n as int, row[k2] as int));
                        }
                    }
                }
            }
        }
        p += 1;
    }
    proof {
        let now = tasks@;
        assert forall|t: int| 0 <= t < now.len() implies task_of_pair(fleet@, op@, #[trigger] now[t])
            && now[t].node < n + 1 by {
            if t < base {
                assert(now[t] == before[t]);
            }
        }
        assert forall|n2: int, c: int|
            0 <= n2 < n + 1 && 0 <= c < op@.checks.len() && #[trigger] applies(
                fleet@,
                op@,
                n2,
                c,
            ) implies exists|t: int| task_at(now, t, n2, c) by {
            if n2 < n {
                let t = choose|t: int| task_at(before, t, n2, c);
                assert(now[t] == before[t]);
                assert(task_at(now, t, n2, c));
            } else {
                assert(order@.contains(c as usize));
                let q = choose|q: int| 0 <= q < order@.len() && order@[q] == c as usize;
                assert(selected[order[q] as int]);
                assert(task_at(now, slot[order[q] as int] as int, n2, c));
            }
        }
        assert forall|s: int, t: int| 0 <= s < t < now.len() implies precedes(
            order@,
            #[trigger] now[s],
            #[trigger] now[t],
        ) by {
            if t < base {
                assert(now[s] == before[s]);
                assert(now[t] == before[t]);
            } else if s < base {
                assert(now[s] == before[s]);
            }
        }
    }
}

/// The identifiers of the checks at these positions.
fn check_names(op: &Operation, positions: &Vec<usize>) -> (r: Vec<String>)
    requires
        forall|i: int| 0 <= i < positions.len() ==> positions[i] < op@.checks.len(),
    ensures
        names_checks(op@, positions@, r@),
{
    let mut names: Vec<String> = Vec::new();
    let mut i: usize = 0;
    while i < positions.len()
        invariant
            i <= positions.len(),
            names.len() == i,
            forall|i2: int| 0 <= i2 < positions.len() ==> positions[i2] < op@.checks.len(),
            forall|i2: int| 0 <= i2 < i ==> names[i2]@ == op@.checks[positions[i2] as int].id@,
        decreases positions.len() - i,
    {
        names.push(op.check(positions[i]).id.clone());
        i += 1;
    }
    names
}

/// `names` are the identifiers of the checks at `positions`, in the same order.
pub open spec fn names_checks(op: OperationView, positions: Seq<usize>, names: Seq<String>) -> bool {
    &&& names.len() == positions.len()
    &&& forall|i: int| 0 <= i < names.len() ==> (#[trigger] names[i])@ == op.checks[positions[i] as int].id@
}

/// `names` are the identifiers of checks that depend on each other in a
/// circle: each on the next, the last on the first.
pub open spec fn cycle_named(op: OperationView, names: Seq<String>) -> bool {
    exists|cycle: Seq<usize>| is_cycle(op.links, cycle) && #[trigger] names_checks(op, cycle, names)
}

/// The error is the one that the fleet and the operation call for: a cycle
/// of checks where there is one; else the first check that applies to a node
/// while one of its dependencies does not.
pub open spec fn refused_by(fleet: Seq<Node>, op: OperationView, e: GraphError) -> bool {
    match e {
        GraphError::CyclicDependency(names) => cycle_named(op, names@),
        GraphError::DependencyNotApplicable { node, check, dependency } => !has_cycle(op.links)
            && exists|n: int, c: int, k: int| #[trigger]
            first_inapplicable_at(fleet, op, n, c, k) && node@ == fleet[n].id@ && check@
                == op.checks[c].id@ && dependency@ == op.checks[c].depends_on[k]@,
    }
}

/// Every check of a cycle is a check of the table.
pub proof fn lemma_cycle_in_range(deps: Seq<Seq<usize>>, cycle: Seq<usize>)
    requires
        is_cycle(deps, cycle),
    ensures
        forall|i: int| 0 <= i < cycle.len() ==> cycle[i] < deps.len(),
{
    assert forall|i: int| 0 <= i < cycle.len() implies cycle[i] < deps.len() by {
        if i + 1 < cycle.len() {
            assert(depends_on(deps, cycle[i], cycle[i + 1]));
        } else {
            assert(cycle[i] == cycle.last());
        }
    }
}

/// Builds the task graph of a fleet and an operation.
///
/// Each node gets one task for each check whose selector accepts the node's
/// tags; a node to which no check applies gets none. A task depends on the
/// tasks, on the same node, of the checks that its check depends on, and
/// starts `Ready` if there are none, else `Pending`.
///
/// Checks that depend on each other in a circle are refused first, whatever
/// the fleet holds. Then a check that applies to a node while one of its
/// dependencies does not is refused, with the first such case.
pub fn build(fleet: &Fleet, op: &Operation) -> (r: Result<TaskGraph, GraphError>)
    requires
        fleet.wf(),
        op.wf(),
    ensures
        r matches Ok(graph) ==> graph.wf() && covers(fleet@, op@, graph@),
        r matches Err(e) ==> refused_by(fleet@, op@, e),
        r is Ok <==> !has_cycle(op@.links) && applicable(fleet@, op@),
        has_cycle(op@.links) <==> r is Err && r->Err_0 is CyclicDependency,
{
    let links = op.links();
    let ghost table = op@.links;
    assert(links_in_range(table));
    let order = match least_order(links) {
        Ok(order) => order,
        Err(cycle) => {
            proof {
                lemma_cycle_in_range(table, cycle@);
            }
            let names = check_names(op, &cycle);
            assert(is_cycle(op@.links, cycle@) && names_checks(op@, cycle@, names@));
            return Err(GraphError::CyclicDependency(names));
        },
    };
    let mut tasks: Vec<Task> = Vec::new();
    let mut n: usize = 0;
    while n < fleet.len()
        invariant
            n <= fleet@.len(),
            op.wf(),
            table == op@.links,
            rows(links@) == table,
            links_in_range(table),
            is_least_order(table, order@),
            !has_cycle(table),
            tasks_wf(tasks@),
            covers_upto(fleet@, op@, tasks@, order@, n as int),
            forall|n2: int| 0 <= n2 < n ==> node_applicable(fleet@, op@, n2),
        decreases fleet@.len() - n,
    {
        let node = fleet.node(n);
        let selected = select_checks(op, node);
        match first_unselected_dependency(links, &selected) {
            Some((c, k)) => {
                proof {
                    assert(table[c as int] == links[c as int]@);
                    assert forall|c2: int, k2: int|
                        0 <= c2 < c && 0 <= k2 < table[c2].len() && applies(
                            fleet@,
                            op@,
                            n as int,
                            c2,
                        ) implies applies(fleet@, op@, n as int, (#[trigger] table[c2][k2]) as int) by {
                        assert(table[c2] == links[c2]@);
                        assert(selected[links[c2][k2] as int]);
                    }
                    assert forall|k2: int| 0 <= k2 < k implies applies(
                        fleet@,
                        op@,
                        n as int,
                        (#[trigger] table[c as int][k2]) as int,
                    ) by {
                        assert(selected[links[c as int][k2] as int]);
                    }
                    assert(first_inapplicable_at(fleet@, op@, n as int, c as int, k as int));
                    assert(!node_applicable(fleet@, op@, n as int)) by {
                        assert(!applies(fleet@, op@, n as int, table[c as int][k as int] as int));
                    }
                }
                let check = op.check(c);
                return Err(
                    GraphError::DependencyNotApplicable {
                        node: node.id.clone(),
                        check: check.id.clone(),
                        dependency: check.depends_on[k].clone(),
                    },
                );
            },
            None => {},
        }
        proof {
            assert forall|c2: int, k2: int|
                0 <= c2 < op@.checks.len() && 0 <= k2 < table[c2].len() && applies(
                    fleet@,
                    op@,
                    n as int,
                    c2,
                ) implies applies(fleet@, op@, n as int, (#[trigger] table[c2][k2]) as int) by {
                assert(table[c2] == links[c2]@);
                assert(selected[links[c2][k2] as int]);
            }
        }
        add_node_tasks(&mut tasks, fleet, n, op, &order, &selected);
        n += 1;
    }
    Ok(TaskGraph { tasks })
}

/// A graph that covers a fleet and an operation holds exactly one task for
/// each node and each check that applies to it, and no other task.
pub proof fn lemma_one_task_per_pair(fleet: Seq<Node>, op: OperationView, tasks: Seq<Task>)
    requires
        covers(fleet, op, tasks),
    ensures
        forall|n: int, c: int|
            0 <= n < fleet.len() && 0 <= c < op.checks.len() && #[trigger] applies(fleet, op, n, c)
                ==> exists|t: int| task_at(tasks, t, n, c),
        forall|s: int, t: int, n: int, c: int|
            task_at(tasks, s, n, c) && task_at(tasks, t, n, c) ==> s == t,
        forall|t: int|
            0 <= t < tasks.len() ==> (#[trigger] tasks[t]).node < fleet.len() && tasks[t].check
                < op.checks.len() && applies(fleet, op, tasks[t].node as int, tasks[t].check as int),
{
    let order = choose|order: Seq<usize>|
        is_least_order(op.links, order) && covers_upto(fleet, op, tasks, order, fleet.len() as int);
    assert forall|s: int, t: int, n: int, c: int|
        task_at(tasks, s, n, c) && task_at(tasks, t, n, c) implies s == t by {
        if s < t {
            assert(precedes(order, tasks[s], tasks[t]));
        } else if t < s {
            assert(precedes(order, tasks[t], tasks[s]));
        }
    }
    assert forall|t: int| 0 <= t < tasks.len() implies (#[trigger] tasks[t]).node < fleet.len()
        && tasks[t].check < op.checks.len() && applies(
        fleet,
        op,
        tasks[t].node as int,
        tasks[t].check as int,
    ) by {
        assert(task_of_pair(fleet, op, tasks[t]));
    }
}

} // verus!
