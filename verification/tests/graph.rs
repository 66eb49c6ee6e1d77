use wgx::graph::{build, GraphError, TaskGraph};
use wgx::model::{CheckDefinition, Fleet, Node, Operation, RetryPolicy, TagSelector};
use wgx::order::least_order;
use wgx::status::TaskState;

fn s(text: &str) -> String {
    text.to_string()
}

fn strings(list: &[&str]) -> Vec<String> {
    list.iter().map(|t| t.to_string()).collect()
}

fn node(id: &str, tags: &[&str]) -> Node {
    Node { id: s(id), tags: strings(tags), address: s("") }
}

fn check(id: &str, selector: TagSelector, deps: &[&str]) -> CheckDefinition {
    CheckDefinition {
        id: s(id),
        selector,
        depends_on: strings(deps),
        timeout_ms: 2500,
        retry: RetryPolicy { max_attempts: 2, backoff_base_ms: 10, backoff_cap_ms: 80 },
        idempotent: false,
    }
}

fn pairs(graph: &TaskGraph) -> Vec<(String, String)> {
    (0..graph.len()).map(|t| (graph.task(t).node_id.clone(), graph.task(t).check_id.clone())).collect()
}

fn pair(node: &str, check: &str) -> (String, String) {
    (s(node), s(check))
}

#[test]
fn order_takes_the_first_check_that_may_run() {
    // 0 depends on 2, 1 on nothing, 2 on 1, 3 on nothing.
    let deps = vec![vec![2], vec![], vec![1], vec![]];
    assert_eq!(least_order(&deps), Ok(vec![1, 2, 0, 3]));
}

#[test]
fn order_of_independent_checks_is_their_own() {
    assert_eq!(least_order(&vec![vec![], vec![], vec![]]), Ok(vec![0, 1, 2]));
    assert_eq!(least_order(&vec![]), Ok(vec![]));
}

#[test]
fn order_reports_a_cycle_of_its_own_members() {
    // 0 -> 1 -> 2 -> 1 ; 3 free.
    let deps = vec![vec![1], vec![2], vec![1], vec![]];
    let cycle = least_order(&deps).unwrap_err();
    assert!(!cycle.is_empty());
    for i in 0..cycle.len() {
        let next = cycle[(i + 1) % cycle.len()];
        assert!(deps[cycle[i]].contains(&next));
    }
    let mut sorted = cycle.clone();
    sorted.sort();
    assert_eq!(sorted, vec![1, 2]);
}

#[test]
fn order_reports_a_check_that_depends_on_itself() {
    assert_eq!(least_order(&vec![vec![], vec![1]]), Err(vec![1]));
}

#[test]
fn build_makes_one_task_per_selected_pair() {
    let fleet = Fleet::new(vec![node("web1", &["web"]), node("db1", &["db"]), node("all", &["web", "db"])]).unwrap();
    let op = Operation::new(
        s("doctor"),
        vec![
            check("connectivity", TagSelector::Any, &[]),
            check("http", TagSelector::Tag(s("web")), &["connectivity"]),
            check("replication", TagSelector::Tag(s("db")), &["connectivity"]),
        ],
    )
    .unwrap();
    let graph = build(&fleet, &op).unwrap();
    assert_eq!(
        pairs(&graph),
        vec![
            pair("web1", "connectivity"),
            pair("web1", "http"),
            pair("db1", "connectivity"),
            pair("db1", "replication"),
            pair("all", "connectivity"),
            pair("all", "http"),
            pair("all", "replication"),
        ]
    );
    for t in 0..graph.len() {
        let task = graph.task(t);
        assert_eq!(task.node_id, fleet.node(task.node).id);
        assert_eq!(task.check_id, op.check(task.check).id);
        assert!(op.check(task.check).selector.matches(&fleet.node(task.node).tags));
        assert_eq!(task.timeout_ms, 2500);
        assert_eq!(task.retry.max_attempts, 2);
        assert!(!task.idempotent);
    }
}

#[test]
fn build_links_tasks_of_one_node_only() {
    let fleet = Fleet::new(vec![node("n1", &[]), node("n2", &[])]).unwrap();
    let op = Operation::new(
        s("smoke"),
        vec![check("service-health", TagSelector::Any, &["connectivity"]), check("connectivity", TagSelector::Any, &[])],
    )
    .unwrap();
    let graph = build(&fleet, &op).unwrap();
    assert_eq!(
        pairs(&graph),
        vec![
            pair("n1", "connectivity"),
            pair("n1", "service-health"),
            pair("n2", "connectivity"),
            pair("n2", "service-health"),
        ]
    );
    assert_eq!(graph.task(0).deps, Vec::<usize>::new());
    assert_eq!(graph.task(1).deps, vec![0]);
    assert_eq!(graph.task(2).deps, Vec::<usize>::new());
    assert_eq!(graph.task(3).deps, vec![2]);
    assert_eq!(graph.task(0).state, TaskState::Ready);
    assert_eq!(graph.task(1).state, TaskState::Pending);
    assert_eq!(graph.task(2).state, TaskState::Ready);
    assert_eq!(graph.task(3).state, TaskState::Pending);
    assert_eq!(graph.find(1, 0), Some(3));
    assert_eq!(graph.find(1, 1), Some(2));
    assert_eq!(graph.find(2, 0), None);
}

#[test]
fn build_leaves_out_a_node_without_checks() {
    let fleet = Fleet::new(vec![node("web1", &["web"]), node("idle", &[]), node("web2", &["web"])]).unwrap();
    let op = Operation::new(s("doctor"), vec![check("http", TagSelector::Tag(s("web")), &[])]).unwrap();
    let graph = build(&fleet, &op).unwrap();
    assert_eq!(pairs(&graph), vec![pair("web1", "http"), pair("web2", "http")]);
    assert_eq!(graph.task(1).node, 2);
}

#[test]
fn build_of_an_empty_fleet_or_operation_has_no_task() {
    let empty_fleet = Fleet::new(vec![]).unwrap();
    let op = Operation::new(s("doctor"), vec![check("http", TagSelector::Any, &[])]).unwrap();
    assert_eq!(build(&empty_fleet, &op).unwrap().len(), 0);
    let fleet = Fleet::new(vec![node("n", &[])]).unwrap();
    let empty_op = Operation::new(s("noop"), vec![]).unwrap();
    assert_eq!(build(&fleet, &empty_op).unwrap().len(), 0);
}

#[test]
fn build_refuses_a_dependency_cycle() {
    let fleet = Fleet::new(vec![node("n1", &[])]).unwrap();
    let op = Operation::new(
        s("smoke"),
        vec![
            check("a", TagSelector::Any, &["c"]),
            check("b", TagSelector::Any, &["a"]),
            check("c", TagSelector::Any, &["b"]),
            check("free", TagSelector::Any, &[]),
        ],
    )
    .unwrap();
    match build(&fleet, &op) {
        Err(GraphError::CyclicDependency(ids)) => {
            let mut sorted = ids.clone();
            sorted.sort();
            assert_eq!(sorted, strings(&["a", "b", "c"]));
            for i in 0..ids.len() {
                let from = op.check(op.find(&ids[i]).unwrap());
                assert!(from.depends_on.contains(&ids[(i + 1) % ids.len()]));
            }
        },
        _ => panic!("a cycle was taken"),
    }
}

#[test]
fn build_refuses_a_cycle_that_no_node_selects() {
    let fleet = Fleet::new(vec![node("n1", &["web"])]).unwrap();
    let op = Operation::new(
        s("smoke"),
        vec![
            check("http", TagSelector::Tag(s("web")), &[]),
            check("x", TagSelector::Tag(s("db")), &["y"]),
            check("y", TagSelector::Tag(s("db")), &["x"]),
        ],
    )
    .unwrap();
    assert!(matches!(build(&fleet, &op), Err(GraphError::CyclicDependency(_))));
    let no_fleet = Fleet::new(vec![]).unwrap();
    assert!(matches!(build(&no_fleet, &op), Err(GraphError::CyclicDependency(_))));
}

#[test]
fn build_refuses_a_dependency_that_does_not_apply() {
    let fleet = Fleet::new(vec![node("both", &["web", "db"]), node("web1", &["web"]), node("web2", &["web"])]).unwrap();
    let op = Operation::new(
        s("smoke"),
        vec![
            check("base", TagSelector::Any, &[]),
            check("http", TagSelector::Tag(s("web")), &["base", "replication"]),
            check("replication", TagSelector::Tag(s("db")), &[]),
        ],
    )
    .unwrap();
    match build(&fleet, &op) {
        Err(GraphError::DependencyNotApplicable { node, check, dependency }) => {
            assert_eq!(node, "web1");
            assert_eq!(check, "http");
            assert_eq!(dependency, "replication");
        },
        _ => panic!("a dependency that does not apply was taken"),
    }
}

#[test]
fn build_names_the_cycle_before_the_dependency_that_does_not_apply() {
    let fleet = Fleet::new(vec![node("web1", &["web"])]).unwrap();
    let op = Operation::new(
        s("smoke"),
        vec![
            check("http", TagSelector::Tag(s("web")), &["replication"]),
            check("replication", TagSelector::Tag(s("db")), &[]),
            check("loop", TagSelector::Any, &["loop"]),
        ],
    )
    .unwrap();
    match build(&fleet, &op) {
        Err(GraphError::CyclicDependency(ids)) => assert_eq!(ids, strings(&["loop"])),
        _ => panic!("the cycle was not named first"),
    }
}

#[test]
fn build_puts_dependencies_first_on_each_node() {
    let fleet = Fleet::new(vec![node("n1", &[]), node("n2", &[])]).unwrap();
    let op = Operation::new(
        s("deep"),
        vec![
            check("d", TagSelector::Any, &["c"]),
            check("c", TagSelector::Any, &["b", "a"]),
            check("b", TagSelector::Any, &["a"]),
            check("a", TagSelector::Any, &[]),
        ],
    )
    .unwrap();
    let graph = build(&fleet, &op).unwrap();
    assert_eq!(graph.len(), 8);
    for t in 0..graph.len() {
        let task = graph.task(t);
        assert_eq!(task.deps.len(), op.check(task.check).depends_on.len());
        for (k, d) in task.deps.iter().enumerate() {
            assert!(*d < t);
            assert_eq!(graph.task(*d).node, task.node);
            assert_eq!(graph.task(*d).check_id, op.check(task.check).depends_on[k]);
        }
    }
    assert_eq!(
        pairs(&graph)[..4].to_vec(),
        vec![pair("n1", "a"), pair("n1", "b"), pair("n1", "c"), pair("n1", "d")]
    );
}
