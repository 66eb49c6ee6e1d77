//! The fleet and its checks: nodes with their tags, check definitions with
//! their selectors and dependencies, operations, and the registry of
//! operations by name.

use vstd::prelude::*;

verus! {

/// Something that is found by its identifier.
pub trait Identified {
    /// The identifier, as text.
    spec fn ident(&self) -> Seq<char>;

    fn ident_ref(&self) -> (r: &String)
        ensures
            r@ == self.ident(),
    ;
}

/// No two items share an identifier.
pub open spec fn distinct_idents<T: Identified>(items: Seq<T>) -> bool {
    forall|i: int, j: int| 0 <= i < j < items.len() ==> items[i].ident() != items[j].ident()
}

/// Some item carries the identifier `name`.
pub open spec fn has_ident<T: Identified>(items: Seq<T>, name: Seq<char>) -> bool {
    exists|i: int| 0 <= i < items.len() && items[i].ident() == name
}

/// `j` is the first position whose identifier already occurs before it.
pub open spec fn first_repeat_at<T: Identified>(items: Seq<T>, j: int) -> bool {
    &&& 0 <= j < items.len()
    &&& distinct_idents(items.take(j))
    &&& has_ident(items.take(j), items[j].ident())
}

/// The first position that carries `name`, if any does.
pub fn find_ident<T: Identified>(items: &Vec<T>, name: &String) -> (r: Option<usize>)
    ensures
        match r {
            Some(i) => i < items.len() && items[i as int].ident() == name@ && forall|j: int|
                0 <= j < i ==> items[j].ident() != name@,
            None => !has_ident(items@, name@),
        },
{
    let mut i: usize = 0;
    while i < items.len()
        invariant
            i <= items.len(),
            forall|j: int| 0 <= j < i ==> items[j].ident() != name@,
        decreases items.len() - i,
    {
        if *items[i].ident_ref() == *name {
            return Some(i);
        }
        i += 1;
    }
    None
}

/// The first position whose identifier repeats an earlier one, if any does.
pub fn first_repeat<T: Identified>(items: &Vec<T>) -> (r: Option<usize>)
    ensures
        match r {
            Some(j) => first_repeat_at(items@, j as int),
            None => distinct_idents(items@),
        },
{
    let mut j: usize = 0;
    while j < items.len()
        invariant
            j <= items.len(),
            distinct_idents(items@.take(j as int)),
        decreases items.len() - j,
    {
        let mut i: usize = 0;
        while i < j
            invariant
                i <= j < items.len(),
                distinct_idents(items@.take(j as int)),
                forall|k: int| 0 <= k < i ==> items[k].ident() != items[j as int].ident(),
            decreases j - i,
        {
            if *items[i].ident_ref() == *items[j].ident_ref() {
                assert(items@.take(j as int)[i as int].ident() == items[j as int].ident());
                return Some(j);
            }
            i += 1;
        }
        proof {
            let before = items@.take(j as int);
            let upto = items@.take(j as int + 1);
            assert forall|a: int, b: int| 0 <= a < b < upto.len() implies upto[a].ident()
                != upto[b].ident() by {
                if b < j {
                    assert(before[a].ident() != before[b].ident());
                }
            }
        }
        j += 1;
    }
    assert(items@.take(items.len() as int) =~= items@);
    None
}

/// One machine or service under management.
#[derive(Debug)]
pub struct Node {
    /// Unique within the fleet.
    pub id: String,
    pub tags: Vec<String>,
    /// How the executor reaches the node. The library only carries it along.
    pub address: String,
}

impl Identified for Node {
    open spec fn ident(&self) -> Seq<char> {
        self.id@
    }

    fn ident_ref(&self) -> (r: &String) {
        &self.id
    }
}

/// The tag `tag` is among `tags`.
pub open spec fn has_tag(tags: Seq<String>, tag: Seq<char>) -> bool {
    exists|i: int| 0 <= i < tags.len() && tags[i]@ == tag
}

/// Every tag of `wanted` is among `tags`.
pub open spec fn has_all_tags(tags: Seq<String>, wanted: Seq<String>) -> bool {
    forall|i: int| 0 <= i < wanted.len() ==> has_tag(tags, #[trigger] wanted[i]@)
}

/// At least one tag of `wanted` is among `tags`.
pub open spec fn has_any_tag(tags: Seq<String>, wanted: Seq<String>) -> bool {
    exists|i: int| 0 <= i < wanted.len() && has_tag(tags, #[trigger] wanted[i]@)
}

pub fn contains_tag(tags: &Vec<String>, tag: &String) -> (r: bool)
    ensures
        r == has_tag(tags@, tag@),
{
    let mut i: usize = 0;
    while i < tags.len()
        invariant
            i <= tags.len(),
            forall|j: int| 0 <= j < i ==> tags[j]@ != tag@,
        decreases tags.len() - i,
    {
        if tags[i] == *tag {
            return true;
        }
        i += 1;
    }
    false
}

pub fn contains_all_tags(tags: &Vec<String>, wanted: &Vec<String>) -> (r: bool)
    ensures
        r == has_all_tags(tags@, wanted@),
{
    let mut i: usize = 0;
    while i < wanted.len()
        invariant
            i <= wanted.len(),
            forall|j: int| 0 <= j < i ==> has_tag(tags@, #[trigger] wanted[j]@),
        decreases wanted.len() - i,
    {
        if !contains_tag(tags, &wanted[i]) {
            return false;
        }
        i += 1;
    }
    true
}

pub fn contains_any_tag(tags: &Vec<String>, wanted: &Vec<String>) -> (r: bool)
    ensures
        r == has_any_tag(tags@, wanted@),
{
    let mut i: usize = 0;
    while i < wanted.len()
        invariant
            i <= wanted.len(),
            forall|j: int| 0 <= j < i ==> !has_tag(tags@, #[trigger] wanted[j]@),
        decreases wanted.len() - i,
    {
        if contains_tag(tags, &wanted[i]) {
            return true;
        }
        i += 1;
    }
    false
}

/// A predicate over a node's tags that decides whether a check applies to the node.
#[derive(Debug)]
pub enum TagSelector {
    /// Applies to every node.
    Any,
    /// Applies to nodes that carry the tag.
    Tag(String),
    /// Applies to nodes that carry every one of the tags.
    AllOf(Vec<String>),
    /// Applies to nodes that carry at least one of the tags.
    AnyOf(Vec<String>),
    /// Applies to nodes that carry none of the tags.
    NoneOf(Vec<String>),
}

impl TagSelector {
    /// Whether the selector accepts a node with these tags.
    pub open spec fn selects(&self, tags: Seq<String>) -> bool {
        match self {
            TagSelector::Any => true,
            TagSelector::Tag(t) => has_tag(tags, t@),
            TagSelector::AllOf(ts) => has_all_tags(tags, ts@),
            TagSelector::AnyOf(ts) => has_any_tag(tags, ts@),
            TagSelector::NoneOf(ts) => !has_any_tag(tags, ts@),
        }
    }

    pub fn matches(&self, tags: &Vec<String>) -> (r: bool)
        ensures
            r == self.selects(tags@),
    {
        match self {
            TagSelector::Any => true,
            TagSelector::Tag(t) => contains_tag(tags, t),
            TagSelector::AllOf(ts) => contains_all_tags(tags, ts),
            TagSelector::AnyOf(ts) => contains_any_tag(tags, ts),
            TagSelector::NoneOf(ts) => !contains_any_tag(tags, ts),
        }
    }
}

/// How often a check may be attempted and how long to wait between attempts.
#[derive(Clone, Copy, Debug, PartialEq, Eq, Structural)]
pub struct RetryPolicy {
    /// The first attempt counts. A task is always attempted once.
    pub max_attempts: u32,
    /// The delay before the second attempt, in milliseconds. It doubles with each further attempt.
    pub backoff_base_ms: u64,
    /// No delay is longer than this, in milliseconds.
    pub backoff_cap_ms: u64,
}

/// One probe that can be run against a node.
#[derive(Debug)]
pub struct CheckDefinition {
    /// Unique within the operation.
    pub id: String,
    pub selector: TagSelector,
    /// Identifiers of the checks that must succeed first on the same node.
    pub depends_on: Vec<String>,
    /// The deadline of one attempt, in milliseconds.
    pub timeout_ms: u64,
    pub retry: RetryPolicy,
    /// Whether the check may safely be run again after a failed attempt.
    pub idempotent: bool,
}

impl Identified for CheckDefinition {
    open spec fn ident(&self) -> Seq<char> {
        self.id@
    }

    fn ident_ref(&self) -> (r: &String) {
        &self.id
    }
}

/// Why a fleet or an operation could not be loaded.
#[derive(Debug)]
pub enum LoadError {
    /// Two nodes share this identifier.
    DuplicateNode(String),
    /// Two checks of one operation share this identifier.
    DuplicateCheck(String),
    /// A check names a dependency that the operation does not hold.
    UnknownDependency { check: String, dependency: String },
    /// Two operations share this name.
    DuplicateOperation(String),
}

impl LoadError {
    /// The error in words.
    pub open spec fn text(&self) -> Seq<char> {
        match self {
            LoadError::DuplicateNode(id) => "duplicate node: "@ + id@,
            LoadError::DuplicateCheck(id) => "duplicate check: "@ + id@,
            LoadError::UnknownDependency { check, dependency } => "check "@ + check@
                + " depends on unknown check "@ + dependency@,
            LoadError::DuplicateOperation(name) => "duplicate operation: "@ + name@,
        }
    }

    pub fn message(&self) -> (r: String)
        ensures
            r@ == self.text(),
    {
        match self {
            LoadError::DuplicateNode(id) => {
                let mut text = "duplicate node: ".to_string();
                text.append(id.as_str());
                text
            },
            LoadError::DuplicateCheck(id) => {
                let mut text = "duplicate check: ".to_string();
                text.append(id.as_str());
                text
            },
            LoadError::UnknownDependency { check, dependency } => {
                let mut text = "check ".to_string();
                text.append(check.as_str());
                text.append(" depends on unknown check ");
                text.append(dependency.as_str());
                text
            },
            LoadError::DuplicateOperation(name) => {
                let mut text = "duplicate operation: ".to_string();
                text.append(name.as_str());
                text
            },
        }
    }
}

/// The declared set of nodes.
pub struct Fleet {
    nodes: Vec<Node>,
}

impl View for Fleet {
    type V = Seq<Node>;

    closed spec fn view(&self) -> Seq<Node> {
        self.nodes@
    }
}

impl Fleet {
    /// No two nodes share an identifier.
    pub open spec fn wf(&self) -> bool {
        distinct_idents(self@)
    }

    /// Takes the nodes as the fleet, unless two of them share an identifier:
    /// then the error names the identifier of the first node that repeats an
    /// earlier one.
    pub fn new(nodes: Vec<Node>) -> (r: Result<Fleet, LoadError>)
        ensures
            match r {
                Ok(fleet) => fleet@ == nodes@ && fleet.wf(),
                Err(LoadError::DuplicateNode(id)) => exists|j: int|
                    first_repeat_at(nodes@, j) && id@ == nodes[j].id@,
                Err(_) => false,
            },
            r is Ok <==> distinct_idents(nodes@),
    {
        match first_repeat(&nodes) {
            Some(j) => {
                proof {
                    lemma_repeat_not_distinct(nodes@, j as int);
                }
                Err(LoadError::DuplicateNode(nodes[j].id.clone()))
            },
            None => Ok(Fleet { nodes }),
        }
    }

    pub fn len(&self) -> (r: usize)
        ensures
            r == self@.len(),
    {
        self.nodes.len()
    }

    pub fn node(&self, i: usize) -> (r: &Node)
        requires
            i < self@.len(),
        ensures
            *r == self@[i as int],
    {
        &self.nodes[i]
    }

    /// The first node with this identifier, if the fleet holds one.
    pub fn find(&self, id: &String) -> (r: Option<usize>)
        ensures
            match r {
                Some(i) => i < self@.len() && self@[i as int].id@ == id@ && forall|j: int|
                    0 <= j < i ==> self@[j].id@ != id@,
                None => !has_ident(self@, id@),
            },
    {
        find_ident(&self.nodes, id)
    }
}

/// The rows of a table, each as a sequence.
pub open spec fn rows(table: Seq<Vec<usize>>) -> Seq<Seq<usize>> {
    Seq::new(table.len(), |i: int| table[i]@)
}

/// Every dependency that a check names is a check of the same list.
pub open spec fn deps_resolve(checks: Seq<CheckDefinition>) -> bool {
    forall|c: int, k: int|
        0 <= c < checks.len() && 0 <= k < checks[c].depends_on.len() ==> has_ident(
            checks,
            #[trigger] checks[c].depends_on[k]@,
        )
}

/// Dependency `k` of check `c` names no check, and it is the first such
/// dependency, by check and then by position in the check's list.
pub open spec fn first_unresolved_at(checks: Seq<CheckDefinition>, c: int, k: int) -> bool {
    &&& 0 <= c < checks.len()
    &&& 0 <= k < checks[c].depends_on.len()
    &&& !has_ident(checks, checks[c].depends_on[k]@)
    &&& forall|k2: int| 0 <= k2 < k ==> has_ident(checks, #[trigger] checks[c].depends_on[k2]@)
    &&& forall|c2: int, k2: int|
        0 <= c2 < c && 0 <= k2 < checks[c2].depends_on.len() ==> has_ident(
            checks,
            #[trigger] checks[c2].depends_on[k2]@,
        )
}

/// `links` has `n` rows, and `links[c][k]` is the position of the check that
/// dependency `k` of check `c` names.
pub open spec fn links_resolve_upto(checks: Seq<CheckDefinition>, links: Seq<Seq<usize>>, n: int) -> bool {
    &&& links.len() == n
    &&& n <= checks.len()
    &&& forall|c: int| 0 <= c < n ==> (#[trigger] links[c]).len() == checks[c].depends_on.len()
    &&& forall|c: int, k: int|
        0 <= c < n && 0 <= k < links[c].len() ==> {
            &&& (#[trigger] links[c][k]) < checks.len()
            &&& checks[links[c][k] as int].id@ == checks[c].depends_on[k]@
        }
}

/// `links[c][k]` is the position of the check that dependency `k` of check `c` names.
pub open spec fn links_resolve(checks: Seq<CheckDefinition>, links: Seq<Seq<usize>>) -> bool {
    links_resolve_upto(checks, links, checks.len() as int)
}

/// What an operation holds.
pub struct OperationView {
    pub name: Seq<char>,
    pub checks: Seq<CheckDefinition>,
    /// For each check, the positions of the checks it depends on.
    pub links: Seq<Seq<usize>>,
}

/// A named, ordered list of checks with the dependencies between them resolved.
pub struct Operation {
    name: String,
    checks: Vec<CheckDefinition>,
    links: Vec<Vec<usize>>,
}

impl View for Operation {
    type V = OperationView;

    closed spec fn view(&self) -> OperationView {
        OperationView { name: self.name@, checks: self.checks@, links: rows(self.links@) }
    }
}

impl Identified for Operation {
    open spec fn ident(&self) -> Seq<char> {
        self@.name
    }

    fn ident_ref(&self) -> (r: &String) {
        &self.name
    }
}

impl Operation {
    /// The checks have distinct identifiers and every dependency is resolved.
    pub open spec fn wf(&self) -> bool {
        &&& distinct_idents(self@.checks)
        &&& links_resolve(self@.checks, self@.links)
    }

    /// Takes the checks as an operation. Two checks with one identifier are
    /// refused first, with the identifier of the first check that repeats an
    /// earlier one; then a dependency that names no check of the list, with
    /// the first such check and dependency.
    pub fn new(name: String, checks: Vec<CheckDefinition>) -> (r: Result<Operation, LoadError>)
        ensures
            match r {
                Ok(op) => op@.name == name@ && op@.checks == checks@ && op.wf(),
                Err(LoadError::DuplicateCheck(id)) => exists|j: int|
                    first_repeat_at(checks@, j) && id@ == checks[j].id@,
                Err(LoadError::UnknownDependency { check, dependency }) => distinct_idents(checks@)
                    && exists|c: int, k: int| #[trigger]
                    first_unresolved_at(checks@, c, k) && check@ == checks[c].id@ && dependency@
                        == checks[c].depends_on[k]@,
                Err(_) => false,
            },
            r is Ok <==> distinct_idents(checks@) && deps_resolve(checks@),
    {
        match first_repeat(&checks) {
            Some(j) => {
                proof {
                    lemma_repeat_not_distinct(checks@, j as int);
                }
                return Err(LoadError::DuplicateCheck(checks[j].id.clone()));
            },
            None => {},
        }
        let mut links: Vec<Vec<usize>> = Vec::new();
        let mut c: usize = 0;
        while c < checks.len()
            invariant
                c <= checks.len(),
                links.len() == c,
                distinct_idents(checks@),
                links_resolve_upto(checks@, rows(links@), c as int),
                forall|c2: int, k2: int|
                    0 <= c2 < c && 0 <= k2 < checks[c2].depends_on.len() ==> has_ident(
                        checks@,
                        #[trigger] checks[c2].depends_on[k2]@,
                    ),
            decreases checks.len() - c,
        {
            let mut row: Vec<usize> = Vec::new();
            let mut k: usize = 0;
            while k < checks[c].depends_on.len()
                invariant
                    c < checks.len(),
                    k <= checks[c as int].depends_on.len(),
                    row.len() == k,
                    distinct_idents(checks@),
                    forall|k2: int|
                        0 <= k2 < k ==> (#[trigger] row[k2]) < checks.len() && checks[row[k2] as int].id@
                            == checks[c as int].depends_on[k2]@,
                    forall|c2: int, k2: int|
                        0 <= c2 < c && 0 <= k2 < checks[c2].depends_on.len() ==> has_ident(
                            checks@,
                            #[trigger] checks[c2].depends_on[k2]@,
                        ),
                decreases checks[c as int].depends_on.len() - k,
            {
                match find_ident(&checks, &checks[c].depends_on[k]) {
                    Some(d) => {
                        row.push(d);
                    },
                    None => {
                        proof {
                            assert forall|k2: int| 0 <= k2 < k implies has_ident(
                                checks@,
                                #[trigger] checks[c as int].depends_on[k2]@,
                            ) by {
                                assert(checks[row[k2] as int].ident() == checks[c as int].depends_on[k2]@);
                            }
                            assert(first_unresolved_at(checks@, c as int, k as int));
                        }
                        return Err(
                            LoadError::UnknownDependency {
                                check: checks[c].id.clone(),
                                dependency: checks[c].depends_on[k].clone(),
                            },
                        );
                    },
                }
                k += 1;
            }
            proof {
                let before = rows(links@);
                let after = rows(links@.push(row));
                assert forall|c2: int| 0 <= c2 < c + 1 implies (#[trigger] after[c2]).len()
                    == checks[c2].depends_on.len() by {
                    if c2 < c {
                        assert(before[c2] == after[c2]);
                    }
                }
                assert forall|c2: int, k2: int|
                    0 <= c2 < c + 1 && 0 <= k2 < after[c2].len() implies (#[trigger] after[c2][k2])
                    < checks.len() && checks[after[c2][k2] as int].id@ == checks[c2].depends_on[k2]@ by {
                    if c2 < c {
                        assert(before[c2] == after[c2]);
                        assert(before[c2][k2] < checks.len());
                    } else {
                        assert(after[c2] == row@);
                        assert(row[k2] < checks.len());
                    }
                }
                assert forall|k2: int| 0 <= k2 < checks[c as int].depends_on.len() implies has_ident(
                    checks@,
                    #[trigger] checks[c as int].depends_on[k2]@,
                ) by {
                    assert(checks[row[k2] as int].ident() == checks[c as int].depends_on[k2]@);
                }
            }
            links.push(row);
            c += 1;
        }
        Ok(Operation { name, checks, links })
    }

    pub fn name(&self) -> (r: &String)
        ensures
            r@ == self@.name,
    {
        &self.name
    }

    pub fn len(&self) -> (r: usize)
        ensures
            r == self@.checks.len(),
    {
        self.checks.len()
    }

    pub fn check(&self, c: usize) -> (r: &CheckDefinition)
        requires
            c < self@.checks.len(),
        ensures
            *r == self@.checks[c as int],
    {
        &self.checks[c]
    }

    /// For each check, the positions of the checks it depends on.
    pub fn links(&self) -> (r: &Vec<Vec<usize>>)
        ensures
            rows(r@) == self@.links,
    {
        &self.links
    }

    /// The first check with this identifier, if the operation holds one.
    pub fn find(&self, id: &String) -> (r: Option<usize>)
        ensures
            match r {
                Some(c) => c < self@.checks.len() && self@.checks[c as int].id@ == id@ && forall|j: int|
                    0 <= j < c ==> self@.checks[j].id@ != id@,
                None => !has_ident(self@.checks, id@),
            },
    {
        find_ident(&self.checks, id)
    }
}

/// The operations that can be run, by name.
pub struct CheckRegistry {
    operations: Vec<Operation>,
}

impl View for CheckRegistry {
    type V = Seq<Operation>;

    closed spec fn view(&self) -> Seq<Operation> {
        self.operations@
    }
}

impl CheckRegistry {
    /// The operations are well formed and have distinct names.
    pub open spec fn wf(&self) -> bool {
        &&& distinct_idents(self@)
        &&& forall|i: int| 0 <= i < self@.len() ==> (#[trigger] self@[i]).wf()
    }

    pub fn new() -> (r: CheckRegistry)
        ensures
            r@ == Seq::<Operation>::empty(),
            r.wf(),
    {
        CheckRegistry { operations: Vec::new() }
    }

    /// Adds the operation, unless one of that name is registered already.
    pub fn register(&mut self, op: Operation) -> (r: Result<(), LoadError>)
        requires
            old(self).wf(),
            op.wf(),
        ensures
            final(self).wf(),
            match r {
                Ok(_) => final(self)@ == old(self)@.push(op),
                Err(LoadError::DuplicateOperation(name)) => final(self)@ == old(self)@ && name@
                    == op@.name,
                Err(_) => false,
            },
            r is Ok <==> !has_ident(old(self)@, op@.name),
    {
        match find_ident(&self.operations, op.name()) {
            Some(_) => Err(LoadError::DuplicateOperation(op.name.clone())),
            None => {
                self.operations.push(op);
                Ok(())
            },
        }
    }

    pub fn len(&self) -> (r: usize)
        ensures
            r == self@.len(),
    {
        self.operations.len()
    }

    /// The operation of this name, if one is registered.
    pub fn lookup(&self, name: &String) -> (r: Option<&Operation>)
        ensures
            match r {
                Some(op) => exists|i: int| 0 <= i < self@.len() && self@[i] == *op && op@.name == name@,
                None => !has_ident(self@, name@),
            },
    {
        match find_ident(&self.operations, name) {
            Some(i) => {
                assert(self@[i as int] == self.operations[i as int]);
                Some(&self.operations[i])
            },
            None => None,
        }
    }
}

/// A sequence with a repeated identifier is not distinct.
pub proof fn lemma_repeat_not_distinct<T: Identified>(items: Seq<T>, j: int)
    requires
        first_repeat_at(items, j),
    ensures
        !distinct_idents(items),
{
    let i = choose|i: int| 0 <= i < items.take(j).len() && items.take(j)[i].ident() == items[j].ident();
    assert(items.take(j)[i] == items[i]);
    assert(items[i].ident() == items[j].ident());
}

} // verus!
