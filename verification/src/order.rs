//! The order in which the checks of an operation may run, and the detection
//! of dependency cycles among them.
//!
//! Dependencies are given as a table: row `c` lists the positions of the
//! checks that check `c` depends on.

use crate::count::{count_of, is_set, lemma_count_miss, lemma_count_none, lemma_count_short, lemma_count_update};
use crate::model::rows;
use vstd::prelude::*;

verus! {

/// Every entry of the table is the position of a row.
pub open spec fn links_in_range(deps: Seq<Seq<usize>>) -> bool {
    forall|c: int, k: int|
        0 <= c < deps.len() && 0 <= k < deps[c].len() ==> (#[trigger] deps[c][k]) < deps.len()
}

/// Check `c` depends directly on check `d`.
pub open spec fn depends_on(deps: Seq<Seq<usize>>, c: usize, d: usize) -> bool {
    c < deps.len() && exists|k: int| 0 <= k < deps[c as int].len() && #[trigger] deps[c as int][k] == d
}

/// Each check of `cycle` depends on the one after it, and the last on the first.
pub open spec fn is_cycle(deps: Seq<Seq<usize>>, cycle: Seq<usize>) -> bool {
    &&& cycle.len() > 0
    &&& forall|i: int, j: int|
        0 <= i && j == i + 1 && j < cycle.len() ==> depends_on(
            deps,
            #[trigger] cycle[i],
            #[trigger] cycle[j],
        )
    &&& depends_on(deps, cycle.last(), cycle[0])
}

/// Some checks depend on each other in a circle.
pub open spec fn has_cycle(deps: Seq<Seq<usize>>) -> bool {
    exists|cycle: Seq<usize>| is_cycle(deps, cycle)
}

/// Check `c` may come next after the checks in `placed`: it is not among
/// them, and every check it depends on is.
pub open spec fn eligible(deps: Seq<Seq<usize>>, placed: Seq<usize>, c: usize) -> bool {
    &&& c < deps.len()
    &&& !placed.contains(c)
    &&& forall|k: int| 0 <= k < deps[c as int].len() ==> placed.contains(#[trigger] deps[c as int][k])
}

/// Check `c` is the first, by position in the table, that may come next after `placed`.
pub open spec fn least_eligible(deps: Seq<Seq<usize>>, placed: Seq<usize>, c: usize) -> bool {
    &&& eligible(deps, placed, c)
    &&& forall|c2: usize| c2 < c ==> !eligible(deps, placed, c2)
}

/// `order` lists every check once, each after the checks it depends on, and
/// at every step takes the first check that may come next.
pub open spec fn is_least_order(deps: Seq<Seq<usize>>, order: Seq<usize>) -> bool {
    &&& order.len() == deps.len()
    &&& forall|c: usize| c < deps.len() ==> order.contains(c)
    &&& forall|i: int| 0 <= i < order.len() ==> least_eligible(deps, #[trigger] order.take(i), order[i])
}

/// The place of check `c` in `order`.
pub open spec fn place_of(order: Seq<usize>, c: usize) -> int {
    choose|p: int| 0 <= p < order.len() && order[p] == c
}

/// In an order, a check stands after each check it depends on.
pub proof fn lemma_order_descends(deps: Seq<Seq<usize>>, order: Seq<usize>, c: usize, d: usize)
    requires
        is_least_order(deps, order),
        depends_on(deps, c, d),
    ensures
        0 <= place_of(order, d) < place_of(order, c) < order.len(),
        order[place_of(order, c)] == c,
        order[place_of(order, d)] == d,
{
    assert(order.contains(c));
    let p = place_of(order, c);
    let k = choose|k: int| 0 <= k < deps[c as int].len() && #[trigger] deps[c as int][k] == d;
    let before = order.take(p);
    assert(least_eligible(deps, before, order[p]));
    assert(before.contains(deps[c as int][k]));
    let q = choose|q: int| 0 <= q < before.len() && before[q] == d;
    assert(order[q] == d);
    let pd = place_of(order, d);
    // The place of `d` is before `p`: a check does not stand twice in an order.
    if pd >= p {
        let upto = order.take(pd);
        assert(least_eligible(deps, upto, order[pd]));
        assert(upto[q] == d);
        assert(upto.contains(d));
    }
}

/// Along a cycle the places in an order would fall without end.
proof fn lemma_cycle_descends(deps: Seq<Seq<usize>>, order: Seq<usize>, cycle: Seq<usize>, i: int)
    requires
        is_least_order(deps, order),
        is_cycle(deps, cycle),
        0 <= i < cycle.len(),
    ensures
        place_of(order, cycle[i]) + i <= place_of(order, cycle[0]),
    decreases i,
{
    if i > 0 {
        lemma_cycle_descends(deps, order, cycle, i - 1);
        assert(depends_on(deps, cycle[i - 1], cycle[i]));
        lemma_order_descends(deps, order, cycle[i - 1], cycle[i]);
    }
}

/// A table whose checks can be put in order holds no cycle.
pub proof fn lemma_order_excludes_cycle(deps: Seq<Seq<usize>>, order: Seq<usize>)
    requires
        is_least_order(deps, order),
    ensures
        !has_cycle(deps),
{
    if has_cycle(deps) {
        let cycle = choose|cycle: Seq<usize>| is_cycle(deps, cycle);
        lemma_cycle_descends(deps, order, cycle, cycle.len() - 1);
        lemma_order_descends(deps, order, cycle.last(), cycle[0]);
    }
}

/// There is one order only that takes, at every step, the first check that may come next.
pub proof fn lemma_least_order_unique(deps: Seq<Seq<usize>>, a: Seq<usize>, b: Seq<usize>)
    requires
        is_least_order(deps, a),
        is_least_order(deps, b),
    ensures
        a == b,
{
    lemma_orders_agree(deps, a, b, a.len() as int);
    assert(a.take(a.len() as int) =~= a);
    assert(b.take(b.len() as int) =~= b);
}

/// Two such orders agree in their first `n` checks.
proof fn lemma_orders_agree(deps: Seq<Seq<usize>>, a: Seq<usize>, b: Seq<usize>, n: int)
    requires
        is_least_order(deps, a),
        is_least_order(deps, b),
        0 <= n <= a.len(),
    ensures
        a.take(n) == b.take(n),
    decreases n,
{
    if n == 0 {
        assert(a.take(0) =~= b.take(0));
    } else {
        lemma_orders_agree(deps, a, b, n - 1);
        let placed = a.take(n - 1);
        assert(least_eligible(deps, placed, a[n - 1]));
        assert(least_eligible(deps, b.take(n - 1), b[n - 1]));
        assert(a[n - 1] == b[n - 1]);
        assert(a.take(n) =~= a.take(n - 1).push(a[n - 1]));
        assert(b.take(n) =~= b.take(n - 1).push(b[n - 1]));
    }
}

/// Whether every check that `row` lists has been placed.
fn all_placed(row: &Vec<usize>, done: &Vec<bool>) -> (r: bool)
    requires
        forall|k: int| 0 <= k < row.len() ==> (#[trigger] row[k]) < done.len(),
    ensures
        r == forall|k: int| 0 <= k < row.len() ==> done[(#[trigger] row[k]) as int],
{
    let mut k: usize = 0;
    while k < row.len()
        invariant
            k <= row.len(),
            forall|k2: int| 0 <= k2 < row.len() ==> (#[trigger] row[k2]) < done.len(),
            forall|k2: int| 0 <= k2 < k ==> done[(#[trigger] row[k2]) as int],
        decreases row.len() - k,
    {
        if !done[row[k]] {
            return false;
        }
        k += 1;
    }
    true
}

/// A check that `c` depends on and that has not been placed.
fn unplaced_dependency(row: &Vec<usize>, done: &Vec<bool>) -> (d: usize)
    requires
        forall|k: int| 0 <= k < row.len() ==> (#[trigger] row[k]) < done.len(),
        exists|k: int| 0 <= k < row.len() && !done[(#[trigger] row[k]) as int],
    ensures
        d < done.len(),
        !done[d as int],
        exists|k: int| 0 <= k < row.len() && #[trigger] row[k] == d,
{
    let mut k: usize = 0;
    loop
        invariant
            k < row.len(),
            forall|k2: int| 0 <= k2 < row.len() ==> (#[trigger] row[k2]) < done.len(),
            forall|k2: int| 0 <= k2 < k ==> done[(#[trigger] row[k2]) as int],
            exists|k2: int| 0 <= k2 < row.len() && !done[(#[trigger] row[k2]) as int],
        decreases row.len() - k,
    {
        if !done[row[k]] {
            return row[k];
        }
        k += 1;
        if k == row.len() {
            proof {
                let w = choose|k2: int| 0 <= k2 < row.len() && !done[(#[trigger] row[k2]) as int];
                assert(done[row[w] as int]);
            }
        }
    }
}

/// The predicate that a mark is a place on the path, not the value `absent`.
pub open spec fn is_below(absent: usize) -> spec_fn(usize) -> bool {
    |m: usize| m < absent
}

/// Walks from `start` along dependencies that have not been placed until a
/// check comes up twice; the stretch between its two visits is a cycle.
fn walk_to_cycle(deps: &Vec<Vec<usize>>, done: &Vec<bool>, start: usize) -> (cycle: Vec<usize>)
    requires
        links_in_range(rows(deps@)),
        done.len() == deps.len(),
        start < deps.len(),
        !done[start as int],
        forall|c: int|
            0 <= c < deps.len() && !done[c] ==> exists|k: int|
                0 <= k < deps[c].len() && !done[(#[trigger] deps[c][k]) as int],
    ensures
        is_cycle(rows(deps@), cycle@),
{
    let n = deps.len();
    let ghost table = rows(deps@);
    let mut mark: Vec<usize> = vec![n; n];
    let mut path: Vec<usize> = Vec::new();
    let mut cur: usize = start;
    proof {
        lemma_count_none(mark@, is_below(n));
    }
    loop
        invariant
            n == deps.len(),
            table == rows(deps@),
            links_in_range(table),
            done.len() == n,
            mark.len() == n,
            cur < n,
            !done[cur as int],
            forall|c: int|
                0 <= c < deps.len() && !done[c] ==> exists|k: int|
                    0 <= k < deps[c].len() && !done[(#[trigger] deps[c][k]) as int],
            count_of(mark@, is_below(n)) == path.len(),
            path.len() <= n,
            forall|i: int|
                0 <= i < path.len() ==> (#[trigger] path[i]) < n && !done[path[i] as int] && mark[path[i] as int]
                    == i,
            forall|c: int|
                0 <= c < n && (#[trigger] mark[c]) < n ==> mark[c] < path.len() && path[mark[c] as int]
                    == c,
            forall|i: int, j: int|
                0 <= i && j == i + 1 && j < path.len() ==> depends_on(
                    table,
                    #[trigger] path[i],
                    #[trigger] path[j],
                ),
            path.len() > 0 ==> depends_on(table, path[path.len() - 1], cur),
        decreases n - path.len(),
    {
        if mark[cur] < n {
            let from = mark[cur];
            let mut cycle: Vec<usize> = Vec::new();
            let mut j: usize = from;
            while j < path.len()
                invariant
                    from <= j <= path.len(),
                    from < path.len(),
                    cycle.len() == j - from,
                    forall|i: int| 0 <= i < cycle.len() ==> cycle[i] == path[from + i],
                decreases path.len() - j,
            {
                cycle.push(path[j]);
                j += 1;
            }
            proof {
                assert(cycle@.last() == path[path.len() - 1]);
                assert(cycle[0] == path[from as int]);
                assert forall|i: int, j: int| 0 <= i && j == i + 1 && j < cycle.len() implies depends_on(
                    table,
                    #[trigger] cycle[i],
                    #[trigger] cycle[j],
                ) by {
                    assert(cycle[i] == path[from + i]);
                    assert(cycle[j] == path[from + j]);
                }
            }
            return cycle;
        }
        proof {
            lemma_count_miss(mark@, cur as int, is_below(n));
            lemma_count_update(mark@, cur as int, path.len(), is_below(n));
            assert(table[cur as int] == deps[cur as int]@);
            assert forall|k: int| 0 <= k < deps[cur as int].len() implies (#[trigger] deps[cur as int][k])
                < done.len() by {
                assert(table[cur as int][k] < n);
            }
        }
        let ghost old_path = path@;
        mark.set(cur, path.len());
        path.push(cur);
        let next = unplaced_dependency(&deps[cur], done);
        proof {
            assert forall|i: int, j: int| 0 <= i && j == i + 1 && j < path.len() implies depends_on(
                table,
                #[trigger] path[i],
                #[trigger] path[j],
            ) by {
                if j < old_path.len() {
                    assert(path[i] == old_path[i]);
                    assert(path[j] == old_path[j]);
                } else {
                    assert(path[i] == old_path[old_path.len() - 1]);
                }
            }
        }
        cur = next;
    }
}

/// The order in which the checks may run: at every step the first check, by
/// position, whose dependencies have all been placed. Where some checks
/// depend on each other in a circle there is no such order, and the result is
/// one such circle: each of its checks depends on the next, the last on the
/// first.
pub fn least_order(deps: &Vec<Vec<usize>>) -> (r: Result<Vec<usize>, Vec<usize>>)
    requires
        links_in_range(rows(deps@)),
    ensures
        match r {
            Ok(order) => is_least_order(rows(deps@), order@),
            Err(cycle) => is_cycle(rows(deps@), cycle@),
        },
        r is Ok <==> !has_cycle(rows(deps@)),
{
    let n = deps.len();
    let ghost table = rows(deps@);
    let mut done: Vec<bool> = vec![false; n];
    let mut order: Vec<usize> = Vec::new();
    proof {
        lemma_count_none(done@, is_set());
    }
    let mut i: usize = 0;
    while i < n
        invariant
            n == deps.len(),
            table == rows(deps@),
            links_in_range(table),
            i <= n,
            done.len() == n,
            order.len() == i,
            count_of(done@, is_set()) == i,
            forall|c: usize| c < n ==> done[c as int] == #[trigger] order@.contains(c),
            forall|j: int| 0 <= j < i ==> least_eligible(table, #[trigger] order@.take(j), order[j]),
        decreases n - i,
    {
        let mut c: usize = 0;
        let mut found: bool = false;
        while c < n && !found
            invariant
                n == deps.len(),
                table == rows(deps@),
                links_in_range(table),
                done.len() == n,
                c <= n,
                found ==> c < n,
                forall|c2: usize| c2 < n ==> done[c2 as int] == #[trigger] order@.contains(c2),
                forall|c2: usize| c2 < c ==> !eligible(table, order@, c2),
                found ==> eligible(table, order@, c),
            decreases n - c, if found { 0int } else { 1int },
        {
            assert(table[c as int] == deps[c as int]@);
            if !done[c] && all_placed(&deps[c], &done) {
                found = true;
                assert forall|k: int| 0 <= k < table[c as int].len() implies order@.contains(
                    #[trigger] table[c as int][k],
                ) by {
                    assert(done[deps[c as int][k] as int]);
                }
            } else {
                proof {
                    if !done[c as int] {
                        let k = choose|k: int|
                            0 <= k < deps[c as int].len() && !done[(#[trigger] deps[c as int][k]) as int];
                        assert(!order@.contains(table[c as int][k]));
                    } else {
                        assert(order@.contains(c));
                    }
                }
                c += 1;
            }
        }
        if !found {
            proof {
                let u = lemma_count_short(done@, is_set());
            }
            let start = first_unplaced(&done);
            proof {
                assert forall|c2: int| 0 <= c2 < deps.len() && !done[c2] implies exists|k: int|
                    0 <= k < deps[c2].len() && !done[(#[trigger] deps[c2][k]) as int] by {
                    assert(!eligible(table, order@, c2 as usize));
                    assert(!order@.contains(c2 as usize));
                    assert(table[c2] == deps[c2]@);
                    let k = choose|k: int|
                        0 <= k < table[c2].len() && !order@.contains(#[trigger] table[c2][k]);
                    assert(!done[deps[c2][k] as int]);
                }
            }
            let cycle = walk_to_cycle(deps, &done, start);
            return Err(cycle);
        }
        proof {
            let grown = order@.push(c);
            assert(grown.take(i as int) =~= order@);
            assert forall|j: int| 0 <= j < i + 1 implies least_eligible(
                table,
                #[trigger] grown.take(j),
                grown[j],
            ) by {
                if j < i {
                    assert(grown.take(j) =~= order@.take(j));
                }
            }
            assert forall|c2: usize| c2 < n implies done@.update(c as int, true)[c2 as int]
                == #[trigger] grown.contains(c2) by {
                if c2 == c {
                    assert(grown[i as int] == c);
                } else if done[c2 as int] {
                    assert(order@.contains(c2));
                    let p = choose|p: int| 0 <= p < order@.len() && order@[p] == c2;
                    assert(grown[p] == c2);
                } else if grown.contains(c2) {
                    let p = choose|p: int| 0 <= p < grown.len() && grown[p] == c2;
                    assert(order@[p] == c2);
                    assert(order@.contains(c2));
                }
            }
            lemma_count_update(done@, c as int, true, is_set());
        }
        done.set(c, true);
        order.push(c);
        i += 1;
    }
    proof {
        assert forall|c: usize| c < n implies order@.contains(c) by {
            if !done[c as int] {
                lemma_count_miss(done@, c as int, is_set());
            }
        }
        lemma_order_excludes_cycle(table, order@);
    }
    Ok(order)
}

/// The first check that has not been placed.
fn first_unplaced(done: &Vec<bool>) -> (c: usize)
    requires
        exists|c: int| 0 <= c < done.len() && !done[c],
    ensures
        c < done.len(),
        !done[c as int],
{
    let mut c: usize = 0;
    loop
        invariant
            c < done.len(),
            forall|c2: int| 0 <= c2 < c ==> done[c2],
            exists|c2: int| 0 <= c2 < done.len() && !done[c2],
        decreases done.len() - c,
    {
        if !done[c] {
            return c;
        }
        c += 1;
    }
}

} // verus!
