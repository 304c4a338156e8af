//! The transitive dependency closure of a package in a resolved graph.
use vstd::prelude::*;

verus! {

/// The dependency lists as sequences.
pub open spec fn dep_lists(deps: Seq<Vec<usize>>) -> Seq<Seq<usize>> {
    deps.map_values(|d: Vec<usize>| d@)
}

/// Every dependency index names a package of the graph.
pub open spec fn graph_wf(deps: Seq<Seq<usize>>) -> bool {
    forall|a: int, j: int|
        0 <= a < deps.len() && 0 <= j < deps[a].len() ==> (#[trigger] deps[a][j] as int) < deps.len()
}

/// Package `a` depends directly on package `b`.
pub open spec fn edge(deps: Seq<Seq<usize>>, a: int, b: int) -> bool {
    0 <= a < deps.len() && exists|j: int| 0 <= j < deps[a].len() && #[trigger] deps[a][j] as int == b
}

/// `p` is a walk along dependency edges.
pub open spec fn is_walk(deps: Seq<Seq<usize>>, p: Seq<int>) -> bool {
    &&& p.len() >= 1
    &&& forall|k: int| 0 <= k < p.len() - 1 ==> edge(deps, #[trigger] p[k], p[k + 1])
}

/// Package `b` lies in the dependency closure of package `a`.
pub open spec fn reachable(deps: Seq<Seq<usize>>, a: int, b: int) -> bool {
    exists|p: Seq<int>| is_walk(deps, p) && p[0] == a && #[trigger] p.last() == b
}

/// The members of the closure of `root` that are below `n`, in increasing order.
pub open spec fn closure_below(g: Seq<Seq<usize>>, root: int, n: nat) -> Seq<usize>
    decreases n,
{
    if n == 0 {
        seq![]
    } else {
        let rest = closure_below(g, root, (n - 1) as nat);
        if reachable(g, root, n - 1) {
            rest.push((n - 1) as usize)
        } else {
            rest
        }
    }
}

/// The closure of `root`, in increasing index order.
pub open spec fn closure_seq(g: Seq<Seq<usize>>, root: int) -> Seq<usize> {
    closure_below(g, root, g.len())
}

/// `s` is strictly increasing.
pub open spec fn strictly_increasing(s: Seq<usize>) -> bool {
    forall|i: int, j: int| 0 <= i < j < s.len() ==> s[i] < s[j]
}

/// The number of `false` entries.
pub open spec fn count_unseen(seen: Seq<bool>) -> nat
    decreases seen.len(),
{
    if seen.len() == 0 {
        0
    } else {
        count_unseen(seen.drop_last()) + if seen.last() {
            0nat
        } else {
            1nat
        }
    }
}

proof fn lemma_count_unseen_mark(seen: Seq<bool>, i: int)
    requires
        0 <= i < seen.len(),
        !seen[i],
    ensures
        count_unseen(seen.update(i, true)) + 1 == count_unseen(seen),
    decreases seen.len(),
{
    let s2 = seen.update(i, true);
    if i == seen.len() - 1 {
        assert(s2.drop_last() =~= seen.drop_last());
    } else {
        assert(s2.drop_last() =~= seen.drop_last().update(i, true));
        lemma_count_unseen_mark(seen.drop_last(), i);
    }
}

proof fn lemma_walk_extend(deps: Seq<Seq<usize>>, p: Seq<int>, b: int)
    requires
        is_walk(deps, p),
        edge(deps, p.last(), b),
    ensures
        is_walk(deps, p.push(b)),
        p.push(b)[0] == p[0],
        p.push(b).last() == b,
{
    let q = p.push(b);
    assert forall|k: int| 0 <= k < q.len() - 1 implies edge(deps, #[trigger] q[k], q[k + 1]) by {
        if k < p.len() - 1 {
            assert(q[k] == p[k] && q[k + 1] == p[k + 1]);
        }
    }
}

/// `root` and every package it depends on, directly or not: the closure of
/// `root`, in increasing index order. The expansion goes in
/// rounds: the packages found in one round are expanded in the next.
pub fn resolve_deps(deps: &Vec<Vec<usize>>, root: usize) -> (r: Vec<usize>)
    requires
        graph_wf(dep_lists(deps@)),
        root < deps.len(),
    ensures
        r@ == closure_seq(dep_lists(deps@), root as int),
        strictly_increasing(r@),
        forall|x: usize|
            #![trigger r@.contains(x)]
            #![trigger reachable(dep_lists(deps@), root as int, x as int)]
            r@.contains(x) <==> x < deps.len() && reachable(dep_lists(deps@), root as int, x as int),
{
    let ghost g = dep_lists(deps@);
    let n = deps.len();
    let mut seen: Vec<bool> = Vec::new();
    let mut i: usize = 0;
    while i < n
        invariant
            i <= n,
            seen@.len() == i,
            forall|x: int| 0 <= x < i ==> !seen@[x],
        decreases n - i,
    {
        seen.push(false);
        i = i + 1;
    }
    seen.set(root, true);
    proof {
        let p = seq![root as int];
        assert(is_walk(g, p));
        assert(p.last() == root as int);
    }
    let mut frontier: Vec<usize> = Vec::new();
    frontier.push(root);
    assert(frontier@[0] == root);
    assert(frontier@.contains(root));
    while frontier.len() > 0
        invariant
            n == deps.len(),
            g == dep_lists(deps@),
            graph_wf(g),
            seen@.len() == n,
            root < n,
            seen@[root as int],
            forall|x: int| 0 <= x < n && #[trigger] seen@[x] ==> reachable(g, root as int, x),
            forall|k: int| 0 <= k < frontier@.len() ==> (#[trigger] frontier@[k]) < n && seen@[frontier@[k] as int],
            forall|x: int, j: int|
                0 <= x < n && seen@[x] && !frontier@.contains(x as usize) && 0 <= j < g[x].len()
                    ==> seen@[#[trigger] g[x][j] as int],
        decreases count_unseen(seen@), frontier@.len(),
    {
        let ghost unseen_before = count_unseen(seen@);
        let ghost frontier_before = frontier@;
        let mut next: Vec<usize> = Vec::new();
        let mut k: usize = 0;
        assert(frontier@.subrange(0, frontier@.len() as int) =~= frontier@);
        while k < frontier.len()
            invariant
                n == deps.len(),
                g == dep_lists(deps@),
                graph_wf(g),
                seen@.len() == n,
                root < n,
                seen@[root as int],
                frontier@ == frontier_before,
                frontier@.len() > 0,
                k <= frontier@.len(),
                forall|x: int| 0 <= x < n && #[trigger] seen@[x] ==> reachable(g, root as int, x),
                forall|k2: int| 0 <= k2 < frontier@.len() ==> (#[trigger] frontier@[k2]) < n && seen@[frontier@[k2] as int],
                forall|k2: int| 0 <= k2 < next@.len() ==> (#[trigger] next@[k2]) < n && seen@[next@[k2] as int],
                forall|x: int, j: int|
                    0 <= x < n && seen@[x] && !frontier@.subrange(k as int, frontier@.len() as int).contains(x as usize)
                        && !next@.contains(x as usize) && 0 <= j < g[x].len()
                        ==> seen@[#[trigger] g[x][j] as int],
                count_unseen(seen@) + next@.len() == unseen_before,
            decreases frontier@.len() - k,
        {
            let u = frontier[k];
            let du = &deps[u];
            assert(du@ == g[u as int]);
            let mut j: usize = 0;
            while j < du.len()
                invariant
                    n == deps.len(),
                    g == dep_lists(deps@),
                    graph_wf(g),
                    seen@.len() == n,
                    root < n,
                    seen@[root as int],
                    frontier@ == frontier_before,
                    k < frontier@.len(),
                    u == frontier@[k as int],
                    u < n,
                    seen@[u as int],
                    du@ == g[u as int],
                    j <= du@.len(),
                    forall|x: int| 0 <= x < n && #[trigger] seen@[x] ==> reachable(g, root as int, x),
                    forall|k2: int| 0 <= k2 < frontier@.len() ==> (#[trigger] frontier@[k2]) < n && seen@[frontier@[k2] as int],
                    forall|k2: int| 0 <= k2 < next@.len() ==> (#[trigger] next@[k2]) < n && seen@[next@[k2] as int],
                    forall|x: int, j2: int|
                        0 <= x < n && seen@[x] && !frontier@.subrange(k as int, frontier@.len() as int).contains(x as usize)
                            && !next@.contains(x as usize) && 0 <= j2 < g[x].len()
                            ==> seen@[#[trigger] g[x][j2] as int],
                    forall|j2: int| 0 <= j2 < j ==> seen@[#[trigger] g[u as int][j2] as int],
                    count_unseen(seen@) + next@.len() == unseen_before,
                decreases du@.len() - j,
            {
                let v = du[j];
                assert(g[u as int][j as int] == v);
                if !seen[v] {
                    proof {
                        lemma_count_unseen_mark(seen@, v as int);
                        let p = choose|p: Seq<int>| is_walk(g, p) && p[0] == root as int && #[trigger] p.last() == u as int;
                        assert(g[u as int][j as int] as int == v as int);
                        lemma_walk_extend(g, p, v as int);
                    }
                    let ghost next_before = next@;
                    seen.set(v, true);
                    next.push(v);
                    assert forall|y: usize| next_before.contains(y) implies next@.contains(y) by {
                        let w = choose|w: int| 0 <= w < next_before.len() && next_before[w] == y;
                        assert(next@[w] == y);
                    }
                    assert(next@[next@.len() - 1] == v);
                }
                j = j + 1;
            }
            proof {
                assert forall|x: int, j2: int|
                    0 <= x < n && seen@[x] && !frontier@.subrange(k + 1, frontier@.len() as int).contains(x as usize)
                        && !next@.contains(x as usize) && 0 <= j2 < g[x].len()
                        implies seen@[#[trigger] g[x][j2] as int] by {
                    if x != u as int {
                        if frontier@.subrange(k as int, frontier@.len() as int).contains(x as usize) {
                            let w = choose|w: int| 0 <= w < frontier@.len() - k && #[trigger] frontier@.subrange(k as int, frontier@.len() as int)[w] == x as usize;
                            if w > 0 {
                                assert(frontier@.subrange(k + 1, frontier@.len() as int)[w - 1] == x as usize);
                            }
                        }
                    }
                }
            }
            k = k + 1;
        }
        proof {
            assert(frontier@.subrange(k as int, frontier@.len() as int) =~= Seq::<usize>::empty());
            if next@.len() > 0 {
                assert(count_unseen(seen@) < unseen_before);
            }
        }
        frontier = next;
    }
    proof {
        assert forall|y: int| 0 <= y < n implies (seen@[y] <==> reachable(g, root as int, y)) by {
            if reachable(g, root as int, y) {
                lemma_closed_contains_reachable(g, seen@, root as int, y);
            }
        }
    }
    let mut r: Vec<usize> = Vec::new();
    let mut x: usize = 0;
    while x < n
        invariant
            x <= n,
            g == dep_lists(deps@),
            forall|y: int| 0 <= y < n ==> (seen@[y] <==> reachable(g, root as int, y)),
            r@ == closure_below(g, root as int, x as nat),
            n == deps.len(),
            seen@.len() == n,
            strictly_increasing(r@),
            forall|k: int| 0 <= k < r@.len() ==> (#[trigger] r@[k]) < x,
            forall|y: usize| #[trigger] r@.contains(y) <==> (y < x && seen@[y as int]),
        decreases n - x,
    {
        if seen[x] {
            let ghost r_before = r@;
            r.push(x);
            assert forall|y: usize| #[trigger] r@.contains(y) <==> (r_before.contains(y) || y == x) by {
                if r@.contains(y) {
                    let w = choose|w: int| 0 <= w < r@.len() && r@[w] == y;
                    if w < r_before.len() {
                        assert(r_before[w] == y);
                    }
                }
                if r_before.contains(y) {
                    let w = choose|w: int| 0 <= w < r_before.len() && r_before[w] == y;
                    assert(r@[w] == y);
                }
                if y == x {
                    assert(r@[r@.len() - 1] == y);
                }
            }
        }
        x = x + 1;
    }
    proof {
        assert forall|x: usize|
            #![trigger r@.contains(x)]
            #![trigger reachable(dep_lists(deps@), root as int, x as int)]
            r@.contains(x) <==> x < deps.len() && reachable(g, root as int, x as int) by {
            if x < n && reachable(g, root as int, x as int) {
                lemma_closed_contains_reachable(g, seen@, root as int, x as int);
            }
        }
    }
    r
}

/// A set of packages that holds `root` and every dependency of its members
/// holds everything reachable from `root`.
proof fn lemma_closed_contains_reachable(g: Seq<Seq<usize>>, seen: Seq<bool>, root: int, x: int)
    requires
        graph_wf(g),
        seen.len() == g.len(),
        0 <= root < g.len(),
        seen[root],
        forall|y: int, j: int| 0 <= y < g.len() && seen[y] && 0 <= j < g[y].len() ==> seen[#[trigger] g[y][j] as int],
        reachable(g, root, x),
    ensures
        0 <= x < g.len() && seen[x],
{
    let p = choose|p: Seq<int>| is_walk(g, p) && p[0] == root && #[trigger] p.last() == x;
    lemma_walk_stays_inside(g, seen, p, p.len() - 1);
}

proof fn lemma_walk_stays_inside(g: Seq<Seq<usize>>, seen: Seq<bool>, p: Seq<int>, k: int)
    requires
        graph_wf(g),
        seen.len() == g.len(),
        is_walk(g, p),
        0 <= p[0] < g.len(),
        seen[p[0]],
        forall|y: int, j: int| 0 <= y < g.len() && seen[y] && 0 <= j < g[y].len() ==> seen[#[trigger] g[y][j] as int],
        0 <= k < p.len(),
    ensures
        0 <= p[k] < g.len() && seen[p[k]],
    decreases k,
{
    if k > 0 {
        lemma_walk_stays_inside(g, seen, p, k - 1);
        assert(edge(g, p[k - 1], p[k]));
        let j = choose|j: int| 0 <= j < g[p[k - 1]].len() && #[trigger] g[p[k - 1]][j] as int == p[k];
        assert(seen[g[p[k - 1]][j] as int]);
    }
}

/// Each package has the same direct dependencies in both graphs, whatever
/// their order or repetition in the lists.
pub open spec fn same_dependencies(g1: Seq<Seq<usize>>, g2: Seq<Seq<usize>>) -> bool {
    &&& g1.len() == g2.len()
    &&& forall|a: int, x: usize| 0 <= a < g1.len() ==> (g1[a].contains(x) <==> g2[a].contains(x))
}

proof fn lemma_edge_same(g1: Seq<Seq<usize>>, g2: Seq<Seq<usize>>, a: int, b: int)
    requires
        same_dependencies(g1, g2),
        edge(g1, a, b),
    ensures
        edge(g2, a, b),
{
    let j = choose|j: int| 0 <= j < g1[a].len() && #[trigger] g1[a][j] as int == b;
    let x = g1[a][j];
    assert(g1[a].contains(x));
    assert(g2[a].contains(x));
    let j2 = choose|j2: int| 0 <= j2 < g2[a].len() && g2[a][j2] == x;
    assert(g2[a][j2] as int == b);
}

proof fn lemma_reachable_same(g1: Seq<Seq<usize>>, g2: Seq<Seq<usize>>, root: int, x: int)
    requires
        same_dependencies(g1, g2),
        reachable(g1, root, x),
    ensures
        reachable(g2, root, x),
{
    let p = choose|p: Seq<int>| is_walk(g1, p) && p[0] == root && #[trigger] p.last() == x;
    assert forall|k: int| 0 <= k < p.len() - 1 implies edge(g2, #[trigger] p[k], p[k + 1]) by {
        lemma_edge_same(g1, g2, p[k], p[k + 1]);
    }
    assert(is_walk(g2, p));
}

proof fn lemma_closure_below_same(g1: Seq<Seq<usize>>, g2: Seq<Seq<usize>>, root: int, n: nat)
    requires
        same_dependencies(g1, g2),
    ensures
        closure_below(g1, root, n) == closure_below(g2, root, n),
    decreases n,
{
    if n > 0 {
        lemma_closure_below_same(g1, g2, root, (n - 1) as nat);
        assert(same_dependencies(g2, g1));
        if reachable(g1, root, n - 1) {
            lemma_reachable_same(g1, g2, root, n - 1);
        }
        if reachable(g2, root, n - 1) {
            lemma_reachable_same(g2, g1, root, n - 1);
        }
    }
}

/// The closure, and the order in which it is listed, depend on each
/// package's set of direct dependencies only, never on the order in which
/// the resolver lists them.
pub proof fn lemma_closure_ignores_listing_order(g1: Seq<Seq<usize>>, g2: Seq<Seq<usize>>, root: int)
    requires
        same_dependencies(g1, g2),
    ensures
        closure_seq(g1, root) == closure_seq(g2, root),
{
    lemma_closure_below_same(g1, g2, root, g1.len());
}

} // verus!
