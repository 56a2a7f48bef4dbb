use vstd::prelude::*;
use vstd::set_lib::{lemma_int_range, lemma_len_subset, set_int_range};

verus! {

/// Fan-out lists: `[node][output_plug]` is the ordered sequence of
/// `(target_node, target_input_plug)` that the output plug feeds.
pub type AdjList = Vec<Vec<Vec<(usize, usize)>>>;

/// A topological order of the nodes, or `None` when the graph has a cycle.
pub type TopoList = Option<Vec<usize>>;

/// The mathematical form of a [`TopoList`].
pub open spec fn topo_view(t: TopoList) -> Option<Seq<usize>> {
    match t {
        Some(v) => Some(v@),
        None => None,
    }
}

/// The mathematical form of an [`AdjList`].
pub type AdjView = Seq<Seq<Seq<(usize, usize)>>>;

/// Some output plug of node `u` feeds an input plug of node `v`.
pub open spec fn has_edge(adj: AdjView, u: int, v: int) -> bool {
    &&& 0 <= u < adj.len()
    &&& exists|p: int, k: int|
        0 <= p < adj[u].len() && 0 <= k < adj[u][p].len() && #[trigger] adj[u][p][k].0 == v
}

/// Every edge targets a node of the graph.
pub open spec fn targets_in_range(adj: AdjView) -> bool {
    forall|u: int, p: int, k: int|
        0 <= u < adj.len() && 0 <= p < adj[u].len() && 0 <= k < adj[u][p].len()
            ==> #[trigger] adj[u][p][k].0 < adj.len()
}

/// Consecutive nodes of `w` are joined by edges.
pub open spec fn is_path(adj: AdjView, w: Seq<int>) -> bool {
    forall|k: int| #![trigger w[k]] 0 <= k < w.len() - 1 ==> has_edge(adj, w[k], w[k + 1])
}

/// Some path of at least one edge leads from a node back to itself.
pub open spec fn has_cycle(adj: AdjView) -> bool {
    exists|w: Seq<int>| #![trigger is_path(adj, w)]
        w.len() >= 2 && w[0] == w[w.len() - 1] && is_path(adj, w)
}

/// Node `v` stands somewhere in `s`.
pub open spec fn holds(s: Seq<usize>, v: int) -> bool {
    exists|i: int| 0 <= i < s.len() && s[i] as int == v
}

/// `s` holds every node of the graph exactly once, and the source of every
/// edge stands before its target.
pub open spec fn is_topo_order(adj: AdjView, s: Seq<usize>) -> bool {
    &&& s.no_duplicates()
    &&& forall|i: int| 0 <= i < s.len() ==> #[trigger] s[i] < adj.len()
    &&& forall|v: int| 0 <= v < adj.len() ==> #[trigger] holds(s, v)
    &&& forall|i: int, j: int|
        0 <= i < s.len() && 0 <= j < s.len() && has_edge(adj, #[trigger] s[i] as int, #[trigger] s[j] as int)
            ==> i < j
}

/// Every node that is not yet visited has a predecessor that is not yet
/// visited either: no node is ready to be emitted.
pub open spec fn stuck(adj: AdjView, visited: Seq<bool>) -> bool {
    forall|v: int| #![trigger visited[v]]
        0 <= v < adj.len() && !visited[v] ==> exists|u: int|
            0 <= u < adj.len() && !visited[u] && #[trigger] has_edge(adj, u, v)
}

/// Where node `v` stands in `s`.
pub open spec fn position(s: Seq<usize>, v: int) -> int {
    choose|i: int| 0 <= i < s.len() && s[i] as int == v
}

/// A backward walk of `steps` edges through unvisited nodes, ending at `x`.
pub open spec fn walk_to(adj: AdjView, visited: Seq<bool>, x: int, steps: nat) -> Seq<int>
    decreases steps,
{
    if steps == 0 {
        seq![x]
    } else {
        let u = choose|u: int| 0 <= u < adj.len() && !visited[u] && has_edge(adj, u, x);
        walk_to(adj, visited, u, (steps - 1) as nat).push(x)
    }
}

proof fn lemma_edge_rises(adj: AdjView, s: Seq<usize>, u: int, v: int)
    requires
        is_topo_order(adj, s),
        has_edge(adj, u, v),
        0 <= v < adj.len(),
    ensures
        0 <= position(s, u) < s.len(),
        0 <= position(s, v) < s.len(),
        s[position(s, u)] as int == u,
        s[position(s, v)] as int == v,
        position(s, u) < position(s, v),
{
    assert(holds(s, u));
    assert(holds(s, v));
    let i = position(s, u);
    let j = position(s, v);
    assert(has_edge(adj, s[i] as int, s[j] as int));
}

proof fn lemma_path_rises(adj: AdjView, s: Seq<usize>, w: Seq<int>, k: int)
    requires
        is_topo_order(adj, s),
        is_path(adj, w),
        1 <= k < w.len(),
        0 <= w[k] < adj.len(),
    ensures
        position(s, w[0]) < position(s, w[k]),
    decreases k,
{
    assert(has_edge(adj, w[k - 1], w[k]));
    lemma_edge_rises(adj, s, w[k - 1], w[k]);
    if k > 1 {
        lemma_path_rises(adj, s, w, k - 1);
    }
}

/// A graph that has a topological order has no cycle.
pub proof fn lemma_order_excludes_cycle(adj: AdjView, s: Seq<usize>)
    requires
        is_topo_order(adj, s),
    ensures
        !has_cycle(adj),
{
    if has_cycle(adj) {
        let w = choose|w: Seq<int>| #![trigger is_path(adj, w)]
            w.len() >= 2 && w[0] == w[w.len() - 1] && is_path(adj, w);
        assert(has_edge(adj, w[0], w[1]));
        lemma_path_rises(adj, s, w, w.len() - 1);
    }
}

proof fn lemma_walk(adj: AdjView, visited: Seq<bool>, x: int, steps: nat)
    requires
        stuck(adj, visited),
        visited.len() == adj.len(),
        0 <= x < adj.len(),
        !visited[x],
    ensures
        walk_to(adj, visited, x, steps).len() == steps + 1,
        walk_to(adj, visited, x, steps)[steps as int] == x,
        forall|k: int| #![trigger walk_to(adj, visited, x, steps)[k]]
            0 <= k <= steps ==> 0 <= walk_to(adj, visited, x, steps)[k] < adj.len(),
        is_path(adj, walk_to(adj, visited, x, steps)),
    decreases steps,
{
    if steps > 0 {
        assert(exists|u: int| 0 <= u < adj.len() && !visited[u] && #[trigger] has_edge(adj, u, x));
        let u = choose|u: int| 0 <= u < adj.len() && !visited[u] && has_edge(adj, u, x);
        lemma_walk(adj, visited, u, (steps - 1) as nat);
        let w0 = walk_to(adj, visited, u, (steps - 1) as nat);
        let w = walk_to(adj, visited, x, steps);
        assert(w == w0.push(x));
        assert forall|k: int| #![trigger w[k]] 0 <= k < w.len() - 1 implies has_edge(adj, w[k], w[k + 1]) by {
            if k < w.len() - 2 {
                assert(w0[k] == w[k]);
                assert(w0[k + 1] == w[k + 1]);
            }
        }
    }
}

/// When no unvisited node is ready while some node is unvisited, the graph
/// has a cycle.
pub proof fn lemma_stuck_has_cycle(adj: AdjView, visited: Seq<bool>, x: int)
    requires
        stuck(adj, visited),
        visited.len() == adj.len(),
        0 <= x < adj.len(),
        !visited[x],
    ensures
        has_cycle(adj),
{
    let n = adj.len();
    let w = walk_to(adj, visited, x, n);
    lemma_walk(adj, visited, x, n);
    if w.no_duplicates() {
        w.unique_seq_to_set();
        lemma_int_range(0, n as int);
        assert forall|a: int| w.to_set().contains(a) implies set_int_range(0, n as int).contains(a) by {
            let k = choose|k: int| 0 <= k < w.len() && w[k] == a;
            assert(0 <= w[k] < n);
        }
        lemma_len_subset(w.to_set(), set_int_range(0, n as int));
        assert(false);
    }
    let (i, j) = choose|i: int, j: int|
        0 <= i < w.len() && 0 <= j < w.len() && i != j && w[i] == w[j];
    let lo = if i < j { i } else { j };
    let hi = if i < j { j } else { i };
    let c = w.subrange(lo, hi + 1);
    assert forall|k: int| #![trigger c[k]] 0 <= k < c.len() - 1 implies has_edge(adj, c[k], c[k + 1]) by {
        assert(c[k] == w[lo + k]);
        assert(c[k + 1] == w[lo + k + 1]);
    }
    assert(is_path(adj, c));
}

/// Whether every node with an edge into `v` is already visited.
fn ready(adj: &AdjList, visited: &Vec<bool>, v: usize) -> (r: bool)
    requires
        visited.len() == adj.len(),
    ensures
        r == (forall|u: int| 0 <= u < adj.len() && #[trigger] has_edge(adj.deep_view(), u, v as int) ==> visited@[u]),
{
    let ghost g = adj.deep_view();
    let mut u: usize = 0;
    while u < adj.len()
        invariant
            g == adj.deep_view(),
            visited.len() == adj.len(),
            u <= adj.len(),
            forall|w: int, p: int, k: int|
                0 <= w < u && 0 <= p < g[w].len() && 0 <= k < g[w][p].len()
                    && #[trigger] g[w][p][k].0 == v ==> visited@[w],
        decreases adj.len() - u,
    {
        let row = &adj[u];
        let mut p: usize = 0;
        while p < row.len()
            invariant
                g == adj.deep_view(),
                visited.len() == adj.len(),
                u < adj.len(),
                row == adj@[u as int],
                p <= row.len(),
                forall|w: int, q: int, k: int|
                    0 <= w < u && 0 <= q < g[w].len() && 0 <= k < g[w][q].len()
                        && #[trigger] g[w][q][k].0 == v ==> visited@[w],
                forall|q: int, k: int|
                    0 <= q < p && 0 <= k < g[u as int][q].len()
                        && #[trigger] g[u as int][q][k].0 == v ==> visited@[u as int],
            decreases row.len() - p,
        {
            let plug = &row[p];
            let mut k: usize = 0;
            while k < plug.len()
                invariant
                    g == adj.deep_view(),
                    visited.len() == adj.len(),
                    u < adj.len(),
                    row == adj@[u as int],
                    p < row.len(),
                    plug == row@[p as int],
                    k <= plug.len(),
                    forall|w: int, q: int, j: int|
                        0 <= w < u && 0 <= q < g[w].len() && 0 <= j < g[w][q].len()
                            && #[trigger] g[w][q][j].0 == v ==> visited@[w],
                    forall|q: int, j: int|
                        0 <= q < p && 0 <= j < g[u as int][q].len()
                            && #[trigger] g[u as int][q][j].0 == v ==> visited@[u as int],
                    forall|j: int|
                        0 <= j < k && #[trigger] g[u as int][p as int][j].0 == v ==> visited@[u as int],
                decreases plug.len() - k,
            {
                if plug[k].0 == v && !visited[u] {
                    assert(g[u as int][p as int][k as int].0 == v);
                    assert(has_edge(g, u as int, v as int));
                    return false;
                }
                k += 1;
            }
            p += 1;
        }
        u += 1;
    }
    assert forall|w: int| 0 <= w < adj.len() && #[trigger] has_edge(g, w, v as int) implies visited@[w] by {
        let (q, j) = choose|q: int, j: int| 0 <= q < g[w].len() && 0 <= j < g[w][q].len() && #[trigger] g[w][q][j].0 == v as int;
        assert(g[w][q][j].0 == v);
    }
    true
}

/// Orders the nodes of `adj` so that the source of every edge comes before
/// its target (Kahn's algorithm: emit a node once all its predecessors are
/// emitted), or returns `None` when the graph has a cycle.
pub fn topological_order(adj: &AdjList) -> (r: TopoList)
    ensures
        r is Some <==> !has_cycle(adj.deep_view()),
        r matches Some(s) ==> is_topo_order(adj.deep_view(), s@),
{
    let ghost g = adj.deep_view();
    let n = adj.len();
    let mut visited: Vec<bool> = Vec::new();
    while visited.len() < n
        invariant
            visited.len() <= n,
            forall|i: int| 0 <= i < visited.len() ==> !visited@[i],
        decreases n - visited.len(),
    {
        visited.push(false);
    }
    let mut ordered: Vec<usize> = Vec::new();
    let ghost mut unvisited: Set<int> = set_int_range(0, n as int);
    proof {
        lemma_int_range(0, n as int);
        assert(unvisited =~= Set::new(|v: int| 0 <= v < n && !visited@[v]));
    }
    loop
        invariant
            g == adj.deep_view(),
            n == adj.len(),
            visited.len() == n,
            unvisited.finite(),
            unvisited == Set::new(|v: int| 0 <= v < n && !visited@[v]),
            ordered@.no_duplicates(),
            forall|i: int| 0 <= i < ordered.len() ==> #[trigger] ordered@[i] < n,
            forall|v: int| 0 <= v < n ==> (visited@[v] <==> #[trigger] holds(ordered@, v)),
            forall|i: int, u: int|
                0 <= i < ordered.len() && #[trigger] has_edge(g, u, ordered@[i] as int)
                    ==> exists|j: int| 0 <= j < i && ordered@[j] as int == u,
        ensures
            stuck(g, visited@),
        decreases unvisited.len(),
    {
        let mut pick: Option<usize> = None;
        let mut v: usize = 0;
        while v < n
            invariant_except_break
                pick is None,
            invariant
                g == adj.deep_view(),
                n == adj.len(),
                visited.len() == n,
                v <= n,
                forall|w: int| #![trigger visited@[w]]
                    0 <= w < v && !visited@[w] ==> exists|u: int|
                        0 <= u < n && !visited@[u] && #[trigger] has_edge(g, u, w),
            ensures
                pick matches Some(c) ==> c < n && !visited@[c as int] && forall|u: int|
                    0 <= u < n && #[trigger] has_edge(g, u, c as int) ==> visited@[u],
                pick is None ==> stuck(g, visited@),
            decreases n - v,
        {
            if !visited[v] && ready(adj, &visited, v) {
                pick = Some(v);
                break;
            }
            v += 1;
        }
        match pick {
            Some(c) => {
                proof {
                    assert(unvisited.contains(c as int));
                }
                let ghost old_ordered = ordered@;
                visited.set(c, true);
                ordered.push(c);
                proof {
                    unvisited = unvisited.remove(c as int);
                    assert(unvisited =~= Set::new(|v: int| 0 <= v < n && !visited@[v]));
                    assert forall|v: int| 0 <= v < n implies (visited@[v] <==> #[trigger] holds(ordered@, v)) by {
                        if v == c as int {
                            assert(ordered@[old_ordered.len() as int] == c);
                            assert(holds(ordered@, v));
                        } else {
                            if holds(ordered@, v) {
                                let i = choose|i: int| 0 <= i < ordered@.len() && ordered@[i] as int == v;
                                assert(i < old_ordered.len());
                                assert(old_ordered[i] as int == v);
                                assert(holds(old_ordered, v));
                            }
                            if visited@[v] {
                                assert(holds(old_ordered, v));
                                let i = choose|i: int| 0 <= i < old_ordered.len() && old_ordered[i] as int == v;
                                assert(ordered@[i] as int == v);
                                assert(holds(ordered@, v));
                            }
                        }
                    }
                    assert forall|i: int, u: int|
                        0 <= i < ordered.len() && #[trigger] has_edge(g, u, ordered@[i] as int)
                            implies exists|j: int| 0 <= j < i && ordered@[j] as int == u by {
                        if i < old_ordered.len() {
                            assert(ordered@[i] == old_ordered[i]);
                            let j = choose|j: int| 0 <= j < i && old_ordered[j] as int == u;
                            assert(ordered@[j] as int == u);
                        } else {
                            assert(visited@[u]);
                            assert(holds(old_ordered, u));
                            let j = choose|j: int| 0 <= j < old_ordered.len() && old_ordered[j] as int == u;
                            assert(ordered@[j] as int == u);
                        }
                    }
                    assert forall|i: int, j: int|
                        0 <= i < ordered.len() && 0 <= j < ordered.len() && i != j
                            implies ordered@[i] != ordered@[j] by {
                        if i == old_ordered.len() {
                            if ordered@[i] == ordered@[j] {
                                assert(holds(old_ordered, c as int));
                            }
                        } else if j == old_ordered.len() {
                            if ordered@[i] == ordered@[j] {
                                assert(holds(old_ordered, c as int));
                            }
                        }
                    }
                }
            }
            None => {
                break;
            }
        }
    }
    // `ordered` now holds every node that could be emitted.
    let mut w: usize = 0;
    while w < n
        invariant
            g == adj.deep_view(),
            n == adj.len(),
            stuck(g, visited@),
            visited.len() == n,
            w <= n,
            forall|x: int| 0 <= x < w ==> visited@[x],
        decreases n - w,
    {
        if !visited[w] {
            proof {
                lemma_stuck_has_cycle(g, visited@, w as int);
            }
            return None;
        }
        w += 1;
    }
    proof {
        assert forall|i: int, j: int|
            0 <= i < ordered.len() && 0 <= j < ordered.len() && has_edge(g, #[trigger] ordered@[i] as int, #[trigger] ordered@[j] as int)
                implies i < j by {
            let k = choose|k: int| 0 <= k < j && ordered@[k] as int == ordered@[i] as int;
        }
        lemma_order_excludes_cycle(g, ordered@);
    }
    Some(ordered)
}

} // verus!
