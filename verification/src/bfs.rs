//! Breadth-first traversal: the nodes reachable from a start node in the
//! order a first-in first-out queue visits them, neighbours taken in
//! adjacency-list order.

use vstd::prelude::*;
use crate::digraph::{distinct_nodes, has_edge, reachable, rows_ok, lemma_reach_refl, lemma_reach_step,
    lemma_closed_holds_reachable, lemma_distinct_len};
use crate::edges::rows_of;

verus! {

/// `order[j]` was first reached through entry `e` of the adjacency list of
/// `order[p]`: `order[p]` is the earliest node of `order` with an edge to
/// `order[j]`, and `e` the first place that list names it.
pub open spec fn first_discovery(adj: Seq<Seq<usize>>, order: Seq<usize>, j: int, p: int, e: int) -> bool {
    &&& 0 <= p < j < order.len()
    &&& 0 <= e < adj[order[p] as int].len()
    &&& adj[order[p] as int][e] == order[j]
    &&& forall|q: int| 0 <= q < p ==> !(#[trigger] adj[order[q] as int]).contains(order[j])
    &&& forall|f: int| 0 <= f < e ==> (#[trigger] adj[order[p] as int][f]) != order[j]
}

/// `order[j]` has a first discovery.
pub open spec fn discovered(adj: Seq<Seq<usize>>, order: Seq<usize>, j: int) -> bool {
    exists|p: int, e: int| first_discovery(adj, order, j, p, e)
}

/// `order` is the breadth-first order from `s`: it starts at `s`, lists each
/// node that `s` reaches exactly once and nothing else, every later node is
/// first discovered from an earlier one, and nodes come in the order of
/// their discovery (earlier discovering node first, then earlier list
/// position).  These conditions leave one order possible.
pub open spec fn is_bfs_order(adj: Seq<Seq<usize>>, s: usize, order: Seq<usize>) -> bool {
    &&& order.len() > 0
    &&& order[0] == s
    &&& distinct_nodes(order, adj.len())
    &&& forall|t: usize| order.contains(t) <==> reachable(adj, s, t)
    &&& forall|j: int| 0 < j < order.len() ==> #[trigger] discovered(adj, order, j)
    &&& forall|j: int, k: int, p1: int, e1: int, p2: int, e2: int|
        0 < j < k < order.len() && #[trigger] first_discovery(adj, order, j, p1, e1)
            && #[trigger] first_discovery(adj, order, k, p2, e2) ==> p1 < p2 || (p1 == p2 && e1 < e2)
}

/// A node has one first discovery.
pub proof fn lemma_first_discovery_unique(
    adj: Seq<Seq<usize>>,
    order: Seq<usize>,
    j: int,
    p1: int,
    e1: int,
    p2: int,
    e2: int,
)
    requires
        first_discovery(adj, order, j, p1, e1),
        first_discovery(adj, order, j, p2, e2),
    ensures
        p1 == p2 && e1 == e2,
{
    if p1 < p2 {
        assert(adj[order[p1] as int].contains(order[j]));
    } else if p2 < p1 {
        assert(adj[order[p2] as int].contains(order[j]));
    } else if e1 < e2 {
        assert(adj[order[p2] as int][e1] != order[j]);
    } else if e2 < e1 {
        assert(adj[order[p1] as int][e2] != order[j]);
    }
}

proof fn lemma_first_discovery_push(adj: Seq<Seq<usize>>, order: Seq<usize>, v: usize, j: int, p: int, e: int)
    requires
        first_discovery(adj, order, j, p, e),
    ensures
        first_discovery(adj, order.push(v), j, p, e),
{
    let o2 = order.push(v);
    assert forall|q: int| 0 <= q < p implies !(#[trigger] adj[o2[q] as int]).contains(o2[j]) by {
        assert(o2[q] == order[q]);
        assert(!adj[order[q] as int].contains(order[j]));
    }
}

/// Breadth-first order of the nodes reachable from `start`.
pub fn bfs_order(adj: &Vec<Vec<usize>>, start: usize) -> (order: Vec<usize>)
    requires
        rows_ok(rows_of(adj)),
        start < adj.len(),
    ensures
        is_bfs_order(rows_of(adj), start, order@),
{
    let ghost a = rows_of(adj);
    let n = adj.len();
    let mut visited: Vec<bool> = Vec::new();
    let mut i: usize = 0;
    while i < n
        invariant
            i <= n,
            visited.len() == i,
            forall|v: int| 0 <= v < i ==> !(#[trigger] visited[v]),
        decreases n - i,
    {
        visited.push(false);
        i = i + 1;
    }
    visited.set(start, true);
    let mut order: Vec<usize> = Vec::new();
    order.push(start);
    let ghost mut par: Seq<int> = seq![0int];
    let ghost mut pos: Seq<int> = seq![0int];
    proof {
        lemma_reach_refl(a, start);
        assert(order@[0] == start);
        assert(order@.contains(start));
        assert forall|v: int| 0 <= v < n implies (visited[v] <==> order@.contains(v as usize)) by {
            if order@.contains(v as usize) {
                let j = choose|j: int| 0 <= j < order@.len() && order@[j] == v as usize;
                assert(j == 0);
            }
        }
    }
    let mut head: usize = 0;
    while head < order.len()
        invariant
            n == adj.len(),
            a == rows_of(adj),
            rows_ok(a),
            start < n,
            visited.len() == n,
            forall|v: int| 0 <= v < n ==> (#[trigger] visited[v] <==> order@.contains(v as usize)),
            distinct_nodes(order@, n as nat),
            order@.len() > 0,
            order@[0] == start,
            head <= order@.len(),
            forall|q: int, f: int|
                0 <= q < head && 0 <= f < a[order@[q] as int].len() ==> order@.contains(
                    #[trigger] a[order@[q] as int][f],
                ),
            forall|j: int| 0 <= j < order@.len() ==> reachable(a, start, #[trigger] order@[j]),
            par.len() == order@.len(),
            pos.len() == order@.len(),
            forall|j: int|
                #![trigger par[j]]
                0 < j < order@.len() ==> first_discovery(a, order@, j, par[j], pos[j]) && par[j] < head,
            forall|j: int, k: int|
                0 < j < k < order@.len() ==> #[trigger] par[j] < #[trigger] par[k] || (par[j] == par[k]
                    && pos[j] < pos[k]),
        decreases n - head,
    {
        let u = order[head];
        let row: &Vec<usize> = &adj[u];
        let mut e: usize = 0;
        while e < row.len()
            invariant
                n == adj.len(),
                a == rows_of(adj),
                rows_ok(a),
                start < n,
                visited.len() == n,
                forall|v: int| 0 <= v < n ==> (#[trigger] visited[v] <==> order@.contains(v as usize)),
                distinct_nodes(order@, n as nat),
                order@.len() > 0,
                order@[0] == start,
                head < order@.len(),
                u == order@[head as int],
                row@ == a[u as int],
                e <= row@.len(),
                forall|q: int, f: int|
                    0 <= q < head && 0 <= f < a[order@[q] as int].len() ==> order@.contains(
                        #[trigger] a[order@[q] as int][f],
                    ),
                forall|f: int| 0 <= f < e ==> order@.contains(#[trigger] row@[f]),
                forall|j: int| 0 <= j < order@.len() ==> reachable(a, start, #[trigger] order@[j]),
                par.len() == order@.len(),
                pos.len() == order@.len(),
                forall|j: int|
                    #![trigger par[j]]
                    0 < j < order@.len() ==> first_discovery(a, order@, j, par[j], pos[j]) && (par[j]
                        < head || (par[j] == head && pos[j] < e)),
                forall|j: int, k: int|
                    0 < j < k < order@.len() ==> #[trigger] par[j] < #[trigger] par[k] || (par[j]
                        == par[k] && pos[j] < pos[k]),
            decreases row@.len() - e,
        {
            let v = row[e];
            proof {
                assert(a[u as int][e as int] == v);
            }
            if !visited[v] {
                let ghost old_order = order@;
                visited.set(v, true);
                order.push(v);
                proof {
                    assert(!old_order.contains(v));
                    let j_new = old_order.len() as int;
                    // minimality of the discovery
                    assert forall|q: int| 0 <= q < head implies !(#[trigger] a[order@[q] as int]).contains(
                        order@[j_new],
                    ) by {
                        assert(order@[q] == old_order[q]);
                        if a[old_order[q] as int].contains(v) {
                            let f = choose|f: int|
                                0 <= f < a[old_order[q] as int].len() && a[old_order[q] as int][f] == v;
                            assert(old_order.contains(a[old_order[q] as int][f]));
                        }
                    }
                    assert forall|f: int| 0 <= f < e implies (#[trigger] a[order@[head as int] as int][f])
                        != order@[j_new] by {
                        assert(old_order.contains(row@[f]));
                    }
                    assert(order@[head as int] == u);
                    assert(first_discovery(a, order@, j_new, head as int, e as int));
                    let ghost old_par = par;
                    let ghost old_pos = pos;
                    par = par.push(head as int);
                    pos = pos.push(e as int);
                    assert forall|j: int| #![trigger par[j]] 0 < j < order@.len() implies first_discovery(
                        a,
                        order@,
                        j,
                        par[j],
                        pos[j],
                    ) && (par[j] < head || (par[j] == head && pos[j] < e + 1)) by {
                        if j < old_order.len() {
                            assert(par[j] == old_par[j] && pos[j] == old_pos[j]);
                            assert(first_discovery(a, old_order, j, old_par[j], old_pos[j]));
                            lemma_first_discovery_push(a, old_order, v, j, par[j], pos[j]);
                        }
                    }
                    assert forall|j: int, k: int|
                        0 < j < k < order@.len() implies #[trigger] par[j] < #[trigger] par[k] || (par[j]
                            == par[k] && pos[j] < pos[k]) by {
                        assert(par[j] == old_par[j] && pos[j] == old_pos[j]);
                        if k < old_order.len() {
                            assert(par[k] == old_par[k] && pos[k] == old_pos[k]);
                        } else {
                            assert(old_par[j] < head || (old_par[j] == head && old_pos[j] < e));
                        }
                    }
                    assert(has_edge(a, u, v));
                    lemma_reach_step(a, start, u, v);
                    assert forall|w: int| 0 <= w < n implies (#[trigger] visited[w] <==> order@.contains(
                        w as usize,
                    )) by {
                        if w != v as int {
                            if order@.contains(w as usize) {
                                let j = choose|j: int| 0 <= j < order@.len() && order@[j] == w as usize;
                                assert(old_order[j] == w as usize);
                            }
                            if old_order.contains(w as usize) {
                                let j = choose|j: int| 0 <= j < old_order.len() && old_order[j] == w as usize;
                                assert(order@[j] == w as usize);
                            }
                        } else {
                            assert(order@[j_new] == v);
                        }
                    }
                    assert forall|x: usize| old_order.contains(x) implies order@.contains(x) by {
                        let j = choose|j: int| 0 <= j < old_order.len() && old_order[j] == x;
                        assert(order@[j] == x);
                    }
                }
            }
            proof {
                assert(order@.contains(v));
            }
            e = e + 1;
        }
        proof {
            lemma_distinct_len(order@, n, None);
        }
        head = head + 1;
    }
    proof {
        let o = order@;
        assert forall|x: usize, y: usize| o.contains(x) && #[trigger] has_edge(a, x, y) implies o.contains(y) by {
            let q = choose|q: int| 0 <= q < o.len() && o[q] == x;
            let f = choose|f: int| 0 <= f < a[x as int].len() && a[x as int][f] == y;
            assert(o.contains(a[o[q] as int][f]));
        }
        assert forall|t: usize| o.contains(t) <==> reachable(a, start, t) by {
            if reachable(a, start, t) {
                lemma_closed_holds_reachable(a, o, start, t);
            }
            if o.contains(t) {
                let j = choose|j: int| 0 <= j < o.len() && o[j] == t;
                assert(reachable(a, start, o[j]));
            }
        }
        assert forall|j: int| 0 < j < o.len() implies #[trigger] discovered(a, o, j) by {
            assert(first_discovery(a, o, j, par[j], pos[j]));
        }
        assert forall|j: int, k: int, p1: int, e1: int, p2: int, e2: int|
            0 < j < k < o.len() && #[trigger] first_discovery(a, o, j, p1, e1)
                && #[trigger] first_discovery(a, o, k, p2, e2) implies p1 < p2 || (p1 == p2 && e1 < e2) by {
            lemma_first_discovery_unique(a, o, j, p1, e1, par[j], pos[j]);
            lemma_first_discovery_unique(a, o, k, p2, e2, par[k], pos[k]);
            assert(par[j] < par[k] || (par[j] == par[k] && pos[j] < pos[k]));
        }
    }
    order
}

} // verus!
