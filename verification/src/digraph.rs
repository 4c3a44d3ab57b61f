//! Directed graphs given by adjacency lists: node `u` has the out-neighbours
//! `adj[u]`, in list order, over the nodes `0..adj.len()`.  Walks,
//! reachability and the counting facts the traversals rest on.

use vstd::prelude::*;
use vstd::set_lib::*;

verus! {

/// Every entry of every adjacency list names a node of the graph.
pub open spec fn rows_ok(adj: Seq<Seq<usize>>) -> bool {
    forall|u: int, e: int|
        0 <= u < adj.len() && 0 <= e < adj[u].len() ==> (#[trigger] adj[u][e]) < adj.len()
}

/// There is an edge from `u` to `v`.
pub open spec fn has_edge(adj: Seq<Seq<usize>>, u: usize, v: usize) -> bool {
    u < adj.len() && adj[u as int].contains(v)
}

/// Step `i` of the walk `w` follows an edge.
pub open spec fn step_ok(adj: Seq<Seq<usize>>, w: Seq<usize>, i: int) -> bool {
    has_edge(adj, w[i], w[i + 1])
}

/// `w` is a non-empty walk along edges, starting at a node of the graph.
pub open spec fn is_walk(adj: Seq<Seq<usize>>, w: Seq<usize>) -> bool {
    &&& w.len() > 0
    &&& w[0] < adj.len()
    &&& forall|i: int| 0 <= i < w.len() - 1 ==> #[trigger] step_ok(adj, w, i)
}

/// Some walk leads from `s` to `t` (every node of the graph reaches itself).
pub open spec fn reachable(adj: Seq<Seq<usize>>, s: usize, t: usize) -> bool {
    exists|w: Seq<usize>| #[trigger] is_walk(adj, w) && w[0] == s && w.last() == t
}

/// The nodes listed in `s` are distinct nodes of a graph with `n` nodes.
pub open spec fn distinct_nodes(s: Seq<usize>, n: nat) -> bool {
    &&& s.no_duplicates()
    &&& forall|i: int| 0 <= i < s.len() ==> #[trigger] s[i] < n
}

/// Every node of the graph reaches itself.
pub proof fn lemma_reach_refl(adj: Seq<Seq<usize>>, s: usize)
    requires
        s < adj.len(),
    ensures
        reachable(adj, s, s),
{
    let w = seq![s];
    assert(is_walk(adj, w));
}

/// Reachability extends along an edge.
pub proof fn lemma_reach_step(adj: Seq<Seq<usize>>, s: usize, u: usize, v: usize)
    requires
        reachable(adj, s, u),
        has_edge(adj, u, v),
    ensures
        reachable(adj, s, v),
{
    let w = choose|w: Seq<usize>| #[trigger] is_walk(adj, w) && w[0] == s && w.last() == u;
    let w2 = w.push(v);
    assert forall|i: int| 0 <= i < w2.len() - 1 implies #[trigger] step_ok(adj, w2, i) by {
        if i < w.len() - 1 {
            assert(step_ok(adj, w, i));
        }
    }
    assert(is_walk(adj, w2));
}

/// An edge followed by a walk is a walk.
pub proof fn lemma_reach_prepend(adj: Seq<Seq<usize>>, u: usize, v: usize, t: usize)
    requires
        has_edge(adj, u, v),
        reachable(adj, v, t),
    ensures
        reachable(adj, u, t),
{
    let w = choose|w: Seq<usize>| #[trigger] is_walk(adj, w) && w[0] == v && w.last() == t;
    let w2 = seq![u] + w;
    assert forall|i: int| 0 <= i < w2.len() - 1 implies #[trigger] step_ok(adj, w2, i) by {
        if i > 0 {
            assert(step_ok(adj, w, i - 1));
            assert(w2[i] == w[i - 1] && w2[i + 1] == w[i]);
        }
    }
    assert(is_walk(adj, w2));
}

/// Every node of a walk whose first node lies in a set closed under edges
/// lies in that set.
proof fn lemma_walk_in_closed(adj: Seq<Seq<usize>>, set: Seq<usize>, w: Seq<usize>, i: int)
    requires
        is_walk(adj, w),
        0 <= i < w.len(),
        set.contains(w[0]),
        forall|x: usize, y: usize| set.contains(x) && #[trigger] has_edge(adj, x, y) ==> set.contains(y),
    ensures
        set.contains(w[i]),
    decreases i,
{
    if i > 0 {
        lemma_walk_in_closed(adj, set, w, i - 1);
        assert(step_ok(adj, w, i - 1));
    }
}

/// A set of nodes that holds `s` and is closed under edges holds every node
/// that `s` reaches.
pub proof fn lemma_closed_holds_reachable(adj: Seq<Seq<usize>>, set: Seq<usize>, s: usize, t: usize)
    requires
        set.contains(s),
        forall|x: usize, y: usize| set.contains(x) && #[trigger] has_edge(adj, x, y) ==> set.contains(y),
        reachable(adj, s, t),
    ensures
        set.contains(t),
{
    let w = choose|w: Seq<usize>| #[trigger] is_walk(adj, w) && w[0] == s && w.last() == t;
    lemma_walk_in_closed(adj, set, w, w.len() - 1);
}

/// Distinct nodes of a graph with `n` nodes number at most `n`, and fewer
/// than `n` when some node is missing.
pub proof fn lemma_distinct_len(s: Seq<usize>, n: usize, missing: Option<usize>)
    requires
        distinct_nodes(s, n as nat),
        missing matches Some(v) ==> v < n && !s.contains(v),
    ensures
        s.len() <= n,
        missing is Some ==> s.len() < n,
{
    broadcast use vstd::set::group_set_axioms;
    s.unique_seq_to_set();
    range_set_properties::<usize>(0, n);
    let r = Set::<usize>::range(0, n);
    let target = match missing {
        Some(v) => r.remove(v),
        None => r,
    };
    assert forall|x: usize| s.to_set().contains(x) implies target.contains(x) by {
        let i = choose|i: int| 0 <= i < s.len() && s[i] == x;
        assert(s[i] < n);
    }
    assert(s.to_set().subset_of(target));
    lemma_len_subset(s.to_set(), target);
}

/// Number of nodes `s` reaches, `s` included.
pub open spec fn reach_count(adj: Seq<Seq<usize>>, s: usize) -> nat {
    Set::new(|t: usize| reachable(adj, s, t)).len()
}

/// A list of distinct nodes holding exactly the nodes `s` reaches is as long
/// as there are such nodes.
pub proof fn lemma_reach_count(adj: Seq<Seq<usize>>, s: usize, order: Seq<usize>)
    requires
        order.no_duplicates(),
        forall|t: usize| order.contains(t) <==> reachable(adj, s, t),
    ensures
        order.len() == reach_count(adj, s),
{
    order.unique_seq_to_set();
    assert(order.to_set() =~= Set::new(|t: usize| reachable(adj, s, t)));
}

/// Distinct nodes of a graph with `n` nodes that include every node number `n`.
pub proof fn lemma_distinct_covering(s: Seq<usize>, n: usize)
    requires
        distinct_nodes(s, n as nat),
        forall|v: usize| v < n ==> s.contains(v),
    ensures
        s.len() == n,
{
    s.unique_seq_to_set();
    range_set_properties::<usize>(0, n);
    assert(s.to_set() =~= Set::<usize>::range(0, n)) by {
        assert forall|x: usize| s.to_set().contains(x) implies x < n by {
            let i = choose|i: int| 0 <= i < s.len() && s[i] == x;
            assert(s[i] < n);
        }
    }
}

/// Some walk of at least one step comes back to where it started.
pub open spec fn has_directed_cycle(adj: Seq<Seq<usize>>) -> bool {
    exists|w: Seq<usize>| #[trigger] is_walk(adj, w) && w.len() >= 2 && w[0] == w.last()
}

/// Turning every edge around turns walks around: if every edge of `a`
/// is an edge of `b` the other way, `t` reaches `s` in `b` whenever `s`
/// reaches `t` in `a`.
pub proof fn lemma_reverse_reach(a: Seq<Seq<usize>>, b: Seq<Seq<usize>>, s: usize, t: usize)
    requires
        rows_ok(a),
        a.len() == b.len(),
        forall|u: usize, v: usize| #[trigger] has_edge(a, u, v) ==> has_edge(b, v, u),
        reachable(a, s, t),
    ensures
        reachable(b, t, s),
{
    let w = choose|w: Seq<usize>| #[trigger] is_walk(a, w) && w[0] == s && w.last() == t;
    let l = w.len();
    let r = Seq::new(l, |i: int| w[l - 1 - i]);
    assert forall|i: int| 0 <= i < r.len() - 1 implies #[trigger] step_ok(b, r, i) by {
        let k = l - 2 - i;
        assert(step_ok(a, w, k));
        assert(r[i] == w[k + 1] && r[i + 1] == w[k]);
    }
    if l > 1 {
        assert(step_ok(a, w, l - 2));
        let u = w[l - 2];
        let last = w[l - 1];
        let f = choose|f: int| 0 <= f < a[u as int].len() && a[u as int][f] == last;
        assert(a[u as int][f] < a.len());
    }
    assert(is_walk(b, r));
}

/// `n` distinct nodes of a graph with `n` nodes are all its nodes.
pub proof fn lemma_distinct_covering_all(s: Seq<usize>, n: nat)
    requires
        n <= usize::MAX,
        distinct_nodes(s, n),
        s.len() == n,
    ensures
        forall|v: usize| v < n ==> s.contains(v),
{
    assert forall|v: usize| v < n implies s.contains(v) by {
        if !s.contains(v) {
            lemma_distinct_len(s, n as usize, Some(v));
        }
    }
}

} // verus!
