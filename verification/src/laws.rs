//! Properties that tie the analyses of a process graph together.

use vstd::prelude::*;
use crate::digraph::{reachable, has_edge, rows_ok, lemma_reverse_reach, lemma_reach_count, lemma_reach_refl,
    distinct_nodes};
use crate::bfs::{is_bfs_order, first_discovery, discovered};
use crate::dfs::{dfs_order, dfs_list, lemma_dfs_order, lemma_dfs_list_steps, preorder_next, has_unlisted};
use crate::edges::{lemma_last_index_of, out_rows, in_rows, leaves, enters, first_ends, second_ends,
    both_named, end_indices, last_index_of};
use crate::graph::{ProcessGraph, names_of, without_id, is_ranking, differs_from};
use crate::edges::{targets_from, sources_into, total_len, resolve_edges, lemma_total_len_out_rows,
    lemma_resolve_edges_ok};
use crate::models::Topology;
use crate::kahn::{is_kahn_order, is_root, release, placed, left_out_fed};

verus! {

proof fn lemma_targets_from(pairs: Seq<(usize, usize)>, u: int, v: usize)
    ensures
        targets_from(pairs, u).contains(v) <==> exists|k: int|
            0 <= k < pairs.len() && (#[trigger] pairs[k]).0 == u && pairs[k].1 == v,
    decreases pairs.len(),
{
    if pairs.len() > 0 {
        let p = pairs.drop_last();
        lemma_targets_from(p, u, v);
        if exists|k: int| 0 <= k < p.len() && (#[trigger] p[k]).0 == u && p[k].1 == v {
            let k = choose|k: int| 0 <= k < p.len() && (#[trigger] p[k]).0 == u && p[k].1 == v;
            assert(pairs[k] == p[k]);
        }
        if exists|k: int| 0 <= k < pairs.len() && (#[trigger] pairs[k]).0 == u && pairs[k].1 == v {
            let k = choose|k: int| 0 <= k < pairs.len() && (#[trigger] pairs[k]).0 == u && pairs[k].1 == v;
            if k < p.len() {
                assert(p[k] == pairs[k]);
            }
        }
        if pairs.last().0 == u {
            let r = targets_from(p, u);
            assert(targets_from(pairs, u) == r.push(pairs.last().1));
            if r.contains(v) {
                let i = choose|i: int| 0 <= i < r.len() && r[i] == v;
                assert(r.push(pairs.last().1)[i] == v);
            }
            if r.push(pairs.last().1).contains(v) && pairs.last().1 != v {
                let i = choose|i: int| 0 <= i < r.len() + 1 && r.push(pairs.last().1)[i] == v;
                assert(r[i] == v);
            }
            assert(r.push(pairs.last().1)[r.len() as int] == pairs.last().1);
        }
    }
}

proof fn lemma_sources_into(pairs: Seq<(usize, usize)>, v: int, u: usize)
    ensures
        sources_into(pairs, v).contains(u) <==> exists|k: int|
            0 <= k < pairs.len() && (#[trigger] pairs[k]).0 == u && pairs[k].1 == v,
    decreases pairs.len(),
{
    if pairs.len() > 0 {
        let p = pairs.drop_last();
        lemma_sources_into(p, v, u);
        if exists|k: int| 0 <= k < p.len() && (#[trigger] p[k]).0 == u && p[k].1 == v {
            let k = choose|k: int| 0 <= k < p.len() && (#[trigger] p[k]).0 == u && p[k].1 == v;
            assert(pairs[k] == p[k]);
        }
        if exists|k: int| 0 <= k < pairs.len() && (#[trigger] pairs[k]).0 == u && pairs[k].1 == v {
            let k = choose|k: int| 0 <= k < pairs.len() && (#[trigger] pairs[k]).0 == u && pairs[k].1 == v;
            if k < p.len() {
                assert(p[k] == pairs[k]);
            }
        }
        if pairs.last().1 == v {
            let r = sources_into(p, v);
            assert(sources_into(pairs, v) == r.push(pairs.last().0));
            if r.contains(u) {
                let i = choose|i: int| 0 <= i < r.len() && r[i] == u;
                assert(r.push(pairs.last().0)[i] == u);
            }
            if r.push(pairs.last().0).contains(u) && pairs.last().0 != u {
                let i = choose|i: int| 0 <= i < r.len() + 1 && r.push(pairs.last().0)[i] == u;
                assert(r[i] == u);
            }
            assert(r.push(pairs.last().0)[r.len() as int] == pairs.last().0);
        }
    }
}

/// The backward lists hold exactly the forward edges turned around.
pub proof fn law_backward_edges(g: &ProcessGraph, u: usize, v: usize)
    requires
        g.wf(),
    ensures
        has_edge(g.forward(), u, v) <==> has_edge(g.backward(), v, u),
{
    g.lemma_wf();
    let n = g.n();
    if u < n && v < n {
        lemma_targets_from(g.edges(), u as int, v);
        lemma_sources_into(g.edges(), v as int, u);
        assert(g.forward()[u as int] == targets_from(g.edges(), u as int));
        assert(g.backward()[v as int] == sources_into(g.edges(), v as int));
    } else if u < n && has_edge(g.forward(), u, v) {
        let f = choose|f: int| 0 <= f < g.forward()[u as int].len() && g.forward()[u as int][f] == v;
        assert(g.forward()[u as int][f] < n);
    } else if v < n && has_edge(g.backward(), v, u) {
        let f = choose|f: int| 0 <= f < g.backward()[v as int].len() && g.backward()[v as int][f] == u;
        assert(g.backward()[v as int][f] < n);
    }
}

/// Going against the edges from `s` reaches exactly the nodes that reach `s`
/// along the edges: the backward traversals find what lies upstream.
pub proof fn law_backward_reach_is_upstream(g: &ProcessGraph, s: usize, t: usize)
    requires
        g.wf(),
    ensures
        reachable(g.backward(), s, t) <==> reachable(g.forward(), t, s),
{
    g.lemma_wf();
    assert forall|u: usize, v: usize| #[trigger] has_edge(g.forward(), u, v) implies has_edge(g.backward(), v, u) by {
        law_backward_edges(g, u, v);
    }
    assert forall|u: usize, v: usize| #[trigger] has_edge(g.backward(), u, v) implies has_edge(g.forward(), v, u) by {
        law_backward_edges(g, v, u);
    }
    if reachable(g.backward(), s, t) {
        lemma_reverse_reach(g.backward(), g.forward(), s, t);
    }
    if reachable(g.forward(), t, s) {
        lemma_reverse_reach(g.forward(), g.backward(), t, s);
    }
}

/// From the same node, the breadth-first and the depth-first traversal
/// visit the same nodes, and as many.
pub proof fn law_bfs_dfs_same_nodes(g: &ProcessGraph, s: usize, o: Seq<usize>, backward: bool)
    requires
        g.wf(),
        s < g.n(),
        is_bfs_order(if backward { g.backward() } else { g.forward() }, s, o),
    ensures
        forall|t: usize| o.contains(t) <==> dfs_order(if backward { g.backward() } else { g.forward() }, s).contains(t),
        o.len() == dfs_order(if backward { g.backward() } else { g.forward() }, s).len(),
{
    g.lemma_wf();
    let adj = if backward { g.backward() } else { g.forward() };
    lemma_dfs_order(adj, s);
    let d = dfs_order(adj, s);
    lemma_reach_count(adj, s, o);
    lemma_reach_count(adj, s, d);
}

/// The names of `o` that are not `x` are the ids of the nodes of `o`
/// other than `x`.
proof fn lemma_without_id_names(ids: Seq<Seq<char>>, o: Seq<usize>, x: Seq<char>, t: Seq<char>)
    ensures
        without_id(names_of(ids, o), x).contains(t) <==> (t != x && exists|i: int|
            0 <= i < o.len() && ids[#[trigger] o[i] as int] == t),
{
    lemma_without_id(names_of(ids, o), x, t);
    let nm = names_of(ids, o);
    if nm.contains(t) {
        let i = choose|i: int| 0 <= i < nm.len() && nm[i] == t;
        assert(ids[o[i] as int] == t);
    }
    if exists|i: int| 0 <= i < o.len() && ids[#[trigger] o[i] as int] == t {
        let i = choose|i: int| 0 <= i < o.len() && ids[#[trigger] o[i] as int] == t;
        assert(nm[i] == t);
    }
}

proof fn lemma_without_id(names: Seq<Seq<char>>, x: Seq<char>, t: Seq<char>)
    ensures
        without_id(names, x).contains(t) <==> (t != x && names.contains(t)),
    decreases names.len(),
{
    if names.len() > 0 {
        let p = names.drop_last();
        lemma_without_id(p, x, t);
        let r = without_id(p, x);
        if p.contains(t) {
            let i = choose|i: int| 0 <= i < p.len() && p[i] == t;
            assert(names[i] == t);
        }
        if names.contains(t) && names.last() != t {
            let i = choose|i: int| 0 <= i < names.len() && names[i] == t;
            assert(p[i] == t);
        }
        if names.last() != x {
            assert(without_id(names, x) == r.push(names.last()));
            if r.contains(t) {
                let i = choose|i: int| 0 <= i < r.len() && r[i] == t;
                assert(r.push(names.last())[i] == t);
            }
            if r.push(names.last()).contains(t) && names.last() != t {
                let i = choose|i: int| 0 <= i < r.len() + 1 && r.push(names.last())[i] == t;
                assert(r[i] == t);
            }
            assert(r.push(names.last())[r.len() as int] == names.last());
        }
        assert(names[names.len() - 1] == names.last());
    }
}

/// The dependency chain of a node: an id lies downstream exactly when it is
/// not the node's own id and names a node that the node reaches, and lies
/// upstream exactly when it is not the node's own id and names a node that
/// reaches the node.
pub proof fn law_dependency_chain(
    g: &ProcessGraph,
    x: Seq<char>,
    up: Seq<usize>,
    down: Seq<usize>,
    t: Seq<char>,
)
    requires
        g.wf(),
        g.ids().contains(x),
        is_bfs_order(g.backward(), g.index_of(x) as usize, up),
        is_bfs_order(g.forward(), g.index_of(x) as usize, down),
    ensures
        without_id(names_of(g.ids(), down), x).contains(t) <==> (t != x && exists|v: usize|
            v < g.n() && g.ids()[v as int] == t && reachable(g.forward(), g.index_of(x) as usize, v)),
        without_id(names_of(g.ids(), up), x).contains(t) <==> (t != x && exists|v: usize|
            v < g.n() && g.ids()[v as int] == t && reachable(g.forward(), v, g.index_of(x) as usize)),
{
    g.lemma_wf();
    let s = g.index_of(x) as usize;
    lemma_without_id_names(g.ids(), down, x, t);
    lemma_without_id_names(g.ids(), up, x, t);
    if exists|i: int| 0 <= i < down.len() && g.ids()[#[trigger] down[i] as int] == t {
        let i = choose|i: int| 0 <= i < down.len() && g.ids()[#[trigger] down[i] as int] == t;
        assert(down.contains(down[i]));
        assert(down[i] < g.n());
    }
    if exists|v: usize| v < g.n() && g.ids()[v as int] == t && reachable(g.forward(), s, v) {
        let v = choose|v: usize| v < g.n() && g.ids()[v as int] == t && reachable(g.forward(), s, v);
        assert(down.contains(v));
        let i = choose|i: int| 0 <= i < down.len() && down[i] == v;
        assert(g.ids()[down[i] as int] == t);
    }
    if exists|i: int| 0 <= i < up.len() && g.ids()[#[trigger] up[i] as int] == t {
        let i = choose|i: int| 0 <= i < up.len() && g.ids()[#[trigger] up[i] as int] == t;
        assert(up.contains(up[i]));
        assert(up[i] < g.n());
        law_backward_reach_is_upstream(g, s, up[i]);
    }
    if exists|v: usize| v < g.n() && g.ids()[v as int] == t && reachable(g.forward(), v, s) {
        let v = choose|v: usize| v < g.n() && g.ids()[v as int] == t && reachable(g.forward(), v, s);
        law_backward_reach_is_upstream(g, s, v);
        assert(up.contains(v));
        let i = choose|i: int| 0 <= i < up.len() && up[i] == v;
        assert(g.ids()[up[i] as int] == t);
    }
}

/// The graph of a topology has one edge for each topology edge whose two
/// end ids both name a node, and never more edges than the topology.
pub proof fn law_edge_count(topology: &Topology, g: &ProcessGraph)
    requires
        g.wf(),
        g.ids() == topology.node_ids(),
        g.edges() == resolve_edges(topology.node_ids(), topology.edge_ends()),
    ensures
        total_len(g.forward()) == resolve_edges(topology.node_ids(), topology.edge_ends()).len(),
        total_len(g.forward()) <= topology.edges@.len(),
{
    g.lemma_wf();
    lemma_total_len_out_rows(g.edges(), g.n());
    lemma_resolve_edges_ok(topology.node_ids(), topology.edge_ends());
}

proof fn lemma_bfs_agree_at(adj: Seq<Seq<usize>>, s: usize, o1: Seq<usize>, o2: Seq<usize>, j: int)
    requires
        is_bfs_order(adj, s, o1),
        is_bfs_order(adj, s, o2),
        0 <= j < o1.len(),
        j < o2.len(),
        forall|i: int| 0 <= i < j ==> o1[i] == o2[i],
    ensures
        o1[j] == o2[j],
{
    if j > 0 && o1[j] != o2[j] {
        let a = o1[j];
        let b = o2[j];
        assert(o1.contains(a));
        assert(o2.contains(a));
        assert(o2.contains(b));
        assert(o1.contains(b));
        let k2 = choose|k: int| 0 <= k < o2.len() && o2[k] == a;
        let k1 = choose|k: int| 0 <= k < o1.len() && o1[k] == b;
        if k2 < j {
            assert(o1[k2] == o2[k2]);
        }
        if k1 < j {
            assert(o1[k1] == o2[k1]);
        }
        assert(k2 > j && k1 > j);
        assert(discovered(adj, o1, j));
        assert(discovered(adj, o2, j));
        let (p1, e1) = choose|p: int, e: int| first_discovery(adj, o1, j, p, e);
        let (p2, e2) = choose|p: int, e: int| first_discovery(adj, o2, j, p, e);
        assert(o2[p1] == o1[p1]);
        assert(o1[p2] == o2[p2]);
        assert forall|q: int| 0 <= q < p1 implies !(#[trigger] adj[o2[q] as int]).contains(o2[k2]) by {
            assert(o2[q] == o1[q]);
            assert(!adj[o1[q] as int].contains(o1[j]));
        }
        assert(first_discovery(adj, o2, k2, p1, e1));
        assert forall|q: int| 0 <= q < p2 implies !(#[trigger] adj[o1[q] as int]).contains(o1[k1]) by {
            assert(o2[q] == o1[q]);
            assert(!adj[o2[q] as int].contains(o2[j]));
        }
        assert(first_discovery(adj, o1, k1, p2, e2));
    }
}

proof fn lemma_bfs_agree_upto(adj: Seq<Seq<usize>>, s: usize, o1: Seq<usize>, o2: Seq<usize>, j: int)
    requires
        is_bfs_order(adj, s, o1),
        is_bfs_order(adj, s, o2),
        0 <= j <= o1.len(),
        j <= o2.len(),
    ensures
        forall|i: int| 0 <= i < j ==> o1[i] == o2[i],
    decreases j,
{
    if j > 0 {
        lemma_bfs_agree_upto(adj, s, o1, o2, j - 1);
        lemma_bfs_agree_at(adj, s, o1, o2, j - 1);
    }
}

/// There is one breadth-first order from a node: a traversal's result is
/// determined by the graph and the start node.
pub proof fn law_bfs_order_unique(adj: Seq<Seq<usize>>, s: usize, o1: Seq<usize>, o2: Seq<usize>)
    requires
        is_bfs_order(adj, s, o1),
        is_bfs_order(adj, s, o2),
    ensures
        o1 == o2,
{
    lemma_reach_count(adj, s, o1);
    lemma_reach_count(adj, s, o2);
    lemma_bfs_agree_upto(adj, s, o1, o2, o1.len() as int);
    assert(o1 =~= o2);
}

/// A node without incoming edges is in every Kahn order.
proof fn lemma_kahn_has_roots(adj: Seq<Seq<usize>>, o: Seq<usize>, v: usize)
    requires
        is_kahn_order(adj, o),
        v < adj.len(),
        is_root(adj, v),
    ensures
        o.contains(v),
{
    reveal(left_out_fed);
    if !o.contains(v) {
        let w = choose|w: usize| w < adj.len() && !o.contains(w) && #[trigger] has_edge(adj, w, v);
        assert(adj[w as int].contains(v));
    }
}

/// A node released in one Kahn order after a common prefix is in any other
/// Kahn order with that prefix.
proof fn lemma_kahn_has_released(adj: Seq<Seq<usize>>, o1: Seq<usize>, o2: Seq<usize>, j: int, p: int, e: int)
    requires
        rows_ok(adj),
        is_kahn_order(adj, o1),
        is_kahn_order(adj, o2),
        release(adj, o1, j, p, e),
        j <= o2.len(),
        forall|i: int| 0 <= i < j ==> o1[i] == o2[i],
    ensures
        o2.contains(o1[j]),
{
    reveal(left_out_fed);
    let a = o1[j];
    if !o2.contains(a) {
        assert(o1[p] < adj.len());
        assert(adj[o1[p] as int][e] == a);
        assert(a < adj.len());
        let w = choose|w: usize| w < adj.len() && !o2.contains(w) && #[trigger] has_edge(adj, w, a);
        let f = choose|f: int| 0 <= f < adj[w as int].len() && adj[w as int][f] == a;
        assert(adj[w as int][f] == o1[j]);
        if o1.take(p).contains(w) {
            let q = choose|q: int| 0 <= q < p && o1.take(p)[q] == w;
            assert(o2[q] == w);
        } else {
            assert(o2[p] == w);
        }
    }
}

/// A release seen in one Kahn order carries over to another order with the
/// same prefix up to the releasing position.
proof fn lemma_release_transfer(
    adj: Seq<Seq<usize>>,
    o1: Seq<usize>,
    o2: Seq<usize>,
    j: int,
    k: int,
    p: int,
    e: int,
)
    requires
        release(adj, o1, j, p, e),
        0 <= p < k < o2.len(),
        o2[k] == o1[j],
        forall|i: int| 0 <= i <= p ==> o1[i] == o2[i],
    ensures
        release(adj, o2, k, p, e),
{
    assert(o2.take(p) =~= o1.take(p));
    assert(o2[p] == o1[p]);
}

proof fn lemma_kahn_agree_at(adj: Seq<Seq<usize>>, o1: Seq<usize>, o2: Seq<usize>, j: int)
    requires
        rows_ok(adj),
        is_kahn_order(adj, o1),
        is_kahn_order(adj, o2),
        0 <= j < o1.len(),
        j < o2.len(),
        forall|i: int| 0 <= i < j ==> o1[i] == o2[i],
    ensures
        o1[j] == o2[j],
{
    let a = o1[j];
    let b = o2[j];
    if a != b {
        assert(placed(adj, o1, j));
        assert(placed(adj, o2, j));
        if is_root(adj, a) {
            lemma_kahn_has_roots(adj, o2, a);
        } else {
            let (p, e) = choose|p: int, e: int| release(adj, o1, j, p, e);
            lemma_kahn_has_released(adj, o1, o2, j, p, e);
        }
        if is_root(adj, b) {
            lemma_kahn_has_roots(adj, o1, b);
        } else {
            let (p, e) = choose|p: int, e: int| release(adj, o2, j, p, e);
            lemma_kahn_has_released(adj, o2, o1, j, p, e);
        }
        let k2 = choose|k: int| 0 <= k < o2.len() && o2[k] == a;
        let k1 = choose|k: int| 0 <= k < o1.len() && o1[k] == b;
        if k2 < j {
            assert(o1[k2] == o2[k2]);
        }
        if k1 < j {
            assert(o1[k1] == o2[k1]);
        }
        assert(j < k2 && j < k1);
        if is_root(adj, a) {
            assert(is_root(adj, o2[k2]));
            assert(is_root(adj, o2[j]) && o2[j] < o2[k2]);
            assert(is_root(adj, o1[k1]));
            assert(o1[j] < o1[k1]);
        } else if is_root(adj, b) {
            assert(is_root(adj, o1[k1]));
            assert(is_root(adj, o1[j]));
        } else {
            let (p1, e1) = choose|p: int, e: int| release(adj, o1, j, p, e);
            let (p2, e2) = choose|p: int, e: int| release(adj, o2, j, p, e);
            lemma_release_transfer(adj, o1, o2, j, k2, p1, e1);
            lemma_release_transfer(adj, o2, o1, j, k1, p2, e2);
            assert(release(adj, o2, j, p2, e2) && release(adj, o2, k2, p1, e1));
            assert(release(adj, o1, j, p1, e1) && release(adj, o1, k1, p2, e2));
        }
    }
}

proof fn lemma_kahn_agree_upto(adj: Seq<Seq<usize>>, o1: Seq<usize>, o2: Seq<usize>, j: int)
    requires
        rows_ok(adj),
        is_kahn_order(adj, o1),
        is_kahn_order(adj, o2),
        0 <= j <= o1.len(),
        j <= o2.len(),
    ensures
        forall|i: int| 0 <= i < j ==> o1[i] == o2[i],
    decreases j,
{
    if j > 0 {
        lemma_kahn_agree_upto(adj, o1, o2, j - 1);
        lemma_kahn_agree_at(adj, o1, o2, j - 1);
    }
}

/// A Kahn order that agrees with another on the other's length is no longer.
proof fn lemma_kahn_not_longer(adj: Seq<Seq<usize>>, o1: Seq<usize>, o2: Seq<usize>)
    requires
        rows_ok(adj),
        is_kahn_order(adj, o1),
        is_kahn_order(adj, o2),
        forall|i: int| 0 <= i < o2.len() && i < o1.len() ==> o1[i] == o2[i],
    ensures
        o1.len() <= o2.len(),
{
    if o2.len() < o1.len() {
        let m = o2.len() as int;
        let a = o1[m];
        assert(placed(adj, o1, m));
        if is_root(adj, a) {
            lemma_kahn_has_roots(adj, o2, a);
        } else {
            let (p, e) = choose|p: int, e: int| release(adj, o1, m, p, e);
            lemma_kahn_has_released(adj, o1, o2, m, p, e);
        }
        let k = choose|k: int| 0 <= k < o2.len() && o2[k] == a;
        assert(o1[k] == a);
    }
}

/// There is one Kahn order: the topological sort's result is determined by
/// the graph.
pub proof fn law_kahn_order_unique(adj: Seq<Seq<usize>>, o1: Seq<usize>, o2: Seq<usize>)
    requires
        rows_ok(adj),
        is_kahn_order(adj, o1),
        is_kahn_order(adj, o2),
    ensures
        o1 == o2,
{
    if o1.len() <= o2.len() {
        lemma_kahn_agree_upto(adj, o1, o2, o1.len() as int);
        if o1.len() < o2.len() {
            lemma_kahn_not_longer(adj, o2, o1);
        }
    } else {
        lemma_kahn_agree_upto(adj, o1, o2, o2.len() as int);
        lemma_kahn_not_longer(adj, o1, o2);
    }
    assert(o1 =~= o2);
}

proof fn lemma_ranking_agree_at(counts: Seq<usize>, p1: Seq<usize>, p2: Seq<usize>, j: int)
    requires
        counts.len() <= usize::MAX,
        is_ranking(counts, p1),
        is_ranking(counts, p2),
        0 <= j < p1.len(),
        forall|i: int| 0 <= i < j ==> p1[i] == p2[i],
    ensures
        p1[j] == p2[j],
{
    let a = p1[j];
    let b = p2[j];
    if a != b {
        crate::digraph::lemma_distinct_covering_all(p1, counts.len());
        crate::digraph::lemma_distinct_covering_all(p2, counts.len());
        assert(p1[j] < counts.len() && p2[j] < counts.len());
        assert(p2.contains(a));
        assert(p1.contains(b));
        let k2 = choose|k: int| 0 <= k < p2.len() && p2[k] == a;
        let k1 = choose|k: int| 0 <= k < p1.len() && p1[k] == b;
        if k2 < j {
            assert(p1[k2] == p2[k2]);
        }
        if k1 < j {
            assert(p1[k1] == p2[k1]);
        }
        assert(counts[p2[j] as int] > counts[p2[k2] as int] || (counts[p2[j] as int] == counts[p2[k2] as int]
            && p2[j] < p2[k2]));
        assert(counts[p1[j] as int] > counts[p1[k1] as int] || (counts[p1[j] as int] == counts[p1[k1] as int]
            && p1[j] < p1[k1]));
    }
}

proof fn lemma_ranking_agree_upto(counts: Seq<usize>, p1: Seq<usize>, p2: Seq<usize>, j: int)
    requires
        counts.len() <= usize::MAX,
        is_ranking(counts, p1),
        is_ranking(counts, p2),
        0 <= j <= p1.len(),
    ensures
        forall|i: int| 0 <= i < j ==> p1[i] == p2[i],
    decreases j,
{
    if j > 0 {
        lemma_ranking_agree_upto(counts, p1, p2, j - 1);
        lemma_ranking_agree_at(counts, p1, p2, j - 1);
    }
}

/// There is one ranking of nodes by their counts: the bottleneck list is
/// determined by the graph.
pub proof fn law_ranking_unique(counts: Seq<usize>, p1: Seq<usize>, p2: Seq<usize>)
    requires
        counts.len() <= usize::MAX,
        is_ranking(counts, p1),
        is_ranking(counts, p2),
    ensures
        p1 == p2,
{
    lemma_ranking_agree_upto(counts, p1, p2, p1.len() as int);
    assert(p1 =~= p2);
}

/// Leaving a node's own id out of a list of names keeps every other name,
/// in its order: the result is the list filtered by "differs from the id".
pub proof fn law_without_id_keeps_order(names: Seq<Seq<char>>, id: Seq<char>)
    ensures
        without_id(names, id) == names.filter(differs_from(id)),
    decreases names.len(),
{
    reveal(Seq::filter);
    if names.len() > 0 {
        law_without_id_keeps_order(names.drop_last(), id);
    }
}

/// A node's downstream count is the number of nodes it reaches other than
/// itself, wherever they stand in the node list: one less than the length
/// of every breadth-first order from the node.
pub proof fn law_downstream_count(g: &ProcessGraph, k: int)
    requires
        g.wf(),
        0 <= k < g.n(),
    ensures
        g.downstream_of(k) == Set::new(
            |t: usize|
                reachable(g.forward(), g.index_of(g.ids()[k]) as usize, t) && t != g.index_of(g.ids()[k]) as usize,
        ).len(),
        forall|o: Seq<usize>|
            is_bfs_order(g.forward(), g.index_of(g.ids()[k]) as usize, o) ==> g.downstream_of(k) == o.len() - 1,
{
    broadcast use vstd::set::group_set_axioms, vstd::seq_lib::seq_to_set_is_finite;
    g.lemma_wf();
    let fw = g.forward();
    assert(g.ids().contains(g.ids()[k]));
    lemma_last_index_of(g.ids(), g.ids()[k]);
    let s = g.index_of(g.ids()[k]) as usize;
    assert(s < g.n());
    let d = dfs_order(fw, s);
    lemma_dfs_order(fw, s);
    lemma_reach_count(fw, s, d);
    d.unique_seq_to_set();
    let all = Set::new(|t: usize| reachable(fw, s, t));
    assert(d.to_set() =~= all);
    lemma_reach_refl(fw, s);
    assert(all.contains(s));
    let others = Set::new(|t: usize| reachable(fw, s, t) && t != s);
    assert(others =~= all.remove(s));
    assert forall|o: Seq<usize>| is_bfs_order(fw, s, o) implies g.downstream_of(k) == o.len() - 1 by {
        lemma_reach_count(fw, s, o);
    }
}

/// The depth-first order from `s` starts at `s`; each later node is the
/// first neighbour, in adjacency-list order, not yet listed, of the node
/// listed last among those that still have such a neighbour; and it ends
/// only when no listed node has an unlisted neighbour.  So neighbours are
/// taken in list order: for `s` with list `[a, b, c]` and no other edges the
/// order is `[s, a, b, c]`.
pub proof fn law_dfs_preorder(adj: Seq<Seq<usize>>, s: usize)
    requires
        rows_ok(adj),
        adj.len() <= usize::MAX,
        s < adj.len(),
    ensures
        dfs_order(adj, s).len() > 0,
        dfs_order(adj, s)[0] == s,
        forall|k: int| 0 <= k < dfs_order(adj, s).len() - 1 ==> #[trigger] preorder_next(adj, dfs_order(adj, s), k),
        forall|j: int|
            0 <= j < dfs_order(adj, s).len() ==> !#[trigger] has_unlisted(
                adj,
                dfs_order(adj, s),
                dfs_order(adj, s).len() - 1,
                j,
            ),
{
    lemma_dfs_order(adj, s);
    let e = Seq::<usize>::empty();
    let vis1 = e.push(s);
    assert(dfs_order(adj, s) == dfs_list(adj, adj[s as int], vis1));
    assert(adj[vis1[0] as int].skip(0) =~= adj[s as int]);
    assert(distinct_nodes(vis1, adj.len()));
    lemma_dfs_list_steps(adj, vis1, 0, 0);
}

/// A node's forward list holds the targets of the edges leaving it, and its
/// backward list the sources of the edges entering it, in edge order.
pub proof fn law_adjacency_in_edge_order(pairs: Seq<(usize, usize)>, n: nat, i: int)
    requires
        0 <= i < n,
    ensures
        out_rows(pairs, n)[i] == second_ends(pairs.filter(leaves(i))),
        in_rows(pairs, n)[i] == first_ends(pairs.filter(enters(i))),
    decreases pairs.len(),
{
    reveal(Seq::filter);
    if pairs.len() > 0 {
        let p = pairs.drop_last();
        law_adjacency_in_edge_order(p, n, i);
        assert(out_rows(p, n)[i] == targets_from(p, i));
        assert(in_rows(p, n)[i] == sources_into(p, i));
        let fl = p.filter(leaves(i));
        let fe = p.filter(enters(i));
        assert(second_ends(fl.push(pairs.last())) =~= second_ends(fl).push(pairs.last().1));
        assert(first_ends(fe.push(pairs.last())) =~= first_ends(fe).push(pairs.last().0));
    }
}

/// The edges of a topology's graph are, in edge order, the topology edges
/// whose two end ids both name a node, each joined to the last nodes with
/// those ids.
pub proof fn law_resolved_edges(ids: Seq<Seq<char>>, ends: Seq<(Seq<char>, Seq<char>)>)
    ensures
        resolve_edges(ids, ends) == end_indices(ids, ends.filter(both_named(ids))),
    decreases ends.len(),
{
    reveal(Seq::filter);
    if ends.len() > 0 {
        let e = ends.drop_last();
        law_resolved_edges(ids, e);
        lemma_last_index_of(ids, ends.last().0);
        lemma_last_index_of(ids, ends.last().1);
        let f = e.filter(both_named(ids));
        assert(end_indices(ids, f.push(ends.last())) =~= end_indices(ids, f).push(
            (last_index_of(ids, ends.last().0) as usize, last_index_of(ids, ends.last().1) as usize),
        ));
    }
}

} // verus!
