//! Depth-first traversal: the nodes reachable from a start node in
//! preorder, neighbours taken in adjacency-list order.

use vstd::prelude::*;
use crate::digraph::{distinct_nodes, has_edge, reachable, rows_ok, lemma_distinct_len, lemma_reach_refl,
    lemma_reach_prepend, lemma_closed_holds_reachable};
use crate::edges::rows_of;

verus! {

/// Nodes of the graph not in `vis`, counted by length (termination measure).
pub open spec fn unvisited_bound(adj: Seq<Seq<usize>>, vis: Seq<usize>) -> int {
    if vis.len() <= adj.len() {
        adj.len() - vis.len()
    } else {
        0
    }
}

/// Preorder visit of `v` after the nodes `vis` have been visited: `vis`
/// unchanged if `v` is among them, else `vis` followed by `v` and then the
/// visits of the neighbours of `v` in list order.
pub open spec fn dfs_from(adj: Seq<Seq<usize>>, v: usize, vis: Seq<usize>) -> Seq<usize>
    decreases unvisited_bound(adj, vis), 0int,
{
    if vis.contains(v) || v >= adj.len() || vis.len() >= adj.len() {
        vis
    } else {
        dfs_list(adj, adj[v as int], vis.push(v))
    }
}

/// Visits of the nodes of `list`, one after another, after `vis`.
pub open spec fn dfs_list(adj: Seq<Seq<usize>>, list: Seq<usize>, vis: Seq<usize>) -> Seq<usize>
    decreases unvisited_bound(adj, vis), list.len() + 1,
{
    if list.len() == 0 {
        vis
    } else {
        let next = dfs_from(adj, list[0], vis);
        if next.len() < vis.len() {
            next
        } else {
            dfs_list(adj, list.drop_first(), next)
        }
    }
}

/// Depth-first preorder from `s`.
pub open spec fn dfs_order(adj: Seq<Seq<usize>>, s: usize) -> Seq<usize> {
    dfs_from(adj, s, Seq::empty())
}

/// A visit keeps what was visited before it and appends distinct new nodes,
/// `v` among them when it is a node not yet visited; every new node is
/// reachable from `v`, and every neighbour of a new node is visited in the end.
pub proof fn lemma_dfs_from(adj: Seq<Seq<usize>>, v: usize, vis: Seq<usize>)
    requires
        rows_ok(adj),
        adj.len() <= usize::MAX,
        distinct_nodes(vis, adj.len()),
    ensures
        dfs_from(adj, v, vis).len() >= vis.len(),
        forall|i: int| 0 <= i < vis.len() ==> #[trigger] dfs_from(adj, v, vis)[i] == vis[i],
        distinct_nodes(dfs_from(adj, v, vis), adj.len()),
        v < adj.len() ==> dfs_from(adj, v, vis).contains(v),
        forall|i: int|
            vis.len() <= i < dfs_from(adj, v, vis).len() ==> reachable(adj, v, #[trigger] dfs_from(adj, v, vis)[i]),
        forall|i: int, y: usize|
            vis.len() <= i < dfs_from(adj, v, vis).len() && #[trigger] has_edge(adj, dfs_from(adj, v, vis)[i], y)
                ==> dfs_from(adj, v, vis).contains(y),
    decreases unvisited_bound(adj, vis), 0int,
{
    let n = adj.len();
    let r = dfs_from(adj, v, vis);
    if vis.contains(v) || v >= n || vis.len() >= n {
        if v < n && !vis.contains(v) {
            lemma_distinct_len(vis, n as usize, Some(v));
        }
    } else {
        let vis1 = vis.push(v);
        assert(distinct_nodes(vis1, n)) by {
            assert forall|i: int, j: int| 0 <= i < j < vis1.len() implies vis1[i] != vis1[j] by {
                if j == vis.len() {
                    assert(vis.contains(vis[i]));
                }
            }
        }
        let list = adj[v as int];
        assert forall|k: int| 0 <= k < list.len() implies #[trigger] list[k] < n by {
            assert(adj[v as int][k] < n);
        }
        lemma_dfs_list(adj, list, vis1);
        assert(r == dfs_list(adj, list, vis1));
        assert(r[vis.len() as int] == v);
        lemma_reach_refl(adj, v);
        assert forall|i: int| vis.len() <= i < r.len() implies reachable(adj, v, #[trigger] r[i]) by {
            if i > vis.len() {
                let k = choose|k: int| 0 <= k < list.len() && reachable(adj, list[k], r[i]);
                assert(has_edge(adj, v, list[k]));
                lemma_reach_prepend(adj, v, list[k], r[i]);
            }
        }
        assert forall|i: int, y: usize| vis.len() <= i < r.len() && #[trigger] has_edge(adj, r[i], y) implies r.contains(
            y,
        ) by {
            if i == vis.len() {
                let k = choose|k: int| 0 <= k < list.len() && list[k] == y;
                assert(r.contains(list[k]));
            }
        }
    }
}

/// Visiting the nodes of a list, one after another: as for one visit, with
/// every node of the list visited in the end and every new node reachable
/// from some node of the list.
pub proof fn lemma_dfs_list(adj: Seq<Seq<usize>>, list: Seq<usize>, vis: Seq<usize>)
    requires
        rows_ok(adj),
        adj.len() <= usize::MAX,
        distinct_nodes(vis, adj.len()),
        forall|k: int| 0 <= k < list.len() ==> #[trigger] list[k] < adj.len(),
    ensures
        dfs_list(adj, list, vis).len() >= vis.len(),
        forall|i: int| 0 <= i < vis.len() ==> #[trigger] dfs_list(adj, list, vis)[i] == vis[i],
        distinct_nodes(dfs_list(adj, list, vis), adj.len()),
        forall|k: int| 0 <= k < list.len() ==> dfs_list(adj, list, vis).contains(#[trigger] list[k]),
        forall|i: int|
            vis.len() <= i < dfs_list(adj, list, vis).len() ==> exists|k: int|
                0 <= k < list.len() && reachable(adj, list[k], #[trigger] dfs_list(adj, list, vis)[i]),
        forall|i: int, y: usize|
            vis.len() <= i < dfs_list(adj, list, vis).len() && #[trigger] has_edge(adj, dfs_list(adj, list, vis)[i], y)
                ==> dfs_list(adj, list, vis).contains(y),
    decreases unvisited_bound(adj, vis), list.len() + 1,
{
    if list.len() > 0 {
        let next = dfs_from(adj, list[0], vis);
        lemma_dfs_from(adj, list[0], vis);
        let rest = list.drop_first();
        assert forall|k: int| 0 <= k < rest.len() implies #[trigger] rest[k] < adj.len() by {
            assert(rest[k] == list[k + 1]);
        }
        lemma_dfs_list(adj, rest, next);
        let r = dfs_list(adj, list, vis);
        assert(r == dfs_list(adj, rest, next));
        assert forall|x: usize| next.contains(x) implies r.contains(x) by {
            let i = choose|i: int| 0 <= i < next.len() && next[i] == x;
            assert(r[i] == next[i]);
        }
        assert forall|k: int| 0 <= k < list.len() implies r.contains(#[trigger] list[k]) by {
            if k > 0 {
                assert(list[k] == rest[k - 1]);
            }
        }
        assert forall|i: int| vis.len() <= i < r.len() implies exists|k: int|
            0 <= k < list.len() && reachable(adj, list[k], #[trigger] r[i]) by {
            if i < next.len() {
                assert(r[i] == next[i]);
                assert(reachable(adj, list[0], next[i]));
            } else {
                let k = choose|k: int| 0 <= k < rest.len() && reachable(adj, rest[k], r[i]);
                assert(list[k + 1] == rest[k]);
            }
        }
        assert forall|i: int, y: usize| vis.len() <= i < r.len() && #[trigger] has_edge(adj, r[i], y) implies r.contains(
            y,
        ) by {
            if i < next.len() {
                assert(r[i] == next[i]);
                assert(has_edge(adj, next[i], y));
                assert(next.contains(y));
            }
        }
        assert forall|i: int| 0 <= i < vis.len() implies #[trigger] r[i] == vis[i] by {
            assert(r[i] == next[i]);
        }
    }
}

/// The depth-first order from a node starts at it and lists, once each,
/// exactly the nodes it reaches.
pub proof fn lemma_dfs_order(adj: Seq<Seq<usize>>, s: usize)
    requires
        rows_ok(adj),
        adj.len() <= usize::MAX,
        s < adj.len(),
    ensures
        dfs_order(adj, s).len() > 0,
        dfs_order(adj, s)[0] == s,
        distinct_nodes(dfs_order(adj, s), adj.len()),
        forall|t: usize| dfs_order(adj, s).contains(t) <==> reachable(adj, s, t),
{
    let r = dfs_order(adj, s);
    let e = Seq::<usize>::empty();
    lemma_dfs_from(adj, s, e);
    let vis1 = e.push(s);
    assert(r == dfs_list(adj, adj[s as int], vis1));
    assert forall|k: int| 0 <= k < adj[s as int].len() implies #[trigger] adj[s as int][k] < adj.len() by {}
    lemma_dfs_list(adj, adj[s as int], vis1);
    assert(r[0] == vis1[0]);
    assert forall|t: usize| r.contains(t) <==> reachable(adj, s, t) by {
        if r.contains(t) {
            let i = choose|i: int| 0 <= i < r.len() && r[i] == t;
            assert(reachable(adj, s, r[i]));
        }
        if reachable(adj, s, t) {
            assert forall|x: usize, y: usize| r.contains(x) && #[trigger] has_edge(adj, x, y) implies r.contains(y) by {
                let i = choose|i: int| 0 <= i < r.len() && r[i] == x;
                assert(has_edge(adj, r[i], y));
            }
            lemma_closed_holds_reachable(adj, r, s, t);
        }
    }
}

/// Node `o[j]` has a neighbour that is not among the first `k + 1` entries
/// of `o`.
pub open spec fn has_unlisted(adj: Seq<Seq<usize>>, o: Seq<usize>, k: int, j: int) -> bool {
    exists|f: int| 0 <= f < adj[o[j] as int].len() && !o.take(k + 1).contains(#[trigger] adj[o[j] as int][f])
}

/// Entry `k + 1` of `o` is the node a depth-first visit lists after the
/// first `k + 1` entries: of the listed nodes that still have an unlisted
/// neighbour, the one listed last gives its first unlisted neighbour in
/// adjacency-list order.
pub open spec fn preorder_next(adj: Seq<Seq<usize>>, o: Seq<usize>, k: int) -> bool {
    exists|j: int, e: int|
        #![trigger adj[o[j] as int][e]]
        0 <= j <= k && 0 <= e < adj[o[j] as int].len() && adj[o[j] as int][e] == o[k + 1] && !o.take(
            k + 1,
        ).contains(o[k + 1]) && (forall|f: int| 0 <= f < e ==> o.take(k + 1).contains(#[trigger] adj[o[j] as int][f]))
            && (forall|i: int| j < i <= k ==> !#[trigger] has_unlisted(adj, o, k, i))
}

/// A node with no unlisted neighbour keeps none when more nodes are listed.
proof fn lemma_listed_stays(adj: Seq<Seq<usize>>, o1: Seq<usize>, k1: int, o2: Seq<usize>, k2: int, i: int)
    requires
        0 <= i <= k1 < o1.len(),
        i <= k2 < o2.len(),
        o1[i] == o2[i],
        forall|x: usize| #[trigger] o1.take(k1 + 1).contains(x) ==> o2.take(k2 + 1).contains(x),
        !has_unlisted(adj, o1, k1, i),
    ensures
        !has_unlisted(adj, o2, k2, i),
{
    if has_unlisted(adj, o2, k2, i) {
        let f = choose|f: int|
            0 <= f < adj[o2[i] as int].len() && !o2.take(k2 + 1).contains(#[trigger] adj[o2[i] as int][f]);
        assert(!o1.take(k1 + 1).contains(adj[o1[i] as int][f]));
    }
}

/// Whether an entry is a preorder step depends only on the entries up to it.
proof fn lemma_next_prefix(adj: Seq<Seq<usize>>, o1: Seq<usize>, o2: Seq<usize>, k: int)
    requires
        0 <= k,
        k + 2 <= o1.len(),
        k + 2 <= o2.len(),
        forall|i: int| 0 <= i < k + 2 ==> o1[i] == o2[i],
        preorder_next(adj, o1, k),
    ensures
        preorder_next(adj, o2, k),
{
    assert(o1.take(k + 1) =~= o2.take(k + 1));
    let (j, e) = choose|j: int, e: int|
        #![trigger adj[o1[j] as int][e]]
        0 <= j <= k && 0 <= e < adj[o1[j] as int].len() && adj[o1[j] as int][e] == o1[k + 1] && !o1.take(
            k + 1,
        ).contains(o1[k + 1]) && (forall|f: int| 0 <= f < e ==> o1.take(k + 1).contains(#[trigger] adj[o1[j] as int][f]))
            && (forall|i: int| j < i <= k ==> !#[trigger] has_unlisted(adj, o1, k, i));
    assert forall|i: int| j < i <= k implies !#[trigger] has_unlisted(adj, o2, k, i) by {
        assert(!has_unlisted(adj, o1, k, i));
        lemma_listed_stays(adj, o1, k, o2, k, i);
    }
    assert(o1[j] == o2[j]);
    assert(adj[o2[j] as int][e] == o2[k + 1]);
}

/// The visit of `v`, the neighbour at position `c` of the node listed at
/// `p`, when every earlier neighbour of that node is listed and every node
/// listed after it has no unlisted neighbour: each new entry is a preorder
/// step, and in the end no node listed after position `p` has an unlisted
/// neighbour.
proof fn lemma_dfs_from_steps(adj: Seq<Seq<usize>>, v: usize, vis: Seq<usize>, p: int, c: int)
    requires
        rows_ok(adj),
        adj.len() <= usize::MAX,
        distinct_nodes(vis, adj.len()),
        0 <= p < vis.len(),
        0 <= c < adj[vis[p] as int].len(),
        v == adj[vis[p] as int][c],
        forall|f: int| 0 <= f < c ==> vis.contains(#[trigger] adj[vis[p] as int][f]),
        forall|i: int| p < i < vis.len() ==> !#[trigger] has_unlisted(adj, vis, vis.len() - 1, i),
    ensures
        forall|k: int|
            vis.len() - 1 <= k < dfs_from(adj, v, vis).len() - 1 ==> #[trigger] preorder_next(
                adj,
                dfs_from(adj, v, vis),
                k,
            ),
        forall|i: int|
            p < i < dfs_from(adj, v, vis).len() ==> !#[trigger] has_unlisted(
                adj,
                dfs_from(adj, v, vis),
                dfs_from(adj, v, vis).len() - 1,
                i,
            ),
    decreases unvisited_bound(adj, vis), 0int,
{
    let n = adj.len();
    let r = dfs_from(adj, v, vis);
    let m = vis.len() as int;
    assert(vis[p] < n);
    assert(v < n);
    if vis.contains(v) {
        assert(r == vis);
    } else {
        lemma_distinct_len(vis, n as usize, Some(v));
        let vis1 = vis.push(v);
        assert(distinct_nodes(vis1, n)) by {
            assert forall|i: int, j: int| 0 <= i < j < vis1.len() implies vis1[i] != vis1[j] by {
                if j == vis.len() {
                    assert(vis.contains(vis[i]));
                }
            }
        }
        let list = adj[v as int];
        assert forall|k: int| 0 <= k < list.len() implies #[trigger] list[k] < n by {
            assert(adj[v as int][k] < n);
        }
        assert(r == dfs_list(adj, list, vis1));
        lemma_dfs_list(adj, list, vis1);
        assert(vis1[m] == v);
        assert(list.skip(0) =~= list);
        lemma_dfs_list_steps(adj, vis1, m, 0);
        assert(r.take(m) =~= vis);
        assert(r[m] == v);
        assert(r[p] == vis[p]);
        assert forall|i: int| p < i <= m - 1 implies !#[trigger] has_unlisted(adj, r, m - 1, i) by {
            assert(!has_unlisted(adj, vis, m - 1, i));
            assert(vis.take(m) =~= vis);
            lemma_listed_stays(adj, vis, m - 1, r, m - 1, i);
        }
        assert forall|f: int| 0 <= f < c implies r.take(m).contains(#[trigger] adj[r[p] as int][f]) by {
            assert(vis.contains(adj[vis[p] as int][f]));
        }
        assert(adj[r[p] as int][c] == r[m]);
        assert(preorder_next(adj, r, m - 1));
        assert forall|i: int| p < i < r.len() implies !#[trigger] has_unlisted(adj, r, r.len() - 1, i) by {
            if i < m {
                assert(vis.take(m) =~= vis);
                assert(r.take(r.len() as int) =~= r);
                assert forall|x: usize| vis.take(m).contains(x) implies r.take(r.len() as int).contains(x) by {
                    let q = choose|q: int| 0 <= q < m && vis.take(m)[q] == x;
                    assert(r[q] == x);
                }
                lemma_listed_stays(adj, vis, m - 1, r, r.len() - 1, i);
            }
        }
    }
}

/// The visits of the neighbours of the node listed at `p`, from position
/// `c` of its list on, under the same conditions: each new entry is a
/// preorder step, and in the end no node listed at or after `p` has an
/// unlisted neighbour.
pub proof fn lemma_dfs_list_steps(adj: Seq<Seq<usize>>, vis: Seq<usize>, p: int, c: int)
    requires
        rows_ok(adj),
        adj.len() <= usize::MAX,
        distinct_nodes(vis, adj.len()),
        0 <= p < vis.len(),
        0 <= c <= adj[vis[p] as int].len(),
        forall|f: int| 0 <= f < c ==> vis.contains(#[trigger] adj[vis[p] as int][f]),
        forall|i: int| p < i < vis.len() ==> !#[trigger] has_unlisted(adj, vis, vis.len() - 1, i),
    ensures
        forall|k: int|
            vis.len() - 1 <= k < dfs_list(adj, adj[vis[p] as int].skip(c), vis).len() - 1 ==> #[trigger] preorder_next(
                adj,
                dfs_list(adj, adj[vis[p] as int].skip(c), vis),
                k,
            ),
        forall|i: int|
            p <= i < dfs_list(adj, adj[vis[p] as int].skip(c), vis).len() ==> !#[trigger] has_unlisted(
                adj,
                dfs_list(adj, adj[vis[p] as int].skip(c), vis),
                dfs_list(adj, adj[vis[p] as int].skip(c), vis).len() - 1,
                i,
            ),
    decreases unvisited_bound(adj, vis), adj[vis[p] as int].len() - c + 1,
{
    let n = adj.len();
    let row = adj[vis[p] as int];
    let list = row.skip(c);
    let r = dfs_list(adj, list, vis);
    let m = vis.len() as int;
    assert(vis[p] < n);
    if c == row.len() {
        assert(list.len() == 0);
        assert(r == vis);
        assert(vis.take(m) =~= vis);
        assert forall|i: int| p <= i < r.len() implies !#[trigger] has_unlisted(adj, r, r.len() - 1, i) by {
            if i == p {
                if has_unlisted(adj, r, r.len() - 1, i) {
                    let f = choose|f: int|
                        0 <= f < adj[r[i] as int].len() && !r.take(r.len() - 1 + 1).contains(
                            #[trigger] adj[r[i] as int][f],
                        );
                    assert(vis.contains(adj[vis[p] as int][f]));
                }
            }
        }
    } else {
        let v = list[0];
        assert(v == row[c]);
        assert(v < n);
        let next = dfs_from(adj, v, vis);
        lemma_dfs_from(adj, v, vis);
        lemma_dfs_from_steps(adj, v, vis, p, c);
        let rest = list.drop_first();
        assert(r == dfs_list(adj, rest, next));
        assert(next[p] == vis[p]);
        assert(rest =~= adj[next[p] as int].skip(c + 1));
        lemma_distinct_len(next, n as usize, None);
        assert forall|k: int| 0 <= k < rest.len() implies #[trigger] rest[k] < n by {
            assert(rest[k] == row[c + 1 + k]);
        }
        lemma_dfs_list(adj, rest, next);
        assert forall|f: int| 0 <= f < c + 1 implies next.contains(#[trigger] adj[next[p] as int][f]) by {
            if f < c {
                assert(vis.contains(adj[vis[p] as int][f]));
                let q = choose|q: int| 0 <= q < vis.len() && vis[q] == adj[vis[p] as int][f];
                assert(next[q] == vis[q]);
            }
        }
        lemma_dfs_list_steps(adj, next, p, c + 1);
        assert forall|k: int| m - 1 <= k < r.len() - 1 implies #[trigger] preorder_next(adj, r, k) by {
            if k < next.len() - 1 {
                assert(preorder_next(adj, next, k));
                lemma_next_prefix(adj, next, r, k);
            }
        }
    }
}

/// Visits `current` and everything reachable from it that is not visited
/// yet, appending to `order` and marking `visited`.
fn dfs_visit(adj: &Vec<Vec<usize>>, current: usize, visited: &mut Vec<bool>, order: &mut Vec<usize>)
    requires
        rows_ok(rows_of(adj)),
        current < adj.len(),
        old(visited).len() == adj.len(),
        distinct_nodes(old(order)@, adj.len() as nat),
        forall|v: int| 0 <= v < adj.len() ==> (#[trigger] old(visited)[v] <==> old(order)@.contains(v as usize)),
        !old(order)@.contains(current),
    ensures
        final(order)@ == dfs_from(rows_of(adj), current, old(order)@),
        final(order)@.len() > old(order)@.len(),
        final(visited).len() == adj.len(),
        distinct_nodes(final(order)@, adj.len() as nat),
        forall|v: int| 0 <= v < adj.len() ==> (#[trigger] final(visited)[v] <==> final(order)@.contains(v as usize)),
    decreases adj.len() - old(order)@.len(),
{
    let ghost a = rows_of(adj);
    let n = adj.len();
    proof {
        lemma_distinct_len(order@, n, Some(current));
    }
    let ghost vis0 = order@;
    visited.set(current, true);
    order.push(current);
    proof {
        assert forall|v: int| 0 <= v < n implies (#[trigger] visited[v] <==> order@.contains(v as usize)) by {
            if v != current as int {
                if order@.contains(v as usize) {
                    let j = choose|j: int| 0 <= j < order@.len() && order@[j] == v as usize;
                    assert(vis0[j] == v as usize);
                }
                if vis0.contains(v as usize) {
                    let j = choose|j: int| 0 <= j < vis0.len() && vis0[j] == v as usize;
                    assert(order@[j] == v as usize);
                }
            } else {
                assert(order@[vis0.len() as int] == current);
            }
        }
        assert(order@.contains(current)) by {
            assert(order@[vis0.len() as int] == current);
        }
        assert(a[current as int].skip(0) =~= a[current as int]);
    }
    let ghost vis1 = order@;
    let row: &Vec<usize> = &adj[current];
    let mut e: usize = 0;
    while e < row.len()
        invariant
            n == adj.len(),
            a == rows_of(adj),
            rows_ok(a),
            current < n,
            row@ == a[current as int],
            e <= row@.len(),
            visited.len() == n,
            distinct_nodes(order@, n as nat),
            forall|v: int| 0 <= v < n ==> (#[trigger] visited[v] <==> order@.contains(v as usize)),
            order@.len() >= vis1.len(),
            vis1.len() == vis0.len() + 1,
            vis0 == old(order)@,
            dfs_list(a, row@, vis1) == dfs_list(a, row@.skip(e as int), order@),
        decreases row@.len() - e,
    {
        let next = row[e];
        let ghost before = order@;
        proof {
            assert(row@.skip(e as int)[0] == next);
            assert(row@.skip(e as int).drop_first() =~= row@.skip(e + 1));
            assert(a[current as int][e as int] == next);
        }
        if !visited[next] {
            proof {
                lemma_distinct_len(order@, n, Some(next));
            }
            dfs_visit(adj, next, visited, order);
        } else {
            proof {
                assert(before.contains(next));
            }
        }
        proof {
            assert(order@ == dfs_from(a, next, before));
        }
        e = e + 1;
    }
    proof {
        assert(row@.skip(e as int) =~= Seq::<usize>::empty());
    }
}

/// Depth-first preorder of the nodes reachable from `start`.
pub fn dfs_order_exec(adj: &Vec<Vec<usize>>, start: usize) -> (order: Vec<usize>)
    requires
        rows_ok(rows_of(adj)),
        start < adj.len(),
    ensures
        order@ == dfs_order(rows_of(adj), start),
{
    let n = adj.len();
    let mut visited: Vec<bool> = Vec::new();
    let mut i: usize = 0;
    while i < n
        invariant
            i <= n,
            visited.len() == i,
            forall|v: int| 0 <= v < i ==> !(#[trigger] visited[v]),
        decreases n - i,
    {
        visited.push(false);
        i = i + 1;
    }
    let mut order: Vec<usize> = Vec::new();
    dfs_visit(adj, start, &mut visited, &mut order);
    order
}

} // verus!
