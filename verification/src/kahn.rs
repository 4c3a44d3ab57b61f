//! Kahn's topological sort with a first-in first-out queue: nodes without
//! incoming edges first, in index order, then each node at the moment its
//! last incoming edge is taken away.  Nodes on or behind a cycle never come.

use vstd::prelude::*;
use crate::digraph::{distinct_nodes, has_edge, rows_ok, lemma_distinct_len, lemma_distinct_covering, is_walk,
    step_ok, has_directed_cycle};
use crate::edges::{rows_of, total_len, lemma_total_len_take};

verus! {

/// Number of times `v` occurs in `s`.
pub open spec fn occ(s: Seq<usize>, v: usize) -> nat
    decreases s.len(),
{
    if s.len() == 0 {
        0
    } else {
        (if s[0] == v { 1nat } else { 0nat }) + occ(s.drop_first(), v)
    }
}

/// `f(0) + ... + f(k - 1)`.
pub open spec fn sum_upto(f: spec_fn(int) -> nat, k: int) -> nat
    decreases k,
{
    if k <= 0 {
        0
    } else {
        sum_upto(f, k - 1) + f(k - 1)
    }
}

/// Number of edges into `v` from the nodes `0..u`.
pub open spec fn in_count(adj: Seq<Seq<usize>>, v: usize, u: int) -> nat {
    sum_upto(|w: int| occ(adj[w], v), u)
}

/// No edge enters `v`.
pub open spec fn is_root(adj: Seq<Seq<usize>>, v: usize) -> bool {
    forall|w: int| 0 <= w < adj.len() ==> !(#[trigger] adj[w]).contains(v)
}

/// `order[j]` was released by entry `e` of the list of `order[p]`: that
/// entry is an edge into `order[j]`, and every edge into `order[j]` leaves a
/// node placed before `order[p]`, or leaves `order[p]` itself at a list
/// position no later than `e`.
pub open spec fn release(adj: Seq<Seq<usize>>, order: Seq<usize>, j: int, p: int, e: int) -> bool {
    &&& 0 <= p < j < order.len()
    &&& 0 <= e < adj[order[p] as int].len()
    &&& adj[order[p] as int][e] == order[j]
    &&& forall|w: int, f: int|
        0 <= w < adj.len() && 0 <= f < adj[w].len() && #[trigger] adj[w][f] == order[j] ==> order.take(
            p,
        ).contains(w as usize) || (w == order[p] as int && f <= e)
}

/// `order[j]` has no incoming edge or was released.
pub open spec fn placed(adj: Seq<Seq<usize>>, order: Seq<usize>, j: int) -> bool {
    is_root(adj, order[j]) || exists|p: int, e: int| release(adj, order, j, p, e)
}

/// `order` is the order Kahn's algorithm with a first-in first-out queue
/// emits: distinct nodes; each without incoming edges or released by an
/// earlier node; nodes without incoming edges first and in index order, the
/// others in the order of their release (earlier releasing node first, then
/// earlier list position); and every node left out has an incoming edge from
/// a node left out.
pub open spec fn is_kahn_order(adj: Seq<Seq<usize>>, order: Seq<usize>) -> bool {
    &&& distinct_nodes(order, adj.len())
    &&& forall|j: int| 0 <= j < order.len() ==> #[trigger] placed(adj, order, j)
    &&& forall|j: int, k: int|
        0 <= j < k < order.len() && is_root(adj, #[trigger] order[k]) ==> is_root(adj, #[trigger] order[j])
            && order[j] < order[k]
    &&& forall|j: int, k: int, p1: int, e1: int, p2: int, e2: int|
        0 <= j < k < order.len() && #[trigger] release(adj, order, j, p1, e1)
            && #[trigger] release(adj, order, k, p2, e2) ==> p1 < p2 || (p1 == p2 && e1 < e2)
    &&& left_out_fed(adj, order)
}

/// Every node left out of `order` has an edge into it from a node left out.
#[verifier::opaque]
pub open spec fn left_out_fed(adj: Seq<Seq<usize>>, order: Seq<usize>) -> bool {
    forall|v: usize|
        v < adj.len() && !order.contains(v) ==> exists|w: usize|
            w < adj.len() && !order.contains(w) && #[trigger] has_edge(adj, w, v)
}

/// Edges into `v` not yet taken away once the nodes before position `head`
/// of `order` are done and `order[head]` is done up to list position `e`:
/// the part that node `w` still holds.
pub open spec fn pending_term(adj: Seq<Seq<usize>>, order: Seq<usize>, head: int, e: int, v: usize, w: int) -> nat {
    if order.take(head).contains(w as usize) {
        0
    } else if head < order.len() && w == order[head] as int {
        occ(adj[w].skip(e), v)
    } else {
        occ(adj[w], v)
    }
}

/// Edges into `v` not yet taken away.
pub open spec fn pending(adj: Seq<Seq<usize>>, order: Seq<usize>, head: int, e: int, v: usize) -> nat {
    sum_upto(|w: int| pending_term(adj, order, head, e, v, w), adj.len() as int)
}

proof fn lemma_occ_push(s: Seq<usize>, x: usize, v: usize)
    ensures
        occ(s.push(x), v) == occ(s, v) + (if x == v { 1nat } else { 0nat }),
    decreases s.len(),
{
    if s.len() > 0 {
        assert(s.push(x).drop_first() =~= s.drop_first().push(x));
        lemma_occ_push(s.drop_first(), x, v);
        assert(s.push(x)[0] == s[0]);
        assert(occ(s.push(x), v) == (if s[0] == v { 1nat } else { 0nat }) + occ(s.drop_first().push(x), v));
    } else {
        assert(s.push(x).drop_first() =~= Seq::<usize>::empty());
        assert(occ(s.push(x).drop_first(), v) == 0);
        assert(s.push(x)[0] == x);
    }
}

proof fn lemma_occ_pos(s: Seq<usize>, v: usize, f: int)
    requires
        0 <= f < s.len(),
        s[f] == v,
    ensures
        occ(s, v) > 0,
    decreases s.len(),
{
    if f > 0 {
        lemma_occ_pos(s.drop_first(), v, f - 1);
    }
}

proof fn lemma_occ_le_len(s: Seq<usize>, v: usize)
    ensures
        occ(s, v) <= s.len(),
    decreases s.len(),
{
    if s.len() > 0 {
        lemma_occ_le_len(s.drop_first(), v);
    }
}

proof fn lemma_occ_skip(s: Seq<usize>, e: int, v: usize)
    requires
        0 <= e < s.len(),
    ensures
        occ(s.skip(e), v) == (if s[e] == v { 1nat } else { 0nat }) + occ(s.skip(e + 1), v),
{
    assert(s.skip(e).drop_first() =~= s.skip(e + 1));
}

proof fn lemma_sum_ext(f: spec_fn(int) -> nat, g: spec_fn(int) -> nat, k: int)
    requires
        forall|w: int| 0 <= w < k ==> #[trigger] f(w) == g(w),
    ensures
        sum_upto(f, k) == sum_upto(g, k),
    decreases k,
{
    if k > 0 {
        lemma_sum_ext(f, g, k - 1);
    }
}

proof fn lemma_sum_update(f: spec_fn(int) -> nat, g: spec_fn(int) -> nat, k: int, w0: int)
    requires
        0 <= w0 < k,
        forall|w: int| 0 <= w < k && w != w0 ==> #[trigger] f(w) == g(w),
    ensures
        sum_upto(g, k) + f(w0) == sum_upto(f, k) + g(w0),
    decreases k,
{
    if k - 1 == w0 {
        lemma_sum_ext(f, g, k - 1);
    } else {
        lemma_sum_update(f, g, k - 1, w0);
    }
}

proof fn lemma_sum_zero(f: spec_fn(int) -> nat, k: int, w: int)
    requires
        sum_upto(f, k) == 0,
        0 <= w < k,
    ensures
        f(w) == 0,
    decreases k,
{
    if w < k - 1 {
        lemma_sum_zero(f, k - 1, w);
    }
}

proof fn lemma_sum_pos(f: spec_fn(int) -> nat, k: int) -> (w: int)
    requires
        sum_upto(f, k) > 0,
    ensures
        0 <= w < k,
        f(w) > 0,
    decreases k,
{
    if f(k - 1) > 0 {
        k - 1
    } else {
        lemma_sum_pos(f, k - 1)
    }
}

proof fn lemma_in_count_le(adj: Seq<Seq<usize>>, v: usize, u: int)
    requires
        0 <= u <= adj.len(),
    ensures
        in_count(adj, v, u) <= total_len(adj.take(u)),
    decreases u,
{
    if u > 0 {
        lemma_in_count_le(adj, v, u - 1);
        lemma_total_len_take(adj, u - 1);
        lemma_occ_le_len(adj[u - 1], v);
    } else {
        assert(adj.take(0) =~= Seq::<Seq<usize>>::empty());
    }
}

proof fn lemma_release_push(adj: Seq<Seq<usize>>, order: Seq<usize>, x: usize, j: int, p: int, e: int)
    requires
        release(adj, order, j, p, e),
    ensures
        release(adj, order.push(x), j, p, e),
{
    let o2 = order.push(x);
    assert(o2.take(p) =~= order.take(p));
}

/// Position `q` of a list without repeats lies before `p` exactly when the
/// first `p` entries hold its value.
proof fn lemma_take_contains(order: Seq<usize>, p: int, q: int)
    requires
        order.no_duplicates(),
        0 <= p <= order.len(),
        0 <= q < order.len(),
    ensures
        order.take(p).contains(order[q]) <==> q < p,
{
    if q < p {
        assert(order.take(p)[q] == order[q]);
    }
    if order.take(p).contains(order[q]) {
        let i = choose|i: int| 0 <= i < p && order.take(p)[i] == order[q];
        assert(order[i] == order[q]);
    }
}

/// A node is released at one place only.
pub proof fn lemma_release_unique(
    adj: Seq<Seq<usize>>,
    order: Seq<usize>,
    j: int,
    p1: int,
    e1: int,
    p2: int,
    e2: int,
)
    requires
        distinct_nodes(order, adj.len()),
        rows_ok(adj),
        release(adj, order, j, p1, e1),
        release(adj, order, j, p2, e2),
    ensures
        p1 == p2 && e1 == e2,
{
    let w1 = order[p1] as int;
    let w2 = order[p2] as int;
    assert(adj[w2][e2] == order[j]);
    assert(adj[w1][e1] == order[j]);
    lemma_take_contains(order, p1, p2);
    lemma_take_contains(order, p2, p1);
    assert(order.take(p1).contains(w2 as usize) || (w2 == w1 && e2 <= e1));
    assert(order.take(p2).contains(w1 as usize) || (w1 == w2 && e1 <= e2));
    if p1 != p2 {
        assert(order[p1] != order[p2]);
    }
}

/// The nodes in Kahn order.
pub fn kahn_order(adj: &Vec<Vec<usize>>) -> (order: Vec<usize>)
    requires
        rows_ok(rows_of(adj)),
        total_len(rows_of(adj)) <= usize::MAX,
    ensures
        is_kahn_order(rows_of(adj), order@),
{
    let ghost a = rows_of(adj);
    let n = adj.len();
    let mut in_degree: Vec<usize> = Vec::new();
    let mut i: usize = 0;
    while i < n
        invariant
            i <= n,
            in_degree.len() == i,
            forall|v: int| 0 <= v < i ==> #[trigger] in_degree[v] == 0,
        decreases n - i,
    {
        in_degree.push(0);
        i = i + 1;
    }
    // in-degrees
    let mut u: usize = 0;
    while u < n
        invariant
            n == adj.len(),
            a == rows_of(adj),
            rows_ok(a),
            total_len(a) <= usize::MAX,
            u <= n,
            in_degree.len() == n,
            forall|v: int| 0 <= v < n ==> #[trigger] in_degree[v] == in_count(a, v as usize, u as int),
        decreases n - u,
    {
        let row: &Vec<usize> = &adj[u];
        let mut e: usize = 0;
        proof {
            assert(row@.take(0) =~= Seq::<usize>::empty());
        }
        while e < row.len()
            invariant
                n == adj.len(),
                a == rows_of(adj),
                rows_ok(a),
                total_len(a) <= usize::MAX,
                u < n,
                row@ == a[u as int],
                e <= row@.len(),
                in_degree.len() == n,
                forall|v: int|
                    0 <= v < n ==> #[trigger] in_degree[v] == in_count(a, v as usize, u as int) + occ(
                        row@.take(e as int),
                        v as usize,
                    ),
            decreases row@.len() - e,
        {
            let x = row[e];
            proof {
                assert(a[u as int][e as int] == x);
                lemma_in_count_le(a, x, u as int);
                lemma_occ_le_len(row@.take(e as int), x);
                lemma_total_len_take(a, u as int);
                assert(row@.take(e + 1) =~= row@.take(e as int).push(x));
                assert forall|v: int| 0 <= v < n implies #[trigger] occ(row@.take(e + 1), v as usize) == occ(
                    row@.take(e as int),
                    v as usize,
                ) + (if x == v as usize { 1nat } else { 0nat }) by {
                    lemma_occ_push(row@.take(e as int), x, v as usize);
                }
            }
            let d = in_degree[x];
            in_degree.set(x, d + 1);
            e = e + 1;
        }
        proof {
            assert(row@.take(e as int) =~= row@);
        }
        u = u + 1;
    }
    // nodes without incoming edges
    let mut order: Vec<usize> = Vec::new();
    let ghost mut rel_p: Seq<int> = Seq::empty();
    let ghost mut rel_e: Seq<int> = Seq::empty();
    let mut idx: usize = 0;
    while idx < n
        invariant
            n == adj.len(),
            a == rows_of(adj),
            rows_ok(a),
            idx <= n,
            in_degree.len() == n,
            forall|v: int| 0 <= v < n ==> #[trigger] in_degree[v] == in_count(a, v as usize, n as int),
            distinct_nodes(order@, n as nat),
            forall|v: int| 0 <= v < idx && #[trigger] in_degree[v] == 0 ==> order@.contains(v as usize),
            rel_p.len() == order@.len(),
            rel_e.len() == order@.len(),
            forall|j: int|
                #![trigger rel_p[j]] #![trigger order@[j]]
                0 <= j < order@.len() ==> rel_p[j] == -1 && rel_e[j] == order@[j] as int && order@[j] < idx
                    && in_degree[order@[j] as int] == 0 && is_root(a, order@[j]),
            forall|j: int, k: int| 0 <= j < k < order@.len() ==> #[trigger] order@[j] < #[trigger] order@[k],
        decreases n - idx,
    {
        if in_degree[idx] == 0 {
            let ghost old_order = order@;
            order.push(idx);
            proof {
                assert forall|w: int| 0 <= w < n implies !(#[trigger] a[w]).contains(idx) by {
                    lemma_sum_zero(|w: int| occ(a[w], idx), n as int, w);
                    if a[w].contains(idx) {
                        let f = choose|f: int| 0 <= f < a[w].len() && a[w][f] == idx;
                        lemma_occ_pos(a[w], idx, f);
                    }
                }
                let ghost old_p = rel_p;
                let ghost old_e = rel_e;
                rel_p = rel_p.push(-1);
                rel_e = rel_e.push(idx as int);
                assert forall|j: int| #![trigger rel_p[j]] #![trigger order@[j]] 0 <= j < order@.len() implies rel_p[j] == -1 && rel_e[j]
                    == order@[j] as int && order@[j] < idx + 1 && in_degree[order@[j] as int] == 0 && is_root(
                    a,
                    order@[j],
                ) by {
                    if j < old_order.len() {
                        assert(rel_p[j] == old_p[j] && rel_e[j] == old_e[j] && order@[j] == old_order[j]);
                    }
                }
                assert forall|v: int| 0 <= v < idx + 1 && #[trigger] in_degree[v] == 0 implies order@.contains(
                    v as usize,
                ) by {
                    if v == idx as int {
                        assert(order@[old_order.len() as int] == idx);
                    } else {
                        let j = choose|j: int| 0 <= j < old_order.len() && old_order[j] == v as usize;
                        assert(order@[j] == v as usize);
                    }
                }
                assert(distinct_nodes(order@, n as nat)) by {
                    assert forall|j: int, k: int| 0 <= j < k < order@.len() implies order@[j] != order@[k] by {
                        if k < old_order.len() {
                            assert(old_order[j] != old_order[k]);
                        } else {
                            assert(rel_p[j] == old_p[j]);
                        }
                    }
                }
                assert forall|j: int, k: int| 0 <= j < k < order@.len() implies #[trigger] order@[j]
                    < #[trigger] order@[k] by {
                    if k < old_order.len() {
                        assert(old_order[j] < old_order[k]);
                    } else {
                        assert(rel_p[j] == old_p[j]);
                    }
                }
            }
        }
        idx = idx + 1;
    }
    proof {
        assert forall|v: int| 0 <= v < n implies #[trigger] in_degree[v] == pending(a, order@, 0, 0, v as usize) by {
            assert forall|w: int| 0 <= w < n implies #[trigger] pending_term(a, order@, 0, 0, v as usize, w) == occ(
                a[w],
                v as usize,
            ) by {
                assert(order@.take(0) =~= Seq::<usize>::empty());
                assert(a[w].skip(0) =~= a[w]);
            }
            lemma_sum_ext(
                |w: int| pending_term(a, order@, 0, 0, v as usize, w),
                |w: int| occ(a[w], v as usize),
                n as int,
            );
        }
    }
    // main loop
    let mut head: usize = 0;
    while head < order.len()
        invariant
            n == adj.len(),
            a == rows_of(adj),
            rows_ok(a),
            in_degree.len() == n,
            distinct_nodes(order@, n as nat),
            head <= order@.len(),
            forall|v: int| 0 <= v < n ==> #[trigger] in_degree[v] == pending(a, order@, head as int, 0, v as usize),
            forall|v: int| 0 <= v < n && #[trigger] in_degree[v] == 0 ==> order@.contains(v as usize),
            rel_p.len() == order@.len(),
            rel_e.len() == order@.len(),
            forall|j: int|
                #![trigger rel_p[j]] #![trigger order@[j]]
                0 <= j < order@.len() ==> in_degree[order@[j] as int] == 0 && (rel_p[j] == -1 ==> rel_e[j]
                    == order@[j] as int && is_root(a, order@[j])) && (rel_p[j] != -1 ==> release(
                    a,
                    order@,
                    j,
                    rel_p[j],
                    rel_e[j],
                ) && rel_p[j] < head),
            forall|j: int, k: int|
                0 <= j < k < order@.len() ==> #[trigger] rel_p[j] < #[trigger] rel_p[k] || (rel_p[j]
                    == rel_p[k] && rel_e[j] < rel_e[k]),
        decreases n - head,
    {
        let cur = order[head];
        let row: &Vec<usize> = &adj[cur];
        let mut e: usize = 0;
        while e < row.len()
            invariant
                n == adj.len(),
                a == rows_of(adj),
                rows_ok(a),
                in_degree.len() == n,
                distinct_nodes(order@, n as nat),
                head < order@.len(),
                cur == order@[head as int],
                row@ == a[cur as int],
                e <= row@.len(),
                forall|v: int|
                    0 <= v < n ==> #[trigger] in_degree[v] == pending(a, order@, head as int, e as int, v as usize),
                forall|v: int| 0 <= v < n && #[trigger] in_degree[v] == 0 ==> order@.contains(v as usize),
                rel_p.len() == order@.len(),
                rel_e.len() == order@.len(),
                forall|j: int|
                    #![trigger rel_p[j]] #![trigger order@[j]]
                    0 <= j < order@.len() ==> in_degree[order@[j] as int] == 0 && (rel_p[j] == -1 ==> rel_e[j]
                        == order@[j] as int && is_root(a, order@[j])) && (rel_p[j] != -1 ==> release(
                        a,
                        order@,
                        j,
                        rel_p[j],
                        rel_e[j],
                    ) && (rel_p[j] < head || (rel_p[j] == head && rel_e[j] < e))),
                forall|j: int, k: int|
                    0 <= j < k < order@.len() ==> #[trigger] rel_p[j] < #[trigger] rel_p[k] || (rel_p[j]
                        == rel_p[k] && rel_e[j] < rel_e[k]),
            decreases row@.len() - e,
        {
            let x = row[e];
            let ghost o = order@;
            let ghost h = head as int;
            let ghost old_p = rel_p;
            let ghost old_e = rel_e;
            let ghost old_deg = in_degree@;
            proof {
                assert(a[cur as int][e as int] == x);
                lemma_take_contains(o, h, h);
                // the pending count of every node after taking away this edge
                assert forall|v: int| 0 <= v < n implies pending(a, o, h, e + 1, v as usize) + (if x == v as usize {
                    1nat
                } else {
                    0nat
                }) == #[trigger] in_degree[v] by {
                    let f1 = |w: int| pending_term(a, o, h, e as int, v as usize, w);
                    let f2 = |w: int| pending_term(a, o, h, e + 1, v as usize, w);
                    lemma_occ_skip(a[cur as int], e as int, v as usize);
                    assert forall|w: int| 0 <= w < n && w != cur as int implies #[trigger] f1(w) == f2(w) by {}
                    lemma_sum_update(f1, f2, n as int, cur as int);
                }
                // `x` was not placed yet: an edge into it was still pending
                assert forall|j: int| 0 <= j < o.len() implies o[j] != x by {
                    assert(rel_p[j] == old_p[j]);
                }
            }
            let d = in_degree[x];
            in_degree.set(x, d - 1);
            proof {
                assert forall|j: int| #![trigger rel_p[j]] #![trigger order@[j]] 0 <= j < o.len() implies in_degree[o[j] as int] == 0 by {
                    assert(old_deg[o[j] as int] == 0);
                }
            }
            if d - 1 == 0 {
                order.push(x);
                proof {
                    let j_new = o.len() as int;
                    let f2 = |w: int| pending_term(a, o, h, e + 1, x, w);
                    assert forall|w: int, f: int|
                        0 <= w < a.len() && 0 <= f < a[w].len() && #[trigger] a[w][f] == order@[j_new] implies order@.take(
                            h,
                        ).contains(w as usize) || (w == order@[h] as int && f <= e) by {
                        assert(order@.take(h) =~= o.take(h));
                        lemma_sum_zero(f2, n as int, w);
                        lemma_occ_pos(a[w], x, f);
                        if !o.take(h).contains(w as usize) && w == cur as int {
                            if f > e {
                                lemma_occ_pos(a[w].skip(e + 1), x, f - e - 1);
                            }
                        }
                    }
                    assert(order@[h] == cur);
                    assert(release(a, order@, j_new, h, e as int));
                    rel_p = rel_p.push(h);
                    rel_e = rel_e.push(e as int);
                    assert forall|j: int| #![trigger rel_p[j]] #![trigger order@[j]] 0 <= j < order@.len() implies in_degree[order@[j] as int]
                        == 0 && (rel_p[j] == -1 ==> rel_e[j] == order@[j] as int && is_root(a, order@[j])) && (rel_p[j]
                        != -1 ==> release(a, order@, j, rel_p[j], rel_e[j]) && (rel_p[j] < head || (rel_p[j] == head
                        && rel_e[j] < e + 1))) by {
                        if j < j_new {
                            assert(rel_p[j] == old_p[j] && rel_e[j] == old_e[j]);
                            assert(order@[j] == o[j]);
                            assert(in_degree[o[j] as int] == 0);
                            if old_p[j] != -1 {
                                lemma_release_push(a, o, x, j, old_p[j], old_e[j]);
                            }
                        } else {
                            assert(order@[j] == x);
                        }
                    }
                    assert forall|j: int, k: int| 0 <= j < k < order@.len() implies #[trigger] rel_p[j]
                        < #[trigger] rel_p[k] || (rel_p[j] == rel_p[k] && rel_e[j] < rel_e[k]) by {
                        assert(rel_p[j] == old_p[j] && rel_e[j] == old_e[j]);
                        if k < j_new {
                            assert(rel_p[k] == old_p[k] && rel_e[k] == old_e[k]);
                        }
                    }
                    assert forall|v: int| 0 <= v < n implies #[trigger] in_degree[v] == pending(
                        a,
                        order@,
                        h,
                        e + 1,
                        v as usize,
                    ) by {
                        let g1 = |w: int| pending_term(a, o, h, e + 1, v as usize, w);
                        let g2 = |w: int| pending_term(a, order@, h, e + 1, v as usize, w);
                        assert(order@.take(h) =~= o.take(h));
                        assert forall|w: int| 0 <= w < n implies #[trigger] g1(w) == g2(w) by {}
                        lemma_sum_ext(g1, g2, n as int);
                    }
                    assert forall|v: int| 0 <= v < n && #[trigger] in_degree[v] == 0 implies order@.contains(
                        v as usize,
                    ) by {
                        if v == x as int {
                            assert(order@[j_new] == x);
                        } else {
                            assert(old_deg[v] == 0);
                            let j = choose|j: int| 0 <= j < o.len() && o[j] == v as usize;
                            assert(order@[j] == v as usize);
                        }
                    }
                    assert(distinct_nodes(order@, n as nat)) by {
                        assert forall|j: int, k: int| 0 <= j < k < order@.len() implies order@[j] != order@[k] by {
                            if k < j_new {
                                assert(o[j] != o[k]);
                            } else {
                                assert(o[j] != x);
                            }
                        }
                    }
                }
            } else {
                proof {
                    assert forall|v: int| 0 <= v < n && #[trigger] in_degree[v] == 0 implies order@.contains(
                        v as usize,
                    ) by {
                        assert(old_deg[v] == 0);
                    }
                }
            }
            e = e + 1;
        }
        proof {
            let h = head as int;
            let o = order@;
            lemma_take_contains(o, h + 1, h);
            assert forall|v: int| 0 <= v < n implies #[trigger] in_degree[v] == pending(a, o, h + 1, 0, v as usize) by {
                let g1 = |w: int| pending_term(a, o, h, e as int, v as usize, w);
                let g2 = |w: int| pending_term(a, o, h + 1, 0, v as usize, w);
                assert forall|w: int| 0 <= w < n implies #[trigger] g1(w) == g2(w) by {
                    assert(o.take(h + 1) =~= o.take(h).push(o[h]));
                    if w == cur as int {
                        assert(a[w].skip(e as int) =~= Seq::<usize>::empty());
                        assert(o.take(h + 1).contains(cur));
                    } else {
                        assert(o.take(h + 1).contains(w as usize) <==> o.take(h).contains(w as usize));
                        if h + 1 < o.len() && w == o[h + 1] as int {
                            assert(a[w].skip(0) =~= a[w]);
                            lemma_take_contains(o, h + 1, h + 1);
                        }
                    }
                }
                lemma_sum_ext(g1, g2, n as int);
            }
            lemma_distinct_len(o, n, None);
        }
        head = head + 1;
    }
    proof {
        let o = order@;
        assert forall|j: int| 0 <= j < o.len() implies #[trigger] placed(a, o, j) by {
            assert(rel_p[j] == -1 || release(a, o, j, rel_p[j], rel_e[j]));
        }
        assert forall|j: int, k: int|
            0 <= j < k < o.len() && is_root(a, #[trigger] o[k]) implies is_root(a, #[trigger] o[j]) && o[j] < o[k] by {
            assert(rel_p[j] < rel_p[k] || (rel_p[j] == rel_p[k] && rel_e[j] < rel_e[k]));
            if rel_p[k] != -1 {
                let p = rel_p[k];
                assert(release(a, o, k, p, rel_e[k]));
                assert(a[o[p] as int][rel_e[k]] == o[k]);
                assert(a[o[p] as int].contains(o[k]));
            }
        }
        assert forall|j: int, k: int, p1: int, e1: int, p2: int, e2: int|
            0 <= j < k < o.len() && #[trigger] release(a, o, j, p1, e1) && #[trigger] release(a, o, k, p2, e2) implies p1
                < p2 || (p1 == p2 && e1 < e2) by {
            assert(rel_p[j] < rel_p[k] || (rel_p[j] == rel_p[k] && rel_e[j] < rel_e[k]));
            if rel_p[j] == -1 {
                assert(a[o[p1] as int][e1] == o[j]);
                assert(a[o[p1] as int].contains(o[j]));
            }
            if rel_p[k] == -1 {
                assert(a[o[p2] as int][e2] == o[k]);
                assert(a[o[p2] as int].contains(o[k]));
            }
            lemma_release_unique(a, o, j, p1, e1, rel_p[j], rel_e[j]);
            lemma_release_unique(a, o, k, p2, e2, rel_p[k], rel_e[k]);
        }
        reveal(left_out_fed);
        assert forall|v: usize| v < a.len() && !o.contains(v) implies exists|w: usize|
            w < a.len() && !o.contains(w) && #[trigger] has_edge(a, w, v) by {
            let fp = |w: int| pending_term(a, o, o.len() as int, 0, v, w);
            assert(in_degree[v as int] != 0);
            let w = lemma_sum_pos(fp, n as int);
            assert(o.take(o.len() as int) =~= o);
            assert(!o.contains(w as usize));
            assert(occ(a[w], v) > 0);
            lemma_occ_nonzero_contains(a[w], v);
            assert(has_edge(a, w as usize, v));
        }
    }
    order
}

proof fn lemma_occ_nonzero_contains(s: Seq<usize>, v: usize)
    requires
        occ(s, v) > 0,
    ensures
        s.contains(v),
    decreases s.len(),
{
    if s[0] != v {
        lemma_occ_nonzero_contains(s.drop_first(), v);
        let i = choose|i: int| 0 <= i < s.drop_first().len() && s.drop_first()[i] == v;
        assert(s[i + 1] == v);
    }
}

/// Every edge into a node of a Kahn order leaves a node placed earlier.
pub proof fn lemma_kahn_edges_forward(adj: Seq<Seq<usize>>, order: Seq<usize>, j: int, u: usize)
    requires
        rows_ok(adj),
        is_kahn_order(adj, order),
        0 <= j < order.len(),
        has_edge(adj, u, order[j]),
    ensures
        exists|i: int| 0 <= i < j && order[i] == u,
{
    assert(placed(adj, order, j));
    assert(!is_root(adj, order[j])) by {
        assert(adj[u as int].contains(order[j]));
    }
    let (p, e) = choose|p: int, e: int| release(adj, order, j, p, e);
    let f = choose|f: int| 0 <= f < adj[u as int].len() && adj[u as int][f] == order[j];
    assert(adj[u as int][f] == order[j]);
    if order.take(p).contains(u) {
        let i = choose|i: int| 0 <= i < p && order.take(p)[i] == u;
        assert(order[i] == u);
    } else {
        assert(order[p] == u);
    }
}

/// Position of `v` in `order`.
spec fn position(order: Seq<usize>, v: usize) -> int {
    choose|j: int| 0 <= j < order.len() && order[j] == v
}

/// The nodes left out of a Kahn order lead back, edge by edge against the
/// edge direction, to other nodes left out: `back_chain(k)` is such a chain
/// of `k + 1` nodes starting at `v`.
spec fn back_chain(adj: Seq<Seq<usize>>, order: Seq<usize>, v: usize, k: nat) -> Seq<usize>
    decreases k,
{
    if k == 0 {
        seq![v]
    } else {
        let c = back_chain(adj, order, v, (k - 1) as nat);
        c.push(choose|w: usize| w < adj.len() && !order.contains(w) && has_edge(adj, w, c.last()))
    }
}

proof fn lemma_back_chain(adj: Seq<Seq<usize>>, order: Seq<usize>, v: usize, k: nat)
    requires
        left_out_fed(adj, order),
        v < adj.len(),
        !order.contains(v),
    ensures
        back_chain(adj, order, v, k).len() == k + 1,
        back_chain(adj, order, v, k)[0] == v,
        forall|i: int|
            0 <= i <= k ==> #[trigger] back_chain(adj, order, v, k)[i] < adj.len() && !order.contains(
                back_chain(adj, order, v, k)[i],
            ),
        forall|i: int|
            0 <= i < k ==> has_edge(
                adj,
                #[trigger] back_chain(adj, order, v, k)[i + 1],
                back_chain(adj, order, v, k)[i],
            ),
    decreases k,
{
    reveal(left_out_fed);
    if k > 0 {
        lemma_back_chain(adj, order, v, (k - 1) as nat);
        let c = back_chain(adj, order, v, (k - 1) as nat);
        let last = c.last();
        assert(c[k - 1] == last);
        assert(last < adj.len() && !order.contains(last));
        let w = choose|w: usize| w < adj.len() && !order.contains(w) && has_edge(adj, w, last);
        let c2 = back_chain(adj, order, v, k);
        assert(c2 == c.push(w));
        assert forall|i: int| 0 <= i <= k implies #[trigger] c2[i] < adj.len() && !order.contains(c2[i]) by {
            if i < k {
                assert(c2[i] == c[i]);
            }
        }
        assert forall|i: int| 0 <= i < k implies has_edge(adj, #[trigger] c2[i + 1], c2[i]) by {
            if i + 1 < k {
                assert(c2[i + 1] == c[i + 1] && c2[i] == c[i]);
                assert(has_edge(adj, c[i + 1], c[i]));
            }
        }
    }
}

/// Kahn's algorithm places every node exactly when the graph has no
/// directed cycle.
pub proof fn lemma_kahn_complete_iff_acyclic(adj: Seq<Seq<usize>>, order: Seq<usize>)
    requires
        rows_ok(adj),
        adj.len() <= usize::MAX,
        is_kahn_order(adj, order),
    ensures
        (order.len() == adj.len()) <==> !has_directed_cycle(adj),
{
    if order.len() == adj.len() {
        lemma_complete_order_acyclic(adj, order);
    } else {
        lemma_left_out_cycle(adj, order);
    }
}

proof fn lemma_complete_order_acyclic(adj: Seq<Seq<usize>>, order: Seq<usize>)
    requires
        rows_ok(adj),
        adj.len() <= usize::MAX,
        is_kahn_order(adj, order),
        order.len() == adj.len(),
    ensures
        !has_directed_cycle(adj),
{
    let n = adj.len() as usize;
    assert forall|v: usize| v < n implies order.contains(v) by {
        if !order.contains(v) {
            lemma_distinct_len(order, n, Some(v));
        }
    }
    if has_directed_cycle(adj) {
        let w = choose|w: Seq<usize>| #[trigger] is_walk(adj, w) && w.len() >= 2 && w[0] == w.last();
        lemma_walk_moves_forward(adj, order, w, w.len() - 1);
    }
}

proof fn lemma_left_out_cycle(adj: Seq<Seq<usize>>, order: Seq<usize>)
    requires
        adj.len() <= usize::MAX,
        distinct_nodes(order, adj.len()),
        left_out_fed(adj, order),
        order.len() != adj.len(),
    ensures
        has_directed_cycle(adj),
{
    let n = adj.len() as usize;
    assert(exists|v: usize| v < n && !order.contains(v)) by {
        if forall|v: usize| v < n ==> order.contains(v) {
            lemma_distinct_covering(order, n);
        }
    }
    let v0 = choose|v: usize| v < n && !order.contains(v);
    lemma_back_chain(adj, order, v0, n as nat);
    let c = back_chain(adj, order, v0, n as nat);
    assert(forall|i: int| 0 <= i < c.len() ==> #[trigger] c[i] < n);
    lemma_repeat_in_long_chain(c, n);
    let (lo, hi) = choose|lo: int, hi: int| 0 <= lo < hi < c.len() && c[lo] == c[hi];
    assert(forall|i: int| 0 <= i < c.len() ==> #[trigger] c[i] < adj.len());
    lemma_repeat_gives_cycle(adj, c, lo, hi);
}

proof fn lemma_repeat_in_long_chain(c: Seq<usize>, n: usize)
    requires
        c.len() > n,
        forall|i: int| 0 <= i < c.len() ==> #[trigger] c[i] < n,
    ensures
        exists|lo: int, hi: int| 0 <= lo < hi < c.len() && c[lo] == c[hi],
{
    if c.no_duplicates() {
        lemma_distinct_len(c, n, None);
    }
    let (i, j) = choose|i: int, j: int| 0 <= i < c.len() && 0 <= j < c.len() && i != j && c[i] == c[j];
    if i < j {
        assert(c[i] == c[j]);
    } else {
        assert(c[j] == c[i]);
    }
}

proof fn lemma_repeat_gives_cycle(adj: Seq<Seq<usize>>, c: Seq<usize>, lo: int, hi: int)
    requires
        0 <= lo < hi < c.len(),
        c[lo] == c[hi],
        forall|i: int| 0 <= i < c.len() ==> #[trigger] c[i] < adj.len(),
        forall|i: int| 0 <= i < c.len() - 1 ==> has_edge(adj, #[trigger] c[i + 1], c[i]),
    ensures
        has_directed_cycle(adj),
{
    let w = Seq::new((hi - lo + 1) as nat, |t: int| c[hi - t]);
    assert forall|t: int| 0 <= t < w.len() - 1 implies #[trigger] step_ok(adj, w, t) by {
        let i = hi - t - 1;
        assert(has_edge(adj, c[i + 1], c[i]));
        assert(w[t] == c[i + 1] && w[t + 1] == c[i]);
    }
    assert(has_edge(adj, c[lo + 1], c[lo]));
    assert(is_walk(adj, w));
    assert(w[0] == w.last());
}

/// Along a walk through a complete Kahn order, positions strictly increase.
proof fn lemma_walk_moves_forward(adj: Seq<Seq<usize>>, order: Seq<usize>, w: Seq<usize>, i: int)
    requires
        rows_ok(adj),
        adj.len() <= usize::MAX,
        is_kahn_order(adj, order),
        forall|v: usize| v < adj.len() ==> order.contains(v),
        is_walk(adj, w),
        1 <= i < w.len(),
    ensures
        position(order, w[0]) < position(order, w[i]),
        0 <= position(order, w[i]) < order.len(),
        order[position(order, w[i])] == w[i],
    decreases i,
{
    assert(step_ok(adj, w, i - 1));
    let u = w[i - 1];
    let v = w[i];
    assert(u < adj.len());
    assert(order.contains(u) && order.contains(v));
    let pu = position(order, u);
    let pv = position(order, v);
    lemma_kahn_edges_forward(adj, order, pv, u);
    let q = choose|q: int| 0 <= q < pv && order[q] == u;
    assert(q == pu) by {
        if q != pu {
            assert(order[q] != order[pu]);
        }
    }
    if i > 1 {
        lemma_walk_moves_forward(adj, order, w, i - 1);
    } else {
        assert(w[0] == u);
    }
}

} // verus!
