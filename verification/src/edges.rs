//! How a topology's edges become adjacency lists: edge ends are resolved to
//! node indices, and each node gets the targets of its outgoing edges and
//! the sources of its incoming ones, in edge order.

use vstd::prelude::*;
use crate::digraph::rows_ok;

verus! {

/// Index of the last node whose id is `key`, or -1 when no node has it
/// (a later node with the same id takes the place of an earlier one).
pub open spec fn last_index_of(ids: Seq<Seq<char>>, key: Seq<char>) -> int
    decreases ids.len(),
{
    if ids.len() == 0 {
        -1
    } else if ids.last() == key {
        ids.len() - 1
    } else {
        last_index_of(ids.drop_last(), key)
    }
}

/// The edges, as (source index, target index), whose two end ids both name
/// a node; the others are left out.  Edge order is kept.
pub open spec fn resolve_edges(ids: Seq<Seq<char>>, ends: Seq<(Seq<char>, Seq<char>)>) -> Seq<(usize, usize)>
    decreases ends.len(),
{
    if ends.len() == 0 {
        Seq::empty()
    } else {
        let rest = resolve_edges(ids, ends.drop_last());
        let s = last_index_of(ids, ends.last().0);
        let t = last_index_of(ids, ends.last().1);
        if s >= 0 && t >= 0 {
            rest.push((s as usize, t as usize))
        } else {
            rest
        }
    }
}

/// The test "both end ids name a node".
pub open spec fn both_named(ids: Seq<Seq<char>>) -> spec_fn((Seq<char>, Seq<char>)) -> bool {
    |e: (Seq<char>, Seq<char>)| ids.contains(e.0) && ids.contains(e.1)
}

/// Each edge's ends as the indices of the last nodes with those ids.
pub open spec fn end_indices(ids: Seq<Seq<char>>, ends: Seq<(Seq<char>, Seq<char>)>) -> Seq<(usize, usize)> {
    ends.map_values(|e: (Seq<char>, Seq<char>)| (last_index_of(ids, e.0) as usize, last_index_of(ids, e.1) as usize))
}

/// The test "the edge leaves node `i`".
pub open spec fn leaves(i: int) -> spec_fn((usize, usize)) -> bool {
    |p: (usize, usize)| p.0 == i
}

/// The test "the edge enters node `i`".
pub open spec fn enters(i: int) -> spec_fn((usize, usize)) -> bool {
    |p: (usize, usize)| p.1 == i
}

/// The targets of a list of edges, in order.
pub open spec fn second_ends(pairs: Seq<(usize, usize)>) -> Seq<usize> {
    pairs.map_values(|p: (usize, usize)| p.1)
}

/// The sources of a list of edges, in order.
pub open spec fn first_ends(pairs: Seq<(usize, usize)>) -> Seq<usize> {
    pairs.map_values(|p: (usize, usize)| p.0)
}

/// Targets of the edges leaving node `i`, in edge order.
pub open spec fn targets_from(pairs: Seq<(usize, usize)>, i: int) -> Seq<usize>
    decreases pairs.len(),
{
    if pairs.len() == 0 {
        Seq::empty()
    } else if pairs.last().0 == i {
        targets_from(pairs.drop_last(), i).push(pairs.last().1)
    } else {
        targets_from(pairs.drop_last(), i)
    }
}

/// Sources of the edges entering node `i`, in edge order.
pub open spec fn sources_into(pairs: Seq<(usize, usize)>, i: int) -> Seq<usize>
    decreases pairs.len(),
{
    if pairs.len() == 0 {
        Seq::empty()
    } else if pairs.last().1 == i {
        sources_into(pairs.drop_last(), i).push(pairs.last().0)
    } else {
        sources_into(pairs.drop_last(), i)
    }
}

/// Forward adjacency lists of the graph with `n` nodes and edges `pairs`.
pub open spec fn out_rows(pairs: Seq<(usize, usize)>, n: nat) -> Seq<Seq<usize>> {
    Seq::new(n, |i: int| targets_from(pairs, i))
}

/// Backward adjacency lists of the graph with `n` nodes and edges `pairs`.
pub open spec fn in_rows(pairs: Seq<(usize, usize)>, n: nat) -> Seq<Seq<usize>> {
    Seq::new(n, |i: int| sources_into(pairs, i))
}

/// Both ends of every edge are nodes of a graph with `n` nodes.
pub open spec fn pairs_ok(pairs: Seq<(usize, usize)>, n: nat) -> bool {
    forall|k: int| 0 <= k < pairs.len() ==> (#[trigger] pairs[k]).0 < n && pairs[k].1 < n
}

/// The contents of a vector of adjacency vectors.
pub open spec fn rows_of(v: &Vec<Vec<usize>>) -> Seq<Seq<usize>> {
    Seq::new(v.len() as nat, |i: int| v[i]@)
}

/// The contents of a vector of strings.
pub open spec fn strings_of(v: &Vec<String>) -> Seq<Seq<char>> {
    Seq::new(v.len() as nat, |i: int| v[i]@)
}

/// Sum of the lengths of the lists.
pub open spec fn total_len(rows: Seq<Seq<usize>>) -> nat
    decreases rows.len(),
{
    if rows.len() == 0 {
        0
    } else {
        total_len(rows.drop_last()) + rows.last().len()
    }
}

pub proof fn lemma_last_index_of(ids: Seq<Seq<char>>, key: Seq<char>)
    ensures
        -1 <= last_index_of(ids, key) < ids.len(),
        last_index_of(ids, key) >= 0 ==> ids[last_index_of(ids, key)] == key,
        last_index_of(ids, key) >= 0 ==> forall|k: int|
            last_index_of(ids, key) < k < ids.len() ==> ids[k] != key,
        last_index_of(ids, key) == -1 <==> !ids.contains(key),
    decreases ids.len(),
{
    if ids.len() > 0 {
        lemma_last_index_of(ids.drop_last(), key);
        if ids.last() != key {
            let r = last_index_of(ids.drop_last(), key);
            if r >= 0 {
                assert forall|k: int| r < k < ids.len() implies ids[k] != key by {
                    if k < ids.len() - 1 {
                        assert(ids.drop_last()[k] == ids[k]);
                    }
                }
            }
            if ids.contains(key) {
                let k = choose|k: int| 0 <= k < ids.len() && ids[k] == key;
                assert(ids.drop_last()[k] == key);
            }
        }
    }
}

pub proof fn lemma_resolve_edges_ok(ids: Seq<Seq<char>>, ends: Seq<(Seq<char>, Seq<char>)>)
    ensures
        pairs_ok(resolve_edges(ids, ends), ids.len()),
        resolve_edges(ids, ends).len() <= ends.len(),
    decreases ends.len(),
{
    if ends.len() > 0 {
        lemma_resolve_edges_ok(ids, ends.drop_last());
        lemma_last_index_of(ids, ends.last().0);
        lemma_last_index_of(ids, ends.last().1);
    }
}

/// Adding an edge appends its target to the source's forward list and its
/// source to the target's backward list.
pub proof fn lemma_rows_push(pairs: Seq<(usize, usize)>, n: nat, s: usize, t: usize)
    requires
        s < n,
        t < n,
    ensures
        out_rows(pairs.push((s, t)), n) == out_rows(pairs, n).update(
            s as int,
            out_rows(pairs, n)[s as int].push(t),
        ),
        in_rows(pairs.push((s, t)), n) == in_rows(pairs, n).update(
            t as int,
            in_rows(pairs, n)[t as int].push(s),
        ),
{
    let p2 = pairs.push((s, t));
    assert(p2.drop_last() =~= pairs);
    assert(out_rows(p2, n) =~= out_rows(pairs, n).update(s as int, out_rows(pairs, n)[s as int].push(t)));
    assert(in_rows(p2, n) =~= in_rows(pairs, n).update(t as int, in_rows(pairs, n)[t as int].push(s)));
}

pub proof fn lemma_total_len_update_push(rows: Seq<Seq<usize>>, i: int, x: usize)
    requires
        0 <= i < rows.len(),
    ensures
        total_len(rows.update(i, rows[i].push(x))) == total_len(rows) + 1,
    decreases rows.len(),
{
    let r2 = rows.update(i, rows[i].push(x));
    if i == rows.len() - 1 {
        assert(r2.drop_last() =~= rows.drop_last());
    } else {
        lemma_total_len_update_push(rows.drop_last(), i, x);
        assert(r2.drop_last() =~= rows.drop_last().update(i, rows.drop_last()[i].push(x)));
    }
}

/// The forward lists together hold one entry per edge.
pub proof fn lemma_total_len_out_rows(pairs: Seq<(usize, usize)>, n: nat)
    requires
        pairs_ok(pairs, n),
    ensures
        total_len(out_rows(pairs, n)) == pairs.len(),
    decreases pairs.len(),
{
    if pairs.len() == 0 {
        let r = out_rows(pairs, n);
        assert forall|k: nat| k <= n implies total_len(#[trigger] r.take(k as int)) == 0 by {
            lemma_total_len_empty_rows(r, k);
        }
        assert(r.take(n as int) =~= r);
    } else {
        let p = pairs.drop_last();
        assert(pairs_ok(p, n));
        lemma_total_len_out_rows(p, n);
        assert(p.push(pairs.last()) =~= pairs);
        lemma_rows_push(p, n, pairs.last().0, pairs.last().1);
        lemma_total_len_update_push(out_rows(p, n), pairs.last().0 as int, pairs.last().1);
    }
}

proof fn lemma_total_len_empty_rows(r: Seq<Seq<usize>>, k: nat)
    requires
        k <= r.len(),
        forall|i: int| 0 <= i < r.len() ==> (#[trigger] r[i]).len() == 0,
    ensures
        total_len(r.take(k as int)) == 0,
    decreases k,
{
    if k > 0 {
        lemma_total_len_empty_rows(r, (k - 1) as nat);
        assert(r.take(k as int).drop_last() =~= r.take(k - 1));
    }
}

pub proof fn lemma_total_len_take(rows: Seq<Seq<usize>>, k: int)
    requires
        0 <= k < rows.len(),
    ensures
        total_len(rows.take(k + 1)) == total_len(rows.take(k)) + rows[k].len(),
        total_len(rows.take(k + 1)) <= total_len(rows),
    decreases rows.len() - k,
{
    assert(rows.take(k + 1).drop_last() =~= rows.take(k));
    if k + 1 < rows.len() {
        lemma_total_len_take(rows, k + 1);
    } else {
        assert(rows.take(k + 1) =~= rows);
    }
}

/// The adjacency lists built from edges inside the graph are well formed
/// and have one list per node.
pub proof fn lemma_rows_ok(pairs: Seq<(usize, usize)>, n: nat)
    requires
        pairs_ok(pairs, n),
    ensures
        rows_ok(out_rows(pairs, n)),
        rows_ok(in_rows(pairs, n)),
        out_rows(pairs, n).len() == n,
        in_rows(pairs, n).len() == n,
    decreases pairs.len(),
{
    if pairs.len() > 0 {
        let p = pairs.drop_last();
        assert(pairs_ok(p, n));
        lemma_rows_ok(p, n);
        assert(p.push(pairs.last()) =~= pairs);
        lemma_rows_push(p, n, pairs.last().0, pairs.last().1);
    }
}

} // verus!
