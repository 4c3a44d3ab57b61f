//! The process graph: a directed graph over the nodes of a topology with
//! forward and backward adjacency lists, and the analyses run on it.

use vstd::prelude::*;
use crate::models::{Node, Topology};
use crate::digraph::{rows_ok, distinct_nodes, reach_count, has_directed_cycle, has_edge, reachable, lemma_reach_count,
    lemma_distinct_covering, lemma_distinct_len};
use crate::edges::{last_index_of, resolve_edges, out_rows, in_rows, pairs_ok, rows_of, strings_of, total_len,
    lemma_last_index_of, lemma_resolve_edges_ok, lemma_rows_push, lemma_total_len_out_rows,
    lemma_total_len_take, lemma_rows_ok};
use crate::bfs::{is_bfs_order, bfs_order};
use crate::dfs::{dfs_order, dfs_order_exec, lemma_dfs_order};
use crate::laws::{law_without_id_keeps_order, law_downstream_count};
use crate::kahn::{is_kahn_order, kahn_order, lemma_kahn_complete_iff_acyclic, lemma_kahn_edges_forward};

verus! {

/// Node ids in the order a traversal visited them.
#[derive(Clone, Debug)]
pub struct TraversalResult {
    pub visited_order: Vec<String>,
    pub visit_count: usize,
}

/// The nodes upstream of a node (those that reach it) and downstream of it
/// (those it reaches), each in breadth-first order, without the node's id.
#[derive(Clone, Debug)]
pub struct DependencyChain {
    pub upstream: Vec<String>,
    pub downstream: Vec<String>,
}

/// A topological order of the nodes; when the graph has a cycle the nodes
/// on or behind it are missing and `has_cycle` is set.
#[derive(Clone, Debug)]
pub struct TopologicalOrder {
    pub order: Vec<String>,
    pub has_cycle: bool,
}

/// Ranking of one node by how many nodes depend on it.  Its bottleneck
/// score is `downstream_count / max_downstream` (from 0 to 1).
#[derive(Clone, Debug)]
pub struct BottleneckAnalysis {
    pub node_id: String,
    pub label: String,
    /// Number of other nodes reachable from this node.
    pub downstream_count: usize,
    /// Number of nodes minus one: the most nodes that can lie downstream.
    pub max_downstream: usize,
}

/// `perm` lists the indices `0..counts.len()` once each, larger count first
/// and, among equal counts, smaller index first.
pub open spec fn is_ranking(counts: Seq<usize>, perm: Seq<usize>) -> bool {
    &&& perm.len() == counts.len()
    &&& distinct_nodes(perm, counts.len())
    &&& forall|i: int, j: int|
        0 <= i < j < perm.len() ==> counts[#[trigger] perm[i] as int] > counts[#[trigger] perm[j] as int] || (
        counts[perm[i] as int] == counts[perm[j] as int] && perm[i] < perm[j])
}

/// The ids named by a sequence of node indices.
pub open spec fn names_of(ids: Seq<Seq<char>>, order: Seq<usize>) -> Seq<Seq<char>> {
    Seq::new(order.len(), |i: int| ids[order[i] as int])
}

/// The test "differs from `id`".
pub open spec fn differs_from(id: Seq<char>) -> spec_fn(Seq<char>) -> bool {
    |x: Seq<char>| x != id
}

/// `names` without the entries equal to `id`, order kept.
pub open spec fn without_id(names: Seq<Seq<char>>, id: Seq<char>) -> Seq<Seq<char>>
    decreases names.len(),
{
    if names.len() == 0 {
        Seq::empty()
    } else if names.last() == id {
        without_id(names.drop_last(), id)
    } else {
        without_id(names.drop_last(), id).push(names.last())
    }
}

/// A directed graph over the nodes of a topology, with forward (source to
/// target) and backward (target to source) adjacency lists.
#[derive(Clone)]
pub struct ProcessGraph {
    node_ids: Vec<String>,
    labels: Vec<String>,
    adj_forward: Vec<Vec<usize>>,
    adj_backward: Vec<Vec<usize>>,
    pairs: Ghost<Seq<(usize, usize)>>,
}

impl ProcessGraph {
    /// The shape a graph built by `from_topology` has.
    pub closed spec fn wf(&self) -> bool {
        let n = self.node_ids.len() as nat;
        &&& self.labels.len() == n
        &&& pairs_ok(self.pairs@, n)
        &&& self.pairs@.len() <= usize::MAX
        &&& rows_of(&self.adj_forward) == out_rows(self.pairs@, n)
        &&& rows_of(&self.adj_backward) == in_rows(self.pairs@, n)
    }

    /// Node ids, by node index.
    pub closed spec fn ids(&self) -> Seq<Seq<char>> {
        strings_of(&self.node_ids)
    }

    /// Node labels, by node index.
    pub closed spec fn labels(&self) -> Seq<Seq<char>> {
        strings_of(&self.labels)
    }

    /// The edges as (source index, target index), in edge order.
    pub closed spec fn edges(&self) -> Seq<(usize, usize)> {
        self.pairs@
    }

    /// Number of nodes.
    pub open spec fn n(&self) -> nat {
        self.ids().len()
    }

    /// Forward adjacency lists.
    pub open spec fn forward(&self) -> Seq<Seq<usize>> {
        out_rows(self.edges(), self.n())
    }

    /// Backward adjacency lists.
    pub open spec fn backward(&self) -> Seq<Seq<usize>> {
        in_rows(self.edges(), self.n())
    }

    /// Node index that a node id stands for: that of the last node with the id.
    pub open spec fn index_of(&self, id: Seq<char>) -> int {
        last_index_of(self.ids(), id)
    }

    /// The shape every graph has.
    pub proof fn lemma_wf(&self)
        requires
            self.wf(),
        ensures
            self.n() <= usize::MAX,
            self.labels().len() == self.n(),
            pairs_ok(self.edges(), self.n()),
            self.edges().len() <= usize::MAX,
            rows_ok(self.forward()),
            rows_ok(self.backward()),
            self.forward().len() == self.n(),
            self.backward().len() == self.n(),
    {
        lemma_rows_ok(self.edges(), self.n());
    }

    /// Builds the graph of a topology: one graph node per topology node, in
    /// node order, and one edge per topology edge whose source and target
    /// ids both name a node (an id names the last node that has it).
    pub fn from_topology(topology: &Topology) -> (g: Self)
        ensures
            g.wf(),
            g.ids() == topology.node_ids(),
            g.labels() == topology.node_labels(),
            g.edges() == resolve_edges(topology.node_ids(), topology.edge_ends()),
    {
        let ghost ids = topology.node_ids();
        let ghost ends = topology.edge_ends();
        let n = topology.nodes.len();
        let mut node_ids: Vec<String> = Vec::new();
        let mut labels: Vec<String> = Vec::new();
        let mut adj_forward: Vec<Vec<usize>> = Vec::new();
        let mut adj_backward: Vec<Vec<usize>> = Vec::new();
        let mut i: usize = 0;
        while i < n
            invariant
                n == topology.nodes.len(),
                i <= n,
                node_ids.len() == i,
                labels.len() == i,
                adj_forward.len() == i,
                adj_backward.len() == i,
                forall|j: int| 0 <= j < i ==> (#[trigger] node_ids[j])@ == topology.nodes@[j].id@,
                forall|j: int| 0 <= j < i ==> (#[trigger] labels[j])@ == topology.nodes@[j].data.label@,
                forall|j: int| 0 <= j < i ==> (#[trigger] adj_forward[j])@ == Seq::<usize>::empty(),
                forall|j: int| 0 <= j < i ==> (#[trigger] adj_backward[j])@ == Seq::<usize>::empty(),
            decreases n - i,
        {
            let node: &Node = &topology.nodes[i];
            node_ids.push(node.id.clone());
            labels.push(node.data.label.clone());
            adj_forward.push(Vec::new());
            adj_backward.push(Vec::new());
            i = i + 1;
        }
        assert(strings_of(&node_ids) =~= ids);
        assert(strings_of(&labels) =~= topology.node_labels());
        assert(rows_of(&adj_forward) =~= out_rows(Seq::empty(), n as nat));
        assert(rows_of(&adj_backward) =~= in_rows(Seq::empty(), n as nat));

        let ghost mut pairs: Seq<(usize, usize)> = Seq::empty();
        let m = topology.edges.len();
        let mut k: usize = 0;
        while k < m
            invariant
                m == topology.edges.len(),
                n == node_ids.len(),
                n == adj_forward.len(),
                n == adj_backward.len(),
                ids == strings_of(&node_ids),
                ends == topology.edge_ends(),
                k <= m,
                pairs == resolve_edges(ids, ends.take(k as int)),
                rows_of(&adj_forward) == out_rows(pairs, n as nat),
                rows_of(&adj_backward) == in_rows(pairs, n as nat),
            decreases m - k,
        {
            proof {
                assert(ends.take(k + 1).drop_last() =~= ends.take(k as int));
                lemma_resolve_edges_ok(ids, ends.take(k as int));
            }
            let src = find_last(&node_ids, &topology.edges[k].source);
            let tgt = find_last(&node_ids, &topology.edges[k].target);
            match (src, tgt) {
                (Some(s), Some(t)) => {
                    let mut row: Vec<usize> = Vec::new();
                    adj_forward.set_and_swap(s, &mut row);
                    row.push(t);
                    adj_forward.set_and_swap(s, &mut row);
                    let mut row2: Vec<usize> = Vec::new();
                    adj_backward.set_and_swap(t, &mut row2);
                    row2.push(s);
                    adj_backward.set_and_swap(t, &mut row2);
                    proof {
                        lemma_rows_push(pairs, n as nat, s, t);
                        pairs = pairs.push((s, t));
                        assert(rows_of(&adj_forward) =~= out_rows(pairs, n as nat));
                        assert(rows_of(&adj_backward) =~= in_rows(pairs, n as nat));
                    }
                },
                _ => {},
            }
            k = k + 1;
        }
        proof {
            assert(ends.take(m as int) =~= ends);
            lemma_resolve_edges_ok(ids, ends);
        }
        ProcessGraph {
            node_ids,
            labels,
            adj_forward,
            adj_backward,
            pairs: Ghost(pairs),
        }
    }

    /// Number of nodes.
    pub fn node_count(&self) -> (r: usize)
        requires
            self.wf(),
        ensures
            r == self.n(),
    {
        self.node_ids.len()
    }

    /// Number of edges: the sum of the forward list lengths.
    pub fn edge_count(&self) -> (r: usize)
        requires
            self.wf(),
        ensures
            r == total_len(self.forward()),
            r == self.edges().len(),
    {
        proof {
            lemma_total_len_out_rows(self.edges(), self.n());
        }
        let ghost rows = rows_of(&self.adj_forward);
        let mut sum: usize = 0;
        let mut i: usize = 0;
        while i < self.adj_forward.len()
            invariant
                rows == rows_of(&self.adj_forward),
                i <= rows.len(),
                sum == total_len(rows.take(i as int)),
                total_len(rows) <= usize::MAX,
            decreases rows.len() - i,
        {
            proof {
                lemma_total_len_take(rows, i as int);
            }
            sum = sum + self.adj_forward[i].len();
            i = i + 1;
        }
        proof {
            assert(rows.take(i as int) =~= rows);
        }
        sum
    }
}

impl ProcessGraph {
    proof fn lemma_adj(&self)
        requires
            self.wf(),
        ensures
            rows_of(&self.adj_forward) == self.forward(),
            rows_of(&self.adj_backward) == self.backward(),
            rows_ok(self.forward()),
            rows_ok(self.backward()),
            self.adj_forward.len() == self.n(),
            self.adj_backward.len() == self.n(),
            self.node_ids.len() == self.n(),
            self.labels.len() == self.n(),
            total_len(self.forward()) <= usize::MAX,
            strings_of(&self.node_ids) == self.ids(),
            strings_of(&self.labels) == self.labels(),
    {
        lemma_rows_ok(self.edges(), self.n());
        lemma_total_len_out_rows(self.edges(), self.n());
        assert(rows_of(&self.adj_forward).len() == self.adj_forward.len());
        assert(rows_of(&self.adj_backward).len() == self.adj_backward.len());
    }

    /// Index of the node that `id` names, if any.
    fn lookup(&self, id: &str) -> (r: Option<usize>)
        requires
            self.wf(),
        ensures
            r is None <==> !self.ids().contains(id@),
            r matches Some(i) ==> i as int == self.index_of(id@) && i < self.n(),
    {
        proof {
            self.lemma_adj();
            lemma_last_index_of(self.ids(), id@);
        }
        let key: String = id.to_owned();
        find_last(&self.node_ids, &key)
    }

    /// The ids of the nodes at the given indices.
    fn names(&self, order: &Vec<usize>) -> (r: Vec<String>)
        requires
            self.wf(),
            forall|i: int| 0 <= i < order.len() ==> #[trigger] order[i] < self.n(),
        ensures
            strings_of(&r) == names_of(self.ids(), order@),
    {
        proof {
            self.lemma_adj();
        }
        let mut r: Vec<String> = Vec::new();
        let mut i: usize = 0;
        while i < order.len()
            invariant
                self.wf(),
                strings_of(&self.node_ids) == self.ids(),
                self.node_ids.len() == self.n(),
                forall|j: int| 0 <= j < order.len() ==> #[trigger] order[j] < self.n(),
                i <= order.len(),
                r.len() == i,
                forall|j: int| 0 <= j < i ==> (#[trigger] r[j])@ == self.ids()[order[j] as int],
            decreases order.len() - i,
        {
            let k = order[i];
            r.push(self.node_ids[k].clone());
            i = i + 1;
        }
        proof {
            assert(strings_of(&r) =~= names_of(self.ids(), order@));
        }
        r
    }

    /// Breadth-first traversal along the edges from the node `start_node_id`
    /// names; `None` when no node has that id.
    pub fn bfs_forward(&self, start_node_id: &str) -> (r: Option<TraversalResult>)
        requires
            self.wf(),
        ensures
            r is None <==> !self.ids().contains(start_node_id@),
            r matches Some(t) ==> exists|o: Seq<usize>|
                is_bfs_order(self.forward(), self.index_of(start_node_id@) as usize, o) && strings_of(
                    &t.visited_order,
                ) == names_of(self.ids(), o) && t.visit_count == o.len(),
    {
        proof {
            self.lemma_adj();
        }
        match self.lookup(start_node_id) {
            None => None,
            Some(start) => {
                let order = bfs_order(&self.adj_forward, start);
                let visited_order = self.names(&order);
                Some(TraversalResult { visit_count: order.len(), visited_order })
            },
        }
    }

    /// Breadth-first traversal against the edges (towards the nodes that
    /// feed the node `start_node_id` names); `None` when no node has that id.
    pub fn bfs_backward(&self, start_node_id: &str) -> (r: Option<TraversalResult>)
        requires
            self.wf(),
        ensures
            r is None <==> !self.ids().contains(start_node_id@),
            r matches Some(t) ==> exists|o: Seq<usize>|
                is_bfs_order(self.backward(), self.index_of(start_node_id@) as usize, o) && strings_of(
                    &t.visited_order,
                ) == names_of(self.ids(), o) && t.visit_count == o.len(),
    {
        proof {
            self.lemma_adj();
        }
        match self.lookup(start_node_id) {
            None => None,
            Some(start) => {
                let order = bfs_order(&self.adj_backward, start);
                let visited_order = self.names(&order);
                Some(TraversalResult { visit_count: order.len(), visited_order })
            },
        }
    }

    /// Depth-first preorder traversal along the edges from the node
    /// `start_node_id` names; `None` when no node has that id.
    pub fn dfs_forward(&self, start_node_id: &str) -> (r: Option<TraversalResult>)
        requires
            self.wf(),
        ensures
            r is None <==> !self.ids().contains(start_node_id@),
            r matches Some(t) ==> strings_of(&t.visited_order) == names_of(
                self.ids(),
                dfs_order(self.forward(), self.index_of(start_node_id@) as usize),
            ) && t.visit_count == dfs_order(self.forward(), self.index_of(start_node_id@) as usize).len(),
    {
        proof {
            self.lemma_adj();
        }
        match self.lookup(start_node_id) {
            None => None,
            Some(start) => {
                let order = dfs_order_exec(&self.adj_forward, start);
                proof {
                    lemma_dfs_order(self.forward(), start);
                }
                let visited_order = self.names(&order);
                Some(TraversalResult { visit_count: order.len(), visited_order })
            },
        }
    }

    /// Depth-first preorder traversal against the edges from the node
    /// `start_node_id` names; `None` when no node has that id.
    pub fn dfs_backward(&self, start_node_id: &str) -> (r: Option<TraversalResult>)
        requires
            self.wf(),
        ensures
            r is None <==> !self.ids().contains(start_node_id@),
            r matches Some(t) ==> strings_of(&t.visited_order) == names_of(
                self.ids(),
                dfs_order(self.backward(), self.index_of(start_node_id@) as usize),
            ) && t.visit_count == dfs_order(self.backward(), self.index_of(start_node_id@) as usize).len(),
    {
        proof {
            self.lemma_adj();
        }
        match self.lookup(start_node_id) {
            None => None,
            Some(start) => {
                let order = dfs_order_exec(&self.adj_backward, start);
                proof {
                    lemma_dfs_order(self.backward(), start);
                }
                let visited_order = self.names(&order);
                Some(TraversalResult { visit_count: order.len(), visited_order })
            },
        }
    }

    /// Upstream and downstream nodes of the node `node_id` names: the
    /// backward and forward breadth-first orders from it, without the
    /// entries whose id is `node_id`; `None` when no node has that id.
    pub fn analyze_dependency_chain(&self, node_id: &str) -> (r: Option<DependencyChain>)
        requires
            self.wf(),
        ensures
            r is None <==> !self.ids().contains(node_id@),
            r matches Some(c) ==> exists|up: Seq<usize>, down: Seq<usize>|
                is_bfs_order(self.backward(), self.index_of(node_id@) as usize, up) && is_bfs_order(
                    self.forward(),
                    self.index_of(node_id@) as usize,
                    down,
                ) && strings_of(&c.upstream) == without_id(names_of(self.ids(), up), node_id@) && strings_of(
                    &c.downstream,
                ) == without_id(names_of(self.ids(), down), node_id@)
                && strings_of(&c.upstream) == names_of(self.ids(), up).filter(differs_from(node_id@))
                && strings_of(&c.downstream) == names_of(self.ids(), down).filter(differs_from(node_id@)),
    {
        let up = self.bfs_backward(node_id);
        match up {
            None => None,
            Some(up) => {
                let down = self.bfs_forward(node_id);
                match down {
                    None => None,
                    Some(down) => {
                        let key: String = node_id.to_owned();
                        let upstream = drop_matching(&up.visited_order, &key);
                        let downstream = drop_matching(&down.visited_order, &key);
                        proof {
                            let ou = choose|o: Seq<usize>|
                                is_bfs_order(self.backward(), self.index_of(node_id@) as usize, o) && strings_of(
                                    &up.visited_order,
                                ) == names_of(self.ids(), o) && up.visit_count == o.len();
                            let od = choose|o: Seq<usize>|
                                is_bfs_order(self.forward(), self.index_of(node_id@) as usize, o) && strings_of(
                                    &down.visited_order,
                                ) == names_of(self.ids(), o) && down.visit_count == o.len();
                            law_without_id_keeps_order(names_of(self.ids(), ou), node_id@);
                            law_without_id_keeps_order(names_of(self.ids(), od), node_id@);
                        }
                        Some(DependencyChain { upstream, downstream })
                    },
                }
            },
        }
    }

    /// Kahn's topological sort along the edges; `has_cycle` is set when
    /// some node could not be placed.
    pub fn topological_sort(&self) -> (r: TopologicalOrder)
        requires
            self.wf(),
        ensures
            r.has_cycle == has_directed_cycle(self.forward()),
            exists|o: Seq<usize>|
                {
                    &&& is_kahn_order(self.forward(), o)
                    &&& strings_of(&r.order) == names_of(self.ids(), o)
                    &&& r.has_cycle == (o.len() != self.n())
                    &&& forall|j: int, u: usize|
                        0 <= j < o.len() && #[trigger] has_edge(self.forward(), u, o[j]) ==> exists|i: int|
                            0 <= i < j && o[i] == u
                },
    {
        proof {
            self.lemma_adj();
        }
        let order = kahn_order(&self.adj_forward);
        proof {
            lemma_kahn_complete_iff_acyclic(self.forward(), order@);
            assert forall|j: int, u: usize|
                0 <= j < order@.len() && #[trigger] has_edge(self.forward(), u, order@[j]) implies exists|i: int|
                    0 <= i < j && order@[i] == u by {
                lemma_kahn_edges_forward(self.forward(), order@, j, u);
            }
        }
        let names = self.names(&order);
        let has_cycle = order.len() != self.node_ids.len();
        TopologicalOrder { order: names, has_cycle }
    }
}

impl ProcessGraph {
    /// Number of nodes downstream of node `k`: the nodes reachable from the
    /// node its id names, that node left out.
    pub open spec fn downstream_of(&self, k: int) -> int {
        reach_count(self.forward(), self.index_of(self.ids()[k]) as usize) - 1
    }

    /// `downstream_of` for every node, by node index.
    pub open spec fn downstream_counts(&self) -> Seq<usize> {
        Seq::new(self.n(), |k: int| self.downstream_of(k) as usize)
    }

    /// Ranks every node by the number of nodes downstream of it, most
    /// first, ties in node order; no ranking for a graph of fewer than two
    /// nodes.
    pub fn analyze_bottlenecks(&self) -> (r: Vec<BottleneckAnalysis>)
        requires
            self.wf(),
        ensures
            self.n() <= 1 ==> r.len() == 0,
            self.n() > 1 ==> exists|perm: Seq<usize>|
                is_ranking(self.downstream_counts(), perm) && r.len() == self.n() && forall|i: int|
                    0 <= i < r.len() ==> {
                        let k = #[trigger] perm[i] as int;
                        &&& r[i].node_id@ == self.ids()[k]
                        &&& r[i].label@ == self.labels()[k]
                        &&& r[i].downstream_count == self.downstream_of(k)
                        &&& r[i].max_downstream == self.n() - 1
                    },
            forall|i: int| 0 <= i < r.len() ==> #[trigger] r[i].downstream_count <= r[i].max_downstream,
            forall|i: int|
                0 <= i < r.len() ==> #[trigger] r[i].downstream_count == Set::new(
                    |t: usize|
                        reachable(self.forward(), self.index_of(r[i].node_id@) as usize, t) && t != self.index_of(
                            r[i].node_id@,
                        ) as usize,
                ).len(),
    {
        proof {
            self.lemma_adj();
        }
        let total = self.node_ids.len();
        if total <= 1 {
            return Vec::new();
        }
        let mut counts: Vec<usize> = Vec::new();
        let mut k: usize = 0;
        while k < total
            invariant
                self.wf(),
                total == self.n(),
                total == self.node_ids.len(),
                rows_of(&self.adj_forward) == self.forward(),
                rows_ok(self.forward()),
                self.adj_forward.len() == total,
                strings_of(&self.node_ids) == self.ids(),
                k <= total,
                counts.len() == k,
                forall|j: int| 0 <= j < k ==> #[trigger] counts[j] as int == self.downstream_of(j) && counts[j] < total,
            decreases total - k,
        {
            let found = find_last(&self.node_ids, &self.node_ids[k]);
            proof {
                lemma_last_index_of(self.ids(), self.ids()[k as int]);
                assert(self.ids()[k as int] == self.node_ids[k as int]@);
                assert(self.ids().contains(self.ids()[k as int]));
            }
            let c: usize = match found {
                Some(idx) => {
                    let o = bfs_order(&self.adj_forward, idx);
                    proof {
                        lemma_reach_count(self.forward(), idx, o@);
                        lemma_distinct_len(o@, total, None);
                    }
                    o.len() - 1
                },
                None => 0,
            };
            counts.push(c);
            k = k + 1;
        }
        let perm = rank_by_count(&counts);
        proof {
            assert(counts@ =~= self.downstream_counts());
        }
        let mut r: Vec<BottleneckAnalysis> = Vec::new();
        let mut i: usize = 0;
        while i < total
            invariant
                self.wf(),
                total == self.n(),
                total > 1,
                total == self.node_ids.len(),
                total == self.labels.len(),
                strings_of(&self.node_ids) == self.ids(),
                strings_of(&self.labels) == self.labels(),
                counts@ == self.downstream_counts(),
                counts.len() == total,
                forall|j: int| 0 <= j < total ==> #[trigger] counts[j] as int == self.downstream_of(j) && counts[j] < total,
                is_ranking(counts@, perm@),
                i <= total,
                r.len() == i,
                forall|j: int|
                    0 <= j < i ==> {
                        let k = #[trigger] perm@[j] as int;
                        &&& r[j].node_id@ == self.ids()[k]
                        &&& r[j].label@ == self.labels()[k]
                        &&& r[j].downstream_count == self.downstream_of(k)
                        &&& r[j].max_downstream == self.n() - 1
                    },
                forall|j: int| 0 <= j < i ==> #[trigger] r[j].downstream_count <= r[j].max_downstream,
                forall|j: int|
                    0 <= j < i ==> #[trigger] r[j].downstream_count == Set::new(
                        |t: usize|
                            reachable(self.forward(), self.index_of(r[j].node_id@) as usize, t) && t
                                != self.index_of(r[j].node_id@) as usize,
                    ).len(),
            decreases total - i,
        {
            let k = perm[i];
            proof {
                assert(perm@[i as int] < total);
            }
            r.push(
                BottleneckAnalysis {
                    node_id: self.node_ids[k].clone(),
                    label: self.labels[k].clone(),
                    downstream_count: counts[k],
                    max_downstream: total - 1,
                },
            );
            proof {
                assert(self.ids()[k as int] == self.node_ids[k as int]@);
                assert(self.labels()[k as int] == self.labels[k as int]@);
                law_downstream_count(self, k as int);
            }
            i = i + 1;
        }
        r
    }
}

/// The indices `0..counts.len()` ranked by count, largest first, ties by
/// smaller index first.
fn rank_by_count(counts: &Vec<usize>) -> (perm: Vec<usize>)
    requires
        forall|k: int| 0 <= k < counts.len() ==> #[trigger] counts[k] < counts.len(),
    ensures
        is_ranking(counts@, perm@),
{
    let n = counts.len();
    let mut perm: Vec<usize> = Vec::new();
    let mut c: usize = n;
    while c > 0
        invariant
            n == counts.len(),
            forall|k: int| 0 <= k < n ==> #[trigger] counts[k] < n,
            c <= n,
            distinct_nodes(perm@, n as nat),
            forall|i: int| 0 <= i < perm.len() ==> counts[#[trigger] perm[i] as int] >= c,
            forall|k: int| 0 <= k < n && #[trigger] counts[k] >= c ==> perm@.contains(k as usize),
            forall|i: int, j: int|
                0 <= i < j < perm.len() ==> counts[#[trigger] perm[i] as int] > counts[#[trigger] perm[j] as int] || (
                counts[perm[i] as int] == counts[perm[j] as int] && perm[i] < perm[j]),
        decreases c,
    {
        let target = c - 1;
        let mut k: usize = 0;
        while k < n
            invariant
                n == counts.len(),
                forall|k: int| 0 <= k < n ==> #[trigger] counts[k] < n,
                target < n,
                k <= n,
                distinct_nodes(perm@, n as nat),
                forall|i: int| 0 <= i < perm.len() ==> counts[#[trigger] perm[i] as int] >= target,
                forall|i: int| 0 <= i < perm.len() && counts[#[trigger] perm[i] as int] == target ==> perm[i] < k,
                forall|q: int| 0 <= q < n && #[trigger] counts[q] > target ==> perm@.contains(q as usize),
                forall|q: int| 0 <= q < k && #[trigger] counts[q] == target ==> perm@.contains(q as usize),
                forall|i: int, j: int|
                    0 <= i < j < perm.len() ==> counts[#[trigger] perm[i] as int] > counts[#[trigger] perm[j] as int]
                        || (counts[perm[i] as int] == counts[perm[j] as int] && perm[i] < perm[j]),
            decreases n - k,
        {
            if counts[k] == target {
                let ghost old_perm = perm@;
                perm.push(k);
                proof {
                    assert(perm@[old_perm.len() as int] == k);
                    assert forall|x: usize| old_perm.contains(x) implies perm@.contains(x) by {
                        let i = choose|i: int| 0 <= i < old_perm.len() && old_perm[i] == x;
                        assert(perm@[i] == x);
                    }
                    assert(!old_perm.contains(k)) by {
                        if old_perm.contains(k) {
                            let i = choose|i: int| 0 <= i < old_perm.len() && old_perm[i] == k;
                            assert(perm@[i] == old_perm[i]);
                        }
                    }
                    assert(distinct_nodes(perm@, n as nat)) by {
                        assert forall|i: int, j: int| 0 <= i < j < perm@.len() implies perm@[i] != perm@[j] by {
                            if j < old_perm.len() {
                                assert(old_perm[i] != old_perm[j]);
                            } else {
                                assert(old_perm.contains(old_perm[i]));
                            }
                        }
                    }
                    assert forall|i: int, j: int| 0 <= i < j < perm.len() implies counts[#[trigger] perm[i] as int]
                        > counts[#[trigger] perm[j] as int] || (counts[perm[i] as int] == counts[perm[j] as int]
                        && perm[i] < perm[j]) by {
                        assert(perm@[i] == old_perm[i]);
                        if j < old_perm.len() {
                            assert(perm@[j] == old_perm[j]);
                        }
                    }
                }
            }
            k = k + 1;
        }
        c = c - 1;
    }
    proof {
        assert forall|v: usize| v < n implies perm@.contains(v) by {
            assert(counts[v as int] >= 0);
        }
        lemma_distinct_covering(perm@, n);
    }
    perm
}

/// The strings of `v` other than `key`, order kept.
fn drop_matching(v: &Vec<String>, key: &String) -> (r: Vec<String>)
    ensures
        strings_of(&r) == without_id(strings_of(v), key@),
{
    let ghost all = strings_of(v);
    let mut r: Vec<String> = Vec::new();
    let mut i: usize = 0;
    proof {
        assert(strings_of(&r) =~= without_id(all.take(0), key@));
    }
    while i < v.len()
        invariant
            all == strings_of(v),
            i <= v.len(),
            strings_of(&r) == without_id(all.take(i as int), key@),
        decreases v.len() - i,
    {
        proof {
            assert(all.take(i + 1).drop_last() =~= all.take(i as int));
        }
        if v[i] != *key {
            r.push(v[i].clone());
            proof {
                assert(strings_of(&r) =~= without_id(all.take(i as int), key@).push(all[i as int]));
            }
        }
        i = i + 1;
    }
    proof {
        assert(all.take(v.len() as int) =~= all);
    }
    r
}

/// Index of the last id in `ids` equal to `key`.
fn find_last(ids: &Vec<String>, key: &String) -> (r: Option<usize>)
    ensures
        match r {
            Some(i) => i < ids.len() && i as int == last_index_of(strings_of(ids), key@),
            None => last_index_of(strings_of(ids), key@) == -1,
        },
{
    let ghost all = strings_of(ids);
    proof {
        assert(all.take(ids.len() as int) =~= all);
    }
    let mut i: usize = ids.len();
    while i > 0
        invariant
            i <= ids.len(),
            all == strings_of(ids),
            last_index_of(all, key@) == last_index_of(all.take(i as int), key@),
        decreases i,
    {
        proof {
            assert(all.take(i as int).drop_last() =~= all.take(i - 1));
        }
        if ids[i - 1] == *key {
            return Some(i - 1);
        }
        i = i - 1;
    }
    None
}

} // verus!
