use nexus_flow::graph::ProcessGraph;
use nexus_flow::models::{
    Edge, EdgeType, Node, NodeData, NodeParameters, NodeType, Project, Topology,
};

fn node(id: &str, node_type: NodeType, label: &str, capacity: i32) -> Node {
    Node {
        id: id.to_string(),
        node_type,
        data: NodeData {
            label: label.to_string(),
            parameters: NodeParameters { processing_capacity: capacity },
            state: None,
        },
    }
}

fn edge(id: &str, source: &str, target: &str) -> Edge {
    Edge {
        id: id.to_string(),
        source: source.to_string(),
        target: target.to_string(),
        edge_type: EdgeType::MaterialFlow,
    }
}

/// Source -> Assembler -> Inspector -> Sink
fn create_test_topology() -> Topology {
    Topology {
        version: "1.0.0".to_string(),
        project: Project {
            name: "Test".to_string(),
            description: None,
            created_at: None,
        },
        nodes: vec![
            node("src", NodeType::Source, "Source", 10),
            node("asm", NodeType::Assembler, "Assembler", 1),
            node("ins", NodeType::Inspector, "Inspector", 2),
            node("snk", NodeType::Sink, "Sink", 100),
        ],
        edges: vec![
            edge("e1", "src", "asm"),
            edge("e2", "asm", "ins"),
            edge("e3", "ins", "snk"),
        ],
        simulation_config: None,
    }
}

fn topology_of(ids: &[&str], edges: &[(&str, &str)]) -> Topology {
    Topology {
        version: "1.0.0".to_string(),
        project: Project { name: "T".to_string(), description: None, created_at: None },
        nodes: ids.iter().map(|id| node(id, NodeType::Buffer, &id.to_uppercase(), 1)).collect(),
        edges: edges
            .iter()
            .enumerate()
            .map(|(k, (s, t))| edge(&format!("e{}", k), s, t))
            .collect(),
        simulation_config: None,
    }
}

#[test]
fn test_graph_construction() {
    let topo = create_test_topology();
    let graph = ProcessGraph::from_topology(&topo);
    assert_eq!(graph.node_count(), 4);
    assert_eq!(graph.edge_count(), 3);
}

#[test]
fn test_bfs_forward() {
    let topo = create_test_topology();
    let graph = ProcessGraph::from_topology(&topo);
    let result = graph.bfs_forward("src").unwrap();
    assert_eq!(result.visit_count, 4);
    assert_eq!(result.visited_order, vec!["src", "asm", "ins", "snk"]);
}

#[test]
fn test_bfs_backward() {
    let topo = create_test_topology();
    let graph = ProcessGraph::from_topology(&topo);
    let result = graph.bfs_backward("snk").unwrap();
    assert_eq!(result.visit_count, 4);
    assert_eq!(result.visited_order, vec!["snk", "ins", "asm", "src"]);
}

#[test]
fn test_dfs_forward() {
    let topo = create_test_topology();
    let graph = ProcessGraph::from_topology(&topo);
    let result = graph.dfs_forward("src").unwrap();
    assert_eq!(result.visit_count, 4);
    assert_eq!(result.visited_order, vec!["src", "asm", "ins", "snk"]);
}

#[test]
fn test_dependency_chain() {
    let topo = create_test_topology();
    let graph = ProcessGraph::from_topology(&topo);
    let chain = graph.analyze_dependency_chain("asm").unwrap();
    assert_eq!(chain.upstream, vec!["src"]);
    assert_eq!(chain.downstream, vec!["ins", "snk"]);
}

#[test]
fn test_topological_sort() {
    let topo = create_test_topology();
    let graph = ProcessGraph::from_topology(&topo);
    let result = graph.topological_sort();
    assert!(!result.has_cycle);
    assert_eq!(result.order, vec!["src", "asm", "ins", "snk"]);
}

#[test]
fn test_bottleneck_analysis() {
    let topo = create_test_topology();
    let graph = ProcessGraph::from_topology(&topo);
    let bottlenecks = graph.analyze_bottlenecks();

    // the source node scores highest: 3 of 3 other nodes lie downstream
    assert_eq!(bottlenecks[0].node_id, "src");
    assert_eq!(bottlenecks[0].downstream_count, 3);
    let score = bottlenecks[0].downstream_count as f64 / bottlenecks[0].max_downstream as f64;
    assert!((score - 1.0).abs() < f64::EPSILON);

    // nothing lies downstream of the sink: score 0
    let sink = bottlenecks.iter().find(|b| b.node_id == "snk").unwrap();
    assert_eq!(sink.downstream_count, 0);
    let sink_score = sink.downstream_count as f64 / sink.max_downstream as f64;
    assert!((sink_score - 0.0).abs() < f64::EPSILON);
}

#[test]
fn test_invalid_node_returns_none() {
    let topo = create_test_topology();
    let graph = ProcessGraph::from_topology(&topo);
    assert!(graph.bfs_forward("nonexistent").is_none());
    assert!(graph.analyze_dependency_chain("nonexistent").is_none());
}

#[test]
fn unknown_start_gives_none_for_every_traversal() {
    let graph = ProcessGraph::from_topology(&create_test_topology());
    assert!(graph.bfs_backward("zzz").is_none());
    assert!(graph.dfs_forward("zzz").is_none());
    assert!(graph.dfs_backward("zzz").is_none());
}

#[test]
fn bfs_and_dfs_differ_on_a_diamond() {
    let topo = topology_of(&["s", "a", "b", "c"], &[("s", "a"), ("s", "b"), ("a", "c"), ("b", "c")]);
    let graph = ProcessGraph::from_topology(&topo);
    let bfs = graph.bfs_forward("s").unwrap();
    let dfs = graph.dfs_forward("s").unwrap();
    assert_eq!(bfs.visited_order, vec!["s", "a", "b", "c"]);
    assert_eq!(dfs.visited_order, vec!["s", "a", "c", "b"]);
    assert_eq!(bfs.visit_count, dfs.visit_count);
}

#[test]
fn dfs_goes_deep_before_wide() {
    let topo = topology_of(
        &["r", "x", "y", "x1", "x2"],
        &[("r", "x"), ("r", "y"), ("x", "x1"), ("x1", "x2")],
    );
    let graph = ProcessGraph::from_topology(&topo);
    assert_eq!(graph.dfs_forward("r").unwrap().visited_order, vec!["r", "x", "x1", "x2", "y"]);
    assert_eq!(graph.bfs_forward("r").unwrap().visited_order, vec!["r", "x", "y", "x1", "x2"]);
    assert_eq!(graph.dfs_backward("x2").unwrap().visited_order, vec!["x2", "x1", "x", "r"]);
}

#[test]
fn traversals_visit_only_reachable_nodes() {
    let topo = topology_of(&["a", "b", "c", "d"], &[("a", "b"), ("c", "d")]);
    let graph = ProcessGraph::from_topology(&topo);
    let r = graph.bfs_forward("a").unwrap();
    assert_eq!(r.visited_order, vec!["a", "b"]);
    assert_eq!(r.visit_count, 2);
    assert_eq!(graph.bfs_backward("a").unwrap().visited_order, vec!["a"]);
}

#[test]
fn edges_with_unknown_ends_are_left_out() {
    let topo = topology_of(&["a", "b"], &[("a", "b"), ("a", "ghost"), ("ghost", "b")]);
    let graph = ProcessGraph::from_topology(&topo);
    assert_eq!(graph.node_count(), 2);
    assert_eq!(graph.edge_count(), 1);
}

#[test]
fn a_repeated_id_names_its_last_node() {
    // two nodes share the id "a": edges from "a" leave the second one
    let topo = topology_of(&["a", "b", "a", "c"], &[("a", "c")]);
    let graph = ProcessGraph::from_topology(&topo);
    assert_eq!(graph.node_count(), 4);
    let r = graph.bfs_forward("a").unwrap();
    assert_eq!(r.visited_order, vec!["a", "c"]);
    // the first "a" has nothing downstream, the second one has "c"
    let b = graph.analyze_bottlenecks();
    let counts: Vec<(String, usize)> = b.iter().map(|x| (x.node_id.clone(), x.downstream_count)).collect();
    assert_eq!(
        counts,
        vec![("a".to_string(), 1), ("a".to_string(), 1), ("b".to_string(), 0), ("c".to_string(), 0)]
    );
}

#[test]
fn cycle_is_reported_and_its_nodes_left_out() {
    let topo = topology_of(
        &["s", "a", "b", "t", "u"],
        &[("s", "a"), ("a", "b"), ("b", "a"), ("b", "t"), ("s", "u")],
    );
    let graph = ProcessGraph::from_topology(&topo);
    let r = graph.topological_sort();
    assert!(r.has_cycle);
    assert_eq!(r.order, vec!["s", "u"]);
}

#[test]
fn self_loop_is_a_cycle() {
    let topo = topology_of(&["a", "b"], &[("a", "a"), ("b", "a")]);
    let graph = ProcessGraph::from_topology(&topo);
    let r = graph.topological_sort();
    assert!(r.has_cycle);
    assert_eq!(r.order, vec!["b"]);
}

#[test]
fn topological_sort_uses_fifo_queue_order() {
    // roots in index order, then nodes as their last incoming edge is removed
    let topo = topology_of(
        &["d", "c", "b", "a"],
        &[("c", "a"), ("d", "b"), ("b", "a")],
    );
    let graph = ProcessGraph::from_topology(&topo);
    let r = graph.topological_sort();
    assert!(!r.has_cycle);
    assert_eq!(r.order, vec!["d", "c", "b", "a"]);

    let topo2 = topology_of(&["x", "y", "z"], &[("z", "x"), ("z", "y")]);
    let r2 = ProcessGraph::from_topology(&topo2).topological_sort();
    assert_eq!(r2.order, vec!["z", "x", "y"]);
}

#[test]
fn parallel_edges_are_counted_and_sorted() {
    let topo = topology_of(&["a", "b"], &[("a", "b"), ("a", "b")]);
    let graph = ProcessGraph::from_topology(&topo);
    assert_eq!(graph.edge_count(), 2);
    let r = graph.topological_sort();
    assert!(!r.has_cycle);
    assert_eq!(r.order, vec!["a", "b"]);
}

#[test]
fn empty_topology() {
    let topo = topology_of(&[], &[]);
    let graph = ProcessGraph::from_topology(&topo);
    assert_eq!(graph.node_count(), 0);
    assert_eq!(graph.edge_count(), 0);
    let r = graph.topological_sort();
    assert!(!r.has_cycle);
    assert!(r.order.is_empty());
    assert!(graph.analyze_bottlenecks().is_empty());
}

#[test]
fn bottlenecks_need_two_nodes() {
    let topo = topology_of(&["only"], &[]);
    assert!(ProcessGraph::from_topology(&topo).analyze_bottlenecks().is_empty());
}

#[test]
fn bottlenecks_rank_by_count_then_node_order() {
    let topo = topology_of(
        &["p", "q", "r", "s"],
        &[("q", "r"), ("p", "s"), ("r", "s")],
    );
    let graph = ProcessGraph::from_topology(&topo);
    let b = graph.analyze_bottlenecks();
    let ranked: Vec<(&str, usize, usize)> =
        b.iter().map(|x| (x.node_id.as_str(), x.downstream_count, x.max_downstream)).collect();
    assert_eq!(ranked, vec![("q", 2, 3), ("p", 1, 3), ("r", 1, 3), ("s", 0, 3)]);
    assert_eq!(b[0].label, "Q");
}

#[test]
fn dependency_chain_leaves_out_the_node_itself() {
    let topo = topology_of(&["a", "b", "c"], &[("a", "b"), ("b", "c"), ("c", "a")]);
    let graph = ProcessGraph::from_topology(&topo);
    let chain = graph.analyze_dependency_chain("b").unwrap();
    assert_eq!(chain.downstream, vec!["c", "a"]);
    assert_eq!(chain.upstream, vec!["a", "c"]);
}
