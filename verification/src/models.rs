//! The topology data model exchanged with the editor front end.
//!
//! Floating-point attributes (layout coordinates, cycle times, failure
//! rates, utilisation, latencies, time steps) are carried by the serving
//! application next to these values; the library keeps every attribute that
//! its logic reads.

use vstd::prelude::*;

verus! {

/// Kind of a process node.
#[derive(Clone, Copy, Debug, PartialEq, Eq, Structural)]
pub enum NodeType {
    Source,
    Assembler,
    Inspector,
    Buffer,
    Sink,
}

/// Run state of a process node.
#[derive(Clone, Copy, Debug, PartialEq, Eq, Structural)]
pub enum NodeStatus {
    Idle,
    Processing,
    Blocked,
    Failed,
}

/// Kind of a connection between two nodes.
#[derive(Clone, Copy, Debug, PartialEq, Eq, Structural)]
pub enum EdgeType {
    MaterialFlow,
    DataFlow,
}

/// Project metadata.
#[derive(Clone, Debug)]
pub struct Project {
    pub name: String,
    pub description: Option<String>,
    pub created_at: Option<String>,
}

/// Integer parameters of a node.
#[derive(Clone, Debug)]
pub struct NodeParameters {
    pub processing_capacity: i32,
}

/// Observed state of a node.
#[derive(Clone, Debug)]
pub struct NodeState {
    pub status: NodeStatus,
}

/// Label, parameters and state of a node.
#[derive(Clone, Debug)]
pub struct NodeData {
    pub label: String,
    pub parameters: NodeParameters,
    pub state: Option<NodeState>,
}

/// A process node.
#[derive(Clone, Debug)]
pub struct Node {
    pub id: String,
    pub node_type: NodeType,
    pub data: NodeData,
}

/// A directed connection from node `source` to node `target` (by node id).
#[derive(Clone, Debug)]
pub struct Edge {
    pub id: String,
    pub source: String,
    pub target: String,
    pub edge_type: EdgeType,
}

/// Simulation settings.
#[derive(Clone, Debug)]
pub struct SimulationConfig {
    pub duration_seconds: i32,
    pub random_seed: Option<i32>,
}

/// A whole topology: nodes, edges and settings.
#[derive(Clone, Debug)]
pub struct Topology {
    pub version: String,
    pub project: Project,
    pub nodes: Vec<Node>,
    pub edges: Vec<Edge>,
    pub simulation_config: Option<SimulationConfig>,
}

impl NodeType {
    /// Name of the kind in the simulation engine's wire format.
    pub fn proto_name(&self) -> (r: &'static str)
        ensures
            r@ == match *self {
                NodeType::Source => "source"@,
                NodeType::Assembler => "assembler"@,
                NodeType::Inspector => "inspector"@,
                NodeType::Buffer => "buffer"@,
                NodeType::Sink => "sink"@,
            },
    {
        match self {
            NodeType::Source => "source",
            NodeType::Assembler => "assembler",
            NodeType::Inspector => "inspector",
            NodeType::Buffer => "buffer",
            NodeType::Sink => "sink",
        }
    }
}

impl NodeStatus {
    /// Name of the state in the simulation engine's wire format.
    pub fn proto_name(&self) -> (r: &'static str)
        ensures
            r@ == match *self {
                NodeStatus::Idle => "idle"@,
                NodeStatus::Processing => "processing"@,
                NodeStatus::Blocked => "blocked"@,
                NodeStatus::Failed => "failed"@,
            },
    {
        match self {
            NodeStatus::Idle => "idle",
            NodeStatus::Processing => "processing",
            NodeStatus::Blocked => "blocked",
            NodeStatus::Failed => "failed",
        }
    }
}

impl EdgeType {
    /// Name of the kind in the simulation engine's wire format.
    pub fn proto_name(&self) -> (r: &'static str)
        ensures
            r@ == match *self {
                EdgeType::MaterialFlow => "materialflow"@,
                EdgeType::DataFlow => "dataflow"@,
            },
    {
        match self {
            EdgeType::MaterialFlow => "materialflow",
            EdgeType::DataFlow => "dataflow",
        }
    }
}

/// The processing capacity a node gets when its description gives none.
pub fn default_capacity() -> (r: i32)
    ensures
        r == 1,
{
    1
}

impl Topology {
    /// The node ids, in node order.
    pub open spec fn node_ids(&self) -> Seq<Seq<char>> {
        Seq::new(self.nodes@.len(), |i: int| self.nodes@[i].id@)
    }

    /// The node labels, in node order.
    pub open spec fn node_labels(&self) -> Seq<Seq<char>> {
        Seq::new(self.nodes@.len(), |i: int| self.nodes@[i].data.label@)
    }

    /// The (source id, target id) of every edge, in edge order.
    pub open spec fn edge_ends(&self) -> Seq<(Seq<char>, Seq<char>)> {
        Seq::new(self.edges@.len(), |k: int| (self.edges@[k].source@, self.edges@[k].target@))
    }
}

} // verus!
