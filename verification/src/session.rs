//! What the server decides for each request of an editor session: the
//! replies it sends and the changes it makes to the synchronised topology.

use vstd::prelude::*;
use crate::models::Topology;
use crate::messages::{SyncAck, ParameterUpdateAck, ErrorPayload, node_not_found_error, no_topology_error};

verus! {

/// A node parameter that a request may change.
#[derive(Clone, Copy, Debug, PartialEq, Eq, Structural)]
pub enum ParameterKind {
    CycleTime,
    FailureRate,
    ProcessingCapacity,
}

/// The parameter a name stands for, if any.
pub open spec fn spec_parameter_kind(name: Seq<char>) -> Option<ParameterKind> {
    if name == "cycle_time"@ {
        Some(ParameterKind::CycleTime)
    } else if name == "failure_rate"@ {
        Some(ParameterKind::FailureRate)
    } else if name == "processing_capacity"@ {
        Some(ParameterKind::ProcessingCapacity)
    } else {
        None
    }
}

/// Index of the first node with id `key`, or -1.
pub open spec fn first_index_of(ids: Seq<Seq<char>>, key: Seq<char>) -> int
    decreases ids.len(),
{
    if ids.len() == 0 {
        -1
    } else if ids[0] == key {
        0
    } else {
        let r = first_index_of(ids.drop_first(), key);
        if r < 0 {
            -1
        } else {
            r + 1
        }
    }
}

/// The first node with an id: there is one exactly when some node has the
/// id, it has the id, and no node before it has the id.
pub proof fn law_first_index_of(ids: Seq<Seq<char>>, key: Seq<char>)
    ensures
        first_index_of(ids, key) >= 0 <==> ids.contains(key),
        first_index_of(ids, key) >= 0 ==> first_index_of(ids, key) < ids.len() && ids[first_index_of(ids, key)]
            == key,
        forall|j: int| 0 <= j < first_index_of(ids, key) ==> ids[j] != key,
        first_index_of(ids, key) >= -1,
    decreases ids.len(),
{
    if ids.len() > 0 && ids[0] != key {
        let rest = ids.drop_first();
        law_first_index_of(rest, key);
        let r = first_index_of(rest, key);
        if ids.contains(key) {
            let i = choose|i: int| 0 <= i < ids.len() && ids[i] == key;
            assert(rest[i - 1] == key);
        }
        if rest.contains(key) {
            let i = choose|i: int| 0 <= i < rest.len() && rest[i] == key;
            assert(ids[i + 1] == key);
        }
        assert forall|j: int| 0 <= j < first_index_of(ids, key) implies ids[j] != key by {
            if j > 0 {
                assert(ids[j] == rest[j - 1]);
            }
        }
    } else if ids.len() > 0 {
        assert(ids[0] == key);
    }
}

/// What to do about a parameter change.
#[derive(Clone, Debug)]
pub enum ParameterOutcome {
    /// Set parameter `param` of node `node_index` and send `ack` (accepted).
    Apply { node_index: usize, param: ParameterKind, ack: ParameterUpdateAck },
    /// The node exists but the name is no parameter: change nothing and send
    /// `ack` (not accepted).
    Unknown(ParameterUpdateAck),
    /// Send this error.
    Rejected(ErrorPayload),
}

/// The parameter a name stands for, if any.
pub fn parameter_kind(name: &str) -> (r: Option<ParameterKind>)
    ensures
        r == spec_parameter_kind(name@),
{
    let n: String = name.to_owned();
    if n == "cycle_time".to_owned() {
        Some(ParameterKind::CycleTime)
    } else if n == "failure_rate".to_owned() {
        Some(ParameterKind::FailureRate)
    } else if n == "processing_capacity".to_owned() {
        Some(ParameterKind::ProcessingCapacity)
    } else {
        None
    }
}

/// Acknowledgement of a synchronised topology: its node and edge counts.
pub fn sync_ack(topology: &Topology) -> (r: SyncAck)
    ensures
        r.node_count == topology.nodes@.len(),
        r.edge_count == topology.edges@.len(),
        r.message@ == "Topology synchronized successfully"@,
{
    SyncAck {
        node_count: topology.nodes.len(),
        edge_count: topology.edges.len(),
        message: "Topology synchronized successfully".to_owned(),
    }
}

/// Index of the first node of `topology` with id `node_id`.
pub fn find_node(topology: &Topology, node_id: &str) -> (r: Option<usize>)
    ensures
        match r {
            Some(i) => i < topology.nodes@.len() && i as int == first_index_of(topology.node_ids(), node_id@),
            None => first_index_of(topology.node_ids(), node_id@) == -1,
        },
        r is None <==> !topology.node_ids().contains(node_id@),
        r matches Some(i) ==> topology.node_ids()[i as int] == node_id@ && forall|j: int|
            0 <= j < i ==> topology.node_ids()[j] != node_id@,
{
    proof {
        law_first_index_of(topology.node_ids(), node_id@);
    }
    let ghost ids = topology.node_ids();
    let key: String = node_id.to_owned();
    let mut i: usize = 0;
    proof {
        assert(ids.skip(0) =~= ids);
    }
    while i < topology.nodes.len()
        invariant
            ids == topology.node_ids(),
            key@ == node_id@,
            i <= ids.len(),
            first_index_of(ids, node_id@) == if first_index_of(ids.skip(i as int), node_id@) < 0 {
                -1
            } else {
                first_index_of(ids.skip(i as int), node_id@) + i
            },
        decreases ids.len() - i,
    {
        proof {
            assert(ids.skip(i as int).drop_first() =~= ids.skip(i + 1));
            assert(ids.skip(i as int)[0] == ids[i as int]);
        }
        if topology.nodes[i].id == key {
            proof {
                law_first_index_of(ids, node_id@);
            }
            return Some(i);
        }
        i = i + 1;
    }
    proof {
        assert(ids.skip(i as int) =~= Seq::<Seq<char>>::empty());
    }
    None
}

/// Decision on a request to set parameter `param_name` of node `node_id`:
/// with no topology, the no-topology error; when no node has the id, the
/// node-not-found error; otherwise an acknowledgement, accepted and with the
/// change to make exactly when the name is a parameter (the first node
/// with the id is the one changed).
pub fn decide_parameter_update(topology: Option<&Topology>, node_id: &String, param_name: &String) -> (r:
    ParameterOutcome)
    ensures
        match topology {
            None => r matches ParameterOutcome::Rejected(e) && e.code@ == "NO_TOPOLOGY"@ && e.message@
                == "No topology loaded. Send SyncTopology first."@,
            Some(t) => {
                let idx = first_index_of(t.node_ids(), node_id@);
                if idx < 0 {
                    r matches ParameterOutcome::Rejected(e) && e.code@ == "NODE_NOT_FOUND"@ && e.message@
                        == "Node '"@ + node_id@ + "' not found in topology"@
                } else {
                    match spec_parameter_kind(param_name@) {
                        Some(kind) => r matches ParameterOutcome::Apply { node_index, param, ack } && node_index
                            == idx && param == kind && ack.node_id@ == node_id@ && ack.param_name@
                            == param_name@ && ack.accepted,
                        None => r matches ParameterOutcome::Unknown(ack) && ack.node_id@ == node_id@
                            && ack.param_name@ == param_name@ && !ack.accepted,
                    }
                }
            },
        },
        topology matches Some(t) ==> (r is Rejected <==> !t.node_ids().contains(node_id@)),
{
    proof {
        if let Some(t) = topology {
            law_first_index_of(t.node_ids(), node_id@);
        }
    }
    match topology {
        None => ParameterOutcome::Rejected(no_topology_error()),
        Some(t) => match find_node(t, node_id.as_str()) {
            None => ParameterOutcome::Rejected(node_not_found_error(node_id.as_str())),
            Some(node_index) => match parameter_kind(param_name.as_str()) {
                Some(param) => ParameterOutcome::Apply {
                    node_index,
                    param,
                    ack: ParameterUpdateAck {
                        node_id: node_id.clone(),
                        param_name: param_name.clone(),
                        accepted: true,
                    },
                },
                None => ParameterOutcome::Unknown(
                    ParameterUpdateAck { node_id: node_id.clone(), param_name: param_name.clone(), accepted: false },
                ),
            },
        },
    }
}

/// Reply to a simulation request made with no topology synchronised; with
/// one, the request goes to the simulation engine.
pub fn simulation_precheck(topology: Option<&Topology>) -> (r: Option<ErrorPayload>)
    ensures
        topology is None <==> r is Some,
        r matches Some(e) ==> e.code@ == "NO_TOPOLOGY"@ && e.message@ == "No topology loaded. Send SyncTopology first."@,
{
    match topology {
        None => Some(no_topology_error()),
        Some(_) => None,
    }
}

} // verus!
