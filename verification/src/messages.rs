//! Replies of the message protocol between the editor and the server, and
//! the error replies the server sends.

use vstd::prelude::*;

verus! {

/// Reply to a topology synchronisation.
#[derive(Clone, Debug)]
pub struct SyncAck {
    pub node_count: usize,
    pub edge_count: usize,
    pub message: String,
}

/// Reply to a parameter change.
#[derive(Clone, Debug)]
pub struct ParameterUpdateAck {
    pub node_id: String,
    pub param_name: String,
    pub accepted: bool,
}

/// An error reply: a machine-readable code and a message.
#[derive(Clone, Debug)]
pub struct ErrorPayload {
    pub code: String,
    pub message: String,
}

/// Error reply for a message that is not valid protocol JSON; `detail`
/// describes the parse failure.
pub fn parse_error(detail: &str) -> (r: ErrorPayload)
    ensures
        r.code@ == "PARSE_ERROR"@,
        r.message@ == "Invalid JSON: "@ + detail@,
{
    let mut message = "Invalid JSON: ".to_owned();
    message.append(detail);
    ErrorPayload { code: "PARSE_ERROR".to_owned(), message }
}

/// Error reply when a request needs a topology and none was synchronised.
pub fn no_topology_error() -> (r: ErrorPayload)
    ensures
        r.code@ == "NO_TOPOLOGY"@,
        r.message@ == "No topology loaded. Send SyncTopology first."@,
{
    ErrorPayload {
        code: "NO_TOPOLOGY".to_owned(),
        message: "No topology loaded. Send SyncTopology first.".to_owned(),
    }
}

/// Error reply when a parameter change names a node the topology lacks.
pub fn node_not_found_error(node_id: &str) -> (r: ErrorPayload)
    ensures
        r.code@ == "NODE_NOT_FOUND"@,
        r.message@ == "Node '"@ + node_id@ + "' not found in topology"@,
{
    let mut message = "Node '".to_owned();
    message.append(node_id);
    message.append("' not found in topology");
    ErrorPayload { code: "NODE_NOT_FOUND".to_owned(), message }
}

/// Error reply when the simulation engine could not be reached; `detail`
/// describes the failure.
pub fn engine_error(detail: &str) -> (r: ErrorPayload)
    ensures
        r.code@ == "GRPC_ERROR"@,
        r.message@ == "AI Engine communication failed: "@ + detail@,
{
    let mut message = "AI Engine communication failed: ".to_owned();
    message.append(detail);
    ErrorPayload { code: "GRPC_ERROR".to_owned(), message }
}

} // verus!
