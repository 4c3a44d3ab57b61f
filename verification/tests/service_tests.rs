use nexus_flow::config::{AppConfig, ConfigError, ConfigVar};
use nexus_flow::messages::{engine_error, no_topology_error, node_not_found_error, parse_error};
use nexus_flow::models::{
    default_capacity, Edge, EdgeType, Node, NodeData, NodeParameters, NodeStatus, NodeType, Project,
    Topology,
};
use nexus_flow::session::{
    decide_parameter_update, find_node, parameter_kind, simulation_precheck, sync_ack, ParameterKind,
    ParameterOutcome,
};

fn s(x: &str) -> Option<String> {
    Some(x.to_string())
}

fn topology() -> Topology {
    let node = |id: &str| Node {
        id: id.to_string(),
        node_type: NodeType::Assembler,
        data: NodeData {
            label: id.to_string(),
            parameters: NodeParameters { processing_capacity: default_capacity() },
            state: None,
        },
    };
    Topology {
        version: "1.0.0".to_string(),
        project: Project { name: "P".to_string(), description: None, created_at: None },
        nodes: vec![node("a"), node("b"), node("a")],
        edges: vec![Edge {
            id: "e".to_string(),
            source: "a".to_string(),
            target: "b".to_string(),
            edge_type: EdgeType::DataFlow,
        }],
        simulation_config: None,
    }
}

#[test]
fn config_defaults() {
    let c = AppConfig::from_settings(s("http://db"), s("anon"), s("role"), None, None, None).unwrap();
    assert_eq!(c.supabase_url, "http://db");
    assert_eq!(c.supabase_anon_key, "anon");
    assert_eq!(c.supabase_service_role_key, "role");
    assert_eq!(c.websocket_port, 8081);
    assert_eq!(c.grpc_host, "127.0.0.1");
    assert_eq!(c.grpc_port, 50051);
}

#[test]
fn config_reads_ports() {
    let c = AppConfig::from_settings(s("u"), s("a"), s("r"), s("9000"), s("engine"), s("+7")).unwrap();
    assert_eq!(c.websocket_port, 9000);
    assert_eq!(c.grpc_host, "engine");
    assert_eq!(c.grpc_port, 7);
}

#[test]
fn config_missing_variables() {
    assert_eq!(
        AppConfig::from_settings(None, None, None, None, None, None).unwrap_err(),
        ConfigError::Missing(ConfigVar::SupabaseUrl)
    );
    assert_eq!(
        AppConfig::from_settings(s("u"), None, None, None, None, None).unwrap_err(),
        ConfigError::Missing(ConfigVar::SupabaseAnonKey)
    );
    let e = AppConfig::from_settings(s("u"), s("a"), None, s("x"), None, None).unwrap_err();
    assert_eq!(e, ConfigError::Missing(ConfigVar::SupabaseServiceRoleKey));
    assert_eq!(e.message(), "SUPABASE_SERVICE_ROLE_KEY must be set");
}

#[test]
fn config_invalid_ports() {
    for bad in ["", "abc", "65536", "-1", " 80", "+", "8_0"] {
        let e = AppConfig::from_settings(s("u"), s("a"), s("r"), s(bad), None, None).unwrap_err();
        assert_eq!(e, ConfigError::InvalidPort(ConfigVar::WebsocketPort));
        assert_eq!(e.message(), "WEBSOCKET_PORT must be a valid port number");
    }
    let e = AppConfig::from_settings(s("u"), s("a"), s("r"), None, None, s("70000")).unwrap_err();
    assert_eq!(e, ConfigError::InvalidPort(ConfigVar::GrpcPort));
    assert_eq!(e.message(), "GRPC_PORT must be a valid port number");
    let c = AppConfig::from_settings(s("u"), s("a"), s("r"), s("65535"), None, s("00080")).unwrap();
    assert_eq!((c.websocket_port, c.grpc_port), (65535, 80));
}

#[test]
fn error_replies() {
    let e = parse_error("expected value at line 1 column 1");
    assert_eq!(e.code, "PARSE_ERROR");
    assert_eq!(e.message, "Invalid JSON: expected value at line 1 column 1");
    let e = no_topology_error();
    assert_eq!(e.code, "NO_TOPOLOGY");
    assert_eq!(e.message, "No topology loaded. Send SyncTopology first.");
    let e = node_not_found_error("n9");
    assert_eq!(e.code, "NODE_NOT_FOUND");
    assert_eq!(e.message, "Node 'n9' not found in topology");
    let e = engine_error("connection refused");
    assert_eq!(e.code, "GRPC_ERROR");
    assert_eq!(e.message, "AI Engine communication failed: connection refused");
}

#[test]
fn sync_acknowledges_counts() {
    let ack = sync_ack(&topology());
    assert_eq!(ack.node_count, 3);
    assert_eq!(ack.edge_count, 1);
    assert_eq!(ack.message, "Topology synchronized successfully");
}

#[test]
fn parameter_names() {
    assert_eq!(parameter_kind("cycle_time"), Some(ParameterKind::CycleTime));
    assert_eq!(parameter_kind("failure_rate"), Some(ParameterKind::FailureRate));
    assert_eq!(parameter_kind("processing_capacity"), Some(ParameterKind::ProcessingCapacity));
    assert_eq!(parameter_kind("label"), None);
}

#[test]
fn parameter_update_decisions() {
    let t = topology();
    assert_eq!(find_node(&t, "a"), Some(0));
    assert_eq!(find_node(&t, "b"), Some(1));
    assert_eq!(find_node(&t, "z"), None);

    match decide_parameter_update(Some(&t), &"b".to_string(), &"failure_rate".to_string()) {
        ParameterOutcome::Apply { node_index, param, ack } => {
            assert_eq!(node_index, 1);
            assert_eq!(param, ParameterKind::FailureRate);
            assert_eq!(ack.node_id, "b");
            assert_eq!(ack.param_name, "failure_rate");
            assert!(ack.accepted);
        }
        _ => panic!("expected a change"),
    }
    match decide_parameter_update(Some(&t), &"a".to_string(), &"speed".to_string()) {
        ParameterOutcome::Unknown(ack) => {
            assert_eq!(ack.node_id, "a");
            assert_eq!(ack.param_name, "speed");
            assert!(!ack.accepted);
        }
        _ => panic!("expected an unaccepted acknowledgement"),
    }
    match decide_parameter_update(Some(&t), &"q".to_string(), &"cycle_time".to_string()) {
        ParameterOutcome::Rejected(e) => {
            assert_eq!(e.code, "NODE_NOT_FOUND");
            assert_eq!(e.message, "Node 'q' not found in topology");
        }
        _ => panic!("expected an error"),
    }
    match decide_parameter_update(None, &"a".to_string(), &"cycle_time".to_string()) {
        ParameterOutcome::Rejected(e) => assert_eq!(e.code, "NO_TOPOLOGY"),
        _ => panic!("expected an error"),
    }
}

#[test]
fn simulation_needs_a_topology() {
    let e = simulation_precheck(None).unwrap();
    assert_eq!(e.code, "NO_TOPOLOGY");
    assert!(simulation_precheck(Some(&topology())).is_none());
}

#[test]
fn wire_names_and_defaults() {
    assert_eq!(NodeType::Source.proto_name(), "source");
    assert_eq!(NodeType::Assembler.proto_name(), "assembler");
    assert_eq!(NodeType::Inspector.proto_name(), "inspector");
    assert_eq!(NodeType::Buffer.proto_name(), "buffer");
    assert_eq!(NodeType::Sink.proto_name(), "sink");
    assert_eq!(EdgeType::MaterialFlow.proto_name(), "materialflow");
    assert_eq!(EdgeType::DataFlow.proto_name(), "dataflow");
    assert_eq!(NodeStatus::Idle.proto_name(), "idle");
    assert_eq!(NodeStatus::Processing.proto_name(), "processing");
    assert_eq!(NodeStatus::Blocked.proto_name(), "blocked");
    assert_eq!(NodeStatus::Failed.proto_name(), "failed");
    assert_eq!(default_capacity(), 1);
    assert_eq!(ConfigVar::GrpcPort.name(), "GRPC_PORT");
}
