use astraea::error::AstraeaError;
use astraea::graph::Graph;
use astraea::traversal::{bfs, shortest_path_unweighted};
use astraea::types::{Direction, NodeId};

/// Nodes carry their JSON properties; edges carry properties and a weight.
type TestGraph = Graph<serde_json::Value, (serde_json::Value, f64)>;

fn empty() -> serde_json::Value {
    serde_json::Value::Object(serde_json::Map::new())
}

fn props(pairs: &[(&str, serde_json::Value)]) -> serde_json::Value {
    let mut m = serde_json::Map::new();
    for (k, v) in pairs {
        m.insert(k.to_string(), v.clone());
    }
    serde_json::Value::Object(m)
}

#[test]
fn create_and_get_node() {
    let mut graph = TestGraph::new();
    let id = graph
        .create_node(vec!["Person".into()], props(&[("name", serde_json::Value::from("Alice"))]))
        .unwrap();

    let node = graph.get_node(id).unwrap();
    assert_eq!(node.id, id);
    assert_eq!(node.labels, vec!["Person"]);
    assert_eq!(node.data["name"], "Alice");
}

#[test]
fn create_and_get_edge() {
    let mut graph = TestGraph::new();
    let a = graph.create_node(vec![], empty()).unwrap();
    let b = graph.create_node(vec![], empty()).unwrap();
    let e = graph.create_edge(a, b, "KNOWS".into(), (empty(), 1.0), None, None).unwrap();

    let edge = graph.get_edge(e).unwrap();
    assert_eq!(edge.link.source, a);
    assert_eq!(edge.link.target, b);
    assert_eq!(edge.edge_type, "KNOWS");
}

#[test]
fn create_edge_missing_node_fails() {
    let mut graph = TestGraph::new();
    let a = graph.create_node(vec![], empty()).unwrap();

    let result = graph.create_edge(a, NodeId(999), "KNOWS".into(), (empty(), 1.0), None, None);
    assert!(result.is_err());
}

#[test]
fn delete_node_cascades_edges() {
    let mut graph = TestGraph::new();
    let a = graph.create_node(vec![], empty()).unwrap();
    let b = graph.create_node(vec![], empty()).unwrap();
    let e = graph.create_edge(a, b, "KNOWS".into(), (empty(), 1.0), None, None).unwrap();

    graph.delete_node(a).unwrap();

    assert!(graph.get_node(a).is_none());
    assert!(graph.get_edge(e).is_none());
    // b should still exist
    assert!(graph.get_node(b).is_some());
}

#[test]
fn neighbors_both_directions() {
    let mut graph = TestGraph::new();
    let a = graph.create_node(vec![], empty()).unwrap();
    let b = graph.create_node(vec![], empty()).unwrap();
    let c = graph.create_node(vec![], empty()).unwrap();

    graph.create_edge(a, b, "KNOWS".into(), (empty(), 1.0), None, None).unwrap();
    graph.create_edge(c, a, "FOLLOWS".into(), (empty(), 1.0), None, None).unwrap();

    let out = graph.neighbors(a, Direction::Outgoing).unwrap();
    assert_eq!(out.len(), 1);
    assert_eq!(out[0].1, b);

    let inc = graph.neighbors(a, Direction::Incoming).unwrap();
    assert_eq!(inc.len(), 1);
    assert_eq!(inc[0].1, c);

    let both = graph.neighbors(a, Direction::Both).unwrap();
    assert_eq!(both.len(), 2);
}

#[test]
fn neighbors_filtered_by_type() {
    let mut graph = TestGraph::new();
    let a = graph.create_node(vec![], empty()).unwrap();
    let b = graph.create_node(vec![], empty()).unwrap();
    let c = graph.create_node(vec![], empty()).unwrap();

    graph.create_edge(a, b, "KNOWS".into(), (empty(), 1.0), None, None).unwrap();
    graph.create_edge(a, c, "FOLLOWS".into(), (empty(), 1.0), None, None).unwrap();

    let knows = graph.neighbors_filtered(a, Direction::Outgoing, "KNOWS").unwrap();
    assert_eq!(knows.len(), 1);
    assert_eq!(knows[0].1, b);
}

#[test]
fn test_create_node_with_id_roundtrip() {
    let mut dst = TestGraph::new();
    for id in [1u64, 2, 3] {
        dst.create_node_with_id(NodeId(id), vec!["Person".into()], props(&[("imported", serde_json::Value::from(id))]))
            .unwrap();
    }
    // Edges reference the imported ids — they must resolve.
    dst.create_edge(NodeId(1), NodeId(2), "KNOWS".into(), (empty(), 1.0), None, None).unwrap();
    dst.create_edge(NodeId(2), NodeId(3), "KNOWS".into(), (empty(), 1.0), None, None).unwrap();

    // Subsequent auto-assignment must pick an id strictly greater than the
    // max supplied (3).
    let next = dst.create_node(vec![], empty()).unwrap();
    assert!(next.0 > 3, "next auto id {} must exceed supplied max 3", next.0);

    // Re-importing the same id must fail with DuplicateNode rather than
    // silently overwriting.
    let err = dst.create_node_with_id(NodeId(2), vec![], empty()).unwrap_err();
    assert!(matches!(err, AstraeaError::DuplicateNode(NodeId(2))));
}

#[test]
fn create_edge_reports_missing_source_first() {
    let mut graph = TestGraph::new();
    let err = graph.create_edge(NodeId(7), NodeId(8), "X".into(), (empty(), 1.0), None, None).unwrap_err();
    assert!(matches!(err, AstraeaError::NodeNotFound(NodeId(7))));
    let a = graph.create_node(vec![], empty()).unwrap();
    let err = graph.create_edge(a, NodeId(8), "X".into(), (empty(), 1.0), None, None).unwrap_err();
    assert!(matches!(err, AstraeaError::NodeNotFound(NodeId(8))));
}

#[test]
fn ids_are_allocated_in_sequence() {
    let mut graph = TestGraph::with_start_ids(10, 20);
    assert_eq!(graph.create_node(vec![], empty()).unwrap(), NodeId(10));
    assert_eq!(graph.create_node(vec![], empty()).unwrap(), NodeId(11));
    let e = graph.create_edge(NodeId(10), NodeId(11), "X".into(), (empty(), 2.5), Some(5), None).unwrap();
    assert_eq!(e.0, 20);
    let edge = graph.get_edge(e).unwrap();
    assert_eq!(edge.data.1, 2.5);
    assert_eq!(edge.link.validity.valid_from, Some(5));
    assert_eq!(edge.link.validity.valid_to, None);
}

#[test]
fn set_data_replaces_payload_only() {
    let mut graph = TestGraph::new();
    let a = graph.create_node(vec!["L".into()], props(&[("x", serde_json::Value::from(1))])).unwrap();
    graph.set_node_data(a, props(&[("x", serde_json::Value::from(2))])).unwrap();
    let node = graph.get_node(a).unwrap();
    assert_eq!(node.data["x"], 2);
    assert_eq!(node.labels, vec!["L"]);
    assert!(matches!(graph.set_node_data(NodeId(99), empty()), Err(AstraeaError::NodeNotFound(NodeId(99)))));
    let b = graph.create_node(vec![], empty()).unwrap();
    let e = graph.create_edge(a, b, "T".into(), (empty(), 1.0), None, None).unwrap();
    graph.set_edge_data(e, (empty(), 4.0)).unwrap();
    assert_eq!(graph.get_edge(e).unwrap().data.1, 4.0);
    assert_eq!(graph.get_edge(e).unwrap().edge_type, "T");
}

#[test]
fn find_by_label_and_type() {
    let mut graph = TestGraph::new();
    let a = graph.create_node(vec!["Person".into(), "Admin".into()], empty()).unwrap();
    let b = graph.create_node(vec!["Robot".into()], empty()).unwrap();
    let c = graph.create_node(vec!["Person".into()], empty()).unwrap();
    assert_eq!(graph.find_by_label("Person").unwrap(), vec![a, c]);
    assert_eq!(graph.find_by_label("Ghost").unwrap(), vec![]);
    let e1 = graph.create_edge(a, b, "OWNS".into(), (empty(), 1.0), None, None).unwrap();
    graph.create_edge(b, c, "HELPS".into(), (empty(), 1.0), None, None).unwrap();
    let e3 = graph.create_edge(c, b, "OWNS".into(), (empty(), 1.0), None, None).unwrap();
    assert_eq!(graph.find_edges_by_type("OWNS").unwrap(), vec![(e1, a, b), (e3, c, b)]);
}

#[test]
fn delete_edge_keeps_nodes() {
    let mut graph = TestGraph::new();
    let a = graph.create_node(vec![], empty()).unwrap();
    let b = graph.create_node(vec![], empty()).unwrap();
    let e = graph.create_edge(a, b, "T".into(), (empty(), 1.0), None, None).unwrap();
    graph.delete_edge(e).unwrap();
    assert!(graph.get_edge(e).is_none());
    assert!(graph.get_node(a).is_some() && graph.get_node(b).is_some());
    assert!(graph.is_consistent());
}

#[test]
fn graph_supports_traversals() {
    let mut graph = TestGraph::new();
    let a = graph.create_node(vec![], empty()).unwrap();
    let b = graph.create_node(vec![], empty()).unwrap();
    let c = graph.create_node(vec![], empty()).unwrap();
    graph.create_edge(a, b, "T".into(), (empty(), 1.0), None, None).unwrap();
    graph.create_edge(b, c, "T".into(), (empty(), 1.0), None, None).unwrap();
    assert_eq!(bfs(&graph, a, 5).unwrap(), vec![(a, 0), (b, 1), (c, 2)]);
    let path = shortest_path_unweighted(&graph, a, c).unwrap().unwrap();
    assert_eq!(path.nodes(), vec![a, b, c]);
}

fn s(v: &str) -> serde_json::Value {
    serde_json::Value::from(v)
}

fn n(v: i64) -> serde_json::Value {
    serde_json::Value::from(v)
}

const LEASE_START: i64 = 1_736_928_000_000;
const LEASE_END: i64 = 1_736_935_200_000;
const ATTACK_TIME_1: i64 = 1_736_929_800_000;
const ATTACK_TIME_2: i64 = 1_736_930_700_000;
const ATTACK_TIME_3: i64 = 1_736_931_000_000;

struct CyberGraph {
    graph: TestGraph,
    eve: NodeId,
    laptop_eve: NodeId,
    ip_alice: NodeId,
    ip_bob: NodeId,
    ip_eve: NodeId,
    darktools: NodeId,
    alert_malware: NodeId,
}

fn build_cyber_graph() -> CyberGraph {
    let mut g = TestGraph::new();
    let user = |g: &mut TestGraph, name: &str, dept: &str, role: &str| {
        g.create_node(
            vec!["User".into()],
            props(&[("name", s(name)), ("department", s(dept)), ("role", s(role))]),
        )
        .unwrap()
    };
    let alice = user(&mut g, "Alice", "Engineering", "Senior Developer");
    let bob = user(&mut g, "Bob", "Finance", "Accountant");
    let eve = user(&mut g, "Eve", "Marketing", "Analyst");
    let laptop = |g: &mut TestGraph, brand: &str, model: &str, serial: &str, host: &str| {
        g.create_node(
            vec!["Laptop".into()],
            props(&[("brand", s(brand)), ("model", s(model)), ("serial_number", s(serial)), ("hostname", s(host))]),
        )
        .unwrap()
    };
    let laptop_alice = laptop(&mut g, "Apple", "MacBook Pro 16", "SN-APP-1001", "ALICE-MBP01");
    let laptop_bob = laptop(&mut g, "Lenovo", "ThinkPad X1 Carbon", "SN-LEN-2001", "BOB-TP01");
    let laptop_eve = laptop(&mut g, "Dell", "Latitude 5540", "SN-DEL-3001", "EVE-LAT01");
    for (l, u, date) in [(laptop_alice, alice, "2024-03-15"), (laptop_bob, bob, "2024-06-01"), (laptop_eve, eve, "2024-09-10")] {
        g.create_edge(l, u, "ASSIGNED_TO".into(), (props(&[("assigned_date", s(date))]), 1.0), None, None).unwrap();
    }
    let ip = |g: &mut TestGraph, addr: &str| {
        g.create_node(vec!["IPAddress".into()], props(&[("address", s(addr)), ("network", s("internal"))])).unwrap()
    };
    let ip_alice = ip(&mut g, "10.0.1.10");
    let ip_bob = ip(&mut g, "10.0.1.20");
    let ip_eve = ip(&mut g, "10.0.1.50");
    for (i, l) in [(ip_alice, laptop_alice), (ip_bob, laptop_bob), (ip_eve, laptop_eve)] {
        g.create_edge(
            i,
            l,
            "DHCP_LEASE".into(),
            (props(&[("dhcp_server", s("10.0.0.1"))]), 1.0),
            Some(LEASE_START),
            Some(LEASE_END),
        )
        .unwrap();
    }
    let host = |g: &mut TestGraph, addr: &str, cat: &str, risk: &str| {
        g.create_node(
            vec!["ExternalHost".into()],
            props(&[("ip_address", s(addr)), ("category", s(cat)), ("risk_level", s(risk))]),
        )
        .unwrap()
    };
    let darktools = host(&mut g, "198.51.100.66", "malware_distribution", "critical");
    let legit_docs = host(&mut g, "203.0.113.10", "documentation", "none");
    for (from, to, t, port, bytes) in [
        (ip_alice, legit_docs, ATTACK_TIME_1, 443, 15200),
        (ip_eve, darktools, ATTACK_TIME_1, 443, 524288),
        (ip_eve, ip_bob, ATTACK_TIME_2, 3389, 4096),
        (ip_eve, ip_alice, ATTACK_TIME_3, 22, 2048),
    ] {
        g.create_edge(
            from,
            to,
            "TRAFFIC".into(),
            (
                props(&[("timestamp", n(t)), ("dest_port", n(port)), ("protocol", s("TCP")), ("bytes_sent", n(bytes))]),
                1.0,
            ),
            None,
            None,
        )
        .unwrap();
    }
    let alert = |g: &mut TestGraph, id: &str, rule: &str, sev: &str, t: i64, action: &str| {
        g.create_node(
            vec!["FirewallAlert".into()],
            props(&[
                ("alert_id", s(id)),
                ("rule", s(rule)),
                ("severity", s(sev)),
                ("timestamp", n(t)),
                ("action", s(action)),
            ]),
        )
        .unwrap()
    };
    let alert_malware = alert(&mut g, "FW-2025-0042", "MALWARE_DOWNLOAD", "critical", ATTACK_TIME_1, "logged");
    let alert_rdp = alert(&mut g, "FW-2025-0043", "LATERAL_MOVEMENT_RDP", "high", ATTACK_TIME_2, "blocked");
    let alert_ssh = alert(&mut g, "FW-2025-0044", "UNAUTHORIZED_SSH", "high", ATTACK_TIME_3, "blocked");
    for (a, t) in [(alert_malware, ATTACK_TIME_1), (alert_rdp, ATTACK_TIME_2), (alert_ssh, ATTACK_TIME_3)] {
        g.create_edge(ip_eve, a, "TRIGGERED".into(), (props(&[("timestamp", n(t))]), 1.0), None, None).unwrap();
    }
    for (a, target) in [(alert_malware, darktools), (alert_rdp, ip_bob), (alert_ssh, ip_alice)] {
        g.create_edge(a, target, "TARGETS".into(), (empty(), 1.0), None, None).unwrap();
    }
    CyberGraph { graph: g, eve, laptop_eve, ip_alice, ip_bob, ip_eve, darktools, alert_malware }
}

#[test]
fn bfs_from_eve_ip_discovers_attack_surface() {
    let cg = build_cyber_graph();

    let bfs_d1 = bfs(&cg.graph, cg.ip_eve, 1).unwrap();
    let found: Vec<NodeId> = bfs_d1.iter().map(|(nid, _)| *nid).collect();
    assert!(found.contains(&cg.ip_eve));
    assert!(found.contains(&cg.laptop_eve));
    assert!(found.contains(&cg.darktools));
    assert!(found.contains(&cg.ip_bob));
    assert!(found.contains(&cg.ip_alice));
    assert!(found.contains(&cg.alert_malware));

    let bfs_d2 = bfs(&cg.graph, cg.ip_eve, 2).unwrap();
    let found_d2: Vec<NodeId> = bfs_d2.iter().map(|(nid, _)| *nid).collect();
    assert!(found_d2.contains(&cg.eve));
}

#[test]
fn get_missing_node_returns_none() {
    let store = TestGraph::new();
    assert!(store.get_node(NodeId(999)).is_none());
}
