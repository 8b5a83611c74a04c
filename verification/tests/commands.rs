use astraea::cli::trim_text;
use std::collections::HashMap;
use astraea::error::AstraeaError;
use astraea::gnn::TrainingData;
use astraea::types::NodeId;
use astraea::json::JsonObject;
use astraea::shell::{shell_action, shell_action_of, ShellAction};
use astraea::transfer::{
    plan_import, ImportPlan,
    classify_import_item, export_start, export_step, import_summary, tally_import, ExportAction,
    ExportPhase, ExportReply, ImportCounts, ImportKind, RecordKind,
};

#[test]
fn import_item_types_are_case_insensitive() {
    assert_eq!(classify_import_item("NoDe", None, None, None, 0), Ok(ImportKind::Node));
    assert_eq!(
        classify_import_item("EDGE", Some(1), Some(2), Some("KNOWS".to_string()), 3),
        Ok(ImportKind::Edge { source: 1, target: 2, edge_type: "KNOWS".to_string() })
    );
}

#[test]
fn import_edge_type_defaults_to_related_to() {
    assert_eq!(
        classify_import_item("edge", Some(5), Some(6), None, 0),
        Ok(ImportKind::Edge { source: 5, target: 6, edge_type: "RELATED_TO".to_string() })
    );
}

#[test]
fn import_edge_without_endpoints_fails() {
    assert_eq!(
        classify_import_item("edge", None, Some(2), None, 7),
        Err("Item 7: edge missing 'source' (must be a positive integer)".to_string())
    );
    assert_eq!(
        classify_import_item("edge", Some(1), None, None, 12),
        Err("Item 12: edge missing 'target' (must be a positive integer)".to_string())
    );
}

#[test]
fn import_unknown_types_are_skipped() {
    assert_eq!(classify_import_item("", None, None, None, 0), Ok(ImportKind::Skip));
    assert_eq!(classify_import_item("vertex", Some(1), Some(2), None, 0), Ok(ImportKind::Skip));
}

#[test]
fn import_tally_counts_outcomes() {
    let mut c = ImportCounts::new();
    c = tally_import(c, &ImportKind::Node, true);
    c = tally_import(c, &ImportKind::Node, false);
    c = tally_import(c, &ImportKind::Edge { source: 1, target: 2, edge_type: "E".to_string() }, true);
    c = tally_import(c, &ImportKind::Skip, true);
    assert_eq!(c, ImportCounts { nodes: 1, edges: 1, errors: 2 });
    assert_eq!(import_summary(c), "Imported 1 nodes and 1 edges");
}

#[test]
fn export_scans_nodes_then_edges() {
    let (st, a) = export_start(2);
    assert_eq!(a, ExportAction::Fetch { kind: RecordKind::Node, id: 1 });
    let (st, a) = export_step(st, ExportReply::Found);
    assert_eq!(a, ExportAction::Fetch { kind: RecordKind::Node, id: 2 });
    let (st, a) = export_step(st, ExportReply::Missing);
    assert_eq!(a, ExportAction::Fetch { kind: RecordKind::Edge, id: 1 });
    let (st, a) = export_step(st, ExportReply::Found);
    assert_eq!(a, ExportAction::Fetch { kind: RecordKind::Edge, id: 2 });
    let (st, a) = export_step(st, ExportReply::Found);
    assert_eq!(a, ExportAction::Write);
    assert_eq!(st.phase, ExportPhase::Finished);
    assert_eq!((st.nodes, st.edges), (1, 2));
}

#[test]
fn export_stops_a_scan_at_a_connection_error() {
    let (st, _) = export_start(5);
    let (st, a) = export_step(st, ExportReply::Failed);
    assert_eq!(a, ExportAction::Fetch { kind: RecordKind::Edge, id: 1 });
    let (st, a) = export_step(st, ExportReply::Failed);
    assert_eq!(a, ExportAction::Write);
    assert_eq!((st.nodes, st.edges), (0, 0));
}

#[test]
fn export_of_no_ids_writes_at_once() {
    let (_, a) = export_start(0);
    assert_eq!(a, ExportAction::Write);
}

#[test]
fn shell_dot_commands() {
    assert_eq!(shell_action("   "), ShellAction::Skip);
    assert_eq!(shell_action(".HELP"), ShellAction::Help);
    assert_eq!(shell_action("  .quit "), ShellAction::Quit);
    assert_eq!(shell_action(".Exit"), ShellAction::Quit);
    assert_eq!(shell_action(".ping"), ShellAction::Ping);
    assert_eq!(shell_action(".clear"), ShellAction::Clear);
    assert_eq!(shell_action(".nope"), ShellAction::UnknownCommand(".nope".to_string()));
}

#[test]
fn shell_queries_and_raw_json() {
    assert_eq!(
        shell_action("match (n) return n\n"),
        ShellAction::Query("match (n) return n".to_string())
    );
    assert_eq!(
        shell_action(r#"{"type":"Ping"}"#),
        ShellAction::Raw(r#"{"type":"Ping"}"#.to_string())
    );
    assert_eq!(shell_action("hello"), ShellAction::Query("hello".to_string()));
    assert_eq!(
        shell_action_of("setx", "setx", "SETX"),
        ShellAction::Query("setx".to_string())
    );
}

#[test]
fn json_merge_inserts_and_overwrites_fields() {
    let mut base = JsonObject::new();
    base.insert("name".to_string(), 1);
    base.insert("age".to_string(), 30);
    let mut patch = JsonObject::new();
    patch.insert("age".to_string(), 31);
    patch.insert("city".to_string(), 7);
    base.merge(patch);
    let mut fields = base.into_fields();
    fields.sort();
    assert_eq!(
        fields,
        vec![("age".to_string(), 31), ("city".to_string(), 7), ("name".to_string(), 1)]
    );
}

#[test]
fn json_insert_overwrites_a_field_of_the_same_name() {
    let mut obj = JsonObject::new();
    obj.insert("k".to_string(), 1);
    obj.insert("k".to_string(), 2);
    assert_eq!(obj.into_fields(), vec![("k".to_string(), 2)]);
}

#[test]
fn community_labels_follow_first_appearance() {
    let raw = vec![7, 3, 7, 9, 3];
    assert_eq!(astraea::community::compact_labels(&raw), vec![0, 1, 0, 2, 1]);
    assert_eq!(astraea::community::compact_labels(&vec![]), Vec::<usize>::new());
}

#[test]
fn training_data_needs_labels_and_classes() {
    let empty = TrainingData { labels: HashMap::new(), num_classes: 2 };
    assert!(matches!(empty.validate(), Err(AstraeaError::QueryExecution(m)) if m == "training data has no labels"));
    let mut labels = HashMap::new();
    labels.insert(NodeId(1), 0usize);
    let no_classes = TrainingData { labels: labels.clone(), num_classes: 0 };
    assert!(matches!(no_classes.validate(), Err(AstraeaError::QueryExecution(m)) if m == "num_classes must be greater than 0"));
    let ok = TrainingData { labels, num_classes: 2 };
    assert!(ok.validate().is_ok());
}

#[test]
fn plan_import_reads_the_file_text() {
    let text = r#"[
        {"type": "Node", "labels": ["Person"]},
        {"type": "edge", "source": 1, "target": 2},
        {"type": "edge", "source": 3, "target": 4, "edge_type": "KNOWS"},
        {"labels": []}
    ]"#;
    let plan = plan_import("people.json", text).unwrap();
    assert_eq!(
        plan,
        ImportPlan {
            kinds: vec![
                ImportKind::Node,
                ImportKind::Edge { source: 1, target: 2, edge_type: "RELATED_TO".to_string() },
                ImportKind::Edge { source: 3, target: 4, edge_type: "KNOWS".to_string() },
                ImportKind::Skip,
            ],
            stop: None,
        }
    );
}

#[test]
fn plan_import_stops_at_the_first_bad_edge() {
    let text = r#"[{"type": "node"}, {"type": "edge", "source": "x", "target": 2}, {"type": "node"}]"#;
    let plan = plan_import("f.json", text).unwrap();
    assert_eq!(plan.kinds, vec![ImportKind::Node]);
    assert_eq!(plan.stop, Some("Item 1: edge missing 'source' (must be a positive integer)".to_string()));
}

#[test]
fn plan_import_reports_a_parse_failure() {
    let err = plan_import("bad.json", "{not json").unwrap_err();
    assert!(err.starts_with("Failed to parse JSON from 'bad.json': "), "{err}");
    assert!(plan_import("obj.json", r#"{"type": "node"}"#).is_err());
}

#[test]
fn trim_removes_unicode_white_space() {
    assert_eq!(trim_text("\u{3000} .help \u{85}\t"), ".help");
    assert_eq!(trim_text(" \n "), "");
    assert_eq!(trim_text("a b"), "a b");
    assert_eq!(shell_action("\u{2003}.QUIT\u{a0}"), ShellAction::Quit);
}
