use astraea::cli::{capitalize, format_table, parse_metric};
use astraea::cpu::CpuBackend;
use astraea::error::AstraeaError;
use astraea::gnn::{Activation, Aggregation, MessagePassingConfig};
use astraea::types::{DistanceMetric, EdgeId, GraphPath, Lsn, NodeId, PageId, TransactionId, ValidityInterval};

#[test]
fn validity_interval_always() {
    let iv = ValidityInterval::always();
    assert!(iv.contains(0));
    assert!(iv.contains(i64::MAX));
    assert!(iv.contains(i64::MIN));
}

#[test]
fn validity_interval_bounded() {
    let iv = ValidityInterval { valid_from: Some(100), valid_to: Some(200) };
    assert!(!iv.contains(99));
    assert!(iv.contains(100));
    assert!(iv.contains(150));
    assert!(!iv.contains(200));
}

#[test]
fn validity_interval_half_open() {
    let from_only = ValidityInterval { valid_from: Some(100), valid_to: None };
    assert!(!from_only.contains(99));
    assert!(from_only.contains(100));
    assert!(from_only.contains(i64::MAX));

    let to_only = ValidityInterval { valid_from: None, valid_to: Some(200) };
    assert!(to_only.contains(i64::MIN));
    assert!(to_only.contains(199));
    assert!(!to_only.contains(200));
}

#[test]
fn graph_path_basic() {
    let mut path = GraphPath::new(NodeId(1));
    assert_eq!(path.end(), NodeId(1));
    assert!(path.is_empty());

    path.push(EdgeId(10), NodeId(2));
    path.push(EdgeId(20), NodeId(3));
    assert_eq!(path.len(), 2);
    assert_eq!(path.end(), NodeId(3));
    assert_eq!(path.nodes(), vec![NodeId(1), NodeId(2), NodeId(3)]);
}

#[test]
fn parse_metric_cosine() {
    assert_eq!(parse_metric("cosine").unwrap(), DistanceMetric::Cosine);
    assert_eq!(parse_metric("Cosine").unwrap(), DistanceMetric::Cosine);
    assert_eq!(parse_metric("COSINE").unwrap(), DistanceMetric::Cosine);
}

#[test]
fn parse_metric_euclidean() {
    assert_eq!(parse_metric("euclidean").unwrap(), DistanceMetric::Euclidean);
    assert_eq!(parse_metric("Euclidean").unwrap(), DistanceMetric::Euclidean);
}

#[test]
fn parse_metric_dot_product() {
    assert_eq!(parse_metric("dot_product").unwrap(), DistanceMetric::DotProduct);
    assert_eq!(parse_metric("dot").unwrap(), DistanceMetric::DotProduct);
    assert_eq!(parse_metric("DOT").unwrap(), DistanceMetric::DotProduct);
}

#[test]
fn parse_metric_unknown_returns_error() {
    let err = parse_metric("l2").unwrap_err();
    assert!(err.contains("Unknown vector metric"), "error should mention unknown metric, got: {err}");
    assert!(err.contains("l2"), "error should echo the bad value");
}

#[test]
fn parse_metric_error_text_is_exact() {
    assert_eq!(
        parse_metric("L2").unwrap_err(),
        "Unknown vector metric 'l2'. Valid values are: cosine, euclidean, dot_product (or dot)."
    );
}

#[test]
fn capitalize_cases() {
    assert_eq!(capitalize(""), "");
    assert_eq!(capitalize("name"), "Name");
    assert_eq!(capitalize("Name"), "Name");
    assert_eq!(capitalize("1abc"), "1abc");
    assert_eq!(capitalize("ßx"), "SSx");
}

#[test]
fn test_cpu_backend_name_and_available() {
    let backend = CpuBackend::new();
    assert_eq!(backend.name(), "CPU");
    assert!(backend.is_available());
}

#[test]
fn test_cpu_backend_default() {
    let backend = CpuBackend::default();
    assert_eq!(backend.name(), "CPU");
}

#[test]
fn id_text_forms() {
    assert_eq!(NodeId(7).to_string(), "n7");
    assert_eq!(EdgeId(0).to_string(), "e0");
    assert_eq!(PageId(1234567890).to_string(), "p1234567890");
    assert_eq!(TransactionId(42).to_string(), "tx42");
    assert_eq!(Lsn(u64::MAX).to_string(), "lsn18446744073709551615");
}

#[test]
fn message_passing_config_default() {
    let c = MessagePassingConfig::default();
    assert_eq!(c.aggregation, Aggregation::Sum);
    assert_eq!(c.activation, Activation::ReLU);
    assert!(!c.normalize);
}

#[test]
fn io_error_converts_to_storage_io() {
    let e: AstraeaError = std::io::Error::new(std::io::ErrorKind::Other, "disk").into();
    assert!(matches!(e, AstraeaError::StorageIo(_)));
}

#[test]
fn format_table_pads_columns() {
    let columns = vec!["age".to_string(), "name".to_string()];
    let rows = vec![
        vec!["30".to_string(), "Alice".to_string()],
        vec!["7".to_string(), "Bo".to_string()],
    ];
    assert_eq!(
        format_table(&columns, &rows),
        "| age | name  |\n|-----|-------|\n| 30  | Alice |\n| 7   | Bo    |\n(2 rows)"
    );
}

#[test]
fn format_table_without_columns() {
    assert_eq!(format_table(&vec![], &vec![vec![], vec![]]), "[]");
}

#[test]
fn format_table_measures_bytes_and_pads_characters() {
    let columns = vec!["x".to_string()];
    let rows = vec![vec!["é".to_string()]];
    // The column is two bytes wide; "é" is one character, padded by one.
    assert_eq!(format_table(&columns, &rows), "| x  |\n|----|\n| é  |\n(1 rows)");
}

#[test]
fn format_table_with_no_rows() {
    let columns = vec!["id".to_string()];
    assert_eq!(format_table(&columns, &vec![]), "| id |\n|----|\n(0 rows)");
}
