use deepgraph::import::{CsvImporter, ImportConfig, ImportStats, JsonImporter};

#[test]
fn test_parse_labels() {
    let importer = CsvImporter::new();

    let labels = importer.parse_labels("Person;Employee");
    assert_eq!(labels, vec!["Person", "Employee"]);

    let labels = importer.parse_labels("Node");
    assert_eq!(labels, vec!["Node"]);

    let labels = importer.parse_labels("  A ; B  ; C  ");
    assert_eq!(labels, vec!["A", "B", "C"]);
}

#[test]
fn parse_labels_drops_empty_pieces_and_uses_the_separator() {
    let importer = CsvImporter::new().with_label_separator('|');
    assert_eq!(importer.parse_labels("A||B| "), vec!["A", "B"]);
    assert_eq!(importer.parse_labels(""), Vec::<String>::new());
    assert_eq!(importer.parse_labels("A;B"), vec!["A;B"]);
}

#[test]
fn import_config_builders() {
    let c = ImportConfig::new();
    assert_eq!((c.batch_size, c.flush_interval, c.skip_invalid, c.max_errors), (1000, 5000, true, 100));
    let c = c.with_batch_size(10).with_flush_interval(20).with_skip_invalid(false).with_max_errors(3);
    assert_eq!((c.batch_size, c.flush_interval, c.skip_invalid, c.max_errors), (10, 20, false, 3));
    let csv = CsvImporter::new().with_config(c).with_delimiter(b'\t').with_header(false);
    assert_eq!(csv.delimiter, b'\t');
    assert!(!csv.has_header);
    assert_eq!(csv.config.batch_size, 10);
    let json = JsonImporter::new().with_config(c);
    assert_eq!(json.config.max_errors, 3);
}

#[test]
fn import_stats_counters() {
    let mut s = ImportStats::new();
    let t = s.start_timer();
    s.record_node("a".to_string(), "1".to_string());
    s.record_node("b".to_string(), "2".to_string());
    s.record_edge();
    s.add_error("bad row".to_string());
    s.stop_timer(t);
    assert_eq!(s.nodes_imported, 2);
    assert_eq!(s.edges_imported, 1);
    assert_eq!(s.errors, vec!["bad row".to_string()]);
    assert_eq!(s.node_id_map.len(), 2);
}
