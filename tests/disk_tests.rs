use deepgraph::disk::{
    add_edge_ops, add_node_ops, delete_edge_ops, delete_node_ops, export_snapshot, make_label_key, update_node_ops, Tree, TreeOp,
};
use deepgraph::error::DeepGraphError;
use deepgraph::graph::{Edge, EdgeId, Node, NodeId};
use deepgraph::snapshot::snapshots_to_delete;
use deepgraph::wal::split_frames;

fn describe(ops: &[TreeOp]) -> Vec<(bool, Tree, Vec<u8>)> {
    ops.iter()
        .map(|o| match o {
            TreeOp::Put { tree, key, .. } => (true, *tree, key.clone()),
            TreeOp::Remove { tree, key } => (false, *tree, key.clone()),
        })
        .collect()
}

#[test]
fn label_key_layout() {
    let k = make_label_key("Ab", 258);
    let mut expected = vec![b'A', b'b', 0];
    expected.extend_from_slice(&258u128.to_be_bytes());
    assert_eq!(k, expected);
}

#[test]
fn update_moves_labels() {
    let old = Node::with_id(NodeId(7), vec!["A".to_string(), "B".to_string()]);
    let new = Node::with_id(NodeId(7), vec!["B".to_string(), "C".to_string()]);
    let ops = update_node_ops(Some(&old), &new, vec![9, 9]).unwrap();
    let d = describe(&ops);
    assert_eq!(d.len(), 3);
    assert_eq!(d[0], (false, Tree::LabelIndex, make_label_key("A", 7)));
    assert_eq!(d[1], (true, Tree::LabelIndex, make_label_key("C", 7)));
    assert_eq!(d[2], (true, Tree::Nodes, 7u128.to_be_bytes().to_vec()));
    assert_eq!(update_node_ops(None, &new, vec![]).unwrap_err(), DeepGraphError::NodeNotFound(7));
}

fn adj(n: u128, e: u128) -> Vec<u8> {
    let mut k = n.to_be_bytes().to_vec();
    k.extend_from_slice(&e.to_be_bytes());
    k
}

#[test]
fn delete_cascades_entries() {
    let n = Node::with_id(NodeId(3), vec!["P".to_string()]);
    let e = Edge::with_id(EdgeId(10), NodeId(3), NodeId(4), "KNOWS".to_string());
    let ops = delete_node_ops(Some(&n), 3, &vec![e]).unwrap();
    let d = describe(&ops);
    assert_eq!(d.len(), 6);
    assert_eq!(d[0], (false, Tree::Edges, 10u128.to_be_bytes().to_vec()));
    assert_eq!(d[1], (false, Tree::OutgoingEdges, adj(3, 10)));
    assert_eq!(d[2], (false, Tree::IncomingEdges, adj(4, 10)));
    assert_eq!(d[3], (false, Tree::EdgeTypeIndex, make_label_key("KNOWS", 10)));
    assert_eq!(d[4], (false, Tree::LabelIndex, make_label_key("P", 3)));
    assert_eq!(d[5], (false, Tree::Nodes, 3u128.to_be_bytes().to_vec()));
    assert!(delete_node_ops(None, 3, &vec![]).is_err());
}

#[test]
fn add_node_and_edge_entries() {
    let n = Node::with_id(NodeId(5), vec!["A".to_string(), "B".to_string()]);
    let d = describe(&add_node_ops(&n, vec![1]));
    assert_eq!(d, vec![
        (true, Tree::LabelIndex, make_label_key("A", 5)),
        (true, Tree::LabelIndex, make_label_key("B", 5)),
        (true, Tree::Nodes, 5u128.to_be_bytes().to_vec()),
    ]);
    let e = Edge::with_id(EdgeId(9), NodeId(5), NodeId(6), "R".to_string());
    assert_eq!(add_edge_ops(&e, vec![], false, true).unwrap_err(), DeepGraphError::NodeNotFound(5));
    assert_eq!(add_edge_ops(&e, vec![], true, false).unwrap_err(), DeepGraphError::NodeNotFound(6));
    let d = describe(&add_edge_ops(&e, vec![2], true, true).unwrap());
    assert_eq!(d[1], (true, Tree::OutgoingEdges, adj(5, 9)));
    assert_eq!(d[3], (true, Tree::EdgeTypeIndex, make_label_key("R", 9)));
    assert_eq!(describe(&delete_edge_ops(&e)).len(), 4);
}

#[test]
fn snapshot_retention_choice() {
    let snaps = vec![("a".to_string(), 10u64), ("b".to_string(), 30), ("c".to_string(), 20), ("d".to_string(), 5)];
    assert_eq!(snapshots_to_delete(&snaps, 2), vec!["a".to_string(), "d".to_string()]);
    assert_eq!(snapshots_to_delete(&snaps, 4), Vec::<String>::new());
    assert_eq!(snapshots_to_delete(&snaps, 0).len(), 4);
}

#[test]
fn snapshot_export_round_trip() {
    let nodes = vec![vec![1u8, 2], vec![]];
    let edges = vec![vec![7u8]];
    let bytes = export_snapshot(&nodes, &edges);
    assert_eq!(split_frames(&bytes), vec![vec![1, 2], vec![], vec![7]]);
}
