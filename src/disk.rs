//! The decisions of the disk backend: which entries of its key/value trees a
//! mutation writes and removes, and the byte layout of a snapshot export. The
//! tree store itself performs these operations.
use vstd::prelude::*;

use crate::error::DeepGraphError;
use crate::graph::{Edge, EdgeView, Node, NodeView, labels_view, str_eq};
use crate::wal::{encode_frame, frame_of};

verus! {

/// The trees of the disk backend.
#[derive(Debug, Clone, Copy, PartialEq, Eq, Structural)]
pub enum Tree {
    Nodes,
    Edges,
    LabelIndex,
    OutgoingEdges,
    IncomingEdges,
    EdgeTypeIndex,
}

/// One write to a tree.
#[derive(Debug)]
pub enum TreeOp {
    Put { tree: Tree, key: Vec<u8>, value: Vec<u8> },
    Remove { tree: Tree, key: Vec<u8> },
}

/// Model of a tree operation.
pub enum TreeOpView {
    Put(Tree, Seq<u8>, Seq<u8>),
    Remove(Tree, Seq<u8>),
}

impl TreeOp {
    pub open spec fn view(&self) -> TreeOpView {
        match self {
            TreeOp::Put { tree, key, value } => TreeOpView::Put(*tree, key@, value@),
            TreeOp::Remove { tree, key } => TreeOpView::Remove(*tree, key@),
        }
    }
}

pub open spec fn ops_view(v: Seq<TreeOp>) -> Seq<TreeOpView> {
    v.map_values(|o: TreeOp| o@)
}

/// The sixteen big-endian bytes of an id.
pub open spec fn id_bytes(id: u128) -> Seq<u8> {
    Seq::new(16, |i: int| ((id as nat / pow256(15 - i)) % 256) as u8)
}

pub open spec fn pow256(k: int) -> nat
    decreases k,
{
    if k <= 0 {
        1
    } else {
        256 * pow256(k - 1)
    }
}

/// The label-index key of `(label, node)`: the label's UTF-8 bytes, a zero
/// byte, then the node id.
pub open spec fn label_key(label: Seq<char>, id: u128) -> Seq<u8> {
    vstd::utf8::encode_utf8(label) + seq![0u8] + id_bytes(id)
}

fn push_id(out: &mut Vec<u8>, id: u128)
    ensures
        final(out)@ == old(out)@ + id_bytes(id),
{
    let ghost start = out@;
    let mut k: usize = 0;
    while k < 16
        invariant
            k <= 16,
            out@.len() == start.len() + k,
            forall|j: int| 0 <= j < start.len() ==> out@[j] == start[j],
            forall|j: int| 0 <= j < k ==> out@[start.len() + j] == id_bytes(id)[j],
        decreases 16 - k,
    {
        let mut d: u128 = id;
        let mut m: usize = 0;
        let ghost p: nat = 1;
        while m < 15 - k
            invariant
                k < 16,
                m <= 15 - k,
                p == pow256(m as int),
                p >= 1,
                d as nat == id as nat / p,
            decreases 15 - k - m,
        {
            proof {
                vstd::arithmetic::div_mod::lemma_div_denominator(id as int, p as int, 256);
                assert(pow256(m + 1) == 256 * pow256(m as int));
            }
            d = d / 256;
            proof {
                p = p * 256;
            }
            m = m + 1;
        }
        out.push((d % 256) as u8);
        k = k + 1;
    }
    proof {
        assert(out@ =~= start + id_bytes(id));
    }
}

/// The label-index key of `(label, id)`.
pub fn make_label_key(label: &str, id: u128) -> (r: Vec<u8>)
    ensures
        r@ == label_key(label@, id),
{
    let b = label.as_bytes();
    let mut out: Vec<u8> = Vec::new();
    let mut i: usize = 0;
    while i < b.len()
        invariant
            i <= b@.len(),
            out@ == b@.subrange(0, i as int),
        decreases b.len() - i,
    {
        out.push(b[i]);
        proof {
            assert(out@ =~= b@.subrange(0, i + 1));
        }
        i = i + 1;
    }
    proof {
        assert(b@.subrange(0, b@.len() as int) =~= b@);
    }
    out.push(0);
    push_id(&mut out, id);
    proof {
        assert(out@ =~= label_key(label@, id));
    }
    out
}

fn has_label(labels: &Vec<String>, l: &str) -> (r: bool)
    ensures
        r == labels_view(labels@).contains(l@),
{
    let mut i: usize = 0;
    while i < labels.len()
        invariant
            i <= labels@.len(),
            forall|j: int| 0 <= j < i ==> labels@[j]@ != l@,
        decreases labels.len() - i,
    {
        if str_eq(labels[i].as_str(), l) {
            proof {
                assert(labels_view(labels@)[i as int] == l@);
            }
            return true;
        }
        i = i + 1;
    }
    proof {
        if labels_view(labels@).contains(l@) {
            let j = choose|j: int| 0 <= j < labels_view(labels@).len() && labels_view(labels@)[j] == l@;
            assert(labels@[j]@ == l@);
        }
    }
    false
}

/// The label-index operations that turn the labels `from` into `to` for
/// node `id`: remove each label only in `from`, add each label only in `to`
/// (in list order).
pub open spec fn label_moves(from: Seq<Seq<char>>, to: Seq<Seq<char>>, id: u128) -> Seq<TreeOpView> {
    from.filter(|l: Seq<char>| !to.contains(l)).map_values(|l: Seq<char>| TreeOpView::Remove(Tree::LabelIndex, label_key(l, id)))
        + to.filter(|l: Seq<char>| !from.contains(l)).map_values(
        |l: Seq<char>| TreeOpView::Put(Tree::LabelIndex, label_key(l, id), Seq::empty()),
    )
}

/// The tree operations of replacing the stored node `old` by `new` (whose
/// encoded bytes are `encoded`): the label-index changes, then the node entry.
/// A node that is not stored is `NodeNotFound`.
pub fn update_node_ops(old: Option<&Node>, new: &Node, encoded: Vec<u8>) -> (r: Result<Vec<TreeOp>, DeepGraphError>)
    ensures
        match old {
            None => r == Err::<Vec<TreeOp>, DeepGraphError>(DeepGraphError::NodeNotFound(new.id.0)),
            Some(o) => r is Ok && ops_view(r->Ok_0@) == label_moves(o@.labels, new@.labels, new.id.0).push(
                TreeOpView::Put(Tree::Nodes, id_bytes(new.id.0), encoded@),
            ),
        },
{
    let o = match old {
        Some(o) => o,
        None => {
            return Err(DeepGraphError::NodeNotFound(new.id.0));
        },
    };
    let id = new.id.0;
    let ghost from = o@.labels;
    let ghost to = new@.labels;
    let ghost fr = |l: Seq<char>| !to.contains(l);
    let ghost fa = |l: Seq<char>| !from.contains(l);
    let ghost mr = |l: Seq<char>| TreeOpView::Remove(Tree::LabelIndex, label_key(l, id));
    let ghost ma = |l: Seq<char>| TreeOpView::Put(Tree::LabelIndex, label_key(l, id), Seq::<u8>::empty());
    let mut ops: Vec<TreeOp> = Vec::new();
    let mut i: usize = 0;
    proof {
        assert(ops_view(ops@) =~= from.subrange(0, 0).filter(fr).map_values(mr));
    }
    while i < o.labels.len()
        invariant
            i <= o.labels@.len(),
            from == labels_view(o.labels@),
            to == labels_view(new.labels@),
            fr == (|l: Seq<char>| !to.contains(l)),
            mr == (|l: Seq<char>| TreeOpView::Remove(Tree::LabelIndex, label_key(l, id))),
            id == new.id.0,
            ops_view(ops@) == from.subrange(0, i as int).filter(fr).map_values(mr),
        decreases o.labels.len() - i,
    {
        let l = o.labels[i].as_str();
        let ghost before = ops_view(ops@);
        proof {
            assert(from.subrange(0, i + 1) =~= from.subrange(0, i as int).push(from[i as int]));
            assert(from[i as int] == l@);
        }
        if !has_label(&new.labels, l) {
            ops.push(TreeOp::Remove { tree: Tree::LabelIndex, key: make_label_key(l, id) });
            proof {
                assert(from.subrange(0, i as int).push(l@).filter(fr) =~= from.subrange(0, i as int).filter(fr).push(l@)) by {
                    reveal_with_fuel(Seq::filter, 1);
                    assert(from.subrange(0, i as int).push(l@).drop_last() =~= from.subrange(0, i as int));
                }
                assert(ops_view(ops@) =~= before.push(mr(l@)));
            }
        } else {
            proof {
                assert(from.subrange(0, i as int).push(l@).filter(fr) =~= from.subrange(0, i as int).filter(fr)) by {
                    reveal_with_fuel(Seq::filter, 1);
                    assert(from.subrange(0, i as int).push(l@).drop_last() =~= from.subrange(0, i as int));
                }
            }
        }
        i = i + 1;
    }
    let ghost removed = ops_view(ops@);
    proof {
        assert(from.subrange(0, from.len() as int) =~= from);
    }
    let mut j: usize = 0;
    proof {
        assert(ops_view(ops@) =~= removed + to.subrange(0, 0).filter(fa).map_values(ma));
    }
    while j < new.labels.len()
        invariant
            j <= new.labels@.len(),
            from == labels_view(o.labels@),
            to == labels_view(new.labels@),
            fa == (|l: Seq<char>| !from.contains(l)),
            ma == (|l: Seq<char>| TreeOpView::Put(Tree::LabelIndex, label_key(l, id), Seq::<u8>::empty())),
            id == new.id.0,
            ops_view(ops@) == removed + to.subrange(0, j as int).filter(fa).map_values(ma),
        decreases new.labels.len() - j,
    {
        let l = new.labels[j].as_str();
        let ghost before = ops_view(ops@);
        proof {
            assert(to.subrange(0, j + 1) =~= to.subrange(0, j as int).push(to[j as int]));
            assert(to[j as int] == l@);
        }
        if !has_label(&o.labels, l) {
            ops.push(TreeOp::Put { tree: Tree::LabelIndex, key: make_label_key(l, id), value: Vec::new() });
            proof {
                assert(to.subrange(0, j as int).push(l@).filter(fa) =~= to.subrange(0, j as int).filter(fa).push(l@)) by {
                    reveal_with_fuel(Seq::filter, 1);
                    assert(to.subrange(0, j as int).push(l@).drop_last() =~= to.subrange(0, j as int));
                }
                assert(ops_view(ops@) =~= before.push(ma(l@)));
            }
        } else {
            proof {
                assert(to.subrange(0, j as int).push(l@).filter(fa) =~= to.subrange(0, j as int).filter(fa)) by {
                    reveal_with_fuel(Seq::filter, 1);
                    assert(to.subrange(0, j as int).push(l@).drop_last() =~= to.subrange(0, j as int));
                }
            }
        }
        j = j + 1;
    }
    proof {
        assert(to.subrange(0, to.len() as int) =~= to);
    }
    let ghost moves = ops_view(ops@);
    let mut key: Vec<u8> = Vec::new();
    push_id(&mut key, id);
    proof {
        assert(key@ =~= id_bytes(id));
    }
    ops.push(TreeOp::Put { tree: Tree::Nodes, key, value: encoded });
    proof {
        assert(ops_view(ops@) =~= moves.push(TreeOpView::Put(Tree::Nodes, id_bytes(id), encoded@)));
    }
    Ok(ops)
}

fn id_key(id: u128) -> (r: Vec<u8>)
    ensures
        r@ == id_bytes(id),
{
    let mut k: Vec<u8> = Vec::new();
    push_id(&mut k, id);
    proof {
        assert(k@ =~= id_bytes(id));
    }
    k
}

/// The adjacency key of edge `e` under node `n`: both ids, node first, so a
/// prefix scan on the node lists its edges.
pub open spec fn adj_key(n: u128, e: u128) -> Seq<u8> {
    id_bytes(n) + id_bytes(e)
}

fn make_adj_key(n: u128, e: u128) -> (r: Vec<u8>)
    ensures
        r@ == adj_key(n, e),
{
    let mut k: Vec<u8> = Vec::new();
    push_id(&mut k, n);
    push_id(&mut k, e);
    proof {
        assert(k@ =~= adj_key(n, e));
    }
    k
}

/// The tree operations of storing node `n` (encoded as `enc`): one
/// label-index entry per label, in order, then the node entry.
pub open spec fn add_node_spec(n: NodeView, enc: Seq<u8>) -> Seq<TreeOpView> {
    n.labels.map_values(|l: Seq<char>| TreeOpView::Put(Tree::LabelIndex, label_key(l, n.id), Seq::empty())).push(
        TreeOpView::Put(Tree::Nodes, id_bytes(n.id), enc),
    )
}

/// The tree operations of storing `node`.
pub fn add_node_ops(node: &Node, encoded: Vec<u8>) -> (r: Vec<TreeOp>)
    ensures
        ops_view(r@) == add_node_spec(node@, encoded@),
{
    let nid = node.id.0;
    let ghost fl = |l: Seq<char>| TreeOpView::Put(Tree::LabelIndex, label_key(l, nid), Seq::<u8>::empty());
    let mut ops: Vec<TreeOp> = Vec::new();
    let mut j: usize = 0;
    proof {
        assert(ops_view(ops@) =~= labels_view(node.labels@).subrange(0, 0).map_values(fl));
    }
    while j < node.labels.len()
        invariant
            j <= node.labels@.len(),
            nid == node.id.0,
            fl == (|l: Seq<char>| TreeOpView::Put(Tree::LabelIndex, label_key(l, nid), Seq::<u8>::empty())),
            ops_view(ops@) == labels_view(node.labels@).subrange(0, j as int).map_values(fl),
        decreases node.labels.len() - j,
    {
        let ghost before = ops_view(ops@);
        ops.push(TreeOp::Put { tree: Tree::LabelIndex, key: make_label_key(node.labels[j].as_str(), nid), value: Vec::new() });
        proof {
            let lv = labels_view(node.labels@);
            assert(lv[j as int] == node.labels@[j as int]@);
            assert(ops_view(ops@) =~= before.push(fl(lv[j as int])));
            assert(lv.subrange(0, j + 1) =~= lv.subrange(0, j as int).push(lv[j as int]));
            assert(lv.subrange(0, j + 1).map_values(fl) =~= lv.subrange(0, j as int).map_values(fl).push(fl(lv[j as int])));
        }
        j = j + 1;
    }
    proof {
        assert(labels_view(node.labels@).subrange(0, node.labels@.len() as int) =~= labels_view(node.labels@));
    }
    let ghost labels_ops = ops_view(ops@);
    ops.push(TreeOp::Put { tree: Tree::Nodes, key: id_key(nid), value: encoded });
    proof {
        assert(ops_view(ops@) =~= labels_ops.push(TreeOpView::Put(Tree::Nodes, id_bytes(nid), encoded@)));
    }
    ops
}

/// The entries of edge `e`: the edge itself, its two adjacency entries and
/// its relationship-type index entry.
pub open spec fn edge_entries(e: EdgeView) -> Seq<(Tree, Seq<u8>)> {
    seq![
        (Tree::Edges, id_bytes(e.id)),
        (Tree::OutgoingEdges, adj_key(e.from, e.id)),
        (Tree::IncomingEdges, adj_key(e.to, e.id)),
        (Tree::EdgeTypeIndex, label_key(e.rel_type, e.id)),
    ]
}

/// The tree operations of storing edge `e` (encoded as `enc`).
pub open spec fn add_edge_spec(e: EdgeView, enc: Seq<u8>) -> Seq<TreeOpView> {
    let k = edge_entries(e);
    seq![
        TreeOpView::Put(k[0].0, k[0].1, enc),
        TreeOpView::Put(k[1].0, k[1].1, Seq::empty()),
        TreeOpView::Put(k[2].0, k[2].1, Seq::empty()),
        TreeOpView::Put(k[3].0, k[3].1, Seq::empty()),
    ]
}

/// The tree operations of removing edge `e`.
pub open spec fn delete_edge_spec(e: EdgeView) -> Seq<TreeOpView> {
    edge_entries(e).map_values(|k: (Tree, Seq<u8>)| TreeOpView::Remove(k.0, k.1))
}

/// The tree operations of storing `edge`; an endpoint that is not stored is
/// `NodeNotFound`, the source checked first.
pub fn add_edge_ops(edge: &Edge, encoded: Vec<u8>, from_stored: bool, to_stored: bool) -> (r: Result<
    Vec<TreeOp>,
    DeepGraphError,
>)
    ensures
        !from_stored ==> r == Err::<Vec<TreeOp>, DeepGraphError>(DeepGraphError::NodeNotFound(edge.from.0)),
        from_stored && !to_stored ==> r == Err::<Vec<TreeOp>, DeepGraphError>(DeepGraphError::NodeNotFound(edge.to.0)),
        from_stored && to_stored ==> r is Ok && ops_view(r->Ok_0@) == add_edge_spec(edge@, encoded@),
{
    if !from_stored {
        return Err(DeepGraphError::NodeNotFound(edge.from.0));
    }
    if !to_stored {
        return Err(DeepGraphError::NodeNotFound(edge.to.0));
    }
    let e = edge.id.0;
    let mut ops: Vec<TreeOp> = Vec::new();
    ops.push(TreeOp::Put { tree: Tree::Edges, key: id_key(e), value: encoded });
    ops.push(TreeOp::Put { tree: Tree::OutgoingEdges, key: make_adj_key(edge.from.0, e), value: Vec::new() });
    ops.push(TreeOp::Put { tree: Tree::IncomingEdges, key: make_adj_key(edge.to.0, e), value: Vec::new() });
    ops.push(
        TreeOp::Put { tree: Tree::EdgeTypeIndex, key: make_label_key(edge.relationship_type.as_str(), e), value: Vec::new() },
    );
    proof {
        assert(ops_view(ops@) =~= add_edge_spec(edge@, encoded@));
    }
    Ok(ops)
}

/// The tree operations of removing `edge`.
pub fn delete_edge_ops(edge: &Edge) -> (r: Vec<TreeOp>)
    ensures
        ops_view(r@) == delete_edge_spec(edge@),
{
    let e = edge.id.0;
    let mut ops: Vec<TreeOp> = Vec::new();
    ops.push(TreeOp::Remove { tree: Tree::Edges, key: id_key(e) });
    ops.push(TreeOp::Remove { tree: Tree::OutgoingEdges, key: make_adj_key(edge.from.0, e) });
    ops.push(TreeOp::Remove { tree: Tree::IncomingEdges, key: make_adj_key(edge.to.0, e) });
    ops.push(TreeOp::Remove { tree: Tree::EdgeTypeIndex, key: make_label_key(edge.relationship_type.as_str(), e) });
    proof {
        assert(ops_view(ops@) =~= delete_edge_spec(edge@));
    }
    ops
}

/// The tree operations of deleting node `n` whose incident edges are
/// `edges`: the removal of every incident edge, every label-index entry of
/// the node, and finally the node entry.
pub open spec fn delete_spec(n: NodeView, edges: Seq<EdgeView>) -> Seq<TreeOpView> {
    edges.map_values(|e: EdgeView| delete_edge_spec(e)).flatten() + n.labels.map_values(
        |l: Seq<char>| TreeOpView::Remove(Tree::LabelIndex, label_key(l, n.id)),
    ).push(TreeOpView::Remove(Tree::Nodes, id_bytes(n.id)))
}

pub open spec fn edge_views(v: Seq<Edge>) -> Seq<EdgeView> {
    v.map_values(|e: Edge| e@)
}

/// The tree operations of deleting `node` (not found when absent) together
/// with the edges that touch it.
pub fn delete_node_ops(node: Option<&Node>, id: u128, edges: &Vec<Edge>) -> (r: Result<Vec<TreeOp>, DeepGraphError>)
    ensures
        match node {
            None => r == Err::<Vec<TreeOp>, DeepGraphError>(DeepGraphError::NodeNotFound(id)),
            Some(n) => r is Ok && ops_view(r->Ok_0@) == delete_spec(n@, edge_views(edges@)),
        },
{
    let n = match node {
        Some(n) => n,
        None => {
            return Err(DeepGraphError::NodeNotFound(id));
        },
    };
    let nid = n.id.0;
    let ghost ev = edge_views(edges@);
    let ghost fe = |e: EdgeView| delete_edge_spec(e);
    let ghost fl = |l: Seq<char>| TreeOpView::Remove(Tree::LabelIndex, label_key(l, nid));
    let mut ops: Vec<TreeOp> = Vec::new();
    let mut i: usize = 0;
    proof {
        assert(ev.subrange(0, 0).map_values(fe) =~= Seq::<Seq<TreeOpView>>::empty());
        assert(Seq::<Seq<TreeOpView>>::empty().flatten() =~= Seq::<TreeOpView>::empty());
        assert(ops_view(ops@) =~= Seq::<TreeOpView>::empty());
    }
    while i < edges.len()
        invariant
            i <= edges@.len(),
            ev == edge_views(edges@),
            fe == (|e: EdgeView| delete_edge_spec(e)),
            ops_view(ops@) == ev.subrange(0, i as int).map_values(fe).flatten(),
        decreases edges.len() - i,
    {
        let part = delete_edge_ops(&edges[i]);
        let ghost before = ops_view(ops@);
        proof {
            assert(ev[i as int] == edges@[i as int]@);
            let s0 = ev.subrange(0, i as int).map_values(fe);
            assert(ev.subrange(0, i + 1).map_values(fe) =~= s0.push(fe(ev[i as int])));
            s0.lemma_flatten_push(fe(ev[i as int]));
        }
        let mut k: usize = 0;
        while k < part.len()
            invariant
                k <= part@.len(),
                ops_view(ops@) == before + ops_view(part@).subrange(0, k as int),
            decreases part.len() - k,
        {
            proof {
                assert(ops_view(part@)[k as int] == part@[k as int]@);
            }
            let op = match &part[k] {
                TreeOp::Put { tree, key, value } => TreeOp::Put { tree: *tree, key: key.clone(), value: value.clone() },
                TreeOp::Remove { tree, key } => TreeOp::Remove { tree: *tree, key: key.clone() },
            };
            proof {
                assert(op@ == part@[k as int]@);
            }
            let ghost prev = ops_view(ops@);
            ops.push(op);
            proof {
                assert(ops_view(ops@) =~= prev.push(op@));
                assert(ops_view(part@).subrange(0, k + 1) =~= ops_view(part@).subrange(0, k as int).push(ops_view(part@)[k as int]));
                assert(ops_view(ops@) =~= before + ops_view(part@).subrange(0, k + 1));
            }
            k = k + 1;
        }
        proof {
            assert(ops_view(part@).subrange(0, part@.len() as int) =~= ops_view(part@));
        }
        i = i + 1;
    }
    proof {
        assert(ev.subrange(0, edges@.len() as int) =~= ev);
    }
    let ghost first = ops_view(ops@);
    let mut j: usize = 0;
    proof {
        assert(ops_view(ops@) =~= first + labels_view(n.labels@).subrange(0, 0).map_values(fl));
    }
    while j < n.labels.len()
        invariant
            j <= n.labels@.len(),
            nid == n.id.0,
            fl == (|l: Seq<char>| TreeOpView::Remove(Tree::LabelIndex, label_key(l, nid))),
            ops_view(ops@) == first + labels_view(n.labels@).subrange(0, j as int).map_values(fl),
        decreases n.labels.len() - j,
    {
        let ghost before = ops_view(ops@);
        ops.push(TreeOp::Remove { tree: Tree::LabelIndex, key: make_label_key(n.labels[j].as_str(), nid) });
        proof {
            let lv = labels_view(n.labels@);
            assert(lv[j as int] == n.labels@[j as int]@);
            assert(ops_view(ops@) =~= before.push(fl(lv[j as int])));
            assert(lv.subrange(0, j + 1) =~= lv.subrange(0, j as int).push(lv[j as int]));
            assert(lv.subrange(0, j + 1).map_values(fl) =~= lv.subrange(0, j as int).map_values(fl).push(fl(lv[j as int])));
            assert(ops_view(ops@) =~= first + lv.subrange(0, j + 1).map_values(fl));
        }
        j = j + 1;
    }
    proof {
        assert(labels_view(n.labels@).subrange(0, n.labels@.len() as int) =~= labels_view(n.labels@));
    }
    let ghost mid = ops_view(ops@);
    ops.push(TreeOp::Remove { tree: Tree::Nodes, key: id_key(nid) });
    proof {
        assert(ops_view(ops@) =~= mid.push(TreeOpView::Remove(Tree::Nodes, id_bytes(nid))));
        assert(ops_view(ops@) =~= delete_spec(n@, ev));
    }
    Ok(ops)
}

/// The bytes of a snapshot export: every node payload framed, then every
/// edge payload framed.
pub open spec fn export_spec(nodes: Seq<Seq<u8>>, edges: Seq<Seq<u8>>) -> Seq<u8> {
    (nodes + edges).map_values(|p: Seq<u8>| frame_of(p)).flatten()
}

/// Frames the node payloads and then the edge payloads of a snapshot.
pub fn export_snapshot(nodes: &Vec<Vec<u8>>, edges: &Vec<Vec<u8>>) -> (r: Vec<u8>)
    requires
        nodes@.len() + edges@.len() <= usize::MAX,
        forall|i: int| 0 <= i < nodes@.len() ==> #[trigger] nodes@[i]@.len() <= u32::MAX,
        forall|i: int| 0 <= i < edges@.len() ==> #[trigger] edges@[i]@.len() <= u32::MAX,
    ensures
        r@ == export_spec(nodes@.map_values(|v: Vec<u8>| v@), edges@.map_values(|v: Vec<u8>| v@)),
{
    let ghost all = nodes@.map_values(|v: Vec<u8>| v@) + edges@.map_values(|v: Vec<u8>| v@);
    let ghost f = |p: Seq<u8>| frame_of(p);
    let mut out: Vec<u8> = Vec::new();
    let mut k: usize = 0;
    let total = nodes.len() + edges.len();
    proof {
        assert(all.subrange(0, 0).map_values(f) =~= Seq::<Seq<u8>>::empty());
        assert(Seq::<Seq<u8>>::empty().flatten() =~= Seq::<u8>::empty());
    }
    while k < total
        invariant
            total == nodes@.len() + edges@.len(),
            all == nodes@.map_values(|v: Vec<u8>| v@) + edges@.map_values(|v: Vec<u8>| v@),
            f == (|p: Seq<u8>| frame_of(p)),
            k <= total,
            forall|i: int| 0 <= i < nodes@.len() ==> #[trigger] nodes@[i]@.len() <= u32::MAX,
            forall|i: int| 0 <= i < edges@.len() ==> #[trigger] edges@[i]@.len() <= u32::MAX,
            out@ == all.subrange(0, k as int).map_values(f).flatten(),
        decreases total - k,
    {
        let frame = if k < nodes.len() {
            encode_frame(&nodes[k])
        } else {
            encode_frame(&edges[k - nodes.len()])
        };
        proof {
            assert(frame@ == f(all[k as int]));
            let s0 = all.subrange(0, k as int).map_values(f);
            assert(all.subrange(0, k + 1).map_values(f) =~= s0.push(f(all[k as int])));
            s0.lemma_flatten_push(f(all[k as int]));
        }
        let mut i: usize = 0;
        let ghost start = out@;
        while i < frame.len()
            invariant
                i <= frame@.len(),
                out@ == start + frame@.subrange(0, i as int),
            decreases frame.len() - i,
        {
            out.push(frame[i]);
            proof {
                assert(out@ =~= start + frame@.subrange(0, i + 1));
            }
            i = i + 1;
        }
        proof {
            assert(frame@.subrange(0, frame@.len() as int) =~= frame@);
        }
        k = k + 1;
    }
    proof {
        assert(all.subrange(0, total as int) =~= all);
        assert(all.map_values(f) =~= (nodes@.map_values(|v: Vec<u8>| v@) + edges@.map_values(|v: Vec<u8>| v@)).map_values(
            |p: Seq<u8>| frame_of(p),
        ));
    }
    out
}

} // verus!
