//! Write-ahead log: entries, the length-prefixed segment framing, the writer's
//! sequencing and rotation decisions, and committed-only recovery.
use vstd::prelude::*;

use crate::error::DeepGraphError;
use crate::graph::{Edge, EdgeId, Node, NodeId, edge_wf, node_wf};
use crate::memory::{GraphView, MemoryStorage, detach};

verus! {

/// Log sequence number.
pub type LSN = u64;

/// Settings of the write-ahead log.
#[derive(Debug)]
pub struct WALConfig {
    pub wal_dir: String,
    pub segment_size: usize,
    pub sync_on_write: bool,
    pub checkpoint_threshold: usize,
}

impl WALConfig {
    /// Defaults: `./data/wal`, 64 MiB segments, flush after every append,
    /// rotation after 1000 entries.
    pub fn new() -> (r: WALConfig)
        ensures
            r.wal_dir@ == "./data/wal"@,
            r.segment_size == 64 * 1024 * 1024,
            r.sync_on_write,
            r.checkpoint_threshold == 1000,
    {
        let wal_dir = "./data/wal".to_string();
        proof {
            vstd::string::to_string_from_display_ensures_for_str("./data/wal", wal_dir);
        }
        WALConfig { wal_dir, segment_size: 64 * 1024 * 1024, sync_on_write: true, checkpoint_threshold: 1000 }
    }

    pub fn with_dir(self, dir: String) -> (r: WALConfig)
        ensures
            r.wal_dir == dir,
            r.segment_size == self.segment_size,
            r.sync_on_write == self.sync_on_write,
            r.checkpoint_threshold == self.checkpoint_threshold,
    {
        WALConfig { wal_dir: dir, ..self }
    }

    pub fn with_segment_size(self, size: usize) -> (r: WALConfig)
        ensures
            r.wal_dir == self.wal_dir,
            r.segment_size == size,
            r.sync_on_write == self.sync_on_write,
            r.checkpoint_threshold == self.checkpoint_threshold,
    {
        WALConfig { segment_size: size, ..self }
    }

    pub fn with_sync(self, sync: bool) -> (r: WALConfig)
        ensures
            r.wal_dir == self.wal_dir,
            r.segment_size == self.segment_size,
            r.sync_on_write == sync,
            r.checkpoint_threshold == self.checkpoint_threshold,
    {
        WALConfig { sync_on_write: sync, ..self }
    }
}

/// What a log entry records.
#[derive(Debug)]
#[allow(inconsistent_fields)]
pub enum WALOperation {
    BeginTxn,
    CommitTxn,
    AbortTxn,
    InsertNode { node: Node },
    UpdateNode { node: Node },
    DeleteNode { id: NodeId },
    InsertEdge { edge: Edge },
    UpdateEdge { edge: Edge },
    DeleteEdge { id: EdgeId },
    Checkpoint,
}

/// One log entry.
#[derive(Debug)]
pub struct WALEntry {
    pub lsn: LSN,
    pub txn_id: u64,
    pub operation: WALOperation,
    pub timestamp: u64,
}

/// The little-endian value of four bytes.
pub open spec fn le32(b: Seq<u8>) -> nat {
    b[0] as nat + 256 * (b[1] as nat) + 65536 * (b[2] as nat) + 16777216 * (b[3] as nat)
}

/// The payloads of a segment: each entry is a four-byte little-endian length
/// and that many bytes; a truncated entry at the end ends the log.
pub open spec fn frames(b: Seq<u8>) -> Seq<Seq<u8>>
    decreases b.len(),
{
    if b.len() < 4 {
        Seq::empty()
    } else if b.len() - 4 < le32(b) {
        Seq::empty()
    } else {
        seq![b.subrange(4, 4 + le32(b) as int)] + frames(b.subrange(4 + le32(b) as int, b.len() as int))
    }
}

/// The bytes of one framed entry.
pub open spec fn frame_of(p: Seq<u8>) -> Seq<u8> {
    seq![
        (p.len() % 256) as u8,
        ((p.len() / 256) % 256) as u8,
        ((p.len() / 65536) % 256) as u8,
        ((p.len() / 16777216) % 256) as u8,
    ] + p
}

/// Frames a payload: its length as four little-endian bytes, then the bytes.
pub fn encode_frame(payload: &Vec<u8>) -> (r: Vec<u8>)
    requires
        payload@.len() <= u32::MAX,
    ensures
        r@ == frame_of(payload@),
{
    let n = payload.len();
    let mut r: Vec<u8> = Vec::new();
    r.push((n % 256) as u8);
    r.push(((n / 256) % 256) as u8);
    r.push(((n / 65536) % 256) as u8);
    r.push(((n / 16777216) % 256) as u8);
    let mut i: usize = 0;
    while i < n
        invariant
            n == payload@.len(),
            i <= n,
            r@.len() == 4 + i,
            forall|j: int| 0 <= j < 4 ==> r@[j] == frame_of(payload@)[j],
            forall|j: int| 0 <= j < i ==> r@[4 + j] == payload@[j],
        decreases n - i,
    {
        r.push(payload[i]);
        i = i + 1;
    }
    proof {
        assert(r@ =~= frame_of(payload@));
    }
    r
}

/// The length field of a frame gives back the payload length.
proof fn lemma_le32_frame(p: Seq<u8>)
    requires
        p.len() <= u32::MAX,
    ensures
        le32(frame_of(p)) == p.len(),
{
    let n = p.len();
    let f = frame_of(p);
    assert(f[0] as nat == n % 256);
    assert(f[1] as nat == (n / 256) % 256);
    assert(f[2] as nat == (n / 65536) % 256);
    assert(f[3] as nat == (n / 16777216) % 256);
    assert(n % 256 + 256 * ((n / 256) % 256) + 65536 * ((n / 65536) % 256) + 16777216 * ((n / 16777216) % 256) == n)
        by (nonlinear_arith)
        requires
            n <= u32::MAX,
    ;
}

/// Reading back a framed payload followed by more bytes yields the payload
/// and then whatever those bytes hold.
pub proof fn law_frame_round_trip(p: Seq<u8>, rest: Seq<u8>)
    requires
        p.len() <= u32::MAX,
    ensures
        frames(frame_of(p) + rest) == seq![p] + frames(rest),
{
    let b = frame_of(p) + rest;
    lemma_le32_frame(p);
    assert(le32(b) == le32(frame_of(p))) by {
        assert(b[0] == frame_of(p)[0] && b[1] == frame_of(p)[1] && b[2] == frame_of(p)[2] && b[3] == frame_of(p)[3]);
    }
    assert(b.subrange(4, 4 + p.len() as int) =~= p);
    assert(b.subrange(4 + p.len() as int, b.len() as int) =~= rest);
}

/// Splits a segment's bytes into entry payloads; a truncated trailing entry
/// is treated as the end of the log.
pub fn split_frames(bytes: &Vec<u8>) -> (r: Vec<Vec<u8>>)
    ensures
        r@.map_values(|v: Vec<u8>| v@) == frames(bytes@),
{
    let mut out: Vec<Vec<u8>> = Vec::new();
    let mut pos: usize = 0;
    let len = bytes.len();
    proof {
        assert(bytes@.subrange(0, len as int) =~= bytes@);
    }
    loop
        invariant_except_break
            len == bytes@.len(),
            pos <= len,
            out@.map_values(|v: Vec<u8>| v@) + frames(bytes@.subrange(pos as int, len as int)) == frames(bytes@),
        ensures
            out@.map_values(|v: Vec<u8>| v@) == frames(bytes@),
        decreases len - pos,
    {
        let ghost rest = bytes@.subrange(pos as int, len as int);
        if len - pos < 4 {
            proof {
                assert(frames(rest) =~= Seq::empty());
                assert(out@.map_values(|v: Vec<u8>| v@) + Seq::<Seq<u8>>::empty() =~= out@.map_values(|v: Vec<u8>| v@));
            }
            break;
        }
        let n: usize = bytes[pos] as usize + 256 * (bytes[pos + 1] as usize) + 65536 * (bytes[pos + 2] as usize)
            + 16777216 * (bytes[pos + 3] as usize);
        proof {
            assert(n == le32(rest));
        }
        if len - pos - 4 < n {
            proof {
                assert(frames(rest) =~= Seq::empty());
                assert(out@.map_values(|v: Vec<u8>| v@) + Seq::<Seq<u8>>::empty() =~= out@.map_values(|v: Vec<u8>| v@));
            }
            break;
        }
        let mut payload: Vec<u8> = Vec::new();
        let mut i: usize = 0;
        while i < n
            invariant
                len == bytes@.len(),
                pos + 4 + n <= len,
                i <= n,
                payload@ == bytes@.subrange(pos + 4, pos + 4 + i),
            decreases n - i,
        {
            payload.push(bytes[pos + 4 + i]);
            proof {
                assert(payload@ =~= bytes@.subrange(pos + 4, pos + 4 + i + 1));
            }
            i = i + 1;
        }
        let ghost before = out@;
        out.push(payload);
        proof {
            assert(rest.subrange(4, 4 + n as int) =~= bytes@.subrange(pos + 4, pos + 4 + n));
            assert(rest.subrange(4 + n as int, rest.len() as int) =~= bytes@.subrange(pos + 4 + n, len as int));
            assert(out@.map_values(|v: Vec<u8>| v@) =~= before.map_values(|v: Vec<u8>| v@).push(bytes@.subrange(pos + 4, pos + 4 + n)));
            assert(out@.map_values(|v: Vec<u8>| v@) + frames(bytes@.subrange(pos + 4 + n, len as int)) =~= before.map_values(
                |v: Vec<u8>| v@,
            ) + frames(rest));
        }
        pos = pos + 4 + n;
    }
    out
}

/// The writer's sequencing state: the next LSN, the open segment and how many
/// entries it holds.
#[derive(Debug)]
pub struct WalCursor {
    pub next_lsn: u64,
    pub segment_number: u64,
    pub entries_in_segment: u64,
    pub checkpoint_threshold: u64,
}

/// What the writer does for one append.
#[derive(Debug, Clone, Copy, PartialEq, Eq)]
pub struct AppendStep {
    /// The LSN the new entry carries.
    pub lsn: u64,
    /// Whether a new segment is opened after writing the entry.
    pub rotate: bool,
}

impl WalCursor {
    /// A cursor at LSN 0 on segment 0.
    pub fn new(checkpoint_threshold: u64) -> (r: WalCursor)
        requires
            checkpoint_threshold > 0,
        ensures
            r.next_lsn == 0,
            r.segment_number == 0,
            r.entries_in_segment == 0,
            r.checkpoint_threshold == checkpoint_threshold,
    {
        WalCursor { next_lsn: 0, segment_number: 0, entries_in_segment: 0, checkpoint_threshold }
    }

    /// Decides the LSN of the next entry and whether the segment rotates after
    /// it: LSNs increase by one, and a segment is sealed once it holds
    /// `checkpoint_threshold` entries (never in the middle of one).
    pub fn next_append(&mut self) -> (r: Result<AppendStep, DeepGraphError>)
        requires
            old(self).entries_in_segment < old(self).checkpoint_threshold,
        ensures
            final(self).checkpoint_threshold == old(self).checkpoint_threshold,
            final(self).entries_in_segment < final(self).checkpoint_threshold,
            old(self).next_lsn == u64::MAX || (old(self).segment_number == u64::MAX && old(self).entries_in_segment + 1
                == old(self).checkpoint_threshold) ==> r is Err && *final(self) == *old(self),
            !(old(self).next_lsn == u64::MAX || (old(self).segment_number == u64::MAX && old(self).entries_in_segment + 1
                == old(self).checkpoint_threshold)) ==> match r {
                Ok(step) => {
                    &&& step.lsn == old(self).next_lsn
                    &&& final(self).next_lsn == old(self).next_lsn + 1
                    &&& step.rotate == (old(self).entries_in_segment + 1 == old(self).checkpoint_threshold)
                    &&& step.rotate ==> final(self).segment_number == old(self).segment_number + 1
                        && final(self).entries_in_segment == 0
                    &&& !step.rotate ==> final(self).segment_number == old(self).segment_number
                        && final(self).entries_in_segment == old(self).entries_in_segment + 1
                },
                Err(_) => false,
            },
    {
        if self.next_lsn == u64::MAX {
            return Err(DeepGraphError::StorageError("log sequence numbers exhausted".to_string()));
        }
        let rotate = self.entries_in_segment + 1 == self.checkpoint_threshold;
        if rotate && self.segment_number == u64::MAX {
            return Err(DeepGraphError::StorageError("segment numbers exhausted".to_string()));
        }
        let lsn = self.next_lsn;
        self.next_lsn = self.next_lsn + 1;
        if rotate {
            self.segment_number = self.segment_number + 1;
            self.entries_in_segment = 0;
        } else {
            self.entries_in_segment = self.entries_in_segment + 1;
        }
        Ok(AppendStep { lsn, rotate })
    }
}

/// The effect of one logged operation on the graph, or `None` where the
/// store refuses it.
pub open spec fn apply_op(g: GraphView, op: WALOperation) -> Option<GraphView> {
    match op {
        WALOperation::InsertNode { node } => if node_wf(node@) {
            Some(GraphView { nodes: g.nodes.insert(node@.id, node@), edges: g.edges })
        } else {
            None
        },
        WALOperation::UpdateNode { node } => if node_wf(node@) && g.nodes.contains_key(node@.id) {
            Some(GraphView { nodes: g.nodes.insert(node@.id, node@), edges: g.edges })
        } else {
            None
        },
        WALOperation::DeleteNode { id } => if g.nodes.contains_key(id.0) {
            Some(GraphView { nodes: g.nodes.remove(id.0), edges: detach(g.edges, id.0) })
        } else {
            None
        },
        WALOperation::InsertEdge { edge } => if edge_wf(edge@) && g.nodes.contains_key(edge@.from) && g.nodes.contains_key(
            edge@.to,
        ) {
            Some(GraphView { nodes: g.nodes, edges: g.edges.insert(edge@.id, edge@) })
        } else {
            None
        },
        WALOperation::UpdateEdge { edge } => if edge_wf(edge@) && g.edges.contains_key(edge@.id) && g.nodes.contains_key(
            edge@.from,
        ) && g.nodes.contains_key(edge@.to) {
            Some(GraphView { nodes: g.nodes, edges: g.edges.insert(edge@.id, edge@) })
        } else {
            None
        },
        WALOperation::DeleteEdge { id } => if g.edges.contains_key(id.0) {
            Some(GraphView { nodes: g.nodes, edges: g.edges.remove(id.0) })
        } else {
            None
        },
        _ => Some(g),
    }
}

/// The transactions whose commit record is in the log.
pub open spec fn commit_set(entries: Seq<WALEntry>) -> Set<u64> {
    Set::new(|t: u64| exists|i: int| 0 <= i < entries.len() && entries[i].txn_id == t && entries[i].operation is CommitTxn)
}

/// Applies, in log order, the operations of the transactions in `c`.
pub open spec fn replay(g: GraphView, entries: Seq<WALEntry>, c: Set<u64>) -> Option<GraphView>
    decreases entries.len(),
{
    if entries.len() == 0 {
        Some(g)
    } else if c.contains(entries[0].txn_id) {
        match apply_op(g, entries[0].operation) {
            Some(g2) => replay(g2, entries.drop_first(), c),
            None => None,
        }
    } else {
        replay(g, entries.drop_first(), c)
    }
}

/// How many entries belong to the transactions in `c`.
pub open spec fn count_in(entries: Seq<WALEntry>, c: Set<u64>) -> nat
    decreases entries.len(),
{
    if entries.len() == 0 {
        0
    } else {
        (if c.contains(entries[0].txn_id) { 1nat } else { 0nat }) + count_in(entries.drop_first(), c)
    }
}

/// Replays committed transactions from the log into a store.
#[derive(Debug)]
pub struct WALRecovery {
    pub config: WALConfig,
}

impl WALRecovery {
    pub fn new(config: WALConfig) -> (r: WALRecovery)
        ensures
            r.config == config,
    {
        WALRecovery { config }
    }

    /// The ids of the transactions that have a commit record.
    pub fn committed_transactions(entries: &Vec<WALEntry>) -> (r: Vec<u64>)
        ensures
            forall|t: u64| #[trigger] r@.contains(t) <==> commit_set(entries@).contains(t),
    {
        let mut r: Vec<u64> = Vec::new();
        let mut i: usize = 0;
        while i < entries.len()
            invariant
                i <= entries@.len(),
                forall|t: u64| #[trigger] r@.contains(t) <==> exists|j: int| 0 <= j < i && entries@[j].txn_id == t
                    && entries@[j].operation is CommitTxn,
            decreases entries.len() - i,
        {
            let ghost before = r@;
            if let WALOperation::CommitTxn = entries[i].operation {
                r.push(entries[i].txn_id);
            }
            proof {
                assert forall|t: u64| #[trigger] r@.contains(t) <==> exists|j: int| 0 <= j < i + 1 && entries@[j].txn_id == t
                    && entries@[j].operation is CommitTxn by {
                    if r@.contains(t) {
                        let k = choose|k: int| 0 <= k < r@.len() && r@[k] == t;
                        if k < before.len() {
                            assert(before.contains(t));
                        } else {
                            assert(entries@[i as int].txn_id == t);
                        }
                    }
                    if exists|j: int| 0 <= j < i + 1 && entries@[j].txn_id == t && entries@[j].operation is CommitTxn {
                        let j = choose|j: int| 0 <= j < i + 1 && entries@[j].txn_id == t && entries@[j].operation is CommitTxn;
                        if j < i {
                            assert(before.contains(t));
                            let k = choose|k: int| 0 <= k < before.len() && before[k] == t;
                            assert(r@[k] == t);
                        } else {
                            assert(r@[r@.len() - 1] == t);
                        }
                    }
                }
            }
            i = i + 1;
        }
        r
    }

    /// Applies one logged operation to the store.
    fn apply(storage: &mut MemoryStorage, op: &WALOperation) -> (r: Result<(), DeepGraphError>)
        requires
            old(storage).wf(),
        ensures
            final(storage).wf(),
            match apply_op(old(storage)@, *op) {
                Some(g) => r is Ok && final(storage)@ == g,
                None => r is Err,
            },
    {
        match op {
            WALOperation::InsertNode { node } => {
                if !node.is_well_formed() {
                    return Err(DeepGraphError::SerializationError("malformed node".to_string()));
                }
                let _ = storage.add_node(node.deep_clone());
                Ok(())
            },
            WALOperation::UpdateNode { node } => {
                if !node.is_well_formed() {
                    return Err(DeepGraphError::SerializationError("malformed node".to_string()));
                }
                storage.update_node(node.deep_clone())
            },
            WALOperation::DeleteNode { id } => storage.delete_node(*id),
            WALOperation::InsertEdge { edge } => {
                if !edge.is_well_formed() {
                    return Err(DeepGraphError::SerializationError("malformed edge".to_string()));
                }
                match storage.add_edge(edge.deep_clone()) {
                    Ok(_) => Ok(()),
                    Err(e) => Err(e),
                }
            },
            WALOperation::UpdateEdge { edge } => {
                if !edge.is_well_formed() {
                    return Err(DeepGraphError::SerializationError("malformed edge".to_string()));
                }
                storage.update_edge(edge.deep_clone())
            },
            WALOperation::DeleteEdge { id } => storage.delete_edge(*id),
            _ => Ok(()),
        }
    }

    /// Two passes over the log (all segments in order): collect the committed
    /// transactions, then replay their entries in order. Returns how many
    /// entries were replayed; a refused operation stops recovery with its
    /// error.
    pub fn recover(&self, storage: &mut MemoryStorage, entries: &Vec<WALEntry>) -> (r: Result<u64, DeepGraphError>)
        requires
            old(storage).wf(),
            entries@.len() < u64::MAX,
        ensures
            final(storage).wf(),
            match replay(old(storage)@, entries@, commit_set(entries@)) {
                Some(g) => r == Ok::<u64, DeepGraphError>(count_in(entries@, commit_set(entries@)) as u64)
                    && final(storage)@ == g,
                None => r is Err,
            },
    {
        let committed = WALRecovery::committed_transactions(entries);
        let ghost c = commit_set(entries@);
        let mut recovered: u64 = 0;
        let mut i: usize = 0;
        proof {
            assert(entries@.subrange(0, entries@.len() as int) =~= entries@);
        }
        while i < entries.len()
            invariant
                storage.wf(),
                i <= entries@.len(),
                entries@.len() < u64::MAX,
                recovered <= i,
                c == commit_set(entries@),
                forall|t: u64| #[trigger] committed@.contains(t) <==> c.contains(t),
                replay(old(storage)@, entries@, c) == replay(storage@, entries@.subrange(i as int, entries@.len() as int), c),
                count_in(entries@, c) == recovered + count_in(entries@.subrange(i as int, entries@.len() as int), c),
            decreases entries.len() - i,
        {
            let ghost rest = entries@.subrange(i as int, entries@.len() as int);
            proof {
                assert(rest.drop_first() =~= entries@.subrange(i + 1, entries@.len() as int));
                assert(rest[0] == entries@[i as int]);
            }
            let ghost g0 = storage@;
            let e = &entries[i];
            if contains_id(&committed, e.txn_id) {
                let res = WALRecovery::apply(storage, &e.operation);
                if res.is_err() {
                    proof {
                        assert(apply_op(g0, rest[0].operation) is None);
                        assert(replay(g0, rest, c) is None);
                    }
                    return Err(res.unwrap_err());
                }
                recovered = recovered + 1;
            }
            i = i + 1;
        }
        proof {
            assert(entries@.subrange(i as int, entries@.len() as int) =~= Seq::<WALEntry>::empty());
        }
        Ok(recovered)
    }
}

fn contains_id(v: &Vec<u64>, x: u64) -> (r: bool)
    ensures
        r == v@.contains(x),
{
    let mut i: usize = 0;
    while i < v.len()
        invariant
            i <= v@.len(),
            forall|j: int| 0 <= j < i ==> v@[j] != x,
        decreases v.len() - i,
    {
        if v[i] == x {
            return true;
        }
        i = i + 1;
    }
    false
}

/// Recovery only ever applies committed work: replaying the whole log gives
/// the same result as replaying just the entries of committed transactions,
/// so aborted and unfinished transactions leave no trace.
pub proof fn law_recovery_exclusion(g: GraphView, entries: Seq<WALEntry>, c: Set<u64>)
    ensures
        replay(g, entries, c) == replay(g, entries.filter(|e: WALEntry| c.contains(e.txn_id)), c),
    decreases entries.len(),
{
    let f = |e: WALEntry| c.contains(e.txn_id);
    if entries.len() > 0 {
        let e0 = entries[0];
        let rest = entries.drop_first();
        assert(entries =~= seq![e0] + rest);
        rest.lemma_filter_prepend(e0, f);
        law_recovery_exclusion(g, rest, c);
        if c.contains(e0.txn_id) {
            let fe = entries.filter(f);
            assert(fe =~= seq![e0] + rest.filter(f));
            assert(fe.drop_first() =~= rest.filter(f));
            match apply_op(g, e0.operation) {
                Some(g2) => {
                    law_recovery_exclusion(g2, rest, c);
                },
                None => {},
            }
        } else {
            assert(entries.filter(f) =~= rest.filter(f));
        }
    } else {
        assert(entries.filter(f) =~= entries);
    }
}

/// Recovery into an empty store yields exactly the committed transactions
/// applied in log order to an empty graph.
pub proof fn law_recovery_equivalence(entries: Seq<WALEntry>, g: GraphView)
    requires
        replay(GraphView { nodes: Map::empty(), edges: Map::empty() }, entries, commit_set(entries)) == Some(g),
    ensures
        replay(
            GraphView { nodes: Map::empty(), edges: Map::empty() },
            entries.filter(|e: WALEntry| commit_set(entries).contains(e.txn_id)),
            commit_set(entries),
        ) == Some(g),
{
    law_recovery_exclusion(GraphView { nodes: Map::empty(), edges: Map::empty() }, entries, commit_set(entries));
}

} // verus!
