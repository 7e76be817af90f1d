//! Multi-version concurrency control: versions, snapshots and transactions.
use vstd::prelude::*;

use std::collections::HashMap;

use crate::error::DeepGraphError;
use crate::graph::{Node, NodeId};

verus! {

/// Identifier of a transaction.
#[derive(Debug, Clone, Copy, PartialEq, Eq, Hash, PartialOrd, Ord)]
pub struct TransactionId(pub u64);

/// Logical timestamps come from the transaction id counter.
pub type Timestamp = u64;

/// Transaction `t` is visible to a snapshot taken at `ts` with the active set
/// `active`: it began before the snapshot and was no longer running.
pub open spec fn txn_visible(ts: u64, active: Set<u64>, t: u64) -> bool {
    t < ts && !active.contains(t)
}

/// A version created by `xmin` and deleted by `xmax` is visible to the
/// snapshot: its creator is visible and its deleter, if any, is not.
pub open spec fn version_visible(ts: u64, active: Set<u64>, xmin: u64, xmax: Option<u64>) -> bool {
    &&& txn_visible(ts, active, xmin)
    &&& match xmax {
        None => true,
        Some(x) => !txn_visible(ts, active, x),
    }
}

/// The id inside an optional transaction.
pub open spec fn opt_id(t: Option<TransactionId>) -> Option<u64> {
    match t {
        Some(x) => Some(x.0),
        None => None,
    }
}

/// The ids of a list of transactions.
pub open spec fn id_set(v: Seq<TransactionId>) -> Set<u64> {
    v.map_values(|t: TransactionId| t.0).to_set()
}

/// The timestamp and the transactions active when a snapshot was taken.
#[derive(Debug)]
pub struct Snapshot {
    pub timestamp: Timestamp,
    pub active_txns: Vec<TransactionId>,
}

impl Snapshot {
    pub open spec fn active(&self) -> Set<u64> {
        id_set(self.active_txns@)
    }

    pub fn new(timestamp: Timestamp, active_txns: Vec<TransactionId>) -> (r: Snapshot)
        ensures
            r.timestamp == timestamp,
            r.active_txns@ == active_txns@,
    {
        Snapshot { timestamp, active_txns }
    }

    /// Whether `txn` committed before this snapshot was taken.
    pub fn is_txn_visible(&self, txn: TransactionId) -> (r: bool)
        ensures
            r == txn_visible(self.timestamp, self.active(), txn.0),
    {
        if txn.0 >= self.timestamp {
            return false;
        }
        let mut i: usize = 0;
        while i < self.active_txns.len()
            invariant
                i <= self.active_txns@.len(),
                forall|j: int| 0 <= j < i ==> self.active_txns@[j].0 != txn.0,
            decreases self.active_txns.len() - i,
        {
            if self.active_txns[i].0 == txn.0 {
                proof {
                    assert(self.active_txns@.map_values(|t: TransactionId| t.0)[i as int] == txn.0);
                }
                return false;
            }
            i = i + 1;
        }
        proof {
            let ids = self.active_txns@.map_values(|t: TransactionId| t.0);
            if ids.contains(txn.0) {
                let j = choose|j: int| 0 <= j < ids.len() && ids[j] == txn.0;
                assert(self.active_txns@[j].0 == txn.0);
            }
        }
        true
    }

    /// Whether a version created by `xmin` and deleted by `xmax` is visible.
    pub fn is_version_visible(&self, xmin: TransactionId, xmax: Option<TransactionId>) -> (r: bool)
        ensures
            r == version_visible(self.timestamp, self.active(), xmin.0, opt_id(xmax)),
    {
        if !self.is_txn_visible(xmin) {
            return false;
        }
        match xmax {
            Some(x) => !self.is_txn_visible(x),
            None => true,
        }
    }
}

/// One version of an item.
#[derive(Debug)]
pub struct Version<T> {
    pub data: T,
    pub xmin: TransactionId,
    pub xmax: Option<TransactionId>,
    pub created_at: Timestamp,
    pub deleted_at: Option<Timestamp>,
}

/// Visible at time `ts`: created no later than `ts` and not deleted by then.
pub open spec fn visible_at<T>(v: Version<T>, ts: u64) -> bool {
    &&& v.created_at <= ts
    &&& match v.deleted_at {
        None => true,
        Some(d) => d > ts,
    }
}

/// Visible to the snapshot `(ts, active)`.
pub open spec fn visible_to<T>(v: Version<T>, ts: u64, active: Set<u64>) -> bool {
    version_visible(ts, active, v.xmin.0, opt_id(v.xmax))
}

impl<T> Version<T> {
    pub fn new(data: T, txn_id: TransactionId, timestamp: Timestamp) -> (r: Version<T>)
        ensures
            r.data == data,
            r.xmin == txn_id,
            r.xmax is None,
            r.created_at == timestamp,
            r.deleted_at is None,
    {
        Version { data, xmin: txn_id, xmax: None, created_at: timestamp, deleted_at: None }
    }

    /// Whether the version is visible at time `snapshot_ts`.
    pub fn is_visible(&self, snapshot_ts: Timestamp) -> (r: bool)
        ensures
            r == visible_at(*self, snapshot_ts),
    {
        if self.created_at > snapshot_ts {
            return false;
        }
        match self.deleted_at {
            Some(d) => d > snapshot_ts,
            None => true,
        }
    }

    /// Records the deletion of this version by `txn_id` at `timestamp`.
    pub fn mark_deleted(&mut self, txn_id: TransactionId, timestamp: Timestamp)
        ensures
            final(self).data == old(self).data,
            final(self).xmin == old(self).xmin,
            final(self).created_at == old(self).created_at,
            final(self).xmax == Some(txn_id),
            final(self).deleted_at == Some(timestamp),
    {
        self.xmax = Some(txn_id);
        self.deleted_at = Some(timestamp);
    }

    /// Whether no transaction has deleted this version.
    pub fn is_active(&self) -> (r: bool)
        ensures
            r == self.xmax is None,
    {
        self.xmax.is_none()
    }
}

/// The data of the first version (newest first) that `ts` sees.
pub open spec fn first_visible_at<T>(s: Seq<Version<T>>, ts: u64) -> Option<T>
    decreases s.len(),
{
    if s.len() == 0 {
        None
    } else if visible_at(s[0], ts) {
        Some(s[0].data)
    } else {
        first_visible_at(s.drop_first(), ts)
    }
}

/// The data of the first version (newest first) that the snapshot sees.
pub open spec fn first_visible_to<T>(s: Seq<Version<T>>, ts: u64, active: Set<u64>) -> Option<T>
    decreases s.len(),
{
    if s.len() == 0 {
        None
    } else if visible_to(s[0], ts, active) {
        Some(s[0].data)
    } else {
        first_visible_to(s.drop_first(), ts, active)
    }
}

/// The data of the first version (newest first) nobody has deleted.
pub open spec fn first_active<T>(s: Seq<Version<T>>) -> Option<T>
    decreases s.len(),
{
    if s.len() == 0 {
        None
    } else if s[0].xmax is None {
        Some(s[0].data)
    } else {
        first_active(s.drop_first())
    }
}

/// The history of one item, newest version first.
#[derive(Debug)]
pub struct VersionChain<T> {
    versions: Vec<Version<T>>,
}

impl<T> VersionChain<T> {
    pub closed spec fn view(&self) -> Seq<Version<T>> {
        self.versions@
    }

    pub fn new() -> (r: VersionChain<T>)
        ensures
            r.view() == Seq::<Version<T>>::empty(),
    {
        VersionChain { versions: Vec::new() }
    }

    /// Adds `version` as the newest.
    pub fn add_version(&mut self, version: Version<T>)
        ensures
            final(self).view() == seq![version] + old(self).view(),
    {
        self.versions.insert(0, version);
        proof {
            assert(self.view() =~= seq![version] + old(self).view());
        }
    }

    /// The newest version visible at time `snapshot_ts`.
    pub fn get_visible_version(&self, snapshot_ts: Timestamp) -> (r: Option<&T>)
        ensures
            match r {
                Some(d) => first_visible_at(self.view(), snapshot_ts) == Some(*d),
                None => first_visible_at(self.view(), snapshot_ts) is None,
            },
    {
        let mut i: usize = 0;
        proof {
            assert(self.view().subrange(0, self.view().len() as int) =~= self.view());
        }
        while i < self.versions.len()
            invariant
                i <= self.versions@.len(),
                first_visible_at(self.view(), snapshot_ts) == first_visible_at(self.view().subrange(i as int, self.view().len() as int), snapshot_ts),
            decreases self.versions.len() - i,
        {
            let ghost rest = self.view().subrange(i as int, self.view().len() as int);
            proof {
                assert(rest.drop_first() =~= self.view().subrange(i + 1, self.view().len() as int));
            }
            if self.versions[i].is_visible(snapshot_ts) {
                return Some(&self.versions[i].data);
            }
            i = i + 1;
        }
        None
    }

    /// The newest version visible to `snapshot`.
    pub fn get_visible_for(&self, snapshot: &Snapshot) -> (r: Option<&T>)
        ensures
            match r {
                Some(d) => first_visible_to(self.view(), snapshot.timestamp, snapshot.active()) == Some(*d),
                None => first_visible_to(self.view(), snapshot.timestamp, snapshot.active()) is None,
            },
    {
        let mut i: usize = 0;
        proof {
            assert(self.view().subrange(0, self.view().len() as int) =~= self.view());
        }
        while i < self.versions.len()
            invariant
                i <= self.versions@.len(),
                first_visible_to(self.view(), snapshot.timestamp, snapshot.active()) == first_visible_to(
                    self.view().subrange(i as int, self.view().len() as int),
                    snapshot.timestamp,
                    snapshot.active(),
                ),
            decreases self.versions.len() - i,
        {
            let ghost rest = self.view().subrange(i as int, self.view().len() as int);
            proof {
                assert(rest.drop_first() =~= self.view().subrange(i + 1, self.view().len() as int));
            }
            let v = &self.versions[i];
            if snapshot.is_version_visible(v.xmin, v.xmax) {
                return Some(&v.data);
            }
            i = i + 1;
        }
        None
    }

    /// The newest version that nobody has deleted.
    pub fn get_latest_active(&self) -> (r: Option<&T>)
        ensures
            match r {
                Some(d) => first_active(self.view()) == Some(*d),
                None => first_active(self.view()) is None,
            },
    {
        let mut i: usize = 0;
        proof {
            assert(self.view().subrange(0, self.view().len() as int) =~= self.view());
        }
        while i < self.versions.len()
            invariant
                i <= self.versions@.len(),
                first_active(self.view()) == first_active(self.view().subrange(i as int, self.view().len() as int)),
            decreases self.versions.len() - i,
        {
            let ghost rest = self.view().subrange(i as int, self.view().len() as int);
            proof {
                assert(rest.drop_first() =~= self.view().subrange(i + 1, self.view().len() as int));
            }
            if self.versions[i].is_active() {
                return Some(&self.versions[i].data);
            }
            i = i + 1;
        }
        None
    }

    /// Marks the newest version deleted by `txn_id` at `timestamp`.
    pub fn mark_latest_deleted(&mut self, txn_id: TransactionId, timestamp: Timestamp)
        ensures
            final(self).view() == mark_head(old(self).view(), txn_id, timestamp),
    {
        if self.versions.len() > 0 {
            let mut v = self.versions.remove(0);
            v.mark_deleted(txn_id, timestamp);
            self.versions.insert(0, v);
            proof {
                assert(self.view() =~= mark_head(old(self).view(), txn_id, timestamp));
            }
        }
    }

    /// Drops the versions deleted before `min_snapshot_ts`.
    pub fn gc(&mut self, min_snapshot_ts: Timestamp)
        ensures
            final(self).view() == old(self).view().filter(|v: Version<T>| gc_keeps(v, min_snapshot_ts)),
    {
        let mut kept: Vec<Version<T>> = Vec::new();
        let ghost orig = self.view();
        while self.versions.len() > 0
            invariant
                kept@ + self.versions@.filter(|v: Version<T>| gc_keeps(v, min_snapshot_ts)) == orig.filter(
                    |v: Version<T>| gc_keeps(v, min_snapshot_ts),
                ),
            decreases self.versions.len(),
        {
            let ghost all = self.versions@;
            let ghost k0 = kept@;
            let v = self.versions.remove(0);
            let ghost rest = self.versions@;
            let ghost f = |v: Version<T>| gc_keeps(v, min_snapshot_ts);
            proof {
                assert(all =~= seq![v] + rest);
                lemma_filter_cons(v, rest, f);
            }
            let keep = match v.deleted_at {
                Some(d) => v.xmax.is_none() || d >= min_snapshot_ts,
                None => true,
            };
            proof {
                assert(keep == f(v));
            }
            if keep {
                kept.push(v);
                proof {
                    assert(kept@ + rest.filter(f) =~= k0 + (seq![v] + rest.filter(f)));
                }
            }
        }
        proof {
            assert(self.versions@.filter(|v: Version<T>| gc_keeps(v, min_snapshot_ts)) =~= Seq::empty());
            assert(kept@ + Seq::<Version<T>>::empty() =~= kept@);
        }
        self.versions = kept;
    }

    pub fn version_count(&self) -> (r: usize)
        ensures
            r == self.view().len(),
    {
        self.versions.len()
    }
}

/// Whether garbage collection at `min_ts` keeps `v`.
pub open spec fn gc_keeps<T>(v: Version<T>, min_ts: u64) -> bool {
    v.xmax is None || match v.deleted_at {
        None => true,
        Some(d) => d >= min_ts,
    }
}

/// The chain with its newest version marked deleted.
pub open spec fn mark_head<T>(s: Seq<Version<T>>, txn: TransactionId, ts: u64) -> Seq<Version<T>> {
    if s.len() == 0 {
        s
    } else {
        s.update(0, Version { data: s[0].data, xmin: s[0].xmin, xmax: Some(txn), created_at: s[0].created_at, deleted_at: Some(ts) })
    }
}

proof fn lemma_filter_cons<T>(v: T, rest: Seq<T>, f: spec_fn(T) -> bool)
    ensures
        (seq![v] + rest).filter(f) == if f(v) { seq![v] + rest.filter(f) } else { rest.filter(f) },
{
    rest.lemma_filter_prepend(v, f);
    assert(Seq::<T>::empty() + rest.filter(f) =~= rest.filter(f));
}

/// Lifecycle state of a transaction.
#[derive(Debug, Clone, Copy, PartialEq, Eq)]
pub enum TransactionStatus {
    Active,
    Committed,
    Aborted,
}

/// Hands out transaction ids and snapshots and tracks the running
/// transactions.
pub struct TransactionManager {
    next_id: u64,
    active: Vec<(u64, Timestamp)>,
    finished: Ghost<Set<u64>>,
}

impl TransactionManager {
    /// The next id to hand out; it doubles as the current timestamp.
    pub closed spec fn clock(&self) -> u64 {
        self.next_id
    }

    /// Running transactions and their start timestamps.
    pub closed spec fn active_map(&self) -> Map<u64, u64> {
        Map::new(
            |t: u64| exists|i: int| 0 <= i < self.active@.len() && self.active@[i].0 == t,
            |t: u64| self.active@[choose|i: int| 0 <= i < self.active@.len() && self.active@[i].0 == t].1,
        )
    }

    /// Transactions that committed or aborted.
    pub closed spec fn finished(&self) -> Set<u64> {
        self.finished@
    }

    /// Every id handed out is either running or finished, never both.
    pub closed spec fn wf(&self) -> bool {
        &&& self.next_id >= 1
        &&& forall|i: int, j: int|
            0 <= i < self.active@.len() && 0 <= j < self.active@.len() && i != j ==> self.active@[i].0 != self.active@[j].0
        &&& forall|i: int| 0 <= i < self.active@.len() ==> 1 <= #[trigger] self.active@[i].0 < self.next_id
        &&& forall|i: int| 0 <= i < self.active@.len() ==> #[trigger] self.active@[i].1 == self.active@[i].0 + 1
        &&& forall|t: u64| #[trigger] self.finished@.contains(t) ==> 1 <= t < self.next_id && !self.active_map().contains_key(t)
        &&& forall|t: u64| 1 <= t < self.next_id ==> #[trigger] self.finished@.contains(t) || self.active_map().contains_key(t)
    }

    /// Every id handed out so far lies below the clock; a running
    /// transaction's start timestamp is its id plus one; the running set is
    /// finite and disjoint from the finished set.
    pub proof fn lemma_issued(&self)
        requires
            self.wf(),
        ensures
            forall|t: u64| #[trigger] self.active_map().contains_key(t) ==> 1 <= t < self.clock()
                && self.active_map()[t] == t + 1 && !self.finished().contains(t),
            forall|t: u64| #[trigger] self.finished().contains(t) ==> 1 <= t < self.clock(),
            self.active_map().dom().finite(),
    {
        assert forall|t: u64| #[trigger] self.active_map().contains_key(t) implies 1 <= t < self.clock()
            && self.active_map()[t] == t + 1 by {
            let i = choose|i: int| 0 <= i < self.active@.len() && self.active@[i].0 == t;
            assert(1 <= self.active@[i].0 < self.next_id);
            assert(self.active@[i].1 == self.active@[i].0 + 1);
        }
        let keys = self.active@.map_values(|e: (u64, u64)| e.0);
        assert forall|t: u64| #[trigger] keys.to_set().contains(t) <==> self.active_map().dom().contains(t) by {
            if keys.to_set().contains(t) {
                let k = choose|k: int| 0 <= k < keys.len() && keys[k] == t;
                assert(self.active@[k].0 == t);
            }
            if self.active_map().dom().contains(t) {
                let k = choose|k: int| 0 <= k < self.active@.len() && self.active@[k].0 == t;
                assert(keys[k] == t);
            }
        }
        assert(keys.to_set() =~= self.active_map().dom());
    }

    pub fn new() -> (r: TransactionManager)
        ensures
            r.wf(),
            r.clock() == 1,
            r.active_map() == Map::<u64, u64>::empty(),
            r.finished() == Set::<u64>::empty(),
    {
        let r = TransactionManager { next_id: 1, active: Vec::new(), finished: Ghost(Set::empty()) };
        proof {
            assert(r.active_map() =~= Map::empty());
        }
        r
    }

    fn find(&self, t: u64) -> (r: Option<usize>)
        requires
            self.wf(),
        ensures
            match r {
                Some(i) => i < self.active@.len() && self.active@[i as int].0 == t && self.active_map().contains_key(t)
                    && self.active_map()[t] == self.active@[i as int].1,
                None => !self.active_map().contains_key(t),
            },
    {
        let mut i: usize = 0;
        while i < self.active.len()
            invariant
                self.wf(),
                i <= self.active@.len(),
                forall|j: int| 0 <= j < i ==> self.active@[j].0 != t,
            decreases self.active.len() - i,
        {
            if self.active[i].0 == t {
                proof {
                    let j = choose|j: int| 0 <= j < self.active@.len() && self.active@[j].0 == t;
                    assert(j == i);
                }
                return Some(i);
            }
            i = i + 1;
        }
        None
    }

    /// Starts a transaction: a fresh id and a snapshot of the running set.
    /// Fails only when the id space is used up.
    pub fn begin_transaction(&mut self) -> (r: Result<(TransactionId, Snapshot), DeepGraphError>)
        requires
            old(self).wf(),
        ensures
            final(self).wf(),
            old(self).clock() >= u64::MAX - 1 ==> r is Err && final(self).clock() == old(self).clock()
                && final(self).active_map() == old(self).active_map() && final(self).finished() == old(self).finished(),
            old(self).clock() < u64::MAX - 1 ==> match r {
                Ok((id, snap)) => {
                    &&& id.0 == old(self).clock()
                    &&& !old(self).active_map().contains_key(id.0) && !old(self).finished().contains(id.0)
                    &&& id.0 < snap.timestamp
                    &&& snap.timestamp == id.0 + 1
                    &&& snap.active() == old(self).active_map().dom()
                    &&& final(self).clock() == id.0 + 1
                    &&& final(self).active_map() == old(self).active_map().insert(id.0, snap.timestamp)
                    &&& final(self).finished() == old(self).finished()
                },
                Err(_) => false,
            },
    {
        if self.next_id >= u64::MAX - 1 {
            return Err(DeepGraphError::TransactionError("transaction ids exhausted".to_string()));
        }
        let id = self.next_id;
        self.next_id = self.next_id + 1;
        let ts = self.next_id;
        let mut ids: Vec<TransactionId> = Vec::new();
        let mut i: usize = 0;
        while i < self.active.len()
            invariant
                i <= self.active@.len(),
                ids@.len() == i,
                forall|j: int| 0 <= j < i ==> #[trigger] ids@[j].0 == self.active@[j].0,
            decreases self.active.len() - i,
        {
            ids.push(TransactionId(self.active[i].0));
            i = i + 1;
        }
        let snap = Snapshot::new(ts, ids);
        proof {
            let m = snap.active_txns@.map_values(|t: TransactionId| t.0);
            assert forall|t: u64| #[trigger] snap.active().contains(t) <==> old(self).active_map().dom().contains(t) by {
                if snap.active().contains(t) {
                    let j = choose|j: int| 0 <= j < m.len() && m[j] == t;
                    assert(self.active@[j].0 == t);
                }
                if old(self).active_map().dom().contains(t) {
                    let j = choose|j: int| 0 <= j < self.active@.len() && self.active@[j].0 == t;
                    assert(m[j] == t);
                }
            }
            assert(snap.active() =~= old(self).active_map().dom());
        }
        let ghost before = self.active@;
        self.active.push((id, ts));
        proof {
            assert forall|t: u64| #[trigger] self.active_map().contains_key(t) <==> (t == id || old(self).active_map().contains_key(t)) by {
                if self.active_map().contains_key(t) {
                    let j = choose|j: int| 0 <= j < self.active@.len() && self.active@[j].0 == t;
                    if j < before.len() {
                        assert(before[j].0 == t);
                    }
                }
                if old(self).active_map().contains_key(t) {
                    let j = choose|j: int| 0 <= j < before.len() && before[j].0 == t;
                    assert(self.active@[j].0 == t);
                }
                if t == id {
                    assert(self.active@[before.len() as int].0 == t);
                }
            }
            assert forall|a: int, b: int| 0 <= a < self.active@.len() && 0 <= b < self.active@.len() && a != b implies self.active@[a].0 != self.active@[b].0 by {
                if a < before.len() && b < before.len() {
                    assert(before[a].0 != before[b].0);
                } else if a < before.len() {
                    assert(before[a].0 < id);
                } else if b < before.len() {
                    assert(before[b].0 < id);
                }
            }
            assert forall|t: u64| self.active_map().contains_key(t) implies #[trigger] self.active_map()[t] == old(self).active_map().insert(id, ts)[t] by {
                let j = choose|j: int| 0 <= j < self.active@.len() && self.active@[j].0 == t;
                if t == id {
                    assert(j == before.len());
                } else {
                    let k = choose|k: int| 0 <= k < before.len() && before[k].0 == t;
                    assert(self.active@[k].0 == t);
                    assert(j == k);
                }
            }
            assert(self.active_map() =~= old(self).active_map().insert(id, ts));
        }
        Ok((TransactionId(id), snap))
    }

    /// Removes a running transaction, recording it as finished.
    fn finish(&mut self, txn: TransactionId) -> (r: bool)
        requires
            old(self).wf(),
        ensures
            final(self).wf(),
            final(self).clock() == old(self).clock(),
            r == old(self).active_map().contains_key(txn.0),
            r ==> final(self).active_map() == old(self).active_map().remove(txn.0) && final(self).finished() == old(
                self,
            ).finished().insert(txn.0),
            !r ==> final(self).active_map() == old(self).active_map() && final(self).finished() == old(self).finished(),
    {
        match self.find(txn.0) {
            Some(i) => {
                let ghost before = self.active@;
                self.active.remove(i);
                proof {
                    self.finished@ = self.finished@.insert(txn.0);
                    assert(self.active@ =~= before.remove(i as int));
                    assert forall|t: u64| #[trigger] self.active_map().contains_key(t) <==> (t != txn.0 && old(self).active_map().contains_key(t)) by {
                        if self.active_map().contains_key(t) {
                            let j = choose|j: int| 0 <= j < self.active@.len() && self.active@[j].0 == t;
                            let j1 = if j < i { j } else { j + 1 };
                            assert(before[j1].0 == t);
                        }
                        if t != txn.0 && old(self).active_map().contains_key(t) {
                            let j = choose|j: int| 0 <= j < before.len() && before[j].0 == t;
                            if j < i {
                                assert(self.active@[j].0 == t);
                            } else {
                                assert(self.active@[j - 1].0 == t);
                            }
                        }
                    }
                    assert forall|a: int, b: int| 0 <= a < self.active@.len() && 0 <= b < self.active@.len() && a != b implies self.active@[a].0 != self.active@[b].0 by {
                        let a1 = if a < i { a } else { a + 1 };
                        let b1 = if b < i { b } else { b + 1 };
                        assert(before[a1].0 != before[b1].0);
                    }
                    assert forall|a: int| 0 <= a < self.active@.len() implies 1 <= #[trigger] self.active@[a].0 < self.next_id by {
                        let a1 = if a < i { a } else { a + 1 };
                        assert(before[a1] == self.active@[a]);
                    }
                    assert forall|t: u64| self.active_map().contains_key(t) implies #[trigger] self.active_map()[t] == old(self).active_map().remove(txn.0)[t] by {
                        let j = choose|j: int| 0 <= j < self.active@.len() && self.active@[j].0 == t;
                        let j1 = if j < i { j } else { j + 1 };
                        let k = choose|k: int| 0 <= k < before.len() && before[k].0 == t;
                        assert(before[j1].0 == t);
                        assert(k == j1);
                    }
                    assert(self.active_map() =~= old(self).active_map().remove(txn.0));
                }
                true
            },
            None => false,
        }
    }

    /// Commits a running transaction and returns its commit timestamp.
    pub fn commit_transaction(&mut self, txn_id: TransactionId) -> (r: Result<Timestamp, DeepGraphError>)
        requires
            old(self).wf(),
        ensures
            final(self).wf(),
            final(self).clock() == old(self).clock(),
            old(self).active_map().contains_key(txn_id.0) ==> r == Ok::<u64, DeepGraphError>(old(self).clock())
                && old(self).clock() > txn_id.0 && old(self).clock() >= old(self).active_map()[txn_id.0]
                && final(self).active_map() == old(self).active_map().remove(txn_id.0) && final(self).finished() == old(
                self,
            ).finished().insert(txn_id.0),
            !old(self).active_map().contains_key(txn_id.0) ==> r is Err && final(self).active_map() == old(
                self,
            ).active_map() && final(self).finished() == old(self).finished(),
    {
        let commit_ts = self.next_id;
        proof {
            self.lemma_issued();
        }
        if self.finish(txn_id) {
            Ok(commit_ts)
        } else {
            Err(DeepGraphError::TransactionError("Transaction not found".to_string()))
        }
    }

    /// Aborts a running transaction.
    pub fn abort_transaction(&mut self, txn_id: TransactionId) -> (r: Result<(), DeepGraphError>)
        requires
            old(self).wf(),
        ensures
            final(self).wf(),
            final(self).clock() == old(self).clock(),
            old(self).active_map().contains_key(txn_id.0) ==> r is Ok && final(self).active_map() == old(
                self,
            ).active_map().remove(txn_id.0) && final(self).finished() == old(self).finished().insert(txn_id.0),
            !old(self).active_map().contains_key(txn_id.0) ==> r is Err && final(self).active_map() == old(
                self,
            ).active_map() && final(self).finished() == old(self).finished(),
    {
        if self.finish(txn_id) {
            Ok(())
        } else {
            Err(DeepGraphError::TransactionError("Transaction not found".to_string()))
        }
    }

    /// The current timestamp: the next id to be handed out.
    pub fn current_timestamp(&self) -> (r: Timestamp)
        ensures
            r == self.clock(),
    {
        self.next_id
    }

    pub fn is_active(&self, txn_id: TransactionId) -> (r: bool)
        requires
            self.wf(),
        ensures
            r == self.active_map().contains_key(txn_id.0),
    {
        self.find(txn_id.0).is_some()
    }

    pub fn active_count(&self) -> (r: usize)
        requires
            self.wf(),
        ensures
            r == self.active_map().len(),
    {
        proof {
            let keys = self.active@.map_values(|e: (u64, u64)| e.0);
            assert forall|a: int, b: int| 0 <= a < keys.len() && 0 <= b < keys.len() && a != b implies keys[a] != keys[b] by {}
            keys.unique_seq_to_set();
            assert forall|t: u64| #[trigger] keys.to_set().contains(t) <==> self.active_map().dom().contains(t) by {
                if keys.to_set().contains(t) {
                    let k = choose|k: int| 0 <= k < keys.len() && keys[k] == t;
                    assert(self.active@[k].0 == t);
                }
                if self.active_map().dom().contains(t) {
                    let k = choose|k: int| 0 <= k < self.active@.len() && self.active@[k].0 == t;
                    assert(keys[k] == t);
                }
            }
            assert(keys.to_set() =~= self.active_map().dom());
        }
        self.active.len()
    }

    /// The smallest start timestamp among running transactions.
    pub fn oldest_active_timestamp(&self) -> (r: Option<Timestamp>)
        requires
            self.wf(),
        ensures
            r is None <==> self.active_map().dom().len() == 0,
            match r {
                None => self.active_map().is_empty(),
                Some(m) => (exists|t: u64| #[trigger] self.active_map().contains_key(t) && self.active_map()[t] == m)
                    && forall|t: u64| #[trigger] self.active_map().contains_key(t) ==> m <= self.active_map()[t],
            },
    {
        let mut best: Option<u64> = None;
        let mut i: usize = 0;
        while i < self.active.len()
            invariant
                self.wf(),
                i <= self.active@.len(),
                best is None <==> i == 0,
                match best {
                    None => true,
                    Some(m) => (exists|j: int| 0 <= j < i && self.active@[j].1 == m) && forall|j: int| 0 <= j < i ==> m <= #[trigger] self.active@[j].1,
                },
            decreases self.active.len() - i,
        {
            let s = self.active[i].1;
            match best {
                None => {
                    best = Some(s);
                },
                Some(m) => {
                    if s < m {
                        best = Some(s);
                    }
                },
            }
            i = i + 1;
        }
        proof {
            self.lemma_issued();
            match best {
                None => {
                    assert(self.active_map() =~= Map::empty());
                    assert(self.active_map().dom() =~= Set::<u64>::empty());
                    broadcast use vstd::set::axiom_set_empty_len;
                },
                Some(m) => {
                    let j = choose|j: int| 0 <= j < self.active@.len() && self.active@[j].1 == m;
                    let t = self.active@[j].0;
                    let k = choose|k: int| 0 <= k < self.active@.len() && self.active@[k].0 == t;
                    assert(k == j);
                    assert(self.active_map().contains_key(t) && self.active_map()[t] == m);
                    vstd::set::axiom_set_contains_len(self.active_map().dom(), t);
                    assert forall|t2: u64| #[trigger] self.active_map().contains_key(t2) implies m <= self.active_map()[t2] by {
                        let k2 = choose|k2: int| 0 <= k2 < self.active@.len() && self.active@[k2].0 == t2;
                        assert(m <= self.active@[k2].1);
                    }
                },
            }
        }
        best
    }
}

/// A snapshot sees only transactions that had finished when it was taken
/// (or the transaction that took it): whatever commits later is invisible.
pub proof fn law_snapshot_isolation(m: TransactionManager, id: u64, snap_ts: u64, snap_active: Set<u64>, w: u64)
    requires
        m.wf(),
        id == m.clock(),
        snap_ts == id + 1,
        snap_active == m.active_map().dom(),
        txn_visible(snap_ts, snap_active, w),
        w >= 1,
    ensures
        m.finished().contains(w) || w == id,
{
}

/// A version that a snapshot reads was created by a transaction visible to
/// it and not deleted by one.
pub proof fn law_read_visible<T>(s: Seq<Version<T>>, ts: u64, active: Set<u64>)
    requires
        first_visible_to(s, ts, active) is Some,
    ensures
        exists|i: int| 0 <= i < s.len() && visible_to(s[i], ts, active) && first_visible_to(s, ts, active) == Some(s[i].data),
    decreases s.len(),
{
    if !visible_to(s[0], ts, active) {
        law_read_visible(s.drop_first(), ts, active);
        let i = choose|i: int| 0 <= i < s.drop_first().len() && visible_to(s.drop_first()[i], ts, active)
            && first_visible_to(s.drop_first(), ts, active) == Some(s.drop_first()[i].data);
        assert(s[i + 1] == s.drop_first()[i]);
    } else {
        assert(visible_to(s[0], ts, active));
    }
}

/// A write by a transaction `w` that the snapshot does not see (a new head
/// version from `w`, with the old head marked deleted by `w`, or just that
/// mark) leaves every read under the snapshot unchanged.
pub proof fn law_snapshot_stability<T>(s: Seq<Version<T>>, ts: u64, active: Set<u64>, w: TransactionId, at: u64, data: T)
    requires
        !txn_visible(ts, active, w.0),
        s.len() > 0 ==> s[0].xmax is None,
    ensures
        first_visible_to(mark_head(s, w, at), ts, active) == first_visible_to(s, ts, active),
        first_visible_to(seq![Version { data, xmin: w, xmax: None, created_at: at, deleted_at: None }] + mark_head(s, w, at), ts, active)
            == first_visible_to(s, ts, active),
{
    let nv = Version { data, xmin: w, xmax: None, created_at: at, deleted_at: None };
    let m = mark_head(s, w, at);
    if s.len() > 0 {
        assert(m.drop_first() =~= s.drop_first());
        assert(visible_to(m[0], ts, active) == visible_to(s[0], ts, active));
    }
    let c = seq![nv] + m;
    assert(!visible_to(c[0], ts, active));
    assert(c.drop_first() =~= m);
}

/// Reads at timestamp `ts` are stable: a later write (a new head version
/// created after `ts`, with the old head marked deleted after `ts`), or just
/// that deletion, leaves what `ts` sees unchanged.
pub proof fn law_snapshot_stability_at<T>(s: Seq<Version<T>>, ts: u64, w: TransactionId, at: u64, data: T)
    requires
        at > ts,
        s.len() > 0 ==> s[0].deleted_at is None,
    ensures
        first_visible_at(mark_head(s, w, at), ts) == first_visible_at(s, ts),
        first_visible_at(seq![Version { data, xmin: w, xmax: None, created_at: at, deleted_at: None }] + mark_head(s, w, at), ts)
            == first_visible_at(s, ts),
{
    let nv = Version { data, xmin: w, xmax: None, created_at: at, deleted_at: None };
    let m = mark_head(s, w, at);
    if s.len() > 0 {
        assert(m.drop_first() =~= s.drop_first());
        assert(visible_at(m[0], ts) == visible_at(s[0], ts));
    }
    let c = seq![nv] + m;
    assert(!visible_at(c[0], ts));
    assert(c.drop_first() =~= m);
}

/// Filtering a sequence with a new first element.
pub proof fn lemma_filter_cons_pub<T>(v: T, rest: Seq<T>, f: spec_fn(T) -> bool)
    ensures
        (seq![v] + rest).filter(f) == if f(v) { seq![v] + rest.filter(f) } else { rest.filter(f) },
{
    lemma_filter_cons(v, rest, f);
}

/// Version chains of nodes, keyed by node id: the multi-version view of the
/// node store.
pub struct VersionedNodes {
    chains: HashMap<u128, VersionChain<Node>>,
}

impl VersionedNodes {
    /// The chain of each node id that has one.
    pub closed spec fn view(&self) -> Map<u128, Seq<Version<Node>>> {
        self.chains@.map_values(|c: VersionChain<Node>| c.view())
    }

    pub fn new() -> (r: VersionedNodes)
        ensures
            r.view() == Map::<u128, Seq<Version<Node>>>::empty(),
    {
        let r = VersionedNodes { chains: HashMap::new() };
        proof {
            assert(r.view() =~= Map::empty());
        }
        r
    }

    /// Records a write of `node` by `txn` at `ts`: the current head (if any)
    /// is marked deleted and the new version becomes the head.
    pub fn write(&mut self, txn: TransactionId, ts: Timestamp, node: Node)
        ensures
            final(self).view() == old(self).view().insert(
                node.id.0,
                seq![Version { data: node, xmin: txn, xmax: None, created_at: ts, deleted_at: None }] + mark_head(
                    if old(self).view().contains_key(node.id.0) {
                        old(self).view()[node.id.0]
                    } else {
                        Seq::empty()
                    },
                    txn,
                    ts,
                ),
            ),
    {
        broadcast use vstd::std_specs::hash::group_hash_axioms;
        let id = node.id.0;
        let mut chain = match self.chains.remove(&id) {
            Some(c) => c,
            None => VersionChain::new(),
        };
        chain.mark_latest_deleted(txn, ts);
        chain.add_version(Version::new(node, txn, ts));
        self.chains.insert(id, chain);
        proof {
            assert(self.view() =~= old(self).view().insert(id, self.chains@[id].view()));
        }
    }

    /// Records the deletion of node `id` by `txn` at `ts` (its head version is
    /// marked deleted).
    pub fn delete(&mut self, txn: TransactionId, ts: Timestamp, id: NodeId) -> (r: Result<(), DeepGraphError>)
        ensures
            old(self).view().contains_key(id.0) ==> r is Ok && final(self).view() == old(self).view().insert(
                id.0,
                mark_head(old(self).view()[id.0], txn, ts),
            ),
            !old(self).view().contains_key(id.0) ==> r == Err::<(), DeepGraphError>(DeepGraphError::NodeNotFound(id.0))
                && final(self).view() == old(self).view(),
    {
        broadcast use vstd::std_specs::hash::group_hash_axioms;
        match self.chains.remove(&id.0) {
            Some(mut chain) => {
                chain.mark_latest_deleted(txn, ts);
                self.chains.insert(id.0, chain);
                proof {
                    assert(self.view() =~= old(self).view().insert(id.0, self.chains@[id.0].view()));
                }
                Ok(())
            },
            None => {
                proof {
                    assert(self.chains@ =~= old(self).chains@);
                }
                Err(DeepGraphError::NodeNotFound(id.0))
            },
        }
    }

    /// Whether node `id` has a version chain.
    pub fn has_chain(&self, id: NodeId) -> (r: bool)
        ensures
            r == self.view().contains_key(id.0),
    {
        broadcast use vstd::std_specs::hash::group_hash_axioms;
        self.chains.contains_key(&id.0)
    }

    /// The version of node `id` that `snapshot` sees; `NodeNotFound` when it
    /// sees none.
    pub fn get_node(&self, id: NodeId, snapshot: &Snapshot) -> (r: Result<&Node, DeepGraphError>)
        ensures
            match r {
                Ok(n) => self.view().contains_key(id.0) && first_visible_to(self.view()[id.0], snapshot.timestamp, snapshot.active())
                    == Some(*n),
                Err(e) => e == DeepGraphError::NodeNotFound(id.0) && (!self.view().contains_key(id.0) || first_visible_to(
                    self.view()[id.0],
                    snapshot.timestamp,
                    snapshot.active(),
                ) is None),
            },
    {
        broadcast use vstd::std_specs::hash::group_hash_axioms;
        match self.chains.get(&id.0) {
            Some(chain) => match chain.get_visible_for(snapshot) {
                Some(n) => Ok(n),
                None => Err(DeepGraphError::NodeNotFound(id.0)),
            },
            None => Err(DeepGraphError::NodeNotFound(id.0)),
        }
    }
}

} // verus!
