//! Client transactions: each takes its id and snapshot from the transaction
//! manager, reads the versioned node store through that snapshot, and lets
//! operations through only while it is active.
use vstd::prelude::*;

use crate::error::DeepGraphError;
use crate::graph::{Node, NodeId};
use crate::mvcc::{self, Snapshot, VersionedNodes, first_visible_to, mark_head};

verus! {

/// Lifecycle of a client transaction.
#[derive(Debug, Clone, Copy, PartialEq, Eq, Structural)]
pub enum TransactionState {
    Active,
    Committing,
    Committed,
    RollingBack,
    RolledBack,
    Aborted,
}

/// Isolation levels a client may ask for.
#[derive(Debug, Clone, Copy, PartialEq, Eq, Structural)]
pub enum IsolationLevel {
    ReadUncommitted,
    ReadCommitted,
    RepeatableRead,
    Serializable,
}

/// A client transaction: an id and a snapshot from the transaction manager,
/// through which it reads and writes the versioned node store.
#[derive(Debug)]
pub struct Transaction {
    pub id: mvcc::TransactionId,
    pub state: TransactionState,
    pub isolation_level: IsolationLevel,
    pub snapshot: Snapshot,
}

fn not_active() -> (r: DeepGraphError) {
    DeepGraphError::TransactionError("Transaction is not active".to_string())
}

impl Transaction {
    /// A new active transaction at read-committed isolation.
    pub fn begin(manager: &mut mvcc::TransactionManager) -> (r: Result<Transaction, DeepGraphError>)
        requires
            old(manager).wf(),
        ensures
            final(manager).wf(),
            old(manager).clock() < u64::MAX - 1 ==> r is Ok,
            r is Ok ==> r->Ok_0.state == TransactionState::Active && r->Ok_0.isolation_level
                == IsolationLevel::ReadCommitted && began(*old(manager), *final(manager), r->Ok_0),
    {
        Transaction::begin_with_isolation(manager, IsolationLevel::ReadCommitted)
    }

    pub fn begin_with_isolation(manager: &mut mvcc::TransactionManager, isolation_level: IsolationLevel) -> (r: Result<
        Transaction,
        DeepGraphError,
    >)
        requires
            old(manager).wf(),
        ensures
            final(manager).wf(),
            old(manager).clock() < u64::MAX - 1 ==> r is Ok,
            r is Ok ==> r->Ok_0.state == TransactionState::Active && r->Ok_0.isolation_level == isolation_level
                && began(*old(manager), *final(manager), r->Ok_0),
    {
        let (id, snapshot) = manager.begin_transaction()?;
        Ok(Transaction { id, state: TransactionState::Active, isolation_level, snapshot })
    }

    pub fn id(&self) -> (r: mvcc::TransactionId)
        ensures
            r == self.id,
    {
        self.id
    }

    pub fn state(&self) -> (r: TransactionState)
        ensures
            r == self.state,
    {
        self.state
    }

    pub fn isolation_level(&self) -> (r: IsolationLevel)
        ensures
            r == self.isolation_level,
    {
        self.isolation_level
    }

    pub fn is_active(&self) -> (r: bool)
        ensures
            r == (self.state == TransactionState::Active),
    {
        self.state == TransactionState::Active
    }

    /// Writes a node version under this transaction; refused unless active.
    pub fn add_node(&mut self, store: &mut VersionedNodes, node: Node) -> (r: Result<NodeId, DeepGraphError>)
        ensures
            *final(self) == *old(self),
            old(self).state != TransactionState::Active ==> r is Err && final(store).view() == old(store).view(),
            old(self).state == TransactionState::Active ==> r == Ok::<NodeId, DeepGraphError>(node.id)
                && final(store).view() == written(old(store).view(), old(self).id, old(self).snapshot.timestamp, node),
    {
        if !self.is_active() {
            return Err(not_active());
        }
        let id = node.id;
        store.write(self.id, self.snapshot.timestamp, node);
        Ok(id)
    }

    /// Writes a new version of an existing node; refused unless active.
    pub fn update_node(&mut self, store: &mut VersionedNodes, node: Node) -> (r: Result<(), DeepGraphError>)
        ensures
            *final(self) == *old(self),
            old(self).state != TransactionState::Active ==> r is Err && final(store).view() == old(store).view(),
            old(self).state == TransactionState::Active && !old(store).view().contains_key(node.id.0) ==> r
                == Err::<(), DeepGraphError>(DeepGraphError::NodeNotFound(node.id.0)) && final(store).view() == old(
                store,
            ).view(),
            old(self).state == TransactionState::Active && old(store).view().contains_key(node.id.0) ==> r is Ok
                && final(store).view() == written(old(store).view(), old(self).id, old(self).snapshot.timestamp, node),
    {
        if !self.is_active() {
            return Err(not_active());
        }
        if !store.has_chain(node.id) {
            return Err(DeepGraphError::NodeNotFound(node.id.0));
        }
        store.write(self.id, self.snapshot.timestamp, node);
        Ok(())
    }

    /// Deletes a node under this transaction; refused unless active.
    pub fn delete_node(&mut self, store: &mut VersionedNodes, id: NodeId) -> (r: Result<(), DeepGraphError>)
        ensures
            *final(self) == *old(self),
            old(self).state != TransactionState::Active ==> r is Err && final(store).view() == old(store).view(),
            old(self).state == TransactionState::Active && old(store).view().contains_key(id.0) ==> r is Ok
                && final(store).view() == old(store).view().insert(
                id.0,
                mark_head(old(store).view()[id.0], old(self).id, old(self).snapshot.timestamp),
            ),
            old(self).state == TransactionState::Active && !old(store).view().contains_key(id.0) ==> r
                == Err::<(), DeepGraphError>(DeepGraphError::NodeNotFound(id.0)) && final(store).view() == old(store).view(),
    {
        if !self.is_active() {
            return Err(not_active());
        }
        store.delete(self.id, self.snapshot.timestamp, id)
    }

    /// Reads a node as this transaction's snapshot sees it; refused unless
    /// active. A node created by a transaction that the snapshot does not see
    /// is `NodeNotFound`.
    pub fn get_node(&self, store: &VersionedNodes, id: NodeId) -> (r: Result<Node, DeepGraphError>)
        ensures
            self.state != TransactionState::Active ==> r is Err,
            self.state == TransactionState::Active ==> match r {
                Ok(n) => store.view().contains_key(id.0) && first_visible_to(
                    store.view()[id.0],
                    self.snapshot.timestamp,
                    self.snapshot.active(),
                ) is Some && n@ == first_visible_to(store.view()[id.0], self.snapshot.timestamp, self.snapshot.active())->Some_0@,
                Err(e) => e == DeepGraphError::NodeNotFound(id.0) && (!store.view().contains_key(id.0)
                    || first_visible_to(store.view()[id.0], self.snapshot.timestamp, self.snapshot.active()) is None),
            },
    {
        if !self.is_active() {
            return Err(not_active());
        }
        match store.get_node(id, &self.snapshot) {
            Ok(n) => Ok(n.deep_clone()),
            Err(e) => Err(e),
        }
    }

    /// Commits an active transaction; any other state is refused.
    pub fn commit(self, manager: &mut mvcc::TransactionManager) -> (r: Result<Transaction, DeepGraphError>)
        requires
            old(manager).wf(),
        ensures
            final(manager).wf(),
            self.state != TransactionState::Active ==> r is Err && *final(manager) == *old(manager),
            self.state == TransactionState::Active && old(manager).active_map().contains_key(self.id.0) ==> r is Ok
                && r->Ok_0.state == TransactionState::Committed && r->Ok_0.id == self.id
                && final(manager).finished().contains(self.id.0) && !final(manager).active_map().contains_key(self.id.0),
            self.state == TransactionState::Active && !old(manager).active_map().contains_key(self.id.0) ==> r is Err,
    {
        if !self.is_active() {
            return Err(not_active());
        }
        manager.commit_transaction(self.id)?;
        Ok(Transaction { state: TransactionState::Committed, ..self })
    }

    /// Rolls the transaction back (aborting it in the manager); a committed one
    /// is refused.
    pub fn rollback(self, manager: &mut mvcc::TransactionManager) -> (r: Result<Transaction, DeepGraphError>)
        requires
            old(manager).wf(),
        ensures
            final(manager).wf(),
            self.state == TransactionState::Committed ==> r is Err && *final(manager) == *old(manager),
            self.state != TransactionState::Committed ==> r is Ok && r->Ok_0.state == TransactionState::RolledBack
                && r->Ok_0.id == self.id && !final(manager).active_map().contains_key(self.id.0),
    {
        if self.state == TransactionState::Committed {
            return Err(DeepGraphError::TransactionError("Cannot rollback a committed transaction".to_string()));
        }
        let _ = manager.abort_transaction(self.id);
        Ok(Transaction { state: TransactionState::RolledBack, ..self })
    }
}

/// The transaction `t` was begun on `m0`, leaving `m1`.
pub open spec fn began(m0: mvcc::TransactionManager, m1: mvcc::TransactionManager, t: Transaction) -> bool {
    &&& t.id.0 == m0.clock()
    &&& t.snapshot.timestamp == t.id.0 + 1
    &&& t.snapshot.active() == m0.active_map().dom()
    &&& m1.active_map() == m0.active_map().insert(t.id.0, t.snapshot.timestamp)
}

/// The chains after `txn` writes `node` at `ts`.
pub open spec fn written(
    v: Map<u128, Seq<mvcc::Version<Node>>>,
    txn: mvcc::TransactionId,
    ts: u64,
    node: Node,
) -> Map<u128, Seq<mvcc::Version<Node>>> {
    v.insert(
        node.id.0,
        seq![mvcc::Version { data: node, xmin: txn, xmax: None, created_at: ts, deleted_at: None }] + mark_head(
            if v.contains_key(node.id.0) {
                v[node.id.0]
            } else {
                Seq::empty()
            },
            txn,
            ts,
        ),
    )
}

/// Starts client transactions on a transaction manager.
#[derive(Debug)]
pub struct TransactionManager;

impl TransactionManager {
    pub fn new() -> (r: TransactionManager) {
        TransactionManager
    }

    pub fn begin_transaction(&self, manager: &mut mvcc::TransactionManager) -> (r: Result<Transaction, DeepGraphError>)
        requires
            old(manager).wf(),
        ensures
            final(manager).wf(),
            old(manager).clock() < u64::MAX - 1 ==> r is Ok,
            r is Ok ==> r->Ok_0.state == TransactionState::Active && began(*old(manager), *final(manager), r->Ok_0),
    {
        Transaction::begin(manager)
    }

    pub fn begin_transaction_with_isolation(&self, manager: &mut mvcc::TransactionManager, isolation_level: IsolationLevel) -> (r: Result<
        Transaction,
        DeepGraphError,
    >)
        requires
            old(manager).wf(),
        ensures
            final(manager).wf(),
            old(manager).clock() < u64::MAX - 1 ==> r is Ok,
            r is Ok ==> r->Ok_0.isolation_level == isolation_level && began(*old(manager), *final(manager), r->Ok_0),
    {
        Transaction::begin_with_isolation(manager, isolation_level)
    }
}

} // verus!
