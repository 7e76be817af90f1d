//! Non-blocking lock table with a wait-for graph that never holds a cycle.
use vstd::prelude::*;

use crate::mvcc::TransactionId;

verus! {

/// Identifier of a lockable resource.
#[derive(Debug, Clone, Copy, PartialEq, Eq, Hash)]
pub struct ResourceId(pub u64);

/// Why a lock request was not granted.
#[derive(Debug, Clone, Copy, PartialEq, Eq)]
pub enum LockError {
    /// The resource is held by `holder`; the requester now waits for it.
    Contended { holder: u64 },
    /// Waiting for `holder` would close a cycle; nothing was recorded.
    Deadlock { waiter: u64, holder: u64 },
}

/// `b` is reachable from `a` in at most `n` steps of the edge set `g`.
pub open spec fn reach(g: Set<(u64, u64)>, a: u64, b: u64, n: nat) -> bool
    decreases n,
{
    if a == b {
        true
    } else if n == 0 {
        false
    } else {
        exists|c: u64| #[trigger] g.contains((a, c)) && reach(g, c, b, (n - 1) as nat)
    }
}

/// `b` is reachable from `a` (possibly in zero steps).
pub open spec fn reachable(g: Set<(u64, u64)>, a: u64, b: u64) -> bool {
    exists|n: nat| #[trigger] reach(g, a, b, n)
}

/// No node can come back to itself along one or more edges.
pub open spec fn acyclic(g: Set<(u64, u64)>) -> bool {
    forall|x: u64, c: u64| #[trigger] g.contains((x, c)) ==> !reachable(g, c, x)
}

proof fn lemma_reach_trans(g: Set<(u64, u64)>, a: u64, b: u64, c: u64, n1: nat, n2: nat)
    requires
        reach(g, a, b, n1),
        reach(g, b, c, n2),
    ensures
        reach(g, a, c, n1 + n2),
    decreases n1,
{
    if a == b {
        lemma_reach_mono(g, b, c, n2, n1 + n2);
    } else {
        let d = choose|d: u64| #[trigger] g.contains((a, d)) && reach(g, d, b, (n1 - 1) as nat);
        lemma_reach_trans(g, d, b, c, (n1 - 1) as nat, n2);
        assert(g.contains((a, d)) && reach(g, d, c, (n1 + n2 - 1) as nat));
    }
}

proof fn lemma_reach_mono(g: Set<(u64, u64)>, a: u64, b: u64, n: nat, m: nat)
    requires
        reach(g, a, b, n),
        n <= m,
    ensures
        reach(g, a, b, m),
    decreases n,
{
    if a != b {
        let d = choose|d: u64| #[trigger] g.contains((a, d)) && reach(g, d, b, (n - 1) as nat);
        lemma_reach_mono(g, d, b, (n - 1) as nat, (m - 1) as nat);
    }
}

/// A path in `g` plus the edge `(t, h)` either stays in `g` or passes
/// through that edge.
proof fn lemma_reach_added(g: Set<(u64, u64)>, t: u64, h: u64, a: u64, b: u64, n: nat)
    requires
        reach(g.insert((t, h)), a, b, n),
    ensures
        reach(g, a, b, n) || (reachable(g, a, t) && reachable(g, h, b)),
    decreases n,
{
    let g2 = g.insert((t, h));
    if a != b {
        let c = choose|c: u64| #[trigger] g2.contains((a, c)) && reach(g2, c, b, (n - 1) as nat);
        lemma_reach_added(g, t, h, c, b, (n - 1) as nat);
        if g.contains((a, c)) {
            if reach(g, c, b, (n - 1) as nat) {
                assert(reach(g, a, b, n));
            } else {
                let n1 = choose|n1: nat| #[trigger] reach(g, c, t, n1);
                assert(reach(g, a, t, n1 + 1));
            }
        } else {
            assert(a == t && c == h);
            assert(reach(g, a, t, 0));
            if reach(g, c, b, (n - 1) as nat) {
                assert(reach(g, h, b, (n - 1) as nat));
            }
        }
    }
}

/// Adding `(t, h)` keeps the graph acyclic when `t` is not reachable from `h`.
proof fn lemma_add_acyclic(g: Set<(u64, u64)>, t: u64, h: u64)
    requires
        acyclic(g),
        !reachable(g, h, t),
    ensures
        acyclic(g.insert((t, h))),
{
    let g2 = g.insert((t, h));
    assert forall|x: u64, c: u64| #[trigger] g2.contains((x, c)) implies !reachable(g2, c, x) by {
        if reachable(g2, c, x) {
            let n = choose|n: nat| #[trigger] reach(g2, c, x, n);
            lemma_reach_added(g, t, h, c, x, n);
            if g.contains((x, c)) {
                if reach(g, c, x, n) {
                    assert(reachable(g, c, x));
                } else {
                    let n1 = choose|n1: nat| #[trigger] reach(g, c, t, n1);
                    let n2 = choose|n2: nat| #[trigger] reach(g, h, x, n2);
                    assert(reach(g, x, t, n1 + 1));
                    lemma_reach_trans(g, h, x, t, n2, n1 + 1);
                    assert(reachable(g, h, t));
                }
            } else {
                assert(x == t && c == h);
                if reach(g, c, x, n) {
                    assert(reachable(g, h, t));
                }
            }
        }
    }
}

/// A subgraph of an acyclic graph is acyclic.
proof fn lemma_sub_acyclic(g: Set<(u64, u64)>, s: Set<(u64, u64)>)
    requires
        acyclic(g),
        s.subset_of(g),
    ensures
        acyclic(s),
{
    assert forall|x: u64, c: u64| #[trigger] s.contains((x, c)) implies !reachable(s, c, x) by {
        if reachable(s, c, x) {
            let n = choose|n: nat| #[trigger] reach(s, c, x, n);
            lemma_reach_sub(g, s, c, x, n);
            assert(g.contains((x, c)));
        }
    }
}

proof fn lemma_reach_sub(g: Set<(u64, u64)>, s: Set<(u64, u64)>, a: u64, b: u64, n: nat)
    requires
        s.subset_of(g),
        reach(s, a, b, n),
    ensures
        reach(g, a, b, n),
    decreases n,
{
    if a != b {
        let c = choose|c: u64| #[trigger] s.contains((a, c)) && reach(s, c, b, (n - 1) as nat);
        lemma_reach_sub(g, s, c, b, (n - 1) as nat);
        assert(g.contains((a, c)));
    }
}

/// A set closed under the edges that holds `a` holds all that `a` reaches.
proof fn lemma_closed_reach(g: Set<(u64, u64)>, r: Set<u64>, a: u64, b: u64, n: nat)
    requires
        r.contains(a),
        forall|x: u64, y: u64| #[trigger] g.contains((x, y)) && r.contains(x) ==> r.contains(y),
        reach(g, a, b, n),
    ensures
        r.contains(b),
    decreases n,
{
    if a != b {
        let c = choose|c: u64| #[trigger] g.contains((a, c)) && reach(g, c, b, (n - 1) as nat);
        lemma_closed_reach(g, r, c, b, (n - 1) as nat);
    }
}

/// The transactions that wait for some other.
pub open spec fn waiters(g: Set<(u64, u64)>) -> Set<u64> {
    Set::new(|x: u64| exists|c: u64| g.contains((x, c)))
}

/// Lock holders and the wait-for graph.
pub struct DeadlockDetector {
    wait_for: Vec<(u64, u64)>,
    holders: Vec<(u64, u64)>,
}

/// Counts reported by `stats`.
#[derive(Debug, Clone, Copy, PartialEq, Eq)]
pub struct DeadlockStats {
    pub waiting_transactions: usize,
    pub locked_resources: usize,
}

/// The holder of `r` in a holder list, if any.
pub open spec fn holder_of(h: Seq<(u64, u64)>, r: u64) -> Option<u64> {
    if exists|i: int| 0 <= i < h.len() && h[i].0 == r {
        Some(h[choose|i: int| 0 <= i < h.len() && h[i].0 == r].1)
    } else {
        None
    }
}

impl DeadlockDetector {
    /// The wait-for graph as a set of edges `waiter -> holder`.
    pub closed spec fn graph(&self) -> Set<(u64, u64)> {
        self.wait_for@.to_set()
    }

    /// Who holds each resource.
    pub closed spec fn holders(&self) -> Map<u64, u64> {
        Map::new(|r: u64| holder_of(self.holders@, r) is Some, |r: u64| holder_of(self.holders@, r)->Some_0)
    }

    /// Resources appear once in the holder list and the wait-for graph has
    /// no cycle.
    pub closed spec fn wf(&self) -> bool {
        &&& forall|i: int, j: int|
            0 <= i < self.holders@.len() && 0 <= j < self.holders@.len() && i != j ==> self.holders@[i].0
                != self.holders@[j].0
        &&& self.wait_for@.no_duplicates()
        &&& acyclic(self.graph())
    }

    /// The well-formedness invariant implies an acyclic wait-for graph.
    pub proof fn lemma_acyclic(&self)
        requires
            self.wf(),
        ensures
            acyclic(self.graph()),
    {
    }

    pub fn new() -> (r: DeadlockDetector)
        ensures
            r.wf(),
            r.graph() == Set::<(u64, u64)>::empty(),
            r.holders() == Map::<u64, u64>::empty(),
    {
        let r = DeadlockDetector { wait_for: Vec::new(), holders: Vec::new() };
        proof {
            assert(r.graph() =~= Set::empty());
            assert(r.holders() =~= Map::empty());
        }
        r
    }

    fn find_holder(&self, r: u64) -> (res: Option<usize>)
        requires
            self.wf(),
        ensures
            match res {
                Some(i) => i < self.holders@.len() && self.holders@[i as int].0 == r && self.holders().contains_key(r)
                    && self.holders()[r] == self.holders@[i as int].1,
                None => !self.holders().contains_key(r),
            },
    {
        let mut i: usize = 0;
        while i < self.holders.len()
            invariant
                self.wf(),
                i <= self.holders@.len(),
                forall|j: int| 0 <= j < i ==> self.holders@[j].0 != r,
            decreases self.holders.len() - i,
        {
            if self.holders[i].0 == r {
                proof {
                    let j = choose|j: int| 0 <= j < self.holders@.len() && self.holders@[j].0 == r;
                    assert(j == i);
                }
                return Some(i);
            }
            i = i + 1;
        }
        None
    }

    /// Whether `target` is reachable from `start` in the wait-for graph.
    fn reaches(&self, start: u64, target: u64) -> (res: bool)
        requires
            self.wf(),
        ensures
            res == reachable(self.graph(), start, target),
    {
        let seen = self.get_deadlocked_txns(TransactionId(start));
        contains_u64(&seen, target)
    }

    /// Every transaction that `start` waits for, directly or through others,
    /// and `start` itself, each once.
    pub fn get_deadlocked_txns(&self, start: TransactionId) -> (res: Vec<u64>)
        requires
            self.wf(),
        ensures
            res@.no_duplicates(),
            forall|x: u64| #[trigger] res@.contains(x) <==> reachable(self.graph(), start.0, x),
    {
        let start = start.0;
        let ghost g = self.graph();
        let mut seen: Vec<u64> = Vec::new();
        seen.push(start);
        proof {
            assert(seen@[0] == start);
            assert(reach(g, start, start, 0));
        }
        let mut changed = true;
        let ghost universe = self.wait_for@.map_values(|e: (u64, u64)| e.1).to_set().insert(start);
        proof {
            lemma_seen_bound(seen@, universe);
        }
        while changed
            invariant
                g == self.graph(),
                seen@.no_duplicates(),
                seen@.contains(start),
                forall|x: u64| #[trigger] seen@.contains(x) ==> reachable(g, start, x) && universe.contains(x),
                universe == self.wait_for@.map_values(|e: (u64, u64)| e.1).to_set().insert(start),
                !changed ==> forall|x: u64, y: u64| #[trigger] g.contains((x, y)) && seen@.contains(x) ==> seen@.contains(y),
            decreases universe.len() - seen@.len(), if changed { 1int } else { 0int },
        {
            proof {
                lemma_seen_bound(seen@, universe);
            }
            changed = false;
            let ghost len0 = seen@.len();
            let mut i: usize = 0;
            while i < self.wait_for.len()
                invariant
                    g == self.graph(),
                    i <= self.wait_for@.len(),
                    seen@.no_duplicates(),
                    seen@.contains(start),
                    forall|x: u64| #[trigger] seen@.contains(x) ==> reachable(g, start, x) && universe.contains(x),
                    universe == self.wait_for@.map_values(|e: (u64, u64)| e.1).to_set().insert(start),
                    changed ==> seen@.len() > len0,
                    !changed ==> seen@.len() == len0,
                    !changed ==> forall|k: int| 0 <= k < i ==> seen@.contains(#[trigger] self.wait_for@[k].0) ==> seen@.contains(self.wait_for@[k].1),
                decreases self.wait_for.len() - i,
            {
                let (x, y) = self.wait_for[i];
                if contains_u64(&seen, x) && !contains_u64(&seen, y) {
                    proof {
                        assert(g.contains((x, y))) by {
                            assert(self.wait_for@[i as int] == (x, y));
                        }
                        let n = choose|n: nat| #[trigger] reach(g, start, x, n);
                        assert(reach(g, x, y, 1)) by {
                            assert(reach(g, y, y, 0));
                        }
                        lemma_reach_trans(g, start, x, y, n, 1);
                        assert(self.wait_for@.map_values(|e: (u64, u64)| e.1)[i as int] == y);
                    }
                    let ghost before = seen@;
                    seen.push(y);
                    proof {
                        assert forall|z: u64| #[trigger] seen@.contains(z) implies before.contains(z) || z == y by {
                            let j = choose|j: int| 0 <= j < seen@.len() && seen@[j] == z;
                            if j < before.len() {
                                assert(before[j] == z);
                            }
                        }
                        assert(before.contains(start));
                        let j = choose|j: int| 0 <= j < before.len() && before[j] == start;
                        assert(seen@[j] == start);
                    }
                    changed = true;
                }
                i = i + 1;
            }
            proof {
                if !changed {
                    assert forall|x: u64, y: u64| #[trigger] g.contains((x, y)) && seen@.contains(x) implies seen@.contains(y) by {
                        let k = choose|k: int| 0 <= k < self.wait_for@.len() && self.wait_for@[k] == (x, y);
                        assert(seen@.contains(self.wait_for@[k].0));
                    }
                }
                lemma_seen_bound(seen@, universe);
            }
        }
        proof {
            assert forall|x: u64| #[trigger] seen@.contains(x) <==> reachable(g, start, x) by {
                if reachable(g, start, x) && !seen@.contains(x) {
                    let n = choose|n: nat| #[trigger] reach(g, start, x, n);
                    lemma_closed_reach(g, seen@.to_set(), start, x, n);
                }
            }
        }
        seen
    }

    /// Grants `resource` to `txn` when it is free or already held by `txn`.
    /// Otherwise the request fails: with `Deadlock` when waiting for the
    /// holder would close a cycle (nothing is recorded), else with
    /// `Contended` after recording that `txn` waits for the holder.
    pub fn request_lock(&mut self, txn: TransactionId, resource: ResourceId) -> (r: Result<(), LockError>)
        requires
            old(self).wf(),
        ensures
            final(self).wf(),
            match old(self).holders().get(resource.0) {
                None => r is Ok && final(self).holders() == old(self).holders().insert(resource.0, txn.0)
                    && final(self).graph() == old(self).graph(),
                Some(h) => if h == txn.0 {
                    r is Ok && final(self).holders() == old(self).holders() && final(self).graph() == old(self).graph()
                } else if reachable(old(self).graph(), h, txn.0) {
                    r == Err::<(), LockError>(LockError::Deadlock { waiter: txn.0, holder: h })
                        && final(self).holders() == old(self).holders() && final(self).graph() == old(self).graph()
                } else {
                    r == Err::<(), LockError>(LockError::Contended { holder: h })
                        && final(self).holders() == old(self).holders() && final(self).graph() == old(
                        self,
                    ).graph().insert((txn.0, h))
                },
            },
    {
        let t = txn.0;
        match self.find_holder(resource.0) {
            Some(i) => {
                let h = self.holders[i].1;
                if h == t {
                    return Ok(());
                }
                if self.reaches(h, t) {
                    return Err(LockError::Deadlock { waiter: t, holder: h });
                }
                proof {
                    lemma_add_acyclic(self.graph(), t, h);
                }
                if !contains_edge(&self.wait_for, t, h) {
                    let ghost before = self.wait_for@;
                    self.wait_for.push((t, h));
                    proof {
                        assert(self.wait_for@ =~= before.push((t, h)));
                        lemma_push_to_set(before, (t, h));
                        assert forall|a: int, b: int|
                            0 <= a < self.wait_for@.len() && 0 <= b < self.wait_for@.len() && a != b implies self.wait_for@[a]
                            != self.wait_for@[b] by {
                            if a < before.len() && b < before.len() {
                            } else if a == before.len() {
                                assert(before[b] == self.wait_for@[b]);
                            } else {
                                assert(before[a] == self.wait_for@[a]);
                            }
                        }
                    }
                } else {
                    proof {
                        assert(old(self).graph().insert((t, h)) =~= old(self).graph());
                    }
                }
                Err(LockError::Contended { holder: h })
            },
            None => {
                let ghost before = self.holders@;
                self.holders.push((resource.0, t));
                proof {
                    let r0 = resource.0;
                    assert forall|a: int, b: int|
                        0 <= a < self.holders@.len() && 0 <= b < self.holders@.len() && a != b implies self.holders@[a].0
                        != self.holders@[b].0 by {
                        if a < before.len() && b < before.len() {
                        } else if a == before.len() {
                            assert(before[b] == self.holders@[b]);
                        } else {
                            assert(before[a] == self.holders@[a]);
                        }
                    }
                    assert forall|x: u64| #[trigger] holder_of(self.holders@, x) == holder_of(before, x) || x == r0 by {
                        if x != r0 {
                            if exists|k: int| 0 <= k < before.len() && before[k].0 == x {
                                let k = choose|k: int| 0 <= k < before.len() && before[k].0 == x;
                                assert(self.holders@[k] == before[k]);
                                let k2 = choose|k2: int| 0 <= k2 < self.holders@.len() && self.holders@[k2].0 == x;
                                assert(k2 < before.len());
                                assert(before[k2] == self.holders@[k2]);
                            } else {
                                assert forall|k: int| 0 <= k < self.holders@.len() implies self.holders@[k].0 != x by {
                                    if k < before.len() {
                                        assert(before[k] == self.holders@[k]);
                                    }
                                }
                            }
                        }
                    }
                    let k2 = choose|k2: int| 0 <= k2 < self.holders@.len() && self.holders@[k2].0 == r0;
                    assert(self.holders@[before.len() as int].0 == r0);
                    assert(holder_of(self.holders@, r0) == Some(t));
                    assert(self.holders() =~= old(self).holders().insert(r0, t));
                }
                Ok(())
            },
        }
    }

    /// Frees `resource` (whoever holds it).
    pub fn release_lock(&mut self, txn: TransactionId, resource: ResourceId)
        requires
            old(self).wf(),
        ensures
            final(self).wf(),
            final(self).graph() == old(self).graph(),
            final(self).holders() == old(self).holders().remove(resource.0),
    {
        let _ = txn;
        self.retain_holders(resource.0, false);
    }

    /// Frees every resource held by `txn` and drops the edges leaving `txn`.
    pub fn release_all_locks(&mut self, txn: TransactionId)
        requires
            old(self).wf(),
        ensures
            final(self).wf(),
            final(self).graph() == old(self).graph().filter(|e: (u64, u64)| e.0 != txn.0),
            forall|r: u64| #[trigger] final(self).holders().contains_key(r) <==> (old(self).holders().contains_key(r)
                && old(self).holders()[r] != txn.0),
            forall|r: u64| #[trigger] final(self).holders().contains_key(r) ==> final(self).holders()[r] == old(self).holders()[r],
    {
        let t = txn.0;
        self.retain_holders(t, true);
        let ghost mid = self.holders();
        let mut kept: Vec<(u64, u64)> = Vec::new();
        let mut i: usize = 0;
        while i < self.wait_for.len()
            invariant
                i <= self.wait_for@.len(),
                self.wait_for@.no_duplicates(),
                kept@.no_duplicates(),
                forall|e: (u64, u64)| #[trigger] kept@.contains(e) <==> (self.wait_for@.subrange(0, i as int).contains(e) && e.0 != t),
            decreases self.wait_for.len() - i,
        {
            let e = self.wait_for[i];
            let ghost before = kept@;
            let ghost s0 = self.wait_for@.subrange(0, i as int);
            let ghost s1 = self.wait_for@.subrange(0, i + 1);
            proof {
                assert(s1 =~= s0.push(e));
            }
            if e.0 != t {
                proof {
                    assert(!s0.contains(e)) by {
                        if s0.contains(e) {
                            let j = choose|j: int| 0 <= j < s0.len() && s0[j] == e;
                            assert(self.wait_for@[j] == self.wait_for@[i as int]);
                        }
                    }
                }
                kept.push(e);
                proof {
                    assert forall|a: int, b: int| 0 <= a < kept@.len() && 0 <= b < kept@.len() && a != b implies kept@[a] != kept@[b] by {
                        if a < before.len() && b < before.len() {
                        } else if a == before.len() {
                            assert(before.contains(kept@[b]));
                        } else {
                            assert(before.contains(kept@[a]));
                        }
                    }
                }
            }
            proof {
                assert forall|x: (u64, u64)| #[trigger] kept@.contains(x) <==> (s1.contains(x) && x.0 != t) by {
                    if kept@.contains(x) {
                        let j = choose|j: int| 0 <= j < kept@.len() && kept@[j] == x;
                        if j < before.len() {
                            assert(before[j] == x);
                            assert(before.contains(x));
                            let k = choose|k: int| 0 <= k < s0.len() && s0[k] == x;
                            assert(s1[k] == x);
                        } else {
                            assert(s1[i as int] == x);
                        }
                    }
                    if s1.contains(x) && x.0 != t {
                        let k = choose|k: int| 0 <= k < s1.len() && s1[k] == x;
                        if k < i {
                            assert(s0[k] == x);
                            assert(before.contains(x));
                            let j = choose|j: int| 0 <= j < before.len() && before[j] == x;
                            assert(kept@[j] == x);
                        } else {
                            assert(kept@[kept@.len() - 1] == x);
                        }
                    }
                }
            }
            i = i + 1;
        }
        proof {
            assert(self.wait_for@.subrange(0, self.wait_for@.len() as int) =~= self.wait_for@);
            let newg = kept@.to_set();
            assert(newg =~= old(self).graph().filter(|e: (u64, u64)| e.0 != t));
            lemma_sub_acyclic(old(self).graph(), newg);
        }
        self.wait_for = kept;
        proof {
            assert(self.holders() == mid);
        }
    }

    /// Keeps the holder entries whose resource (when `by_txn` is false) or
    /// holder (when it is true) differs from `key`.
    fn retain_holders(&mut self, key: u64, by_txn: bool)
        requires
            old(self).wf(),
        ensures
            final(self).wf(),
            final(self).wait_for == old(self).wait_for,
            !by_txn ==> final(self).holders() == old(self).holders().remove(key),
            by_txn ==> forall|r: u64| #[trigger] final(self).holders().contains_key(r) <==> (old(self).holders().contains_key(r)
                && old(self).holders()[r] != key),
            by_txn ==> forall|r: u64| #[trigger] final(self).holders().contains_key(r) ==> final(self).holders()[r] == old(self).holders()[r],
    {
        let mut kept: Vec<(u64, u64)> = Vec::new();
        let ghost mut idx: Seq<int> = Seq::empty();
        let mut i: usize = 0;
        while i < self.holders.len()
            invariant
                self == old(self),
                self.wf(),
                i <= self.holders@.len(),
                forall|a: int, b: int| 0 <= a < kept@.len() && 0 <= b < kept@.len() && a != b ==> kept@[a].0 != kept@[b].0,
                idx.len() == kept@.len(),
                forall|k: int| 0 <= k < kept@.len() ==> 0 <= #[trigger] idx[k] < i && self.holders@[idx[k]] == kept@[k]
                    && (if by_txn { self.holders@[idx[k]].1 != key } else { self.holders@[idx[k]].0 != key }),
                forall|j: int| 0 <= j < i && (if by_txn { self.holders@[j].1 != key } else { self.holders@[j].0 != key })
                    ==> kept@.contains(#[trigger] self.holders@[j]),
            decreases self.holders.len() - i,
        {
            let e = self.holders[i];
            let keep = if by_txn { e.1 != key } else { e.0 != key };
            let ghost before = kept@;
            let ghost idx0 = idx;
            if keep {
                kept.push(e);
                proof {
                    idx = idx.push(i as int);
                    assert forall|a: int, b: int| 0 <= a < kept@.len() && 0 <= b < kept@.len() && a != b implies kept@[a].0 != kept@[b].0 by {
                        if a < before.len() && b < before.len() {
                        } else if a == before.len() {
                            let j = idx0[b];
                            assert(kept@[b] == before[b]);
                            assert(self.holders@[j].0 != self.holders@[i as int].0);
                        } else {
                            let j = idx0[a];
                            assert(kept@[a] == before[a]);
                            assert(self.holders@[j].0 != self.holders@[i as int].0);
                        }
                    }
                }
            }
            proof {
                assert forall|k: int| 0 <= k < kept@.len() implies 0 <= #[trigger] idx[k] < i + 1 && self.holders@[idx[k]] == kept@[k]
                    && (if by_txn { self.holders@[idx[k]].1 != key } else { self.holders@[idx[k]].0 != key }) by {
                    if k < before.len() {
                        assert(idx[k] == idx0[k]);
                    }
                }
                assert forall|j: int| 0 <= j < i + 1 && (if by_txn { self.holders@[j].1 != key } else { self.holders@[j].0 != key })
                    implies kept@.contains(#[trigger] self.holders@[j]) by {
                    if j < i {
                        assert(before.contains(self.holders@[j]));
                        let k = choose|k: int| 0 <= k < before.len() && before[k] == self.holders@[j];
                        assert(kept@[k] == before[k]);
                    } else {
                        assert(kept@[kept@.len() - 1] == self.holders@[j]);
                    }
                }
            }
            i = i + 1;
        }
        let ghost oldh = self.holders@;
        self.holders = kept;
        proof {
            assert forall|r: u64| #[trigger] holder_of(kept@, r) == (if holder_of(oldh, r) is Some && (if by_txn {
                holder_of(oldh, r)->Some_0 != key } else { r != key }) { holder_of(oldh, r) } else { None }) by {
                if exists|k: int| 0 <= k < kept@.len() && kept@[k].0 == r {
                    let k = choose|k: int| 0 <= k < kept@.len() && kept@[k].0 == r;
                    let j = idx[k];
                    let j2 = choose|j2: int| 0 <= j2 < oldh.len() && oldh[j2].0 == r;
                    assert(j == j2);
                } else {
                    if exists|j: int| 0 <= j < oldh.len() && oldh[j].0 == r {
                        let j = choose|j: int| 0 <= j < oldh.len() && oldh[j].0 == r;
                        if (if by_txn { oldh[j].1 != key } else { oldh[j].0 != key }) {
                            assert(kept@.contains(oldh[j]));
                        }
                    }
                }
            }
            if by_txn {
                assert forall|r: u64| #[trigger] self.holders().contains_key(r) <==> (old(self).holders().contains_key(r)
                    && old(self).holders()[r] != key) by {
                    assert(holder_of(kept@, r) == holder_of(oldh, r) || holder_of(kept@, r) is None);
                }
            } else {
                assert(self.holders() =~= old(self).holders().remove(key));
            }
        }
    }

    /// Number of transactions that wait and of resources that are held.
    pub fn stats(&self) -> (r: DeadlockStats)
        requires
            self.wf(),
        ensures
            r.locked_resources == self.holders().len(),
            r.waiting_transactions == waiters(self.graph()).len(),
    {
        proof {
            self.lemma_holders_len();
        }
        let mut ws: Vec<u64> = Vec::new();
        let mut i: usize = 0;
        while i < self.wait_for.len()
            invariant
                i <= self.wait_for@.len(),
                ws@.len() <= i,
                ws@.no_duplicates(),
                forall|x: u64| #[trigger] ws@.contains(x) <==> exists|j: int| 0 <= j < i && self.wait_for@[j].0 == x,
            decreases self.wait_for.len() - i,
        {
            let w = self.wait_for[i].0;
            let ghost before = ws@;
            if !contains_u64(&ws, w) {
                ws.push(w);
                proof {
                    assert forall|a: int, b: int| 0 <= a < ws@.len() && 0 <= b < ws@.len() && a != b implies ws@[a] != ws@[b] by {
                        if a < before.len() && b < before.len() {
                        } else if a == before.len() {
                            assert(before.contains(ws@[b]) || b == a);
                        } else {
                            assert(before.contains(ws@[a]) || b == a);
                        }
                    }
                }
            }
            proof {
                assert forall|x: u64| #[trigger] ws@.contains(x) <==> exists|j: int| 0 <= j < i + 1 && self.wait_for@[j].0 == x by {
                    if ws@.contains(x) {
                        let k = choose|k: int| 0 <= k < ws@.len() && ws@[k] == x;
                        if k < before.len() {
                            assert(before.contains(x));
                            let j = choose|j: int| 0 <= j < i && self.wait_for@[j].0 == x;
                            assert(0 <= j < i + 1);
                        } else {
                            assert(self.wait_for@[i as int].0 == x);
                        }
                    }
                    if exists|j: int| 0 <= j < i + 1 && self.wait_for@[j].0 == x {
                        let j = choose|j: int| 0 <= j < i + 1 && self.wait_for@[j].0 == x;
                        if j < i {
                            assert(before.contains(x));
                            let k = choose|k: int| 0 <= k < before.len() && before[k] == x;
                            assert(ws@[k] == x);
                        } else if before.contains(x) {
                            let k = choose|k: int| 0 <= k < before.len() && before[k] == x;
                            assert(ws@[k] == x);
                        } else {
                            assert(ws@[ws@.len() - 1] == x);
                        }
                    }
                }
            }
            i = i + 1;
        }
        proof {
            ws@.unique_seq_to_set();
            assert forall|x: u64| #[trigger] ws@.to_set().contains(x) <==> waiters(self.graph()).contains(x) by {
                if ws@.contains(x) {
                    let j = choose|j: int| 0 <= j < self.wait_for@.len() && self.wait_for@[j].0 == x;
                    assert(self.wait_for@.contains(self.wait_for@[j]));
                    assert(self.graph().contains((x, self.wait_for@[j].1)));
                }
                if waiters(self.graph()).contains(x) {
                    let c = choose|c: u64| self.graph().contains((x, c));
                    let j = choose|j: int| 0 <= j < self.wait_for@.len() && self.wait_for@[j] == (x, c);
                    assert(self.wait_for@[j].0 == x);
                }
            }
            assert(ws@.to_set() =~= waiters(self.graph()));
        }
        DeadlockStats { waiting_transactions: ws.len(), locked_resources: self.holders.len() }
    }

    proof fn lemma_holders_len(&self)
        requires
            self.wf(),
        ensures
            self.holders@.len() == self.holders().len(),
    {
        let keys = self.holders@.map_values(|e: (u64, u64)| e.0);
        assert forall|a: int, b: int| 0 <= a < keys.len() && 0 <= b < keys.len() && a != b implies keys[a] != keys[b] by {}
        keys.unique_seq_to_set();
        assert forall|r: u64| #[trigger] keys.to_set().contains(r) <==> self.holders().dom().contains(r) by {
            if keys.to_set().contains(r) {
                let k = choose|k: int| 0 <= k < keys.len() && keys[k] == r;
                assert(self.holders@[k].0 == r);
            }
            if self.holders().dom().contains(r) {
                let k = choose|k: int| 0 <= k < self.holders@.len() && self.holders@[k].0 == r;
                assert(keys[k] == r);
            }
        }
        assert(keys.to_set() =~= self.holders().dom());
    }
}

fn contains_u64(v: &Vec<u64>, x: u64) -> (r: bool)
    ensures
        r == v@.contains(x),
{
    let mut i: usize = 0;
    while i < v.len()
        invariant
            i <= v@.len(),
            forall|j: int| 0 <= j < i ==> v@[j] != x,
        decreases v.len() - i,
    {
        if v[i] == x {
            return true;
        }
        i = i + 1;
    }
    false
}

fn contains_edge(v: &Vec<(u64, u64)>, a: u64, b: u64) -> (r: bool)
    ensures
        r == v@.contains((a, b)),
{
    let mut i: usize = 0;
    while i < v.len()
        invariant
            i <= v@.len(),
            forall|j: int| 0 <= j < i ==> v@[j] != (a, b),
        decreases v.len() - i,
    {
        if v[i].0 == a && v[i].1 == b {
            assert(v@[i as int] == (a, b));
            return true;
        }
        i = i + 1;
    }
    false
}

proof fn lemma_push_to_set<T>(s: Seq<T>, x: T)
    ensures
        s.push(x).to_set() == s.to_set().insert(x),
{
    assert forall|y: T| #[trigger] s.push(x).to_set().contains(y) <==> s.to_set().insert(x).contains(y) by {
        if s.push(x).contains(y) {
            let j = choose|j: int| 0 <= j < s.push(x).len() && s.push(x)[j] == y;
            if j < s.len() {
                assert(s[j] == y);
            }
        }
        if s.contains(y) {
            let j = choose|j: int| 0 <= j < s.len() && s[j] == y;
            assert(s.push(x)[j] == y);
        }
        if y == x {
            assert(s.push(x)[s.len() as int] == y);
        }
    }
    assert(s.push(x).to_set() =~= s.to_set().insert(x));
}

/// Pushing onto a sequence adds the element to its set.
pub proof fn lemma_push_to_set_pub<T>(s: Seq<T>, x: T)
    ensures
        s.push(x).to_set() == s.to_set().insert(x),
{
    lemma_push_to_set(s, x);
}

/// A repeat-free list drawn from a finite set is no longer than the set.
proof fn lemma_seen_bound(s: Seq<u64>, u: Set<u64>)
    requires
        s.no_duplicates(),
        u.finite(),
        forall|x: u64| #[trigger] s.contains(x) ==> u.contains(x),
    ensures
        s.len() <= u.len(),
{
    s.unique_seq_to_set();
    assert(s.to_set().subset_of(u));
    vstd::set_lib::lemma_len_subset(s.to_set(), u);
}

/// While the wait-for graph is acyclic no transaction waits, directly or
/// through others, for itself; every successful request keeps it so.
pub proof fn law_deadlock_freedom(d: DeadlockDetector, x: u64, c: u64)
    requires
        d.wf(),
        d.graph().contains((x, c)),
    ensures
        !reachable(d.graph(), c, x),
{
}

} // verus!
