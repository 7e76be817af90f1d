//! Retention of snapshots: which ones a cleanup removes.
use vstd::prelude::*;

verus! {

/// Snapshot `j` is newer than snapshot `i`: a later timestamp, or the same
/// timestamp and listed earlier.
pub open spec fn newer(s: Seq<(String, u64)>, j: int, i: int) -> bool {
    s[j].1 > s[i].1 || (s[j].1 == s[i].1 && j < i)
}

/// How many of the first `k` snapshots are newer than snapshot `i`.
pub open spec fn newer_count(s: Seq<(String, u64)>, i: int, k: int) -> nat
    decreases k,
{
    if k <= 0 {
        0
    } else {
        newer_count(s, i, k - 1) + if newer(s, k - 1, i) { 1nat } else { 0nat }
    }
}

/// The ids, in list order among the first `n`, of the snapshots that have at
/// least `keep` newer ones.
pub open spec fn doomed(s: Seq<(String, u64)>, keep: nat, n: int) -> Seq<Seq<char>>
    decreases n,
{
    if n <= 0 {
        Seq::empty()
    } else if newer_count(s, n - 1, s.len() as int) >= keep {
        doomed(s, keep, n - 1).push(s[n - 1].0@)
    } else {
        doomed(s, keep, n - 1)
    }
}

/// The ids of the snapshots a cleanup keeping the newest `keep_count`
/// removes: every snapshot with at least `keep_count` newer ones.
pub fn snapshots_to_delete(snapshots: &Vec<(String, u64)>, keep_count: usize) -> (r: Vec<String>)
    ensures
        r@.map_values(|x: String| x@) == doomed(snapshots@, keep_count as nat, snapshots@.len() as int),
{
    let n = snapshots.len();
    let mut out: Vec<String> = Vec::new();
    let mut i: usize = 0;
    proof {
        assert(out@.map_values(|x: String| x@) =~= Seq::<Seq<char>>::empty());
    }
    while i < n
        invariant
            n == snapshots@.len(),
            i <= n,
            out@.map_values(|x: String| x@) == doomed(snapshots@, keep_count as nat, i as int),
        decreases n - i,
    {
        let mut c: usize = 0;
        let mut j: usize = 0;
        while j < n
            invariant
                n == snapshots@.len(),
                i < n,
                j <= n,
                c as nat == newer_count(snapshots@, i as int, j as int),
                c <= j,
            decreases n - j,
        {
            if snapshots[j].1 > snapshots[i].1 || (snapshots[j].1 == snapshots[i].1 && j < i) {
                c = c + 1;
            }
            j = j + 1;
        }
        let ghost before = out@.map_values(|x: String| x@);
        if c >= keep_count {
            out.push(snapshots[i].0.clone());
            proof {
                assert(out@.map_values(|x: String| x@) =~= before.push(snapshots@[i as int].0@));
            }
        }
        i = i + 1;
    }
    out
}

} // verus!
