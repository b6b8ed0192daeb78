//! Runs of consecutive host blocks: one disk transfer serves a whole run.
use vstd::prelude::*;
use vstd::seq_lib::{to_multiset_build, to_multiset_insert};

use crate::bio::as_ints;
use crate::sworndisk::Record;

verus! {

/// A run within a list of host block addresses: `len` entries from index
/// `start` on, each one above the entry before it.
#[derive(Clone, Copy, Debug, PartialEq, Eq, Structural)]
pub struct Run {
    pub start: usize,
    pub len: usize,
}

/// Whether a new run begins at index `i` of `s`.
pub open spec fn is_break(s: Seq<int>, i: int) -> bool {
    i == 0 || s[i] != s[i - 1] + 1
}

/// The entries of `s` from `start` up to `start + len` form a run that
/// cannot be made longer at either end.
pub open spec fn is_run(s: Seq<int>, start: int, len: int) -> bool {
    &&& 0 <= start
    &&& 0 < len
    &&& start + len <= s.len()
    &&& is_break(s, start)
    &&& forall|i: int| start < i < start + len ==> !is_break(s, i)
    &&& (start + len == s.len() || is_break(s, start + len))
}

/// `runs` splits `s` into its runs, in order and without a gap.
pub open spec fn splits_into_runs(s: Seq<int>, runs: Seq<Run>) -> bool {
    &&& forall|k: int| 0 <= k < runs.len() ==> is_run(s, (#[trigger] runs[k]).start as int, runs[k].len as int)
    &&& forall|k: int|
        0 <= k < runs.len() - 1 ==> (#[trigger] runs[k]).start + runs[k].len == runs[k + 1].start
    &&& (s.len() == 0 <==> runs.len() == 0)
    &&& runs.len() > 0 ==> runs[0].start == 0 && runs.last().start + runs.last().len == s.len()
}

/// Splits a list of host block addresses into its runs of consecutive
/// addresses.
pub fn group_runs(hbas: &[usize]) -> (runs: Vec<Run>)
    ensures
        splits_into_runs(as_ints(hbas@), runs@),
{
    let mut runs: Vec<Run> = Vec::new();
    let n: usize = hbas.len();
    if n == 0 {
        return runs;
    }
    let ghost s = as_ints(hbas@);
    let mut start: usize = 0;
    let mut i: usize = 1;
    while i < n
        invariant
            n == hbas@.len(),
            s == as_ints(hbas@),
            start < i <= n,
            is_break(s, start as int),
            forall|j: int| start < j < i ==> !is_break(s, j),
            forall|k: int|
                0 <= k < runs@.len() ==> is_run(s, (#[trigger] runs@[k]).start as int, runs@[k].len as int),
            forall|k: int|
                0 <= k < runs@.len() - 1 ==> (#[trigger] runs@[k]).start + runs@[k].len
                    == runs@[k + 1].start,
            runs@.len() > 0 ==> runs@[0].start == 0 && runs@.last().start + runs@.last().len
                == start,
            runs@.len() == 0 ==> start == 0,
        decreases n - i,
    {
        let prev: usize = hbas[i - 1];
        let cur: usize = hbas[i];
        let consecutive = prev < usize::MAX && cur == prev + 1;
        proof {
            assert(s[i as int] == cur);
            assert(s[i - 1] == prev);
        }
        if !consecutive {
            runs.push(Run { start, len: i - start });
            start = i;
        }
        i += 1;
    }
    runs.push(Run { start, len: n - start });
    runs
}

/// The records are ordered by host block address.
pub open spec fn sorted_by_hba(records: Seq<Record>) -> bool {
    forall|j: int, k: int|
        0 <= j < k < records.len() ==> records[j].value_spec().hba <= records[k].value_spec().hba
}

/// The host block addresses of the records, in order.
pub open spec fn hbas_of(records: Seq<Record>) -> Seq<int> {
    records.map_values(|r: Record| r.value_spec().hba as int)
}

/// Orders records by host block address.
pub fn sort_by_hba(records: &Vec<Record>) -> (sorted: Vec<Record>)
    ensures
        sorted_by_hba(sorted@),
        sorted@.to_multiset() == records@.to_multiset(),
        sorted@.len() == records@.len(),
{
    let mut sorted: Vec<Record> = Vec::new();
    let mut i: usize = 0;
    proof {
        assert(records@.take(0) =~= Seq::<Record>::empty());
    }
    while i < records.len()
        invariant
            i <= records@.len(),
            sorted@.len() == i,
            sorted_by_hba(sorted@),
            sorted@.to_multiset() == records@.take(i as int).to_multiset(),
        decreases records@.len() - i,
    {
        let record = records[i];
        let hba = record.value().hba;
        let mut p: usize = sorted.len();
        while p > 0 && sorted[p - 1].value().hba > hba
            invariant
                p <= sorted@.len(),
                hba == record.value_spec().hba,
                forall|k: int| p <= k < sorted@.len() ==> sorted@[k].value_spec().hba > hba,
            decreases p,
        {
            p -= 1;
        }
        proof {
            to_multiset_insert(sorted@, p as int, record);
            to_multiset_build(records@.take(i as int), record);
            assert(records@.take(i + 1) =~= records@.take(i as int).push(record));
            let after = sorted@.insert(p as int, record);
            assert forall|j: int, k: int| 0 <= j < k < after.len() implies after[j].value_spec().hba
                <= after[k].value_spec().hba by {
                if j < p && k > p {
                    assert(after[j] == sorted@[j]);
                    assert(after[k] == sorted@[k - 1]);
                } else if j < p && k < p {
                    assert(after[j] == sorted@[j] && after[k] == sorted@[k]);
                } else if j > p {
                    assert(after[j] == sorted@[j - 1] && after[k] == sorted@[k - 1]);
                } else if j == p {
                    assert(after[k] == sorted@[k - 1]);
                } else {
                    assert(after[j] == sorted@[j]);
                    if p > 0 {
                        assert(sorted@[p - 1].value_spec().hba <= hba);
                    }
                }
            }
        }
        sorted.insert(p, record);
        i += 1;
    }
    proof {
        assert(records@.take(records@.len() as int) =~= records@);
    }
    sorted
}

} // verus!
