//! Laws of the validity table: what its operations keep true.
use vstd::prelude::*;

use crate::bitmap::{
    count_ones, lemma_ones_in, lemma_ones_in_agree, lemma_ones_in_all, lemma_ones_in_split,
    lemma_ones_in_update, ones_in,
};
use crate::block_alloc::{
    deallocated, fill_range, replay_logs, seg_alloc, seg_alloc_all, seg_clear, seg_dealloc,
    seg_dealloc_all, segments_match, segments_shaped, set_all, strictly_ascending, sum_free,
    AllocTableView,
};
use crate::diff_log::{apply_all, diff_stream, law_replay_of_stream, AllocDiff, DiffEntry};
use crate::error::Error;
use crate::segment::{SegmentView, SEGMENT_SIZE};

verus! {

/// The indexes of `idxs` ascend strictly and lie within `len`.
pub open spec fn ascending_within(idxs: Seq<int>, len: int) -> bool {
    &&& forall|k: int| 0 <= k < idxs.len() ==> 0 <= #[trigger] idxs[k] < len
    &&& forall|j: int, k: int| 0 <= j < k < idxs.len() ==> idxs[j] < idxs[k]
}

/// Writing at a list of indexes keeps the length and every other entry.
pub proof fn lemma_set_all_frame(s: Seq<bool>, idxs: Seq<int>, v: bool)
    requires
        forall|k: int| 0 <= k < idxs.len() ==> 0 <= #[trigger] idxs[k] < s.len(),
    ensures
        set_all(s, idxs, v).len() == s.len(),
        forall|j: int|
            0 <= j < s.len() ==> #[trigger] set_all(s, idxs, v)[j] == if idxs.contains(j) {
                v
            } else {
                s[j]
            },
    decreases idxs.len(),
{
    if idxs.len() > 0 {
        let head = idxs.drop_last();
        lemma_set_all_frame(s, head, v);
        assert forall|j: int| 0 <= j < s.len() implies #[trigger] set_all(s, idxs, v)[j] == if idxs.contains(
            j,
        ) {
            v
        } else {
            s[j]
        } by {
            if head.contains(j) {
                let k = choose|k: int| 0 <= k < head.len() && head[k] == j;
                assert(idxs[k] == j);
            }
            if idxs.contains(j) && j != idxs.last() {
                let k = choose|k: int| 0 <= k < idxs.len() && idxs[k] == j;
                assert(head[k] == j);
            }
            if j == idxs.last() {
                assert(idxs[idxs.len() - 1] == j);
            }
        }
    }
}

/// One allocation of a free block keeps the segment counts in step with
/// the bitmap and takes one from the number of free bits.
pub proof fn lemma_alloc_step(bitmap: Seq<bool>, segs: Option<Seq<SegmentView>>, h: int)
    requires
        0 <= h < bitmap.len(),
        bitmap[h],
        bitmap.len() <= usize::MAX,
        segments_shaped(bitmap.len(), segs),
        segments_match(bitmap, segs),
    ensures
        segments_shaped(bitmap.len(), seg_alloc(segs, h)),
        segments_match(bitmap.update(h, false), seg_alloc(segs, h)),
        count_ones(bitmap.update(h, false)) + 1 == count_ones(bitmap),
{
    lemma_ones_in_update(bitmap, 0, bitmap.len() as int, h, false);
    if let Some(t) = segs {
        let after = seg_alloc(segs, h)->0;
        let b2 = bitmap.update(h, false);
        assert forall|i: int| 0 <= i < after.len() implies (#[trigger] after[i]).free_space
            == ones_in(b2, i * SEGMENT_SIZE, (i + 1) * SEGMENT_SIZE).len() by {
            let lo = i * SEGMENT_SIZE;
            let hi = (i + 1) * SEGMENT_SIZE;
            assert(t[i].free_space == ones_in(bitmap, lo, hi).len());
            if i == h / (SEGMENT_SIZE as int) {
                lemma_ones_in_update(bitmap, lo, hi, h, false);
            } else {
                lemma_ones_in_agree(bitmap, b2, lo, hi);
            }
        }
    }
}

/// One deallocation of an allocated block keeps the segment counts in step
/// with the bitmap and adds one to the number of free bits.
pub proof fn lemma_dealloc_step(bitmap: Seq<bool>, segs: Option<Seq<SegmentView>>, h: int)
    requires
        0 <= h < bitmap.len(),
        !bitmap[h],
        bitmap.len() <= usize::MAX,
        segments_shaped(bitmap.len(), segs),
        segments_match(bitmap, segs),
    ensures
        segments_shaped(bitmap.len(), seg_dealloc(segs, h)),
        segments_match(bitmap.update(h, true), seg_dealloc(segs, h)),
        count_ones(bitmap.update(h, true)) == count_ones(bitmap) + 1,
{
    lemma_ones_in_update(bitmap, 0, bitmap.len() as int, h, true);
    if let Some(t) = segs {
        let after = seg_dealloc(segs, h)->0;
        let b2 = bitmap.update(h, true);
        assert forall|i: int| 0 <= i < after.len() implies (#[trigger] after[i]).free_space
            == ones_in(b2, i * SEGMENT_SIZE, (i + 1) * SEGMENT_SIZE).len() by {
            let lo = i * SEGMENT_SIZE;
            let hi = (i + 1) * SEGMENT_SIZE;
            assert(t[i].free_space == ones_in(bitmap, lo, hi).len());
            if i == h / (SEGMENT_SIZE as int) {
                lemma_ones_in_update(bitmap, lo, hi, h, true);
                lemma_ones_in(b2, lo, hi);
            } else {
                lemma_ones_in_agree(bitmap, b2, lo, hi);
            }
        }
    }
}

/// Allocating a list of distinct free blocks keeps the segment counts in
/// step with the bitmap and takes their number from the free bits.
pub proof fn lemma_alloc_all(bitmap: Seq<bool>, segs: Option<Seq<SegmentView>>, hbas: Seq<int>)
    requires
        ascending_within(hbas, bitmap.len() as int),
        forall|k: int| 0 <= k < hbas.len() ==> bitmap[#[trigger] hbas[k]],
        bitmap.len() <= usize::MAX,
        segments_shaped(bitmap.len(), segs),
    ensures
        set_all(bitmap, hbas, false).len() == bitmap.len(),
        segments_shaped(bitmap.len(), seg_alloc_all(segs, hbas)),
        segments_match(bitmap, segs) ==> segments_match(
            set_all(bitmap, hbas, false),
            seg_alloc_all(segs, hbas),
        ),
        count_ones(set_all(bitmap, hbas, false)) + hbas.len() == count_ones(bitmap),
    decreases hbas.len(),
{
    if hbas.len() > 0 {
        let head = hbas.drop_last();
        let h = hbas.last();
        lemma_alloc_all(bitmap, segs, head);
        lemma_set_all_frame(bitmap, head, false);
        let b1 = set_all(bitmap, head, false);
        let s1 = seg_alloc_all(segs, head);
        if head.contains(h) {
            let k = choose|k: int| 0 <= k < head.len() && head[k] == h;
            assert(hbas[k] < hbas[hbas.len() - 1]);
        }
        assert(b1[h] == bitmap[h]);
        lemma_ones_in_update(b1, 0, b1.len() as int, h, false);
        if segments_match(bitmap, segs) {
            lemma_alloc_step(b1, s1, h);
        } else {
            assert(segments_shaped(bitmap.len(), seg_alloc(s1, h)));
        }
    }
}

/// Freeing a whole segment keeps the counts of the other segments, sets
/// the segment's own count to its size, and adds its allocated blocks to the
/// number of free bits.
pub proof fn lemma_clear_step(bitmap: Seq<bool>, segs: Option<Seq<SegmentView>>, sid: int)
    requires
        0 <= sid,
        (sid + 1) * SEGMENT_SIZE <= bitmap.len(),
        bitmap.len() <= usize::MAX,
        segments_shaped(bitmap.len(), segs),
    ensures
        segments_shaped(bitmap.len(), seg_clear(segs, sid)),
        segments_match(bitmap, segs) ==> segments_match(
            fill_range(bitmap, sid * SEGMENT_SIZE, (sid + 1) * SEGMENT_SIZE, true),
            seg_clear(segs, sid),
        ),
        count_ones(fill_range(bitmap, sid * SEGMENT_SIZE, (sid + 1) * SEGMENT_SIZE, true))
            + ones_in(bitmap, sid * SEGMENT_SIZE, (sid + 1) * SEGMENT_SIZE).len() == count_ones(
            bitmap,
        ) + SEGMENT_SIZE,
{
    let lo = sid * SEGMENT_SIZE;
    let hi = (sid + 1) * SEGMENT_SIZE;
    let n = bitmap.len() as int;
    let b2 = fill_range(bitmap, lo, hi, true);
    lemma_ones_in_split(bitmap, 0, lo, n);
    lemma_ones_in_split(bitmap, lo, hi, n);
    lemma_ones_in_split(b2, 0, lo, n);
    lemma_ones_in_split(b2, lo, hi, n);
    lemma_ones_in_agree(bitmap, b2, 0, lo);
    lemma_ones_in_agree(bitmap, b2, hi, n);
    lemma_ones_in_all(b2, lo, hi);
    if let Some(t) = segs {
        if segments_match(bitmap, segs) {
            let after = seg_clear(segs, sid)->0;
            assert forall|i: int| 0 <= i < after.len() implies (#[trigger] after[i]).free_space
                == ones_in(b2, i * SEGMENT_SIZE, (i + 1) * SEGMENT_SIZE).len() by {
                assert(t[i].free_space == ones_in(
                    bitmap,
                    i * SEGMENT_SIZE,
                    (i + 1) * SEGMENT_SIZE,
                ).len());
                if i != sid {
                    lemma_ones_in_agree(bitmap, b2, i * SEGMENT_SIZE, (i + 1) * SEGMENT_SIZE);
                }
            }
        }
    }
}

/// Where the segments cover the whole bitmap and each counts the free bits
/// of its range, their counts add up to the number of free bits.
pub proof fn lemma_sum_free(bitmap: Seq<bool>, t: Seq<SegmentView>)
    requires
        bitmap.len() == t.len() * SEGMENT_SIZE,
        segments_match(bitmap, Some(t)),
    ensures
        sum_free(t) == count_ones(bitmap),
{
    lemma_sum_free_prefix(bitmap, t, t.len() as int);
    assert(t.take(t.len() as int) =~= t);
}

proof fn lemma_sum_free_prefix(bitmap: Seq<bool>, t: Seq<SegmentView>, k: int)
    requires
        0 <= k <= t.len(),
        t.len() * SEGMENT_SIZE <= bitmap.len(),
        segments_match(bitmap, Some(t)),
    ensures
        sum_free(t.take(k)) == ones_in(bitmap, 0, k * SEGMENT_SIZE).len(),
    decreases k,
{
    if k > 0 {
        lemma_sum_free_prefix(bitmap, t, k - 1);
        assert(t.take(k).drop_last() =~= t.take(k - 1));
        assert(t.take(k).last() == t[k - 1]);
        let i = k - 1;
        assert(0 <= i < t.len());
        let segs = Some(t);
        assert(segments_match(bitmap, segs));
        assert(segs->0 == t);
        assert(forall|j: int|
            0 <= j < t.len() ==> (#[trigger] t[j]).free_space == ones_in(
                bitmap,
                j * SEGMENT_SIZE,
                (j + 1) * SEGMENT_SIZE,
            ).len());
        assert(t[i].free_space == ones_in(bitmap, i * SEGMENT_SIZE, (i + 1) * SEGMENT_SIZE).len());
        lemma_ones_in_split(bitmap, 0, (k - 1) * SEGMENT_SIZE, k * SEGMENT_SIZE);
    } else {
        assert(t.take(0).len() == 0);
    }
}

/// The kept count of free blocks stays the number of free bits through a
/// batch allocation, and a table whose count is right hands out a batch
/// whenever that many blocks are counted as free.
pub proof fn law_alloc_batch_keeps_counts(v: AllocTableView, count: nat)
    requires
        v.wf(),
        v.counts_agree(),
        count > 0,
    ensures
        v.num_free >= count <==> v.batch_pick(count) is Some,
        v.batch_pick(count) is Some ==> v.after_batch(v.batch_pick(count)->0).counts_agree(),
        v.batch_pick(count) is Some && v.segments_agree() ==> v.after_batch(
            v.batch_pick(count)->0,
        ).segments_agree(),
{
    let n = v.bitmap.len() as int;
    let start = v.batch_start(count);
    lemma_ones_in(v.bitmap, start, n);
    lemma_ones_in(v.bitmap, 0, n);
    lemma_ones_in_split(v.bitmap, 0, start, n);
    if let Some(hbas) = v.batch_pick(count) {
        lemma_alloc_all(v.bitmap, v.segments, hbas);
    }
}

/// The kept count of free blocks stays the number of free bits, and the
/// segment counts stay in step with the bitmap, when an allocated block is
/// given back.
pub proof fn law_dealloc_keeps_counts(v: AllocTableView, nth: int)
    requires
        v.wf(),
        0 <= nth < v.bitmap.len(),
        !v.bitmap[nth],
    ensures
        v.counts_agree() ==> (AllocTableView {
            bitmap: v.bitmap.update(nth, true),
            segments: seg_dealloc(v.segments, nth),
            num_free: v.num_free + 1,
            ..v
        }).counts_agree(),
        v.segments_agree() ==> (AllocTableView {
            bitmap: v.bitmap.update(nth, true),
            segments: seg_dealloc(v.segments, nth),
            num_free: v.num_free + 1,
            ..v
        }).segments_agree(),
{
    lemma_ones_in_update(v.bitmap, 0, v.bitmap.len() as int, nth, true);
    if v.segments_agree() {
        lemma_dealloc_step(v.bitmap, v.segments, nth);
    }
}

/// A single allocation takes a free block and keeps the counts right: the
/// kept count of free blocks stays the number of free bits, and the segment
/// counts stay in step with the bitmap.
pub proof fn law_alloc_one(v: AllocTableView)
    requires
        v.wf(),
        v.alloc_target() is Some,
    ensures
        0 <= v.alloc_target()->0 < v.bitmap.len(),
        v.bitmap[v.alloc_target()->0],
        v.after_alloc_one(v.alloc_target()->0).wf(),
        v.counts_agree() ==> v.after_alloc_one(v.alloc_target()->0).counts_agree()
            && v.after_alloc_one(v.alloc_target()->0).num_free + 1 == v.num_free,
        v.segments_agree() ==> v.after_alloc_one(v.alloc_target()->0).segments_agree(),
{
    let n = v.bitmap.len() as int;
    lemma_ones_in(v.bitmap, v.next_avail as int, n);
    lemma_ones_in(v.bitmap, 0, n);
    let h = v.alloc_target()->0;
    lemma_ones_in_update(v.bitmap, 0, n, h, false);
    lemma_alloc_all(v.bitmap, v.segments, seq![h]);
    assert(seq![h].drop_last() =~= Seq::<int>::empty());
    if v.segments_agree() {
        lemma_alloc_step(v.bitmap, v.segments, h);
    }
}

/// The table after the live blocks of segment `sid` were moved to the free
/// blocks `targets` and the segment was cleared with `discard` blocks
/// dropped.
pub open spec fn after_migration(v: AllocTableView, targets: Seq<int>, sid: int, discard: nat) -> AllocTableView {
    AllocTableView {
        bitmap: fill_range(
            set_all(v.bitmap, targets, false),
            sid * SEGMENT_SIZE,
            (sid + 1) * SEGMENT_SIZE,
            true,
        ),
        segments: seg_clear(seg_alloc_all(v.segments, targets), sid),
        num_free: v.num_free + discard,
        ..v
    }
}

/// Garbage collection of one segment keeps the counts right: when the
/// targets are distinct free blocks outside the victim, one per live block,
/// and the blocks dropped are the victim's other allocated blocks, the kept
/// count of free blocks stays the number of free bits and the segment counts
/// stay in step with the bitmap.
pub proof fn law_migration_keeps_counts(v: AllocTableView, targets: Seq<int>, sid: int, discard: nat)
    requires
        v.wf(),
        0 <= sid,
        (sid + 1) * SEGMENT_SIZE <= v.bitmap.len(),
        v.num_free + discard <= usize::MAX,
        ascending_within(targets, v.bitmap.len() as int),
        forall|k: int|
            0 <= k < targets.len() ==> v.bitmap[#[trigger] targets[k]] && !(sid * SEGMENT_SIZE
                <= targets[k] < (sid + 1) * SEGMENT_SIZE),
        targets.len() + discard + ones_in(
            v.bitmap,
            sid * SEGMENT_SIZE,
            (sid + 1) * SEGMENT_SIZE,
        ).len() == SEGMENT_SIZE,
    ensures
        after_migration(v, targets, sid, discard).wf(),
        v.counts_agree() ==> after_migration(v, targets, sid, discard).counts_agree(),
        v.segments_agree() ==> after_migration(v, targets, sid, discard).segments_agree(),
{
    let lo = sid * SEGMENT_SIZE;
    let hi = (sid + 1) * SEGMENT_SIZE;
    let b1 = set_all(v.bitmap, targets, false);
    lemma_alloc_all(v.bitmap, v.segments, targets);
    lemma_set_all_frame(v.bitmap, targets, false);
    lemma_clear_step(b1, seg_alloc_all(v.segments, targets), sid);
    assert forall|i: int| lo <= i < hi implies v.bitmap[i] == b1[i] by {
        if targets.contains(i) {
            let k = choose|k: int| 0 <= k < targets.len() && targets[k] == i;
            assert(!(lo <= targets[k] < hi));
        }
    }
    lemma_ones_in_agree(v.bitmap, b1, lo, hi);
    lemma_ones_in(v.bitmap, 0, v.bitmap.len() as int);
    lemma_ones_in(
        fill_range(b1, lo, hi, true),
        0,
        v.bitmap.len() as int,
    );
}

/// With garbage collection enabled over a bitmap that the segments cover,
/// a table whose counts are right has segment counts that add up to the kept
/// count of free blocks.
pub proof fn law_segment_counts_sum(v: AllocTableView)
    requires
        v.wf(),
        v.segments is Some,
        v.bitmap.len() % (SEGMENT_SIZE as nat) == 0,
        v.counts_agree(),
        v.segments_agree(),
    ensures
        sum_free(v.segments->0) == v.num_free,
{
    lemma_sum_free(v.bitmap, v.segments->0);
}

/// The bitmap after the changes of every table of `tables` were applied,
/// table by table.
pub open spec fn apply_tables(bits: Seq<bool>, tables: Seq<Seq<DiffEntry>>) -> Seq<bool>
    decreases tables.len(),
{
    if tables.len() == 0 {
        bits
    } else {
        apply_all(apply_tables(bits, tables.drop_last()), tables.last())
    }
}

/// Recovery replays what was logged: where every log holds what was
/// written for the changes of one transaction, replaying the logs in order
/// applies exactly those changes, transaction by transaction.
pub proof fn law_recovery_replays_logs(
    bits: Seq<bool>,
    logs: Seq<Result<Vec<u8>, Error>>,
    tables: Seq<Seq<DiffEntry>>,
)
    requires
        logs.len() == tables.len(),
        forall|i: int|
            0 <= i < logs.len() ==> (#[trigger] logs[i]) is Ok && logs[i]->Ok_0@ == diff_stream(
                tables[i],
                0,
            ),
        forall|i: int, k: int|
            0 <= i < tables.len() && 0 <= k < tables[i].len() ==> (#[trigger] tables[i][k]).diff
                != AllocDiff::Invalid,
    ensures
        replay_logs(bits, logs) == Some(apply_tables(bits, tables)),
    decreases logs.len(),
{
    if logs.len() > 0 {
        let n = logs.len() - 1;
        assert forall|i: int| 0 <= i < n implies (#[trigger] logs.drop_last()[i]) is Ok
            && logs.drop_last()[i]->Ok_0@ == diff_stream(tables.drop_last()[i], 0) by {
            assert(logs.drop_last()[i] == logs[i]);
            assert(tables.drop_last()[i] == tables[i]);
        }
        assert forall|i: int, k: int|
            0 <= i < tables.drop_last().len() && 0 <= k < tables.drop_last()[i].len() implies (
        #[trigger] tables.drop_last()[i][k]).diff != AllocDiff::Invalid by {
            assert(tables.drop_last()[i] == tables[i]);
            assert(tables[i][k].diff != AllocDiff::Invalid);
        }
        law_recovery_replays_logs(bits, logs.drop_last(), tables.drop_last());
        let before = apply_tables(bits, tables.drop_last());
        let last = tables.last();
        assert(logs[n] is Ok);
        assert forall|k: int| 0 <= k < last.len() implies (#[trigger] last[k]).diff
            != AllocDiff::Invalid by {
            assert(tables[n][k].diff != AllocDiff::Invalid);
        }
        law_replay_of_stream(before, Seq::empty(), last, 0);
        assert(Seq::<u8>::empty() + diff_stream(last, 0) =~= diff_stream(last, 0));
    }
}

/// Giving back a list of distinct allocated blocks adds their number to the
/// free bits.
pub proof fn lemma_free_all(bitmap: Seq<bool>, hbas: Seq<int>)
    requires
        ascending_within(hbas, bitmap.len() as int),
        forall|k: int| 0 <= k < hbas.len() ==> !bitmap[#[trigger] hbas[k]],
    ensures
        set_all(bitmap, hbas, true).len() == bitmap.len(),
        count_ones(set_all(bitmap, hbas, true)) == count_ones(bitmap) + hbas.len(),
    decreases hbas.len(),
{
    if hbas.len() > 0 {
        let head = hbas.drop_last();
        let h = hbas.last();
        lemma_free_all(bitmap, head);
        lemma_set_all_frame(bitmap, head, true);
        let b1 = set_all(bitmap, head, true);
        if head.contains(h) {
            let k = choose|k: int| 0 <= k < head.len() && head[k] == h;
            assert(hbas[k] < hbas[hbas.len() - 1]);
        }
        assert(b1[h] == bitmap[h]);
        lemma_ones_in_update(b1, 0, b1.len() as int, h, true);
    }
}

/// Some entry of `entries` gives the block `h` back.
pub open spec fn gives_back(entries: Seq<DiffEntry>, h: int) -> bool {
    exists|i: int|
        0 <= i < entries.len() && entries[i].diff == AllocDiff::Dealloc
            && #[trigger] entries[i].hba == h
}

/// The blocks given back by an ordered table ascend and are those of its
/// deallocations.
pub proof fn lemma_deallocated(entries: Seq<DiffEntry>)
    requires
        strictly_ascending(entries),
    ensures
        deallocated(entries).len() <= entries.len(),
        forall|j: int, k: int|
            0 <= j < k < deallocated(entries).len() ==> deallocated(entries)[j] < deallocated(
                entries,
            )[k],
        forall|k: int|
            0 <= k < deallocated(entries).len() ==> gives_back(
                entries,
                #[trigger] deallocated(entries)[k],
            ),
    decreases entries.len(),
{
    if entries.len() > 0 {
        let head = entries.drop_last();
        lemma_deallocated(head);
        let d = deallocated(entries);
        let dh = deallocated(head);
        assert forall|k: int| 0 <= k < d.len() implies gives_back(entries, #[trigger] d[k]) by {
            if k < dh.len() {
                assert(gives_back(head, dh[k]));
                let i = choose|i: int|
                    0 <= i < head.len() && head[i].diff == AllocDiff::Dealloc
                        && #[trigger] head[i].hba == dh[k];
                assert(entries[i] == head[i]);
                assert(entries[i].hba == d[k]);
            } else {
                assert(entries[entries.len() - 1].hba == d[k]);
            }
        }
        assert forall|j: int, k: int| 0 <= j < k < d.len() implies d[j] < d[k] by {
            if k == dh.len() {
                assert(gives_back(head, dh[j]));
                let i = choose|i: int|
                    0 <= i < head.len() && head[i].diff == AllocDiff::Dealloc
                        && #[trigger] head[i].hba == dh[j];
                assert(entries[i].hba < entries[entries.len() - 1].hba);
            }
        }
    }
}

/// Giving back a list of distinct allocated blocks keeps the segment counts
/// in step with the bitmap.
pub proof fn lemma_dealloc_all(bitmap: Seq<bool>, segs: Option<Seq<SegmentView>>, hbas: Seq<int>)
    requires
        ascending_within(hbas, bitmap.len() as int),
        forall|k: int| 0 <= k < hbas.len() ==> !bitmap[#[trigger] hbas[k]],
        bitmap.len() <= usize::MAX,
        segments_shaped(bitmap.len(), segs),
        segments_match(bitmap, segs),
    ensures
        segments_shaped(bitmap.len(), seg_dealloc_all(segs, hbas)),
        segments_match(set_all(bitmap, hbas, true), seg_dealloc_all(segs, hbas)),
    decreases hbas.len(),
{
    if hbas.len() > 0 {
        let head = hbas.drop_last();
        let h = hbas.last();
        lemma_dealloc_all(bitmap, segs, head);
        lemma_set_all_frame(bitmap, head, true);
        let b1 = set_all(bitmap, head, true);
        if head.contains(h) {
            let k = choose|k: int| 0 <= k < head.len() && head[k] == h;
            assert(hbas[k] < hbas[hbas.len() - 1]);
        }
        assert(b1[h] == bitmap[h]);
        lemma_dealloc_step(b1, seg_dealloc_all(segs, head), h);
    }
}

/// A commit keeps the counts right: when the deallocations of a transaction
/// are applied, the kept count of free blocks stays the number of free bits
/// and the segment counts stay in step with the bitmap, as long as every
/// block given back was allocated.
pub proof fn law_commit_keeps_counts(v: AllocTableView, entries: Seq<DiffEntry>)
    requires
        v.wf(),
        strictly_ascending(entries),
        forall|i: int|
            0 <= i < entries.len() ==> (#[trigger] entries[i]).hba < v.bitmap.len() && (
            entries[i].diff == AllocDiff::Dealloc ==> !v.bitmap[entries[i].hba as int]),
    ensures
        v.counts_agree() ==> v.after_commit(entries).counts_agree(),
        v.segments_agree() ==> v.after_commit(entries).segments_agree(),
{
    lemma_deallocated(entries);
    let d = deallocated(entries);
    assert forall|k: int| 0 <= k < d.len() implies 0 <= #[trigger] d[k] < v.bitmap.len()
        && !v.bitmap[d[k]] by {
        assert(gives_back(entries, d[k]));
        let i = choose|i: int|
            0 <= i < entries.len() && entries[i].diff == AllocDiff::Dealloc
                && #[trigger] entries[i].hba == d[k];
        assert(entries[i].hba < v.bitmap.len());
    }
    lemma_free_all(v.bitmap, d);
    if v.segments_agree() {
        lemma_dealloc_all(v.bitmap, v.segments, d);
    }
}

/// The sum of the valid-block counts of the segments of `t`.
pub open spec fn sum_valid(t: Seq<SegmentView>) -> nat
    decreases t.len(),
{
    if t.len() == 0 {
        0
    } else {
        sum_valid(t.drop_last()) + t.last().valid_block
    }
}

/// The sum of the invalid-block counts of the segments of `t`.
pub open spec fn sum_invalid(t: Seq<SegmentView>) -> nat
    decreases t.len(),
{
    if t.len() == 0 {
        0
    } else {
        sum_invalid(t.drop_last()) + t.last().invalid()
    }
}

/// The valid and the invalid blocks of segments whose counters lie within
/// the segments add up to all their blocks.
pub proof fn lemma_valid_and_invalid(t: Seq<SegmentView>)
    requires
        forall|i: int|
            0 <= i < t.len() ==> (#[trigger] t[i]).nblocks == SEGMENT_SIZE && t[i].valid_block
                <= SEGMENT_SIZE,
    ensures
        sum_valid(t) + sum_invalid(t) == t.len() * SEGMENT_SIZE,
    decreases t.len(),
{
    if t.len() > 0 {
        let head = t.drop_last();
        assert forall|i: int| 0 <= i < head.len() implies (#[trigger] head[i]).nblocks
            == SEGMENT_SIZE && head[i].valid_block <= SEGMENT_SIZE by {
            assert(head[i] == t[i]);
        }
        lemma_valid_and_invalid(head);
        assert(t.last() == t[t.len() - 1]);
        assert(t.len() * SEGMENT_SIZE == head.len() * SEGMENT_SIZE + SEGMENT_SIZE)
            by (nonlinear_arith)
            requires
                t.len() == head.len() + 1,
        ;
    }
}

/// With garbage collection enabled over a bitmap that the segments cover,
/// the valid-block counts add up to the live records plus the free blocks
/// exactly when the blocks counted as invalid are as many as the allocated
/// blocks to which no record points.
pub proof fn law_valid_blocks_sum(v: AllocTableView, live: nat)
    requires
        v.wf(),
        v.segments is Some,
        v.bitmap.len() % (SEGMENT_SIZE as nat) == 0,
        forall|i: int| 0 <= i < v.segments->0.len() ==> (#[trigger] v.segments->0[i]).valid_block <= SEGMENT_SIZE,
        live + count_ones(v.bitmap) <= v.bitmap.len(),
    ensures
        sum_valid(v.segments->0) == live + count_ones(v.bitmap) <==> sum_invalid(v.segments->0)
            + live + count_ones(v.bitmap) == v.bitmap.len(),
{
    lemma_valid_and_invalid(v.segments->0);
}

/// The blocks that a batch allocation picks are distinct free blocks of the
/// bitmap, in ascending order.
pub proof fn lemma_batch_pick_fresh(v: AllocTableView, count: nat)
    requires
        v.wf(),
        v.batch_pick(count) is Some,
    ensures
        v.batch_pick(count)->0.len() == count,
        ascending_within(v.batch_pick(count)->0, v.bitmap.len() as int),
        forall|k: int| 0 <= k < count ==> v.bitmap[#[trigger] v.batch_pick(count)->0[k]],
{
    let n = v.bitmap.len() as int;
    lemma_ones_in(v.bitmap, v.batch_start(count), n);
    lemma_ones_in(v.bitmap, 0, n);
}

/// A commit keeps the shape of the table.
pub proof fn lemma_after_commit_wf(v: AllocTableView, entries: Seq<DiffEntry>)
    requires
        v.wf(),
        strictly_ascending(entries),
        forall|i: int| 0 <= i < entries.len() ==> (#[trigger] entries[i]).hba < v.bitmap.len(),
        v.num_free + entries.len() <= usize::MAX,
    ensures
        v.after_commit(entries).wf(),
        v.after_commit(entries).bitmap.len() == v.bitmap.len(),
{
    lemma_deallocated(entries);
    let d = deallocated(entries);
    assert forall|k: int| 0 <= k < d.len() implies 0 <= #[trigger] d[k] < v.bitmap.len() by {
        assert(gives_back(entries, d[k]));
        let i = choose|i: int|
            0 <= i < entries.len() && entries[i].diff == AllocDiff::Dealloc
                && #[trigger] entries[i].hba == d[k];
        assert(entries[i].hba < v.bitmap.len());
    }
    lemma_set_all_frame(v.bitmap, d, true);
    crate::block_alloc::lemma_seg_dealloc_all_shape(v.segments, d);
}

/// A batch allocation that had to wait completes once enough blocks were
/// given back: on a table whose count is right, after a commit that gives
/// allocated blocks back, the allocation is served as soon as the count of
/// free blocks reaches the number asked for.
pub proof fn law_waiting_batch_completes(v: AllocTableView, entries: Seq<DiffEntry>, count: nat)
    requires
        v.wf(),
        v.counts_agree(),
        count > 0,
        v.num_free < count,
        strictly_ascending(entries),
        forall|i: int|
            0 <= i < entries.len() ==> (#[trigger] entries[i]).hba < v.bitmap.len() && (
            entries[i].diff == AllocDiff::Dealloc ==> !v.bitmap[entries[i].hba as int]),
        v.num_free + entries.len() <= usize::MAX,
    ensures
        v.batch_pick(count) is None,
        v.after_commit(entries).num_free >= count <==> v.after_commit(entries).batch_pick(count)
            is Some,
        v.after_commit(entries).batch_pick(count) is Some ==> v.after_commit(entries).after_batch(
            v.after_commit(entries).batch_pick(count)->0,
        ).counts_agree(),
{
    law_alloc_batch_keeps_counts(v, count);
    lemma_after_commit_wf(v, entries);
    law_commit_keeps_counts(v, entries);
    law_alloc_batch_keeps_counts(v.after_commit(entries), count);
}

/// With garbage collection enabled over a bitmap that the segments cover,
/// giving an allocated block back keeps the free slots of the segments adding
/// up to the kept count of free blocks.
pub proof fn law_dealloc_keeps_sum(v: AllocTableView, nth: int)
    requires
        v.wf(),
        v.segments is Some,
        v.bitmap.len() % (SEGMENT_SIZE as nat) == 0,
        v.counts_agree(),
        v.segments_agree(),
        0 <= nth < v.bitmap.len(),
        !v.bitmap[nth],
    ensures
        sum_free(v.segments->0) == v.num_free,
        sum_free(seg_dealloc(v.segments, nth)->0) == v.num_free + 1,
{
    law_segment_counts_sum(v);
    law_dealloc_keeps_counts(v, nth);
    lemma_dealloc_step(v.bitmap, v.segments, nth);
    lemma_ones_in(v.bitmap, 0, v.bitmap.len() as int);
    let after = AllocTableView {
        bitmap: v.bitmap.update(nth, true),
        segments: seg_dealloc(v.segments, nth),
        num_free: v.num_free + 1,
        ..v
    };
    lemma_ones_in(after.bitmap, 0, after.bitmap.len() as int);
    lemma_sum_free(after.bitmap, after.segments->0);
}

/// With garbage collection enabled over a bitmap that the segments cover,
/// a commit that gives allocated blocks back keeps the free slots of the
/// segments adding up to the kept count of free blocks.
pub proof fn law_commit_keeps_sum(v: AllocTableView, entries: Seq<DiffEntry>)
    requires
        v.wf(),
        v.segments is Some,
        v.bitmap.len() % (SEGMENT_SIZE as nat) == 0,
        v.counts_agree(),
        v.segments_agree(),
        strictly_ascending(entries),
        forall|i: int|
            0 <= i < entries.len() ==> (#[trigger] entries[i]).hba < v.bitmap.len() && (
            entries[i].diff == AllocDiff::Dealloc ==> !v.bitmap[entries[i].hba as int]),
        v.num_free + entries.len() <= usize::MAX,
    ensures
        v.after_commit(entries).segments is Some,
        sum_free(v.after_commit(entries).segments->0) == v.after_commit(entries).num_free,
        v.after_commit(entries).num_free == v.num_free + deallocated(entries).len(),
{
    lemma_after_commit_wf(v, entries);
    law_commit_keeps_counts(v, entries);
    let after = v.after_commit(entries);
    crate::block_alloc::lemma_seg_dealloc_all_shape(v.segments, deallocated(entries));
    law_segment_counts_sum(after);
}

/// A batch allocation that is served keeps the count right.
pub proof fn law_alloc_batch_keeps_counts_of(v: AllocTableView, count: nat)
    requires
        v.wf(),
        v.batch_pick(count) is Some,
    ensures
        v.counts_agree() ==> v.after_batch(v.batch_pick(count)->0).counts_agree(),
{
    lemma_batch_pick_fresh(v, count);
    lemma_alloc_all(v.bitmap, v.segments, v.batch_pick(count)->0);
    if v.counts_agree() && count > 0 {
        law_alloc_batch_keeps_counts(v, count);
    }
}

/// The segments of `t` count no block as invalid.
pub proof fn lemma_no_invalid(t: Seq<SegmentView>)
    requires
        forall|i: int|
            0 <= i < t.len() ==> (#[trigger] t[i]).nblocks == SEGMENT_SIZE && t[i].valid_block
                == SEGMENT_SIZE,
    ensures
        sum_invalid(t) == 0,
    decreases t.len(),
{
    if t.len() > 0 {
        let head = t.drop_last();
        assert forall|i: int| 0 <= i < head.len() implies (#[trigger] head[i]).nblocks
            == SEGMENT_SIZE && head[i].valid_block == SEGMENT_SIZE by {
            assert(head[i] == t[i]);
        }
        lemma_no_invalid(head);
        assert(t.last() == t[t.len() - 1]);
    }
}

/// With garbage collection enabled over a bitmap that the segments cover,
/// as long as no block was given back since the segments were last cleared
/// and a record points to every allocated block, the valid-block counts add
/// up to the live records plus the free blocks.
pub proof fn law_valid_blocks_sum_without_deallocations(v: AllocTableView, live: nat)
    requires
        v.wf(),
        v.segments is Some,
        v.bitmap.len() % (SEGMENT_SIZE as nat) == 0,
        forall|i: int|
            0 <= i < v.segments->0.len() ==> (#[trigger] v.segments->0[i]).valid_block
                == SEGMENT_SIZE,
        live + count_ones(v.bitmap) == v.bitmap.len(),
    ensures
        sum_valid(v.segments->0) == live + count_ones(v.bitmap),
{
    lemma_no_invalid(v.segments->0);
    law_valid_blocks_sum(v, live);
}

} // verus!
