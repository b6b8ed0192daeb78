//! Garbage collection: the barrier between the collector, compaction and
//! foreground I/O, the choice of victim segments, and the plan that moves the
//! live blocks of a victim elsewhere.
use vstd::prelude::*;

use crate::bio::as_ints;
use crate::bitmap::{ones_in, BitMap};
use crate::segment::{flip, Segment, SegmentId, SegmentView};
use crate::sworndisk::{Hba, Lba};

verus! {

/// The most victims that one pass of the collector takes.
pub const GC_WATERMARK: usize = 16;

/// How long the collector rests after a pass in which the disk was active,
/// in milliseconds.
pub const ACTIVE_GC_INTERVAL_MILLIS: u64 = 5000;

/// How long the collector rests after a pass in which the disk was idle, in
/// milliseconds.
pub const INACTIVE_GC_INTERVAL_MILLIS: u64 = 100;

/// The key of a record of the reverse index.
#[derive(Clone, Copy, Debug, PartialEq, Eq, Structural)]
pub struct ReverseKey {
    pub hba: Hba,
}

/// The value of a record of the reverse index.
#[derive(Clone, Copy, Debug, PartialEq, Eq, Structural)]
pub struct ReverseValue {
    pub lba: Lba,
}

impl core::ops::Add<usize> for ReverseKey {
    type Output = ReverseKey;

    fn add(self, rhs: usize) -> (r: ReverseKey) {
        ReverseKey { hba: self.hba + rhs }
    }
}

impl vstd::std_specs::ops::AddSpecImpl<usize> for ReverseKey {
    open spec fn obeys_add_spec() -> bool {
        true
    }

    open spec fn add_req(self, rhs: usize) -> bool {
        self.hba + rhs <= usize::MAX
    }

    open spec fn add_spec(self, rhs: usize) -> ReverseKey {
        ReverseKey { hba: (self.hba + rhs) as usize }
    }
}

impl core::ops::Sub<ReverseKey> for ReverseKey {
    type Output = usize;

    fn sub(self, rhs: ReverseKey) -> (r: usize) {
        self.hba - rhs.hba
    }
}

impl vstd::std_specs::ops::SubSpecImpl<ReverseKey> for ReverseKey {
    open spec fn obeys_sub_spec() -> bool {
        true
    }

    open spec fn sub_req(self, rhs: ReverseKey) -> bool {
        self.hba >= rhs.hba
    }

    open spec fn sub_spec(self, rhs: ReverseKey) -> usize {
        (self.hba - rhs.hba) as usize
    }
}

/// The state of the barrier: which of the two background activities is
/// under way.
///
/// The collector stops the world: foreground I/O and compaction wait while
/// it runs, and it waits for a compaction to end before it starts. This type
/// decides who may go on; whoever may not waits and asks again when it is
/// told that the activity has ended.
pub struct SharedState {
    gc_in_progress: bool,
    compaction_in_progress: bool,
}

impl SharedState {
    pub closed spec fn gc_in_progress(&self) -> bool {
        self.gc_in_progress
    }

    pub closed spec fn compaction_in_progress(&self) -> bool {
        self.compaction_in_progress
    }

    /// A barrier with nothing under way.
    pub fn new() -> (s: SharedState)
        ensures
            !s.gc_in_progress(),
            !s.compaction_in_progress(),
    {
        SharedState { gc_in_progress: false, compaction_in_progress: false }
    }

    /// Asked by compaction and by foreground I/O: whether they may go on,
    /// which is when no collection is under way.
    pub fn wait_for_background_gc(&self) -> (ready: bool)
        ensures
            ready == !self.gc_in_progress(),
    {
        !self.gc_in_progress
    }

    /// Asked by the collector: whether it may go on, which is when no
    /// compaction is under way.
    pub fn wait_for_compaction(&self) -> (ready: bool)
        ensures
            ready == !self.compaction_in_progress(),
    {
        !self.compaction_in_progress
    }

    pub fn start_gc(&mut self)
        ensures
            final(self).gc_in_progress(),
            final(self).compaction_in_progress() == old(self).compaction_in_progress(),
    {
        self.gc_in_progress = true;
    }

    pub fn start_compaction(&mut self)
        ensures
            final(self).compaction_in_progress(),
            final(self).gc_in_progress() == old(self).gc_in_progress(),
    {
        self.compaction_in_progress = true;
    }

    /// Ends the collection. Everyone who waits for it is to be woken.
    pub fn notify_gc_finished(&mut self)
        ensures
            !final(self).gc_in_progress(),
            final(self).compaction_in_progress() == old(self).compaction_in_progress(),
    {
        self.gc_in_progress = false;
    }

    /// Ends the compaction. Everyone who waits for it is to be woken.
    pub fn notify_compaction_finished(&mut self)
        ensures
            !final(self).compaction_in_progress(),
            final(self).gc_in_progress() == old(self).gc_in_progress(),
    {
        self.compaction_in_progress = false;
    }
}

/// A share of the blocks of a segment, as a ratio of two integers.
#[derive(Clone, Copy, Debug)]
pub struct Threshold {
    numer: u32,
    denom: u32,
}

impl Threshold {
    pub closed spec fn numer(self) -> nat {
        self.numer as nat
    }

    pub closed spec fn denom(self) -> nat {
        self.denom as nat
    }

    /// The share `numer / denom`.
    pub fn new(numer: u32, denom: u32) -> (t: Threshold)
        requires
            denom > 0,
        ensures
            t.numer() == numer,
            t.denom() == denom,
    {
        Threshold { numer, denom }
    }

    /// The share above which a segment is collected while the disk is
    /// active: six tenths.
    pub fn active() -> (t: Threshold)
        ensures
            t == Threshold::active_spec(),
            t.numer() == 6,
            t.denom() == 10,
    {
        Threshold { numer: 6, denom: 10 }
    }

    /// The share above which a segment is collected while the disk is idle:
    /// one tenth.
    pub fn inactive() -> (t: Threshold)
        ensures
            t == Threshold::inactive_spec(),
            t.numer() == 1,
            t.denom() == 10,
    {
        Threshold { numer: 1, denom: 10 }
    }

    /// Six tenths.
    pub closed spec fn active_spec() -> Threshold {
        Threshold { numer: 6, denom: 10 }
    }

    /// One tenth.
    pub closed spec fn inactive_spec() -> Threshold {
        Threshold { numer: 1, denom: 10 }
    }

    /// Whether the invalid blocks of `s` are more than this share of its
    /// blocks.
    pub open spec fn exceeded_by(self, s: SegmentView) -> bool {
        s.invalid() * self.denom() > self.numer() * s.nblocks
    }

    /// Whether the invalid blocks of `segment` are more than this share of
    /// its blocks.
    pub fn is_exceeded_by(&self, segment: &Segment) -> (b: bool)
        ensures
            b == self.exceeded_by(segment@),
    {
        let invalid: u128 = segment.num_invalid_blocks() as u128;
        let nblocks: u128 = segment.nblocks() as u128;
        proof {
            assert(invalid * (self.denom as u128) <= 0xffff_ffff_ffff_ffff * 0xffff_ffff)
                by (nonlinear_arith)
                requires
                    invalid <= 0xffff_ffff_ffff_ffff,
                    self.denom <= 0xffff_ffff,
            ;
            assert((self.numer as u128) * nblocks <= 0xffff_ffff * 0xffff_ffff_ffff_ffff)
                by (nonlinear_arith)
                requires
                    nblocks <= 0xffff_ffff_ffff_ffff,
                    self.numer <= 0xffff_ffff,
            ;
        }
        invalid * (self.denom as u128) > (self.numer as u128) * nblocks
    }
}

/// A segment chosen for collection and the blocks that are allocated in it.
pub struct Victim {
    segment_id: SegmentId,
    blocks: Vec<Hba>,
}

impl Victim {
    pub closed spec fn id(&self) -> SegmentId {
        self.segment_id
    }

    pub closed spec fn hbas(&self) -> Seq<usize> {
        self.blocks@
    }

    /// The victim `segment_id` with its allocated blocks `blocks`.
    pub fn new(segment_id: SegmentId, blocks: Vec<Hba>) -> (v: Victim)
        ensures
            v.id() == segment_id,
            v.hbas() == blocks@,
    {
        Victim { segment_id, blocks }
    }

    pub fn segment_id(&self) -> (id: SegmentId)
        ensures
            id == self.id(),
    {
        self.segment_id
    }

    pub fn blocks(&self) -> (b: &Vec<Hba>)
        ensures
            b@ == self.hbas(),
    {
        &self.blocks
    }
}

/// The views of the segments of a table.
pub open spec fn table_view(t: Seq<Segment>) -> Seq<SegmentView> {
    t.map_values(|s: Segment| s@)
}

/// Every segment of the table lies within the bitmap.
pub open spec fn table_fits(t: Seq<Segment>, bitmap: Seq<bool>) -> bool {
    forall|i: int| 0 <= i < t.len() ==> (#[trigger] t[i])@.upper() <= bitmap.len()
}

/// `v` names segment `i` of the table together with the blocks that the
/// bitmap shows as allocated in it.
pub open spec fn is_victim(v: Victim, t: Seq<Segment>, bitmap: Seq<bool>, i: int) -> bool {
    &&& 0 <= i < t.len()
    &&& v.id() == i
    &&& as_ints(v.hbas()) == ones_in(flip(bitmap), t[i]@.lower(), t[i]@.upper())
}

/// How the collector chooses the segment to collect next.
pub trait VictimPolicy {
    /// What the policy asks of the table before it can choose.
    spec fn ready(&self, segment_table: Seq<Segment>) -> bool;

    /// A segment whose share of invalid blocks is above `threshold`,
    /// together with its allocated blocks, or `None`.
    fn pick_victim(&mut self, segment_table: &[Segment], bitmap: &BitMap, threshold: Threshold) -> (r:
        Option<Victim>)
        requires
            old(self).ready(segment_table@),
            bitmap.wf(),
            table_fits(segment_table@, bitmap@),
        ensures
            final(self).ready(segment_table@),
            r is Some ==> is_victim(r->0, segment_table@, bitmap@, r->0.id() as int)
                && threshold.exceeded_by(segment_table@[r->0.id() as int]@),
    ;
}

/// Chooses the segment with the most invalid blocks.
#[derive(Clone, Copy, Debug)]
pub struct GreedyVictimPolicy {}

/// Segment `i` is above the threshold, no segment above the threshold has
/// more invalid blocks, and none before it has as many.
pub open spec fn is_greedy_choice(t: Seq<Segment>, threshold: Threshold, i: int) -> bool {
    &&& 0 <= i < t.len()
    &&& threshold.exceeded_by(t[i]@)
    &&& forall|j: int|
        0 <= j < t.len() && threshold.exceeded_by((#[trigger] t[j])@) ==> t[j]@.invalid()
            <= t[i]@.invalid()
    &&& forall|j: int|
        0 <= j < i && threshold.exceeded_by((#[trigger] t[j])@) ==> t[j]@.invalid()
            < t[i]@.invalid()
}

impl GreedyVictimPolicy {
    pub fn new() -> GreedyVictimPolicy {
        GreedyVictimPolicy {  }
    }

    /// The greedy choice among the segments of the table, if any segment
    /// is above the threshold.
    pub fn greedy_index(segment_table: &[Segment], threshold: Threshold) -> (r: Option<usize>)
        ensures
            match r {
                Some(i) => is_greedy_choice(segment_table@, threshold, i as int),
                None => forall|j: int|
                    0 <= j < segment_table@.len() ==> !threshold.exceeded_by(
                        (#[trigger] segment_table@[j])@,
                    ),
            },
    {
        let mut max_num_invalid_blocks: usize = 0;
        let mut victim: Option<usize> = None;
        let mut i: usize = 0;
        while i < segment_table.len()
            invariant
                i <= segment_table@.len(),
                match victim {
                    Some(v) => v < i && is_greedy_choice(
                        segment_table@.take(i as int),
                        threshold,
                        v as int,
                    ) && max_num_invalid_blocks == segment_table@[v as int]@.invalid(),
                    None => max_num_invalid_blocks == 0 && forall|j: int|
                        0 <= j < i ==> !threshold.exceeded_by((#[trigger] segment_table@[j])@),
                },
            decreases segment_table@.len() - i,
        {
            let segment = &segment_table[i];
            let ghost before = segment_table@.take(i as int);
            let ghost after = segment_table@.take(i + 1);
            proof {
                assert forall|j: int| 0 <= j < i implies #[trigger] after[j] == before[j] by {}
                assert(after[i as int] == segment_table@[i as int]);
            }
            if threshold.is_exceeded_by(segment) && segment.num_invalid_blocks()
                > max_num_invalid_blocks {
                max_num_invalid_blocks = segment.num_invalid_blocks();
                victim = Some(i);
                proof {
                    assert forall|j: int|
                        0 <= j < after.len() && threshold.exceeded_by(
                            (#[trigger] after[j])@,
                        ) implies after[j]@.invalid() <= after[i as int]@.invalid() by {
                        if j < i {
                            assert(before[j] == after[j]);
                        }
                    }
                    assert forall|j: int|
                        0 <= j < i && threshold.exceeded_by(
                            (#[trigger] after[j])@,
                        ) implies after[j]@.invalid() < after[i as int]@.invalid() by {
                        assert(before[j] == after[j]);
                    }
                }
            } else {
                proof {
                    if let Some(v) = victim {
                        assert(after[v as int] == before[v as int]);
                        assert forall|j: int|
                            0 <= j < after.len() && threshold.exceeded_by(
                                (#[trigger] after[j])@,
                            ) implies after[j]@.invalid() <= after[v as int]@.invalid() by {
                            if j < i {
                                assert(before[j] == after[j]);
                            }
                        }
                        assert forall|j: int|
                            0 <= j < v && threshold.exceeded_by(
                                (#[trigger] after[j])@,
                            ) implies after[j]@.invalid() < after[v as int]@.invalid() by {
                            assert(before[j] == after[j]);
                        }
                    } else {
                        if threshold.exceeded_by(segment@) {
                            lemma_exceeded_has_invalid(threshold, segment@);
                        }
                    }
                }
            }
            i += 1;
        }
        proof {
            assert(segment_table@.take(segment_table@.len() as int) =~= segment_table@);
        }
        victim
    }
}

/// A segment above a threshold has an invalid block.
pub proof fn lemma_exceeded_has_invalid(threshold: Threshold, s: SegmentView)
    requires
        threshold.exceeded_by(s),
    ensures
        s.invalid() > 0,
{
    assert(s.invalid() * threshold.denom() > 0 ==> s.invalid() > 0) by (nonlinear_arith);
    assert(threshold.numer() * s.nblocks >= 0) by (nonlinear_arith);
}

impl VictimPolicy for GreedyVictimPolicy {
    open spec fn ready(&self, segment_table: Seq<Segment>) -> bool {
        true
    }

    /// The segment with the most invalid blocks among those above the
    /// threshold, the first of them where several have as many; `None` where
    /// no segment is above the threshold.
    fn pick_victim(&mut self, segment_table: &[Segment], bitmap: &BitMap, threshold: Threshold) -> (r:
        Option<Victim>)
        ensures
            greedy_choice(segment_table@, threshold, r),
    {
        match GreedyVictimPolicy::greedy_index(segment_table, threshold) {
            Some(i) => {
                let blocks = segment_table[i].find_all_allocated_blocks(bitmap);
                Some(Victim { segment_id: i, blocks })
            },
            None => None,
        }
    }
}

/// Goes round the segments and chooses the first above the threshold.
#[derive(Clone, Copy, Debug)]
pub struct LoopScanVictimPolicy {
    cursor: usize,
}

/// The segment that stands `k` places behind `cursor`, going round.
pub open spec fn round(cursor: usize, k: int, len: int) -> int {
    (cursor + k) % len
}

/// The outcome `r` of a scan that goes round once from `cursor_before`:
/// the first segment above the threshold behind the cursor, the segment at
/// the cursor itself left out, with the cursor moved to it; or none, with the
/// cursor where it was.
pub open spec fn loop_scan_choice(
    cursor_before: usize,
    cursor_after: usize,
    t: Seq<Segment>,
    threshold: Threshold,
    r: Option<Victim>,
) -> bool {
    match r {
        Some(v) => cursor_after == v.id() && exists|k: int|
            1 <= k < t.len() && v.id() == #[trigger] round(cursor_before, k, t.len() as int)
                && forall|j: int|
                1 <= j < k ==> !threshold.exceeded_by(
                    t[#[trigger] round(cursor_before, j, t.len() as int)]@,
                ),
        None => cursor_after == cursor_before && forall|j: int|
            1 <= j < t.len() ==> !threshold.exceeded_by(
                t[#[trigger] round(cursor_before, j, t.len() as int)]@,
            ),
    }
}

/// The outcome `r` of the greedy choice: the first of the segments with the
/// most invalid blocks among those above the threshold, or none where no
/// segment is above it.
pub open spec fn greedy_choice(t: Seq<Segment>, threshold: Threshold, r: Option<Victim>) -> bool {
    match r {
        Some(v) => is_greedy_choice(t, threshold, v.id() as int),
        None => forall|j: int| 0 <= j < t.len() ==> !threshold.exceeded_by((#[trigger] t[j])@),
    }
}

/// The outcome `r` of a choice by the policy `before`, which leaves the
/// policy as `after`.
pub open spec fn chosen_by(
    before: VictimPolicyRef,
    after: VictimPolicyRef,
    t: Seq<Segment>,
    threshold: Threshold,
    r: Option<Victim>,
) -> bool {
    match before {
        VictimPolicyRef::Greedy(_) => after is Greedy && greedy_choice(t, threshold, r),
        VictimPolicyRef::LoopScan(p) => after is LoopScan && loop_scan_choice(
            p.cursor(),
            after->LoopScan_0.cursor(),
            t,
            threshold,
            r,
        ),
    }
}

impl LoopScanVictimPolicy {
    /// Where the last scan stopped.
    pub closed spec fn cursor(&self) -> usize {
        self.cursor
    }

    pub fn new() -> (p: LoopScanVictimPolicy)
        ensures
            p.cursor() == 0,
    {
        LoopScanVictimPolicy { cursor: 0 }
    }
}

impl LoopScanVictimPolicy {
    /// Whether the policy can choose from a table of `nsegments` segments:
    /// its cursor has to lie within the table.
    pub fn is_ready(&self, nsegments: usize) -> (b: bool)
        ensures
            b == (self.cursor() < nsegments),
    {
        self.cursor < nsegments
    }
}

impl VictimPolicy for LoopScanVictimPolicy {
    open spec fn ready(&self, segment_table: Seq<Segment>) -> bool {
        self.cursor() < segment_table.len()
    }

    /// The first segment above the threshold behind the cursor, going round
    /// once and leaving out the segment at the cursor itself; the cursor
    /// moves to the segment chosen. `None`, and the cursor stays, where no
    /// other segment is above the threshold.
    fn pick_victim(&mut self, segment_table: &[Segment], bitmap: &BitMap, threshold: Threshold) -> (r:
        Option<Victim>)
        ensures
            loop_scan_choice(
                old(self).cursor(),
                final(self).cursor(),
                segment_table@,
                threshold,
                r,
            ),
    {
        let len: usize = segment_table.len();
        let last_cursor: usize = self.cursor;
        let mut cursor: usize = last_cursor;
        let mut k: usize = 0;
        proof {
            lemma_round_back(last_cursor, 1, len as int);
        }
        loop
            invariant
                len == segment_table@.len(),
                last_cursor == old(self).cursor(),
                self.cursor == last_cursor,
                last_cursor < len,
                cursor < len,
                k < len,
                len <= usize::MAX,
                cursor == round(last_cursor, k as int, len as int),
                bitmap.wf(),
                table_fits(segment_table@, bitmap@),
                forall|j: int|
                    1 <= j <= k ==> !threshold.exceeded_by(
                        segment_table@[#[trigger] round(last_cursor, j, len as int)]@,
                    ),
            decreases len - k,
        {
            cursor = if cursor + 1 == len {
                0
            } else {
                cursor + 1
            };
            k = k + 1;
            proof {
                lemma_round_step(last_cursor, k as int - 1, len as int);
            }
            proof {
                lemma_round_back(last_cursor, k as int, len as int);
            }
            if cursor == last_cursor {
                return None;
            }
            let segment = &segment_table[cursor];
            if threshold.is_exceeded_by(segment) {
                self.cursor = cursor;
                let blocks = segment.find_all_allocated_blocks(bitmap);
                proof {
                    assert(cursor == round(last_cursor, k as int, len as int));
                }
                return Some(Victim { segment_id: cursor, blocks });
            }
        }
    }
}

/// One of the policies that a disk can be configured with.
#[derive(Clone, Copy, Debug)]
pub enum VictimPolicyRef {
    Greedy(GreedyVictimPolicy),
    LoopScan(LoopScanVictimPolicy),
}

impl VictimPolicyRef {
    /// Whether the policy can choose from the table `segment_table`.
    pub fn is_ready(&self, segment_table: &[Segment]) -> (b: bool)
        ensures
            b == self.ready(segment_table@),
    {
        match self {
            VictimPolicyRef::Greedy(_) => true,
            VictimPolicyRef::LoopScan(p) => p.is_ready(segment_table.len()),
        }
    }
}

impl VictimPolicy for VictimPolicyRef {
    open spec fn ready(&self, segment_table: Seq<Segment>) -> bool {
        match self {
            VictimPolicyRef::Greedy(p) => p.ready(segment_table),
            VictimPolicyRef::LoopScan(p) => p.ready(segment_table),
        }
    }

    /// What the policy held chooses.
    fn pick_victim(&mut self, segment_table: &[Segment], bitmap: &BitMap, threshold: Threshold) -> (r:
        Option<Victim>)
        ensures
            chosen_by(*old(self), *final(self), segment_table@, threshold, r),
    {
        match self {
            VictimPolicyRef::Greedy(p) => p.pick_victim(segment_table, bitmap, threshold),
            VictimPolicyRef::LoopScan(p) => p.pick_victim(segment_table, bitmap, threshold),
        }
    }
}

/// Going one place further round is adding one, or starting over at the
/// end.
pub proof fn lemma_round_step(cursor: usize, k: int, len: int)
    requires
        0 <= k,
        0 < len,
    ensures
        round(cursor, k + 1, len) == if round(cursor, k, len) + 1 == len {
            0
        } else {
            round(cursor, k, len) + 1
        },
        0 <= round(cursor, k, len) < len,
{
    let a = cursor + k;
    vstd::arithmetic::div_mod::lemma_fundamental_div_mod(a, len);
    vstd::arithmetic::div_mod::lemma_fundamental_div_mod(a + 1, len);
    vstd::arithmetic::div_mod::lemma_mod_bound(a, len);
    vstd::arithmetic::div_mod::lemma_mod_bound(a + 1, len);
    let q = a / len;
    let r = a % len;
    assert(len * q == q * len) by (nonlinear_arith);
    assert((q + 1) * len == q * len + len) by (nonlinear_arith);
    if r + 1 == len {
        vstd::arithmetic::div_mod::lemma_fundamental_div_mod_converse(a + 1, len, q + 1, 0);
    } else {
        vstd::arithmetic::div_mod::lemma_fundamental_div_mod_converse(a + 1, len, q, r + 1);
    }
}

/// Going round comes back to the cursor after as many places as there are
/// segments, and not before.
pub proof fn lemma_round_back(cursor: usize, k: int, len: int)
    requires
        1 <= k,
        cursor < len,
    ensures
        k < len ==> round(cursor, k, len) != cursor,
        k == len ==> round(cursor, k, len) == cursor,
        round(cursor, 0, len) == cursor,
{
    vstd::arithmetic::div_mod::lemma_small_mod(cursor as nat, len as nat);
    if k == len {
        vstd::arithmetic::div_mod::lemma_fundamental_div_mod_converse(cursor + k, len, 1, cursor as int);
    }
    if k < len {
        if cursor + k < len {
            vstd::arithmetic::div_mod::lemma_small_mod((cursor + k) as nat, len as nat);
        } else {
            vstd::arithmetic::div_mod::lemma_fundamental_div_mod_converse(
                cursor + k,
                len,
                1,
                cursor + k - len,
            );
        }
    }
}

} // verus!
