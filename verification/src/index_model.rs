//! The two indexes as maps, and what a flush keeps true of them.
//!
//! The indexes themselves live outside this library. The laws here say what
//! holds of them as long as they behave as maps: a put replaces what the key
//! held, and nothing else changes.
use vstd::prelude::*;

use crate::bio::as_ints;
use crate::block_alloc::{fill_range, set_all};
use crate::data_buf::{distinct_blocks, lookup, BufferedBlock};
use crate::bitmap::{lemma_ones_in, ones_in};
use crate::error::Error;
use crate::alloc_laws::{after_migration, ascending_within};
use crate::block_alloc::{segments_shaped, AllocTableView};
use crate::gc_worker::{
    discard_of, first_failure, free_pool, remap_ops, valid_of, HeldRecord, Mapping, Remap,
};
use crate::segment::{SegmentView, SEGMENT_SIZE};
use crate::segment::flip;
use crate::inner::{block_of, buffer_after, index_ops, DiskView, IndexOp, Sealed};
use crate::sworndisk::RecordValue;

verus! {

/// The forward index, from logical address to record, and the reverse
/// index, from host block to logical address.
pub struct IndexModel {
    pub forward: Map<usize, RecordValue>,
    pub reverse: Map<usize, usize>,
}

/// The indexes after one operation.
pub open spec fn apply_op(m: IndexModel, op: IndexOp) -> IndexModel {
    match op {
        IndexOp::Touch(_) => m,
        IndexOp::Put(key, value) => IndexModel { forward: m.forward.insert(key.lba, value), ..m },
        IndexOp::PutReverse(key, value) => IndexModel {
            reverse: m.reverse.insert(key.hba, value.lba),
            ..m
        },
    }
}

/// The indexes after the operations of `ops`, in order.
pub open spec fn apply_ops(m: IndexModel, ops: Seq<IndexOp>) -> IndexModel
    decreases ops.len(),
{
    if ops.len() == 0 {
        m
    } else {
        apply_op(apply_ops(m, ops.drop_last()), ops.last())
    }
}

/// No record of the forward index points to a free block.
pub open spec fn free_unreferenced(bitmap: Seq<bool>, forward: Map<usize, RecordValue>) -> bool {
    forall|l: usize| #[trigger]
        forward.contains_key(l) ==> forward[l].hba < bitmap.len() && !bitmap[forward[l].hba as int]
}

/// Every record of the forward index has its counterpart in the reverse
/// index.
pub open spec fn indexes_agree(m: IndexModel) -> bool {
    forall|l: usize| #[trigger]
        m.forward.contains_key(l) ==> m.reverse.contains_key(m.forward[l].hba)
            && m.reverse[m.forward[l].hba] == l
}

/// The host blocks are distinct, lie within the bitmap and are free in it.
pub open spec fn fresh_blocks(bitmap: Seq<bool>, hbas: Seq<usize>) -> bool {
    &&& forall|i: int| 0 <= i < hbas.len() ==> (#[trigger] hbas[i]) < bitmap.len() && bitmap[hbas[i] as int]
    &&& forall|i: int, j: int| 0 <= i < j < hbas.len() ==> hbas[i] != hbas[j]
}

/// What the indexes hold after the first `k` blocks of a flush were
/// recorded.
pub open spec fn recorded_upto(
    m: IndexModel,
    blocks: Seq<BufferedBlock>,
    hbas: Seq<usize>,
    sealed: Seq<Sealed>,
    delayed: bool,
    reverse: bool,
    k: int,
) -> IndexModel {
    apply_ops(m, index_ops(blocks.take(k), hbas, sealed, delayed, reverse))
}

/// Block by block, a flush leaves every record of an address that it did
/// not write as it was, gives every address that it wrote the record of its
/// new host block, and gives the reverse index the address of every new host
/// block.
pub proof fn lemma_recorded(
    m: IndexModel,
    blocks: Seq<BufferedBlock>,
    hbas: Seq<usize>,
    sealed: Seq<Sealed>,
    delayed: bool,
    reverse: bool,
    k: int,
)
    requires
        0 <= k <= blocks.len(),
        hbas.len() == blocks.len(),
        sealed.len() == blocks.len(),
        distinct_blocks(blocks),
        forall|i: int, j: int| 0 <= i < j < hbas.len() ==> hbas[i] != hbas[j],
    ensures
        ({
            let after = recorded_upto(m, blocks, hbas, sealed, delayed, reverse, k);
            &&& forall|i: int|
                0 <= i < k ==> after.forward.contains_key((#[trigger] blocks[i]).lba)
                    && after.forward[blocks[i].lba] == (RecordValue {
                    hba: hbas[i],
                    key: sealed[i].key,
                    mac: sealed[i].mac,
                })
            &&& forall|l: usize|
                (forall|i: int| 0 <= i < k ==> (#[trigger] blocks[i]).lba != l) ==> (
                #[trigger] after.forward.contains_key(l) == m.forward.contains_key(l))
                    && after.forward[l] == m.forward[l]
            &&& reverse ==> forall|i: int|
                0 <= i < k ==> after.reverse.contains_key(#[trigger] hbas[i])
                    && after.reverse[hbas[i]] == blocks[i].lba
            &&& forall|h: usize|
                (forall|i: int| 0 <= i < k ==> (#[trigger] hbas[i]) != h) ==> (
                #[trigger] after.reverse.contains_key(h) == m.reverse.contains_key(h))
                    && after.reverse[h] == m.reverse[h]
        }),
    decreases k,
{
    if k == 0 {
        assert(blocks.take(0) =~= Seq::<BufferedBlock>::empty());
    } else {
        lemma_recorded(m, blocks, hbas, sealed, delayed, reverse, k - 1);
        let before = recorded_upto(m, blocks, hbas, sealed, delayed, reverse, k - 1);
        let after = recorded_upto(m, blocks, hbas, sealed, delayed, reverse, k);
        let part = blocks.take(k);
        assert(part.drop_last() =~= blocks.take(k - 1));
        assert(part[k - 1] == blocks[k - 1]);
        let i = k - 1;
        let key = crate::sworndisk::RecordKey { lba: blocks[i].lba };
        let value = RecordValue { hba: hbas[i], key: sealed[i].key, mac: sealed[i].mac };
        let head = index_ops(blocks.take(k - 1), hbas, sealed, delayed, reverse);
        let touched = if delayed {
            head
        } else {
            head.push(IndexOp::Touch(key))
        };
        let put = touched.push(IndexOp::Put(key, value));
        assert(touched.drop_last() =~= head || delayed);
        assert(apply_ops(m, touched).forward == before.forward && apply_ops(m, touched).reverse
            == before.reverse) by {
            if !delayed {
                assert(touched.drop_last() =~= head);
            }
        }
        assert(put.drop_last() =~= touched);
        let m_put = apply_ops(m, put);
        assert(m_put.forward == before.forward.insert(key.lba, value));
        assert(m_put.reverse == before.reverse);
        if reverse {
            let rev_op = IndexOp::PutReverse(
                crate::gc::ReverseKey { hba: hbas[i] },
                crate::gc::ReverseValue { lba: blocks[i].lba },
            );
            let all = put.push(rev_op);
            assert(all.drop_last() =~= put);
            assert(after.forward == m_put.forward);
            assert(after.reverse == before.reverse.insert(hbas[i], blocks[i].lba));
        } else {
            assert(after.forward == m_put.forward);
            assert(after.reverse == before.reverse);
        }
        assert forall|j: int| 0 <= j < k implies after.forward.contains_key(
            (#[trigger] blocks[j]).lba,
        ) && after.forward[blocks[j].lba] == (RecordValue {
            hba: hbas[j],
            key: sealed[j].key,
            mac: sealed[j].mac,
        }) by {
            if j < i {
                assert(blocks[j].lba != blocks[i].lba);
            }
        }
        if reverse {
            assert forall|j: int| 0 <= j < k implies after.reverse.contains_key(#[trigger] hbas[j])
                && after.reverse[hbas[j]] == blocks[j].lba by {
                if j < i {
                    assert(hbas[j] != hbas[i]);
                }
            }
        }
    }
}

/// A flush keeps the indexes sound: when no record pointed to a free block
/// before, none does after the host blocks of the flush were allocated and
/// its records were put; the record of every flushed address holds its new
/// host block with the key and the tag of its block; and where a reverse
/// index is kept and agreed with the forward index, it still does.
pub proof fn law_flush_keeps_indexes_sound(
    m: IndexModel,
    bitmap: Seq<bool>,
    blocks: Seq<BufferedBlock>,
    hbas: Seq<usize>,
    sealed: Seq<Sealed>,
    delayed: bool,
    reverse: bool,
)
    requires
        hbas.len() == blocks.len(),
        sealed.len() == blocks.len(),
        distinct_blocks(blocks),
        fresh_blocks(bitmap, hbas),
        free_unreferenced(bitmap, m.forward),
    ensures
        ({
            let after = apply_ops(m, index_ops(blocks, hbas, sealed, delayed, reverse));
            &&& free_unreferenced(set_all(bitmap, as_ints(hbas), false), after.forward)
            &&& forall|i: int|
                0 <= i < blocks.len() ==> after.forward.contains_key((#[trigger] blocks[i]).lba)
                    && after.forward[blocks[i].lba] == (RecordValue {
                    hba: hbas[i],
                    key: sealed[i].key,
                    mac: sealed[i].mac,
                })
            &&& reverse && indexes_agree(m) ==> indexes_agree(after)
        }),
{
    let n = blocks.len() as int;
    lemma_recorded(m, blocks, hbas, sealed, delayed, reverse, n);
    assert(blocks.take(n) =~= blocks);
    let after = apply_ops(m, index_ops(blocks, hbas, sealed, delayed, reverse));
    let b2 = set_all(bitmap, as_ints(hbas), false);
    assert forall|k: int| 0 <= k < as_ints(hbas).len() implies 0 <= #[trigger] as_ints(hbas)[k]
        < bitmap.len() by {
        assert(as_ints(hbas)[k] == hbas[k]);
    }
    crate::alloc_laws::lemma_set_all_frame(bitmap, as_ints(hbas), false);
    assert forall|l: usize| #[trigger] after.forward.contains_key(l) implies after.forward[l].hba
        < b2.len() && !b2[after.forward[l].hba as int] by {
        if exists|i: int| 0 <= i < n && (#[trigger] blocks[i]).lba == l {
            let i = choose|i: int| 0 <= i < n && (#[trigger] blocks[i]).lba == l;
            assert(after.forward[blocks[i].lba].hba == hbas[i]);
            assert(as_ints(hbas)[i] == hbas[i]);
            assert(as_ints(hbas).contains(hbas[i] as int));
        } else {
            assert(forall|i: int| 0 <= i < n ==> (#[trigger] blocks[i]).lba != l);
            assert(m.forward.contains_key(l));
        }
    }
    if reverse && indexes_agree(m) {
        assert forall|l: usize| #[trigger] after.forward.contains_key(l) implies after.reverse.contains_key(
            after.forward[l].hba,
        ) && after.reverse[after.forward[l].hba] == l by {
            if exists|i: int| 0 <= i < n && (#[trigger] blocks[i]).lba == l {
                let i = choose|i: int| 0 <= i < n && (#[trigger] blocks[i]).lba == l;
                assert(after.forward[blocks[i].lba].hba == hbas[i]);
                assert(after.reverse.contains_key(hbas[i]));
                assert(after.reverse[hbas[i]] == blocks[i].lba);
            } else {
                assert(forall|i: int| 0 <= i < n ==> (#[trigger] blocks[i]).lba != l);
                assert(m.forward.contains_key(l));
                let h = m.forward[l].hba;
                assert(!bitmap[h as int]);
                assert forall|i: int| 0 <= i < n implies (#[trigger] hbas[i]) != h by {
                    assert(bitmap[hbas[i] as int]);
                }
                assert(after.forward[l] == m.forward[l]);
                assert(after.reverse.contains_key(h) == m.reverse.contains_key(h));
                assert(after.reverse[h] == m.reverse[h]);
            }
        }
    }
}

/// Reading an address that was written returns what was written last, as
/// long as the block is buffered: after the blocks `from` up to `to` of
/// `data` were put, the buffer holds block `i` of `data` for the address
/// `lba + i`.
pub proof fn law_write_then_read(
    blocks: Seq<BufferedBlock>,
    lba: usize,
    data: Seq<u8>,
    from: int,
    to: int,
    i: int,
)
    requires
        distinct_blocks(blocks),
        0 <= from <= i < to,
        to * crate::bio::BLOCK_SIZE <= data.len(),
        lba + to <= usize::MAX,
    ensures
        distinct_blocks(buffer_after(blocks, lba, data, from, to)),
        lookup(buffer_after(blocks, lba, data, from, to), (lba + i) as usize) == Some(
            block_of(data, i),
        ),
    decreases to - from,
{
    lemma_buffer_after_distinct(blocks, lba, data, from, to - 1);
    let before = buffer_after(blocks, lba, data, from, to - 1);
    let b = BufferedBlock { lba: (lba + to - 1) as usize, data: block_of(data, to - 1) };
    crate::data_buf::law_put_then_lookup(before, b);
    if i < to - 1 {
        law_write_then_read(blocks, lba, data, from, to - 1, i);
    }
}

/// Putting blocks keeps the buffer free of doubles.
pub proof fn lemma_buffer_after_distinct(
    blocks: Seq<BufferedBlock>,
    lba: usize,
    data: Seq<u8>,
    from: int,
    to: int,
)
    requires
        distinct_blocks(blocks),
        0 <= from,
        to * crate::bio::BLOCK_SIZE <= data.len(),
    ensures
        distinct_blocks(buffer_after(blocks, lba, data, from, to)),
    decreases to - from,
{
    if to > from {
        lemma_buffer_after_distinct(blocks, lba, data, from, to - 1);
        let before = buffer_after(blocks, lba, data, from, to - 1);
        let b = BufferedBlock { lba: (lba + to - 1) as usize, data: block_of(data, to - 1) };
        crate::data_buf::law_put_then_lookup(before, b);
    }
}

/// The new host blocks of the moves.
pub open spec fn new_hbas(remapped: Seq<Remap>) -> Seq<usize> {
    remapped.map_values(|r: Remap| r.new_hba)
}

/// Move by move, the collector leaves every record of an address that it
/// did not move as it was, gives every address that it moved the record of
/// its new host block with the key and the tag it had, and gives the reverse
/// index the address of every new host block.
pub proof fn lemma_remapped(m: IndexModel, remapped: Seq<Remap>, current: Seq<HeldRecord>, k: int)
    requires
        0 <= k <= remapped.len(),
        remapped.len() == current.len(),
        forall|i: int, j: int| 0 <= i < j < current.len() ==> current[i].lba != current[j].lba,
        forall|i: int, j: int|
            0 <= i < j < remapped.len() ==> remapped[i].new_hba != remapped[j].new_hba,
    ensures
        ({
            let after = apply_ops(m, remap_ops(remapped.take(k), current));
            &&& forall|i: int|
                0 <= i < k ==> after.forward.contains_key((#[trigger] current[i]).lba)
                    && after.forward[current[i].lba] == (RecordValue {
                    hba: remapped[i].new_hba,
                    key: current[i].value.key,
                    mac: current[i].value.mac,
                })
            &&& forall|l: usize|
                (forall|i: int| 0 <= i < k ==> (#[trigger] current[i]).lba != l) ==> (
                #[trigger] after.forward.contains_key(l) == m.forward.contains_key(l))
                    && after.forward[l] == m.forward[l]
            &&& forall|i: int|
                0 <= i < k ==> after.reverse.contains_key((#[trigger] remapped[i]).new_hba)
                    && after.reverse[remapped[i].new_hba] == current[i].lba
            &&& forall|h: usize|
                (forall|i: int| 0 <= i < k ==> (#[trigger] remapped[i]).new_hba != h) ==> (
                #[trigger] after.reverse.contains_key(h) == m.reverse.contains_key(h))
                    && after.reverse[h] == m.reverse[h]
        }),
    decreases k,
{
    if k == 0 {
        assert(remapped.take(0) =~= Seq::<Remap>::empty());
    } else {
        lemma_remapped(m, remapped, current, k - 1);
        let i = k - 1;
        let part = remapped.take(k);
        assert(part.drop_last() =~= remapped.take(k - 1));
        assert(part[i] == remapped[i]);
        let before = apply_ops(m, remap_ops(remapped.take(k - 1), current));
        let after = apply_ops(m, remap_ops(part, current));
        let head = remap_ops(remapped.take(k - 1), current);
        let value = RecordValue {
            hba: remapped[i].new_hba,
            key: current[i].value.key,
            mac: current[i].value.mac,
        };
        let put = head.push(IndexOp::Put(crate::sworndisk::RecordKey { lba: current[i].lba }, value));
        let all = put.push(
            IndexOp::PutReverse(
                crate::gc::ReverseKey { hba: remapped[i].new_hba },
                crate::gc::ReverseValue { lba: current[i].lba },
            ),
        );
        assert(put.drop_last() =~= head);
        assert(all.drop_last() =~= put);
        assert(remap_ops(part, current) == all);
        let m_put = apply_ops(m, put);
        assert(m_put.forward == before.forward.insert(current[i].lba, value));
        assert(m_put.reverse == before.reverse);
        assert(after == apply_op(m_put, all.last()));
        assert(after.forward == before.forward.insert(current[i].lba, value));
        assert(after.reverse == before.reverse.insert(remapped[i].new_hba, current[i].lba));
        assert forall|j: int| 0 <= j < k implies after.forward.contains_key(
            (#[trigger] current[j]).lba,
        ) && after.forward[current[j].lba] == (RecordValue {
            hba: remapped[j].new_hba,
            key: current[j].value.key,
            mac: current[j].value.mac,
        }) by {
            if j < i {
                assert(current[j].lba != current[i].lba);
            }
        }
        assert forall|j: int| 0 <= j < k implies after.reverse.contains_key(
            (#[trigger] remapped[j]).new_hba,
        ) && after.reverse[remapped[j].new_hba] == current[j].lba by {
            if j < i {
                assert(remapped[j].new_hba != remapped[i].new_hba);
            }
        }
    }
}

/// Collecting a segment keeps the indexes sound: when no record pointed to
/// a free block and the two indexes agreed, when the moves are the records
/// that point into the victim segment, each with the record it had, and when
/// the new host blocks are distinct free blocks outside the victim, then
/// after the moves were recorded and the victim was freed no record points
/// to a free block and the two indexes agree.
pub proof fn law_migration_keeps_indexes_sound(
    m: IndexModel,
    bitmap: Seq<bool>,
    lo: int,
    hi: int,
    remapped: Seq<Remap>,
    current: Seq<HeldRecord>,
)
    requires
        0 <= lo <= hi <= bitmap.len(),
        remapped.len() == current.len(),
        free_unreferenced(bitmap, m.forward),
        indexes_agree(m),
        fresh_blocks(bitmap, new_hbas(remapped)),
        forall|i: int|
            0 <= i < remapped.len() ==> !(lo <= (#[trigger] remapped[i]).new_hba < hi),
        forall|i: int|
            0 <= i < current.len() ==> m.forward.contains_key((#[trigger] current[i]).lba)
                && m.forward[current[i].lba] == current[i].value && current[i].value.hba
                == remapped[i].old_hba,
        forall|i: int, j: int|
            0 <= i < j < remapped.len() ==> remapped[i].old_hba != remapped[j].old_hba,
        forall|l: usize| #[trigger]
            m.forward.contains_key(l) && lo <= m.forward[l].hba < hi ==> exists|i: int|
                0 <= i < current.len() && (#[trigger] current[i]).lba == l,
    ensures
        ({
            let after = apply_ops(m, remap_ops(remapped, current));
            let freed = fill_range(set_all(bitmap, as_ints(new_hbas(remapped)), false), lo, hi, true);
            &&& free_unreferenced(freed, after.forward)
            &&& indexes_agree(after)
        }),
{
    let n = remapped.len() as int;
    let news = new_hbas(remapped);
    assert forall|i: int, j: int| 0 <= i < j < current.len() implies current[i].lba
        != current[j].lba by {
        if current[i].lba == current[j].lba {
            assert(m.forward[current[i].lba].hba == remapped[i].old_hba);
            assert(m.forward[current[j].lba].hba == remapped[j].old_hba);
        }
    }
    assert forall|i: int, j: int| 0 <= i < j < remapped.len() implies remapped[i].new_hba
        != remapped[j].new_hba by {
        assert(news[i] != news[j]);
    }
    lemma_remapped(m, remapped, current, n);
    assert(remapped.take(n) =~= remapped);
    let after = apply_ops(m, remap_ops(remapped, current));
    let b1 = set_all(bitmap, as_ints(news), false);
    let freed = fill_range(b1, lo, hi, true);
    assert forall|k: int| 0 <= k < as_ints(news).len() implies 0 <= #[trigger] as_ints(news)[k]
        < bitmap.len() by {
        assert(as_ints(news)[k] == news[k]);
        assert(news[k] < bitmap.len());
    }
    crate::alloc_laws::lemma_set_all_frame(bitmap, as_ints(news), false);
    assert forall|l: usize| #[trigger] after.forward.contains_key(l) implies after.forward[l].hba
        < freed.len() && !freed[after.forward[l].hba as int] && after.reverse.contains_key(
        after.forward[l].hba,
    ) && after.reverse[after.forward[l].hba] == l by {
        if exists|i: int| 0 <= i < n && (#[trigger] current[i]).lba == l {
            let i = choose|i: int| 0 <= i < n && (#[trigger] current[i]).lba == l;
            assert(after.forward[current[i].lba].hba == remapped[i].new_hba);
            assert(news[i] == remapped[i].new_hba);
            assert(as_ints(news)[i] == news[i]);
            assert(as_ints(news).contains(news[i] as int));
            assert(after.reverse.contains_key(remapped[i].new_hba));
        } else {
            assert(forall|i: int| 0 <= i < n ==> (#[trigger] current[i]).lba != l);
            assert(m.forward.contains_key(l));
            assert(after.forward[l] == m.forward[l]);
            let h = m.forward[l].hba;
            assert(!bitmap[h as int]);
            assert(!(lo <= h < hi));
            assert forall|i: int| 0 <= i < n implies (#[trigger] remapped[i]).new_hba != h by {
                assert(news[i] == remapped[i].new_hba);
                assert(bitmap[news[i] as int]);
            }
            assert(after.reverse.contains_key(h) == m.reverse.contains_key(h));
            assert(after.reverse[h] == m.reverse[h]);
        }
    }
}

/// Giving blocks back keeps the forward index sound as long as no record
/// points to any of them any more: the index hands a block back only when it
/// drops the one record that pointed to it.
pub proof fn law_drop_keeps_indexes_sound(
    m: IndexModel,
    bitmap: Seq<bool>,
    dropped: Seq<int>,
)
    requires
        free_unreferenced(bitmap, m.forward),
        forall|k: int| 0 <= k < dropped.len() ==> 0 <= #[trigger] dropped[k] < bitmap.len(),
        forall|l: usize| #[trigger]
            m.forward.contains_key(l) ==> !dropped.contains(m.forward[l].hba as int),
    ensures
        free_unreferenced(set_all(bitmap, dropped, true), m.forward),
{
    crate::alloc_laws::lemma_set_all_frame(bitmap, dropped, true);
}

/// What the indexes answer for the host block `h`: the logical address
/// that the reverse index gives for it, and the host block that the forward
/// index gives for that address.
pub open spec fn answers(m: IndexModel, h: usize, answer: Result<Mapping, Error>) -> bool {
    if m.reverse.contains_key(h) && m.forward.contains_key(m.reverse[h]) {
        answer == Ok::<Mapping, Error>(
            Mapping { lba: m.reverse[h], hba: m.forward[m.reverse[h]].hba },
        )
    } else {
        answer is Err
    }
}

/// A block whose lookup answers with the block itself is among the live
/// ones.
pub proof fn lemma_valid_of_has(blocks: Seq<usize>, current: Seq<Result<Mapping, Error>>, i: int)
    requires
        0 <= i < blocks.len(),
        current.len() >= blocks.len(),
        current[i] is Ok,
        current[i]->Ok_0.hba == blocks[i],
    ensures
        valid_of(blocks, current).contains(blocks[i]),
    decreases blocks.len(),
{
    let n = blocks.len() - 1;
    if i == n {
        let v = valid_of(blocks, current);
        assert(v[v.len() - 1] == blocks[i]);
    } else {
        lemma_valid_of_has(blocks.drop_last(), current, i);
        let head = valid_of(blocks.drop_last(), current);
        let k = choose|k: int| 0 <= k < head.len() && head[k] == blocks.drop_last()[i];
        assert(valid_of(blocks, current)[k] == blocks[i]);
    }
}

/// The collector finds every live block of its victim: where no record
/// points to a free block and the two indexes agree, every block of the
/// victim segment to which a record points is among the blocks that the
/// collector sorts as live.
pub proof fn law_live_blocks_are_found(
    m: IndexModel,
    bitmap: Seq<bool>,
    lo: int,
    hi: int,
    blocks: Seq<usize>,
    current: Seq<Result<Mapping, Error>>,
)
    requires
        0 <= lo <= hi <= bitmap.len(),
        free_unreferenced(bitmap, m.forward),
        indexes_agree(m),
        as_ints(blocks) == ones_in(flip(bitmap), lo, hi),
        current.len() == blocks.len(),
        forall|i: int| 0 <= i < blocks.len() ==> answers(m, blocks[i], #[trigger] current[i]),
    ensures
        forall|l: usize| #[trigger]
            m.forward.contains_key(l) && lo <= m.forward[l].hba < hi ==> valid_of(
                blocks,
                current,
            ).contains(m.forward[l].hba),
{
    assert forall|l: usize| #[trigger] m.forward.contains_key(l) && lo <= m.forward[l].hba
        < hi implies valid_of(blocks, current).contains(m.forward[l].hba) by {
        let h = m.forward[l].hba;
        assert(!bitmap[h as int]);
        assert(flip(bitmap)[h as int]);
        lemma_ones_in(flip(bitmap), lo, hi);
        assert(ones_in(flip(bitmap), lo, hi).contains(h as int));
        let i = choose|i: int| 0 <= i < as_ints(blocks).len() && as_ints(blocks)[i] == h as int;
        assert(as_ints(blocks)[i] == blocks[i]);
        assert(blocks[i] == h);
        assert(answers(m, blocks[i], current[i]));
        assert(m.reverse.contains_key(h) && m.reverse[h] == l);
        lemma_valid_of_has(blocks, current, i);
    }
}

/// A flush as a whole: where no record pointed to a free block, a flush
/// that takes the host blocks `hbas` for the buffered blocks, records them
/// and is completed leaves the buffer empty; gives the forward index, for
/// every flushed address, the record of its new host block with the key and
/// the tag of its block; takes pairwise distinct host blocks; gives the
/// reverse index, where one is kept, the address of every new host block;
/// and keeps the indexes sound and the count of free blocks right.
pub proof fn law_flush_is_sound(
    v: DiskView,
    m: IndexModel,
    hbas: Seq<usize>,
    sealed: Seq<Sealed>,
    retried: bool,
)
    requires
        v.wf(),
        v.next_flush(retried) is Write,
        v.alloc.batch_pick(v.buffered.len()) == Some(as_ints(hbas)),
        sealed.len() == v.buffered.len(),
        free_unreferenced(v.alloc.bitmap, m.forward),
    ensures
        ({
            let after = apply_ops(
                m,
                index_ops(v.buffered, hbas, sealed, v.config.delayed_reclamation, v.reverse),
            );
            let flushed = v.after_flush_step(retried).after_complete_flush();
            &&& flushed.buffered.len() == 0
            &&& hbas.len() == v.buffered.len()
            &&& forall|i: int, j: int| 0 <= i < j < hbas.len() ==> hbas[i] != hbas[j]
            &&& forall|i: int|
                0 <= i < v.buffered.len() ==> after.forward.contains_key(
                    (#[trigger] v.buffered[i]).lba,
                ) && after.forward[v.buffered[i].lba] == (RecordValue {
                    hba: hbas[i],
                    key: sealed[i].key,
                    mac: sealed[i].mac,
                })
            &&& v.reverse ==> forall|i: int|
                0 <= i < hbas.len() ==> after.reverse.contains_key(#[trigger] hbas[i])
                    && after.reverse[hbas[i]] == v.buffered[i].lba
            &&& free_unreferenced(flushed.alloc.bitmap, after.forward)
            &&& v.reverse && indexes_agree(m) ==> indexes_agree(after)
            &&& v.alloc.counts_agree() ==> flushed.alloc.counts_agree()
        }),
{
    let n = v.buffered.len();
    crate::alloc_laws::lemma_batch_pick_fresh(v.alloc, n);
    crate::alloc_laws::law_alloc_batch_keeps_counts_of(v.alloc, n);
    assert(as_ints(hbas).len() == hbas.len());
    assert forall|i: int| 0 <= i < hbas.len() implies (#[trigger] hbas[i]) < v.alloc.bitmap.len()
        && v.alloc.bitmap[hbas[i] as int] by {
        assert(as_ints(hbas)[i] == hbas[i]);
    }
    assert forall|i: int, j: int| 0 <= i < j < hbas.len() implies hbas[i] != hbas[j] by {
        assert(as_ints(hbas)[i] == hbas[i]);
        assert(as_ints(hbas)[j] == hbas[j]);
    }
    law_flush_keeps_indexes_sound(
        m,
        v.alloc.bitmap,
        v.buffered,
        hbas,
        sealed,
        v.config.delayed_reclamation,
        v.reverse,
    );
    lemma_recorded(
        m,
        v.buffered,
        hbas,
        sealed,
        v.config.delayed_reclamation,
        v.reverse,
        n as int,
    );
    assert(v.buffered.take(n as int) =~= v.buffered);
}

/// The free blocks that the collector finds outside its victim are free in
/// the bitmap, lie outside the victim segment, and ascend.
pub proof fn lemma_free_pool(bitmap: Seq<bool>, t: Seq<SegmentView>, victim: nat, upto: int)
    requires
        segments_shaped(bitmap.len(), Some(t)),
        0 <= upto <= t.len(),
    ensures
        forall|k: int|
            0 <= k < free_pool(bitmap, t, victim, upto).len() ==> 0 <= (#[trigger] free_pool(
                bitmap,
                t,
                victim,
                upto,
            )[k]) < upto * SEGMENT_SIZE && bitmap[free_pool(bitmap, t, victim, upto)[k]] && !(
            victim * SEGMENT_SIZE <= free_pool(bitmap, t, victim, upto)[k] < (victim + 1)
                * SEGMENT_SIZE),
        forall|j: int, k: int|
            0 <= j < k < free_pool(bitmap, t, victim, upto).len() ==> free_pool(
                bitmap,
                t,
                victim,
                upto,
            )[j] < free_pool(bitmap, t, victim, upto)[k],
    decreases upto,
{
    if upto > 0 {
        lemma_free_pool(bitmap, t, victim, upto - 1);
        let s = t[upto - 1];
        let head = free_pool(bitmap, t, victim, upto - 1);
        let all = free_pool(bitmap, t, victim, upto);
        assert(s.segment_id == upto - 1 && s.nblocks == SEGMENT_SIZE);
        assert(t.len() * SEGMENT_SIZE <= bitmap.len()) by {
            vstd::arithmetic::div_mod::lemma_fundamental_div_mod(
                bitmap.len() as int,
                SEGMENT_SIZE as int,
            );
        }
        if !(s.free_space == 0 || s.segment_id == victim) {
            let lo = s.lower();
            let hi = s.upper();
            lemma_ones_in(bitmap, lo, hi);
            let tail = ones_in(bitmap, lo, hi);
            assert forall|k: int| 0 <= k < all.len() implies 0 <= (#[trigger] all[k]) < upto
                * SEGMENT_SIZE && bitmap[all[k]] && !(victim * SEGMENT_SIZE <= all[k] < (victim
                + 1) * SEGMENT_SIZE) by {
                if k < head.len() {
                    assert(all[k] == head[k]);
                } else {
                    assert(all[k] == tail[k - head.len()]);
                }
            }
            assert forall|j: int, k: int| 0 <= j < k < all.len() implies all[j] < all[k] by {
                if k < head.len() {
                    assert(all[j] == head[j] && all[k] == head[k]);
                } else if j < head.len() {
                    assert(all[j] == head[j]);
                    assert(all[k] == tail[k - head.len()]);
                } else {
                    assert(all[j] == tail[j - head.len()]);
                    assert(all[k] == tail[k - head.len()]);
                }
            }
        }
    }
}

/// The block `h` is one of `blocks` whose lookup answered with the block
/// itself.
pub open spec fn answered_live(blocks: Seq<usize>, current: Seq<Result<Mapping, Error>>, h: usize) -> bool {
    exists|j: int|
        0 <= j < blocks.len() && #[trigger] blocks[j] == h && current[j] is Ok
            && current[j]->Ok_0.hba == blocks[j]
}

/// Where no lookup fails, every block of the victim is sorted either as
/// live or as dropped; the live ones keep the order of the blocks, and each
/// is a block whose lookup answered with the block itself.
pub proof fn lemma_sorted_blocks(blocks: Seq<usize>, current: Seq<Result<Mapping, Error>>)
    requires
        current.len() >= blocks.len(),
        first_failure(current.take(blocks.len() as int)) is None,
        forall|j: int, k: int| 0 <= j < k < blocks.len() ==> blocks[j] < blocks[k],
    ensures
        valid_of(blocks, current).len() + discard_of(blocks, current).len() == blocks.len(),
        forall|i: int|
            0 <= i < valid_of(blocks, current).len() ==> answered_live(
                blocks,
                current,
                #[trigger] valid_of(blocks, current)[i],
            ),
        forall|i: int, k: int|
            0 <= i < k < valid_of(blocks, current).len() ==> valid_of(blocks, current)[i]
                < valid_of(blocks, current)[k],
        forall|i: int|
            0 <= i < valid_of(blocks, current).len() ==> blocks.len() > 0 && valid_of(
                blocks,
                current,
            )[i] <= blocks.last(),
    decreases blocks.len(),
{
    if blocks.len() > 0 {
        let n = blocks.len() - 1;
        let head = blocks.drop_last();
        assert(current.take(n).drop_last() =~= current.take(n).drop_last());
        assert(current.take(blocks.len() as int).drop_last() =~= current.take(n));
        assert(current.take(blocks.len() as int).last() == current[n]);
        assert(current[n] is Ok);
        lemma_sorted_blocks(head, current);
        let hv = valid_of(head, current);
        let v = valid_of(blocks, current);
        assert forall|i: int| 0 <= i < v.len() implies answered_live(
            blocks,
            current,
            #[trigger] v[i],
        ) by {
            if i < hv.len() {
                assert(v[i] == hv[i]);
                assert(answered_live(head, current, hv[i]));
                let j = choose|j: int|
                    0 <= j < head.len() && #[trigger] head[j] == hv[i] && current[j] is Ok
                        && current[j]->Ok_0.hba == head[j];
                assert(blocks[j] == head[j]);
            } else {
                assert(blocks[n] == v[i]);
            }
        }
        assert forall|i: int| 0 <= i < v.len() implies v[i] <= blocks.last() by {
            if i < hv.len() {
                assert(v[i] == hv[i]);
                assert(hv[i] <= head.last());
                assert(head.last() == blocks[n - 1]);
            }
        }
        assert forall|i: int, k: int| 0 <= i < k < v.len() implies v[i] < v[k] by {
            if k < hv.len() {
                assert(v[i] == hv[i] && v[k] == hv[k]);
            } else {
                assert(v[i] == hv[i]);
                assert(hv[i] <= head.last());
                assert(head.last() == blocks[n - 1]);
            }
        }
    }
}

/// A range holds as many allocated blocks as it has blocks that are not
/// free.
pub proof fn lemma_flip_count(bitmap: Seq<bool>, lo: int, hi: int)
    requires
        0 <= lo <= hi <= bitmap.len(),
    ensures
        ones_in(flip(bitmap), lo, hi).len() + ones_in(bitmap, lo, hi).len() == hi - lo,
    decreases hi - lo,
{
    if hi > lo {
        lemma_flip_count(bitmap, lo, hi - 1);
        assert(flip(bitmap)[hi - 1] == !bitmap[hi - 1]);
    }
}

/// The collection of a segment as a whole. Where the table is well-formed,
/// no record points to a free block and the two indexes agree, and where the
/// collector takes the allocated blocks of its victim, sorts them by what the
/// indexes answer, moves the live ones to the free blocks that it found and
/// makes the indexes follow: every block of the victim is free afterwards;
/// the targets are pairwise distinct blocks outside the victim and are
/// allocated; every moved address has the record of its new host block with
/// the key and the tag it had; no record points to a free block; the two
/// indexes agree; and the counts of the table stay right.
pub proof fn law_migration_is_sound(
    v: AllocTableView,
    m: IndexModel,
    victim: nat,
    blocks: Seq<usize>,
    current: Seq<Result<Mapping, Error>>,
    targets: Seq<usize>,
    remapped: Seq<Remap>,
    held: Seq<HeldRecord>,
)
    requires
        v.wf(),
        v.segments is Some,
        victim < v.segments->0.len(),
        free_unreferenced(v.bitmap, m.forward),
        indexes_agree(m),
        as_ints(blocks) == ones_in(
            flip(v.bitmap),
            victim * SEGMENT_SIZE,
            (victim + 1) * SEGMENT_SIZE,
        ),
        current.len() == blocks.len(),
        forall|i: int| 0 <= i < blocks.len() ==> answers(m, blocks[i], #[trigger] current[i]),
        first_failure(current) is None,
        free_pool(v.bitmap, v.segments->0, victim, v.segments->0.len() as int).len() >= valid_of(
            blocks,
            current,
        ).len(),
        as_ints(targets) == free_pool(
            v.bitmap,
            v.segments->0,
            victim,
            v.segments->0.len() as int,
        ).take(valid_of(blocks, current).len() as int),
        remapped.len() == valid_of(blocks, current).len(),
        forall|k: int|
            0 <= k < remapped.len() ==> #[trigger] remapped[k] == (Remap {
                old_hba: valid_of(blocks, current)[k],
                new_hba: targets[k],
            }),
        held.len() == remapped.len(),
        forall|k: int|
            0 <= k < held.len() ==> #[trigger] held[k] == (HeldRecord {
                lba: m.reverse[remapped[k].old_hba],
                value: m.forward[m.reverse[remapped[k].old_hba]],
            }),
        v.num_free + discard_of(blocks, current).len() <= usize::MAX,
    ensures
        ({
            let table = after_migration(
                v,
                as_ints(targets),
                victim as int,
                discard_of(blocks, current).len(),
            );
            let index = apply_ops(m, remap_ops(remapped, held));
            &&& table.wf()
            &&& forall|h: int|
                victim * SEGMENT_SIZE <= h < (victim + 1) * SEGMENT_SIZE ==> table.bitmap[h]
            &&& forall|k: int|
                0 <= k < targets.len() ==> !table.bitmap[(#[trigger] targets[k]) as int] && !(
                victim * SEGMENT_SIZE <= targets[k] < (victim + 1) * SEGMENT_SIZE)
            &&& forall|j: int, k: int| 0 <= j < k < targets.len() ==> targets[j] != targets[k]
            &&& forall|k: int|
                0 <= k < held.len() ==> index.forward.contains_key((#[trigger] held[k]).lba)
                    && index.forward[held[k].lba] == (RecordValue {
                    hba: targets[k],
                    key: held[k].value.key,
                    mac: held[k].value.mac,
                })
            &&& free_unreferenced(table.bitmap, index.forward)
            &&& indexes_agree(index)
            &&& v.counts_agree() ==> table.counts_agree()
            &&& v.segments_agree() ==> table.segments_agree()
        }),
{
    let segs = v.segments->0;
    let lo = victim * SEGMENT_SIZE;
    let hi = (victim + 1) * SEGMENT_SIZE;
    let valid = valid_of(blocks, current);
    let discard = discard_of(blocks, current).len();
    let n = valid.len() as int;
    let pool = free_pool(v.bitmap, segs, victim, segs.len() as int);
    assert(hi <= v.bitmap.len()) by {
        vstd::arithmetic::div_mod::lemma_fundamental_div_mod(
            v.bitmap.len() as int,
            SEGMENT_SIZE as int,
        );
        assert((victim + 1) * SEGMENT_SIZE <= segs.len() * SEGMENT_SIZE) by (nonlinear_arith)
            requires
                victim + 1 <= segs.len(),
        ;
    }
    assert(segs.len() * SEGMENT_SIZE <= v.bitmap.len()) by {
        vstd::arithmetic::div_mod::lemma_fundamental_div_mod(
            v.bitmap.len() as int,
            SEGMENT_SIZE as int,
        );
    }
    // the targets
    lemma_free_pool(v.bitmap, segs, victim, segs.len() as int);
    assert(as_ints(targets).len() == targets.len());
    assert(targets.len() == n);
    assert forall|k: int| 0 <= k < n implies as_ints(targets)[k] == pool[k] && targets[k]
        == pool[k] by {
        assert(pool.take(n)[k] == pool[k]);
        assert(as_ints(targets)[k] == targets[k]);
    }
    assert(ascending_within(as_ints(targets), v.bitmap.len() as int)) by {
        assert forall|k: int| 0 <= k < as_ints(targets).len() implies 0 <= #[trigger] as_ints(
            targets,
        )[k] < v.bitmap.len() by {
            assert(as_ints(targets)[k] == pool[k]);
        }
        assert forall|j: int, k: int| 0 <= j < k < as_ints(targets).len() implies as_ints(
            targets,
        )[j] < as_ints(targets)[k] by {
            assert(as_ints(targets)[j] == pool[j]);
            assert(as_ints(targets)[k] == pool[k]);
        }
    }
    // the blocks of the victim
    lemma_ones_in(flip(v.bitmap), lo, hi);
    assert(as_ints(blocks).len() == blocks.len());
    assert forall|j: int, k: int| 0 <= j < k < blocks.len() implies blocks[j] < blocks[k] by {
        assert(as_ints(blocks)[j] == blocks[j]);
        assert(as_ints(blocks)[k] == blocks[k]);
    }
    assert(current.take(blocks.len() as int) =~= current);
    lemma_sorted_blocks(blocks, current);
    lemma_flip_count(v.bitmap, lo, hi);
    assert forall|k: int| 0 <= k < as_ints(targets).len() implies v.bitmap[#[trigger] as_ints(
        targets,
    )[k]] && !(lo <= as_ints(targets)[k] < hi) by {
        assert(as_ints(targets)[k] == pool[k]);
    }
    crate::alloc_laws::law_migration_keeps_counts(v, as_ints(targets), victim as int, discard);
    // the indexes
    law_live_blocks_are_found(m, v.bitmap, lo, hi, blocks, current);
    let news = new_hbas(remapped);
    assert(news.len() == n);
    assert forall|k: int| 0 <= k < n implies news[k] == targets[k] && remapped[k].old_hba
        == valid[k] by {
        assert(remapped[k] == Remap { old_hba: valid[k], new_hba: targets[k] });
    }
    assert(fresh_blocks(v.bitmap, news)) by {
        assert forall|i: int| 0 <= i < news.len() implies (#[trigger] news[i]) < v.bitmap.len()
            && v.bitmap[news[i] as int] by {
            assert(news[i] == pool[i]);
        }
        assert forall|i: int, j: int| 0 <= i < j < news.len() implies news[i] != news[j] by {
            assert(news[i] == pool[i] && news[j] == pool[j]);
        }
    }
    assert forall|i: int| 0 <= i < remapped.len() implies !(lo <= (
    #[trigger] remapped[i]).new_hba < hi) by {
        assert(remapped[i].new_hba == pool[i]);
    }
    assert forall|i: int| 0 <= i < held.len() implies m.forward.contains_key(
        (#[trigger] held[i]).lba,
    ) && m.forward[held[i].lba] == held[i].value && held[i].value.hba == remapped[i].old_hba by {
        let h = valid[i];
        assert(remapped[i].old_hba == h);
        assert(answered_live(blocks, current, valid[i]));
        let j = choose|j: int|
            0 <= j < blocks.len() && #[trigger] blocks[j] == h && current[j] is Ok
                && current[j]->Ok_0.hba == blocks[j];
        assert(answers(m, blocks[j], current[j]));
        assert(held[i] == HeldRecord {
            lba: m.reverse[remapped[i].old_hba],
            value: m.forward[m.reverse[remapped[i].old_hba]],
        });
    }
    assert forall|i: int, j: int| 0 <= i < j < remapped.len() implies remapped[i].old_hba
        != remapped[j].old_hba by {
        assert(remapped[i].old_hba == valid[i] && remapped[j].old_hba == valid[j]);
    }
    assert forall|l: usize| #[trigger]
        m.forward.contains_key(l) && lo <= m.forward[l].hba < hi implies exists|i: int|
        0 <= i < held.len() && (#[trigger] held[i]).lba == l by {
        let h = m.forward[l].hba;
        assert(valid.contains(h));
        let i = choose|i: int| 0 <= i < valid.len() && valid[i] == h;
        assert(remapped[i].old_hba == h);
        assert(m.reverse[h] == l);
        assert(held[i] == HeldRecord {
            lba: m.reverse[remapped[i].old_hba],
            value: m.forward[m.reverse[remapped[i].old_hba]],
        });
        assert(held[i].lba == l);
    }
    law_migration_keeps_indexes_sound(m, v.bitmap, lo, hi, remapped, held);
    // the records of the moved addresses
    assert forall|i: int, j: int| 0 <= i < j < held.len() implies held[i].lba != held[j].lba by {
        if held[i].lba == held[j].lba {
            assert(m.forward[held[i].lba].hba == remapped[i].old_hba);
            assert(m.forward[held[j].lba].hba == remapped[j].old_hba);
        }
    }
    assert forall|i: int, j: int| 0 <= i < j < remapped.len() implies remapped[i].new_hba
        != remapped[j].new_hba by {
        assert(news[i] != news[j]);
    }
    lemma_remapped(m, remapped, held, n);
    assert(remapped.take(n) =~= remapped);
    let table = after_migration(v, as_ints(targets), victim as int, discard);
    crate::alloc_laws::lemma_set_all_frame(v.bitmap, as_ints(targets), false);
    assert forall|k: int| 0 <= k < targets.len() implies !table.bitmap[(
    #[trigger] targets[k]) as int] && !(lo <= targets[k] < hi) by {
        assert(as_ints(targets)[k] == targets[k]);
        assert(as_ints(targets).contains(targets[k] as int));
    }
    assert forall|j: int, k: int| 0 <= j < k < targets.len() implies targets[j]
        != targets[k] by {
        assert(targets[j] == pool[j] && targets[k] == pool[k]);
    }
}

} // verus!
