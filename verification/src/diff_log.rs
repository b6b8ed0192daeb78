//! The record format of the allocation log: one tag byte and the host block
//! address in eight little-endian bytes per record, records packed into
//! buffers that are padded with zeros to whole blocks.
use vstd::bytes::{
    lemma_auto_spec_u64_to_from_le_bytes, spec_u64_from_le_bytes, spec_u64_to_le_bytes,
    u64_from_le_bytes, u64_to_le_bytes,
};
use vstd::prelude::*;
use vstd::slice::slice_subrange;

use crate::bio::{spec_align_up, BLOCK_SIZE};
use crate::bitmap::BitMap;

verus! {

/// The size of one record in bytes.
pub const DIFF_RECORD_SIZE: usize = 9;

/// The largest buffer that is appended to a log at once.
pub const MAX_BUF_SIZE: usize = 4194304;

/// An incremental change of the validity of one block.
#[derive(Clone, Copy, Debug, PartialEq, Eq, Structural)]
pub enum AllocDiff {
    Alloc,
    Dealloc,
    Invalid,
}

/// The change that a tag byte stands for. Unknown tags are `Invalid`.
pub open spec fn diff_of_tag(tag: u8) -> AllocDiff {
    if tag == 3 {
        AllocDiff::Alloc
    } else if tag == 7 {
        AllocDiff::Dealloc
    } else {
        AllocDiff::Invalid
    }
}

impl AllocDiff {
    /// The tag byte that stands for this change.
    pub open spec fn tag_spec(self) -> u8 {
        match self {
            AllocDiff::Alloc => 3,
            AllocDiff::Dealloc => 7,
            AllocDiff::Invalid => 8,
        }
    }

    /// The tag byte that stands for this change.
    pub fn tag(self) -> (t: u8)
        ensures
            t == self.tag_spec(),
            self != AllocDiff::Invalid ==> diff_of_tag(t) == self,
    {
        match self {
            AllocDiff::Alloc => 3,
            AllocDiff::Dealloc => 7,
            AllocDiff::Invalid => 8,
        }
    }
}

impl From<u8> for AllocDiff {
    fn from(value: u8) -> (d: AllocDiff) {
        if value == 3 {
            AllocDiff::Alloc
        } else if value == 7 {
            AllocDiff::Dealloc
        } else {
            AllocDiff::Invalid
        }
    }
}

impl vstd::std_specs::convert::FromSpecImpl<u8> for AllocDiff {
    open spec fn obeys_from_spec() -> bool {
        true
    }

    open spec fn from_spec(value: u8) -> AllocDiff {
        diff_of_tag(value)
    }
}

/// One recorded change: the block and what happened to it.
#[derive(Clone, Copy, Debug, PartialEq, Eq, Structural)]
pub struct DiffEntry {
    pub hba: usize,
    pub diff: AllocDiff,
}

/// The bitmap after one change was applied: an allocation clears the bit, a
/// deallocation sets it. A block outside the bitmap and an invalid change
/// leave the bitmap as it is.
pub open spec fn apply_diff(bits: Seq<bool>, diff: AllocDiff, hba: int) -> Seq<bool> {
    if 0 <= hba < bits.len() {
        match diff {
            AllocDiff::Alloc => bits.update(hba, false),
            AllocDiff::Dealloc => bits.update(hba, true),
            AllocDiff::Invalid => bits,
        }
    } else {
        bits
    }
}

/// The bitmap after the changes of `entries` were applied in order.
pub open spec fn apply_all(bits: Seq<bool>, entries: Seq<DiffEntry>) -> Seq<bool>
    decreases entries.len(),
{
    if entries.len() == 0 {
        bits
    } else {
        apply_all(apply_diff(bits, entries[0].diff, entries[0].hba as int), entries.skip(1))
    }
}

/// The bitmap after the records of `buf` from `offset` on were applied.
///
/// A record starts at a byte with a known tag and takes nine bytes; a byte
/// with an unknown tag is skipped by itself. Reading stops where fewer than
/// nine bytes are left.
pub open spec fn replay(bits: Seq<bool>, buf: Seq<u8>, offset: int) -> Seq<bool>
    decreases buf.len() - offset,
{
    if offset < 0 || offset + 9 > buf.len() {
        bits
    } else if diff_of_tag(buf[offset]) == AllocDiff::Invalid {
        replay(bits, buf, offset + 1)
    } else {
        replay(
            apply_diff(
                bits,
                diff_of_tag(buf[offset]),
                spec_u64_from_le_bytes(buf.subrange(offset + 1, offset + 9)) as int,
            ),
            buf,
            offset + 9,
        )
    }
}

/// The bytes of one record.
pub open spec fn record_bytes(e: DiffEntry) -> Seq<u8> {
    seq![e.diff.tag_spec()] + spec_u64_to_le_bytes(e.hba as u64)
}

/// `n` zero bytes.
pub open spec fn zeros(n: int) -> Seq<u8> {
    Seq::new(n as nat, |i: int| 0u8)
}

/// The number of zero bytes that pad `n` bytes to whole blocks.
#[verifier::opaque]
pub open spec fn pad_len(n: int) -> int {
    spec_align_up(n, BLOCK_SIZE as int) - n
}

/// The bytes that follow in the log when `entries` are still to be written
/// and the buffer in use already holds `fill` bytes: each record in order,
/// the buffer padded and a new one begun whenever another record might not
/// fit, and the last buffer padded.
#[verifier::opaque]
pub open spec fn diff_stream(entries: Seq<DiffEntry>, fill: int) -> Seq<u8>
    decreases entries.len(),
{
    if entries.len() == 0 {
        zeros(pad_len(fill))
    } else {
        let n = fill + 9;
        record_bytes(entries[0]) + (if n + 9 > MAX_BUF_SIZE {
            zeros(pad_len(n)) + diff_stream(entries.skip(1), 0)
        } else {
            diff_stream(entries.skip(1), n)
        })
    }
}

/// The buffers of `chunks` one after the other.
pub open spec fn flatten(chunks: Seq<Vec<u8>>) -> Seq<u8>
    decreases chunks.len(),
{
    if chunks.len() == 0 {
        Seq::empty()
    } else {
        flatten(chunks.drop_last()) + chunks.last()@
    }
}

/// Applies the records of one log to `bitmap`.
pub fn replay_diff_log(bitmap: &mut BitMap, buf: &[u8])
    requires
        old(bitmap).wf(),
    ensures
        final(bitmap).wf(),
        final(bitmap)@.len() == old(bitmap)@.len(),
        final(bitmap)@ == replay(old(bitmap)@, buf@, 0),
{
    let len: usize = buf.len();
    let nbits: usize = bitmap.len();
    let mut offset: usize = 0;
    while len >= DIFF_RECORD_SIZE && offset <= len - DIFF_RECORD_SIZE
        invariant
            len == buf@.len(),
            bitmap.wf(),
            bitmap@.len() == nbits,
            nbits == old(bitmap)@.len(),
            offset <= len,
            replay(old(bitmap)@, buf@, 0) == replay(bitmap@, buf@, offset as int),
        decreases len - offset,
    {
        let diff = AllocDiff::from(buf[offset]);
        offset += 1;
        if diff == AllocDiff::Invalid {
            continue ;
        }
        let bid: u64 = u64_from_le_bytes(slice_subrange(buf, offset, offset + 8));
        offset += 8;
        if bid < nbits as u64 {
            match diff {
                AllocDiff::Alloc => bitmap.set(bid as usize, false),
                AllocDiff::Dealloc => bitmap.set(bid as usize, true),
                AllocDiff::Invalid => {},
            }
        }
    }
}

/// A buffer of `n` zero bytes.
pub(crate) fn zero_bytes(n: usize) -> (v: Vec<u8>)
    ensures
        v@ == zeros(n as int),
{
    let mut v: Vec<u8> = Vec::new();
    while v.len() < n
        invariant
            v@.len() <= n,
            v@ == zeros(v@.len() as int),
        decreases n - v@.len(),
    {
        v.push(0u8);
        proof {
            assert(v@ =~= zeros(v@.len() as int));
        }
    }
    v
}

/// Appends the bytes of `src` to `dst`.
pub(crate) fn append_bytes(dst: &mut Vec<u8>, src: &[u8])
    ensures
        final(dst)@ == old(dst)@ + src@,
{
    let mut i: usize = 0;
    while i < src.len()
        invariant
            i <= src@.len(),
            dst@ == old(dst)@ + src@.take(i as int),
        decreases src@.len() - i,
    {
        dst.push(src[i]);
        proof {
            assert(dst@ =~= old(dst)@ + src@.take(i + 1));
        }
        i += 1;
    }
    proof {
        assert(src@.take(src@.len() as int) =~= src@);
    }
}

/// Pads `dst` with zeros to whole blocks.
pub(crate) fn pad_to_block(dst: &mut Vec<u8>)
    requires
        old(dst)@.len() <= usize::MAX - BLOCK_SIZE,
    ensures
        final(dst)@ == old(dst)@ + zeros(pad_len(old(dst)@.len() as int)),
        final(dst)@.len() % (BLOCK_SIZE as nat) == 0,
        old(dst)@.len() <= MAX_BUF_SIZE ==> final(dst)@.len() <= MAX_BUF_SIZE,
        final(dst)@.len() >= old(dst)@.len(),
{
    proof {
        reveal(pad_len);
    }
    let target: usize = crate::bio::align_up(dst.len(), BLOCK_SIZE);
    while dst.len() < target
        invariant
            old(dst)@.len() <= dst@.len() <= target,
            dst@ == old(dst)@ + zeros(dst@.len() - old(dst)@.len()),
        decreases target - dst@.len(),
    {
        dst.push(0u8);
        proof {
            assert(dst@ =~= old(dst)@ + zeros(dst@.len() - old(dst)@.len()));
        }
    }
}

/// Appends the record of `entry` to `dst`.
fn push_record(dst: &mut Vec<u8>, entry: DiffEntry)
    ensures
        final(dst)@ == old(dst)@ + record_bytes(entry),
        final(dst)@.len() == old(dst)@.len() + 9,
{
    dst.push(entry.diff.tag());
    let hba_bytes = u64_to_le_bytes(entry.hba as u64);
    append_bytes(dst, hba_bytes.as_slice());
    proof {
        assert(dst@ =~= old(dst)@ + record_bytes(entry));
    }
}

/// Pads `buf` to whole blocks and adds it to `chunks`.
fn seal_chunk(chunks: &mut Vec<Vec<u8>>, buf: Vec<u8>)
    requires
        0 < buf@.len() <= MAX_BUF_SIZE,
        forall|k: int|
            0 <= k < old(chunks)@.len() ==> 0 < (#[trigger] old(chunks)@[k])@.len() <= MAX_BUF_SIZE
                && old(chunks)@[k]@.len() % (BLOCK_SIZE as nat) == 0,
    ensures
        final(chunks)@.len() == old(chunks)@.len() + 1,
        flatten(final(chunks)@) == flatten(old(chunks)@) + buf@ + zeros(pad_len(buf@.len() as int)),
        forall|k: int|
            0 <= k < final(chunks)@.len() ==> 0 < (#[trigger] final(chunks)@[k])@.len()
                <= MAX_BUF_SIZE && final(chunks)@[k]@.len() % (BLOCK_SIZE as nat) == 0,
{
    let mut buf = buf;
    let ghost raw = buf@;
    pad_to_block(&mut buf);
    chunks.push(buf);
    proof {
        assert(chunks@.drop_last() =~= old(chunks)@);
        assert(flatten(chunks@) =~= flatten(old(chunks)@) + raw + zeros(pad_len(raw.len() as int)));
    }
}

/// What follows in the log when entry `i` is the next to be written.
pub proof fn lemma_stream_step(entries: Seq<DiffEntry>, i: int, fill: int)
    requires
        0 <= i < entries.len(),
    ensures
        diff_stream(entries.skip(i), fill) == record_bytes(entries[i]) + (if fill + 18
            > MAX_BUF_SIZE {
            zeros(pad_len(fill + 9)) + diff_stream(entries.skip(i + 1), 0)
        } else {
            diff_stream(entries.skip(i + 1), fill + 9)
        }),
{
    reveal(diff_stream);
    let rest = entries.skip(i);
    assert(rest[0] == entries[i]);
    assert(rest.skip(1) =~= entries.skip(i + 1));
}

/// The buffers to append to a fresh log so that it holds `entries`: at most
/// `MAX_BUF_SIZE` bytes each, each a whole number of blocks. No entries, no
/// buffers.
pub fn encode_diff_log(entries: &Vec<DiffEntry>) -> (chunks: Vec<Vec<u8>>)
    ensures
        entries@.len() == 0 ==> chunks@.len() == 0,
        entries@.len() > 0 ==> chunks@.len() > 0 && flatten(chunks@) == diff_stream(entries@, 0),
        forall|k: int|
            0 <= k < chunks@.len() ==> 0 < (#[trigger] chunks@[k])@.len() <= MAX_BUF_SIZE
                && chunks@[k]@.len() % (BLOCK_SIZE as nat) == 0,
{
    let mut chunks: Vec<Vec<u8>> = Vec::new();
    if entries.len() == 0 {
        return chunks;
    }
    let mut diff_buf: Vec<u8> = Vec::new();
    let mut i: usize = 0;
    let ghost total = diff_stream(entries@, 0);
    let ghost mut done: Seq<u8> = Seq::empty();
    proof {
        assert(entries@.skip(0) =~= entries@);
        assert(done + diff_buf@ + total =~= total);
    }
    while i < entries.len()
        invariant
            i <= entries@.len(),
            total == diff_stream(entries@, 0),
            done == flatten(chunks@),
            diff_buf@.len() + 9 <= MAX_BUF_SIZE,
            i > 0 ==> chunks@.len() > 0 || diff_buf@.len() > 0,
            done + diff_buf@ + diff_stream(entries@.skip(i as int), diff_buf@.len() as int)
                == total,
            forall|k: int|
                0 <= k < chunks@.len() ==> 0 < (#[trigger] chunks@[k])@.len() <= MAX_BUF_SIZE
                    && chunks@[k]@.len() % (BLOCK_SIZE as nat) == 0,
        decreases entries@.len() - i,
    {
        let entry = entries[i];
        let ghost before = diff_buf@;
        proof {
            lemma_stream_step(entries@, i as int, before.len() as int);
        }
        push_record(&mut diff_buf, entry);
        if diff_buf.len() + DIFF_RECORD_SIZE > MAX_BUF_SIZE {
            let ghost full = diff_buf@;
            seal_chunk(&mut chunks, diff_buf);
            diff_buf = Vec::new();
            proof {
                let tail = diff_stream(entries@.skip(i + 1), 0);
                let pad = zeros(pad_len(full.len() as int));
                assert(done + full + pad + diff_buf@ + tail =~= done + before + (record_bytes(
                    entry,
                ) + (pad + tail)));
                done = done + full + pad;
            }
        } else {
            proof {
                let tail = diff_stream(entries@.skip(i + 1), diff_buf@.len() as int);
                assert(done + diff_buf@ + tail =~= done + before + (record_bytes(entry) + tail));
            }
        }
        i += 1;
    }
    proof {
        reveal(diff_stream);
        assert(entries@.skip(i as int).len() == 0);
        lemma_pad_len(diff_buf@.len() as int);
    }
    if diff_buf.len() == 0 {
        proof {
            assert(done + diff_buf@ + zeros(0) =~= done);
        }
        return chunks;
    }
    seal_chunk(&mut chunks, diff_buf);
    chunks
}

/// Bytes with unknown tags are passed over one by one.
pub proof fn lemma_replay_skips(bits: Seq<bool>, buf: Seq<u8>, from: int, to: int)
    requires
        0 <= from <= to <= buf.len(),
        forall|j: int| from <= j < to ==> diff_of_tag(#[trigger] buf[j]) == AllocDiff::Invalid,
    ensures
        replay(bits, buf, from) == replay(bits, buf, to),
    decreases to - from,
{
    if from < to {
        if from + 9 > buf.len() {
            assert(to + 9 > buf.len());
        } else {
            lemma_replay_skips(bits, buf, from + 1, to);
        }
    }
}

/// A record at `offset` is applied and reading goes on behind it.
pub proof fn lemma_replay_record(bits: Seq<bool>, buf: Seq<u8>, offset: int, e: DiffEntry)
    requires
        0 <= offset,
        offset + 9 <= buf.len(),
        e.diff != AllocDiff::Invalid,
        buf.subrange(offset, offset + 9) == record_bytes(e),
    ensures
        replay(bits, buf, offset) == replay(apply_diff(bits, e.diff, e.hba as int), buf, offset + 9),
{
    lemma_auto_spec_u64_to_from_le_bytes();
    let rec = buf.subrange(offset, offset + 9);
    assert(buf[offset] == rec[0]);
    assert(rec[0] == e.diff.tag_spec());
    let tail = buf.subrange(offset + 1, offset + 9);
    let bytes = spec_u64_to_le_bytes(e.hba as u64);
    assert(tail =~= bytes) by {
        assert forall|k: int| 0 <= k < 8 implies #[trigger] tail[k] == bytes[k] by {
            assert(buf[offset + 1 + k] == rec[k + 1]);
        }
    }
}

/// The record format round-trips: reading back what was written for
/// `entries`, behind any bytes already read, applies exactly the changes of
/// `entries` in order.
pub proof fn law_replay_of_stream(bits: Seq<bool>, read: Seq<u8>, entries: Seq<DiffEntry>, fill: int)
    requires
        0 <= fill,
        fill + 9 <= MAX_BUF_SIZE,
        forall|k: int| 0 <= k < entries.len() ==> (#[trigger] entries[k]).diff != AllocDiff::Invalid,
    ensures
        replay(bits, read + diff_stream(entries, fill), read.len() as int) == apply_all(
            bits,
            entries,
        ),
    decreases entries.len(),
{
    reveal(diff_stream);
    let stream = diff_stream(entries, fill);
    let buf = read + stream;
    let at = read.len() as int;
    lemma_pad_len(fill);
    if entries.len() == 0 {
        lemma_replay_skips(bits, buf, at, buf.len() as int);
    } else {
        let e = entries[0];
        let n = fill + 9;
        lemma_pad_len(n);
        lemma_auto_spec_u64_to_from_le_bytes();
        assert(record_bytes(e).len() == 9);
        assert(buf.subrange(at, at + 9) =~= record_bytes(e));
        lemma_replay_record(bits, buf, at, e);
        let bits1 = apply_diff(bits, e.diff, e.hba as int);
        let rest = entries.skip(1);
        assert forall|k: int| 0 <= k < rest.len() implies (#[trigger] rest[k]).diff
            != AllocDiff::Invalid by {
            assert(rest[k] == entries[k + 1]);
        }
        if n + 9 > MAX_BUF_SIZE {
            let pad = zeros(pad_len(n));
            let read1 = read + record_bytes(e) + pad;
            assert(buf =~= read1 + diff_stream(rest, 0));
            lemma_replay_skips(bits1, buf, at + 9, at + 9 + pad.len());
            law_replay_of_stream(bits1, read1, rest, 0);
        } else {
            let read1 = read + record_bytes(e);
            assert(buf =~= read1 + diff_stream(rest, n));
            law_replay_of_stream(bits1, read1, rest, n);
        }
    }
}

/// Padding is never negative and shorter than a block.
pub proof fn lemma_pad_len(n: int)
    requires
        0 <= n,
    ensures
        0 <= pad_len(n) < BLOCK_SIZE,
        (n + pad_len(n)) % (BLOCK_SIZE as int) == 0,
        n == 0 ==> pad_len(n) == 0,
{
    reveal(pad_len);
    let b = BLOCK_SIZE as int;
    let q = (n + b - 1) / b;
    vstd::arithmetic::div_mod::lemma_fundamental_div_mod(n + b - 1, b);
    vstd::arithmetic::div_mod::lemma_mod_multiples_basic(q, b);
    assert(b * q == q * b) by (nonlinear_arith);
}

} // verus!
