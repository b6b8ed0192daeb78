//! The data buffer: a bounded write-back cache of user blocks, keyed by
//! logical block address and kept in the order in which the addresses were
//! first written.
use vstd::prelude::*;
use vstd::slice::slice_to_vec;

use crate::bio::BLOCK_SIZE;
use crate::sworndisk::RecordKey;

verus! {

/// One buffered block as mathematical values.
pub struct BufferedBlock {
    pub lba: usize,
    pub data: Seq<u8>,
}

/// One buffered block.
pub struct DataBlock {
    key: RecordKey,
    data: Vec<u8>,
}

impl View for DataBlock {
    type V = BufferedBlock;

    closed spec fn view(&self) -> BufferedBlock {
        BufferedBlock { lba: self.key.lba, data: self.data@ }
    }
}

impl DataBlock {
    /// The address of the block.
    pub fn key(&self) -> (k: RecordKey)
        ensures
            k.lba == self@.lba,
    {
        self.key
    }

    /// The content of the block.
    pub fn as_slice(&self) -> (s: &[u8])
        ensures
            s@ == self@.data,
    {
        self.data.as_slice()
    }
}

/// Whether `blocks` holds a block for `lba` at index `k`.
pub open spec fn holds_at(blocks: Seq<BufferedBlock>, lba: usize, k: int) -> bool {
    0 <= k < blocks.len() && blocks[k].lba == lba
}

/// The content buffered for `lba`, if any.
pub open spec fn lookup(blocks: Seq<BufferedBlock>, lba: usize) -> Option<Seq<u8>> {
    if exists|k: int| holds_at(blocks, lba, k) {
        Some(blocks[choose|k: int| holds_at(blocks, lba, k)].data)
    } else {
        None
    }
}

/// No address is buffered twice and every block has the size of a block.
pub open spec fn distinct_blocks(blocks: Seq<BufferedBlock>) -> bool {
    &&& forall|j: int, k: int| 0 <= j < k < blocks.len() ==> blocks[j].lba != blocks[k].lba
    &&& forall|k: int| 0 <= k < blocks.len() ==> (#[trigger] blocks[k]).data.len() == BLOCK_SIZE
}

/// The buffer after `b` was put: in place of the block with the same
/// address, else at the end.
pub open spec fn put_block(blocks: Seq<BufferedBlock>, b: BufferedBlock) -> Seq<BufferedBlock> {
    if exists|k: int| holds_at(blocks, b.lba, k) {
        blocks.update(choose|k: int| holds_at(blocks, b.lba, k), b)
    } else {
        blocks.push(b)
    }
}

/// The blocks of `blocks` whose address lies in `lo..hi`, in order.
pub open spec fn within(blocks: Seq<BufferedBlock>, lo: usize, hi: usize) -> Seq<BufferedBlock>
    decreases blocks.len(),
{
    if blocks.len() == 0 {
        Seq::empty()
    } else if lo <= blocks.last().lba < hi {
        within(blocks.drop_last(), lo, hi).push(blocks.last())
    } else {
        within(blocks.drop_last(), lo, hi)
    }
}

/// The views of a list of blocks.
pub open spec fn block_views(blocks: Seq<DataBlock>) -> Seq<BufferedBlock> {
    blocks.map_values(|b: DataBlock| b@)
}

/// What was put last for an address is what the buffer holds for it, and
/// a put changes nothing for any other address.
pub proof fn law_put_then_lookup(blocks: Seq<BufferedBlock>, b: BufferedBlock)
    requires
        distinct_blocks(blocks),
        b.data.len() == BLOCK_SIZE,
    ensures
        distinct_blocks(put_block(blocks, b)),
        lookup(put_block(blocks, b), b.lba) == Some(b.data),
        forall|lba: usize| lba != b.lba ==> lookup(put_block(blocks, b), lba) == lookup(blocks, lba),
{
    let after = put_block(blocks, b);
    let at = if exists|k: int| holds_at(blocks, b.lba, k) {
        choose|k: int| holds_at(blocks, b.lba, k)
    } else {
        blocks.len() as int
    };
    assert(holds_at(after, b.lba, at));
    assert forall|j: int, k: int| 0 <= j < k < after.len() implies after[j].lba
        != after[k].lba by {
        if k < blocks.len() {
            assert(after[j].lba == blocks[j].lba);
            assert(after[k].lba == blocks[k].lba);
        } else {
            assert(!holds_at(blocks, b.lba, j));
        }
    }
    assert forall|k: int| 0 <= k < after.len() implies (#[trigger] after[k]).data.len()
        == BLOCK_SIZE by {
        if k != at {
            assert(after[k] == blocks[k]);
        }
    }
    assert forall|k: int| holds_at(after, b.lba, k) implies k == at by {
        if k != at {
            if k < blocks.len() {
                assert(holds_at(blocks, b.lba, k));
            }
        }
    }
    assert forall|lba: usize| lba != b.lba implies lookup(after, lba) == lookup(blocks, lba) by {
        assert forall|k: int| holds_at(after, lba, k) <==> holds_at(blocks, lba, k) by {}
        if exists|k: int| holds_at(blocks, lba, k) {
            let k1 = choose|k: int| holds_at(blocks, lba, k);
            assert(holds_at(after, lba, k1));
            let k2 = choose|k: int| holds_at(after, lba, k);
            assert(holds_at(blocks, lba, k2));
            assert(k1 == k2);
        }
    }
}

/// The buffer of user data blocks.
pub struct DataBuf {
    buf: Vec<DataBlock>,
    cap: usize,
}

impl View for DataBuf {
    type V = Seq<BufferedBlock>;

    closed spec fn view(&self) -> Seq<BufferedBlock> {
        block_views(self.buf@)
    }
}

impl DataBuf {
    /// The number of blocks at which the buffer counts as full.
    pub closed spec fn capacity(&self) -> usize {
        self.cap
    }

    /// No address is buffered twice and every block has the size of a
    /// block.
    pub open spec fn wf(&self) -> bool {
        distinct_blocks(self@)
    }

    /// An empty buffer that counts as full at `cap` blocks.
    pub fn new(cap: usize) -> (b: DataBuf)
        ensures
            b.wf(),
            b@ == Seq::<BufferedBlock>::empty(),
            b.capacity() == cap,
    {
        let b = DataBuf { buf: Vec::new(), cap };
        proof {
            assert(b@ =~= Seq::<BufferedBlock>::empty());
        }
        b
    }

    fn find(&self, lba: usize) -> (r: Option<usize>)
        requires
            self.wf(),
        ensures
            match r {
                Some(k) => holds_at(self@, lba, k as int) && (choose|k: int|
                    holds_at(self@, lba, k)) == k,
                None => !exists|k: int| holds_at(self@, lba, k),
            },
    {
        let mut i: usize = 0;
        while i < self.buf.len()
            invariant
                i <= self.buf@.len(),
                self.wf(),
                self@.len() == self.buf@.len(),
                forall|k: int| 0 <= k < i ==> !holds_at(self@, lba, k),
            decreases self.buf@.len() - i,
        {
            if self.buf[i].key.lba == lba {
                proof {
                    assert(self@[i as int] == self.buf@[i as int]@);
                    assert(holds_at(self@, lba, i as int));
                    let c = choose|k: int| holds_at(self@, lba, k);
                    assert(holds_at(self@, lba, c));
                    if c > i {
                        assert(self@[i as int].lba != self@[c].lba);
                    }
                }
                return Some(i);
            }
            proof {
                assert(self@[i as int] == self.buf@[i as int]@);
            }
            i += 1;
        }
        None
    }

    /// The content buffered for `key`, if any.
    pub fn get(&self, key: RecordKey) -> (r: Option<&DataBlock>)
        requires
            self.wf(),
        ensures
            match r {
                Some(b) => lookup(self@, key.lba) == Some(b@.data) && b@.lba == key.lba
                    && b@.data.len() == BLOCK_SIZE,
                None => lookup(self@, key.lba) is None,
            },
    {
        match self.find(key.lba) {
            Some(k) => {
                proof {
                    assert(self@[k as int] == self.buf@[k as int]@);
                }
                Some(&self.buf[k])
            },
            None => None,
        }
    }

    /// Buffers one block for `key`, in place of the block that was buffered
    /// for it before. Returns whether the buffer is now full.
    pub fn put(&mut self, key: RecordKey, buf: &[u8]) -> (at_capacity: bool)
        requires
            old(self).wf(),
            buf@.len() == BLOCK_SIZE,
        ensures
            final(self).wf(),
            final(self).capacity() == old(self).capacity(),
            final(self)@ == put_block(old(self)@, BufferedBlock { lba: key.lba, data: buf@ }),
            at_capacity == (final(self)@.len() >= old(self).capacity()),
    {
        let block = DataBlock { key, data: slice_to_vec(buf) };
        proof {
            law_put_then_lookup(self@, block@);
        }
        match self.find(key.lba) {
            Some(k) => {
                self.buf[k] = block;
                proof {
                    assert(self@ =~= old(self)@.update(k as int, block@));
                }
            },
            None => {
                self.buf.push(block);
                proof {
                    assert(self@ =~= old(self)@.push(block@));
                }
            },
        }
        self.buf.len() >= self.cap
    }

    /// The buffered blocks whose address lies in `start..end`, in the order
    /// in which their addresses were first written.
    pub fn get_range(&self, start: usize, end: usize) -> (r: Vec<&DataBlock>)
        ensures
            r@.map_values(|b: &DataBlock| b@) == within(self@, start, end),
    {
        let mut found: Vec<&DataBlock> = Vec::new();
        let mut i: usize = 0;
        proof {
            assert(self@.take(0) =~= Seq::<BufferedBlock>::empty());
            assert(found@.map_values(|b: &DataBlock| b@) =~= within(self@.take(0), start, end));
        }
        while i < self.buf.len()
            invariant
                i <= self.buf@.len(),
                self@.len() == self.buf@.len(),
                found@.map_values(|b: &DataBlock| b@) == within(self@.take(i as int), start, end),
            decreases self.buf@.len() - i,
        {
            proof {
                assert(self@.take(i + 1).drop_last() =~= self@.take(i as int));
                assert(self@.take(i + 1).last() == self.buf@[i as int]@);
            }
            let lba = self.buf[i].key.lba;
            if start <= lba && lba < end {
                let ghost before = found@;
                found.push(&self.buf[i]);
                proof {
                    assert(found@.map_values(|b: &DataBlock| b@) =~= before.map_values(
                        |b: &DataBlock| b@,
                    ).push(self.buf@[i as int]@));
                }
            }
            i += 1;
        }
        proof {
            assert(self@.take(self@.len() as int) =~= self@);
        }
        found
    }

    /// Every buffered block, in the order in which the addresses were first
    /// written.
    pub fn all_blocks(&self) -> (r: &Vec<DataBlock>)
        ensures
            block_views(r@) == self@,
    {
        &self.buf
    }

    /// Empties the buffer.
    pub fn clear(&mut self)
        ensures
            final(self).wf(),
            final(self).capacity() == old(self).capacity(),
            final(self)@ == Seq::<BufferedBlock>::empty(),
    {
        self.buf.clear();
        proof {
            assert(self@ =~= Seq::<BufferedBlock>::empty());
        }
    }

    /// The number of buffered blocks.
    pub fn nblocks(&self) -> (n: usize)
        ensures
            n == self@.len(),
    {
        self.buf.len()
    }

    /// Whether the buffer is full.
    pub fn at_capacity(&self) -> (b: bool)
        ensures
            b == (self@.len() >= self.capacity()),
    {
        self.buf.len() >= self.cap
    }

    /// Whether the buffer holds no block.
    pub fn is_empty(&self) -> (b: bool)
        ensures
            b == (self@.len() == 0),
    {
        self.buf.len() == 0
    }
}

} // verus!
