//! Block addressing and block I/O requests.
use vstd::prelude::*;

verus! {

/// The size of a block in bytes.
pub const BLOCK_SIZE: usize = 4096;

/// The index of a block on a device.
pub type BlockId = usize;

/// The number of bytes that a stored block index takes.
pub const BID_SIZE: usize = 8;

/// A sequence of machine indexes read as mathematical integers.
pub open spec fn as_ints(s: Seq<usize>) -> Seq<int> {
    s.map_values(|i: usize| i as int)
}

/// The least multiple of `align` that is not below `n`.
pub open spec fn spec_align_up(n: int, align: int) -> int {
    ((n + align - 1) / align) * align
}

/// Rounds `n` up to a multiple of `align`.
pub fn align_up(n: usize, align: usize) -> (r: usize)
    requires
        align > 0,
        spec_align_up(n as int, align as int) <= usize::MAX,
    ensures
        r == spec_align_up(n as int, align as int),
        r >= n,
        r % align == 0,
        r - n < align,
{
    let q: usize = n / align;
    let rem: usize = n % align;
    proof {
        vstd::arithmetic::div_mod::lemma_fundamental_div_mod(n as int, align as int);
        assert(align * q == q * align) by (nonlinear_arith);
        assert((q + 1) * align == q * align + align) by (nonlinear_arith);
        if rem == 0 {
            vstd::arithmetic::div_mod::lemma_fundamental_div_mod_converse(
                n + align - 1,
                align as int,
                q as int,
                align - 1,
            );
        } else {
            vstd::arithmetic::div_mod::lemma_fundamental_div_mod_converse(
                n + align - 1,
                align as int,
                q + 1,
                rem - 1,
            );
        }
        vstd::arithmetic::div_mod::lemma_mod_multiples_basic(q as int, align as int);
        vstd::arithmetic::div_mod::lemma_mod_multiples_basic(q + 1, align as int);
    }
    if rem == 0 {
        n
    } else {
        (q + 1) * align
    }
}

/// The kinds of block I/O request.
#[derive(Clone, Copy, Debug, PartialEq, Eq, Structural)]
pub enum BioType {
    /// Read blocks from the device.
    Read,
    /// Write blocks to the device.
    Write,
    /// Make the written blocks durable.
    Sync,
}

/// A block I/O request: its kind, the address of its first block, and its
/// buffers, each a whole number of blocks.
pub struct BioReq {
    type_: BioType,
    addr: BlockId,
    bufs: Vec<Vec<u8>>,
}

/// Every buffer holds a whole number of blocks.
pub open spec fn whole_blocks(bufs: Seq<Vec<u8>>) -> bool {
    forall|i: int| 0 <= i < bufs.len() ==> (#[trigger] bufs[i])@.len() % (BLOCK_SIZE as nat) == 0
}

impl BioReq {
    pub closed spec fn kind(&self) -> BioType {
        self.type_
    }

    pub closed spec fn address(&self) -> BlockId {
        self.addr
    }

    pub closed spec fn buffers(&self) -> Seq<Vec<u8>> {
        self.bufs@
    }

    /// A request of kind `type_` for the blocks from `addr` on. `None`
    /// where a buffer is not a whole number of blocks.
    pub fn new(type_: BioType, addr: BlockId, bufs: Vec<Vec<u8>>) -> (r: Option<BioReq>)
        ensures
            r is Some <==> whole_blocks(bufs@),
            r is Some ==> r->0.kind() == type_ && r->0.address() == addr && r->0.buffers()
                == bufs@,
    {
        let mut i: usize = 0;
        while i < bufs.len()
            invariant
                i <= bufs@.len(),
                forall|k: int| 0 <= k < i ==> (#[trigger] bufs@[k])@.len() % (BLOCK_SIZE as nat) == 0,
            decreases bufs@.len() - i,
        {
            if bufs[i].len() % BLOCK_SIZE != 0 {
                return None;
            }
            i += 1;
        }
        Some(BioReq { type_, addr, bufs })
    }

    pub fn type_(&self) -> (t: BioType)
        ensures
            t == self.kind(),
    {
        self.type_
    }

    pub fn addr(&self) -> (a: BlockId)
        ensures
            a == self.address(),
    {
        self.addr
    }

    pub fn nbufs(&self) -> (n: usize)
        ensures
            n == self.buffers().len(),
    {
        self.bufs.len()
    }

    pub fn bufs(&self) -> (b: &Vec<Vec<u8>>)
        ensures
            b@ == self.buffers(),
    {
        &self.bufs
    }

    /// Gives the buffers back, as they are after the request was served.
    pub fn take_bufs(self) -> (b: Vec<Vec<u8>>)
        ensures
            b@ == self.buffers(),
    {
        self.bufs
    }
}

} // verus!
