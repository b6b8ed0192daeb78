//! The compact byte encoding of the persisted allocation metadata.
//!
//! Integers are written as little-endian base-128 varints, a sequence as its
//! length followed by its items, and a record as its fields in order. The
//! bytes are produced and read back by the `postcard` crate; this module
//! states what it writes and names what it reads.
use vstd::prelude::*;

verus! {

/// The varint of `n`: seven bits per byte, least significant group first,
/// the high bit set on every byte but the last.
pub open spec fn varint(n: nat) -> Seq<u8>
    decreases n,
{
    if n < 128 {
        seq![n as u8]
    } else {
        seq![(n % 128 + 128) as u8] + varint(n / 128)
    }
}

/// The varints of the words of `ws`, one after the other.
pub open spec fn varints(ws: Seq<u64>) -> Seq<u8>
    decreases ws.len(),
{
    if ws.len() == 0 {
        Seq::empty()
    } else {
        varints(ws.drop_last()) + varint(ws.last() as nat)
    }
}

/// The encoding of a pair of counters.
pub open spec fn pair_encoding(a: nat, b: nat) -> Seq<u8> {
    varint(a) + varint(b)
}

/// The encoding of a packed bit array: its words as a sequence, then its
/// number of bits.
pub open spec fn bitmap_encoding(words: Seq<u64>, nbits: usize) -> Seq<u8> {
    varint(words.len()) + varints(words) + varint(nbits as nat)
}

/// What `postcard::from_bytes::<[usize; 2]>` reads from `bytes`, or `None`
/// where it fails.
pub uninterp spec fn postcard_usize_pair_of(bytes: Seq<u8>) -> Option<(usize, usize)>;

/// What `postcard::from_bytes::<(Vec<u64>, usize)>` reads from `bytes`, or
/// `None` where it fails.
pub uninterp spec fn postcard_bitmap_of(bytes: Seq<u8>) -> Option<(Seq<u64>, usize)>;

/// The words and the bit count that were read, as specification values.
pub open spec fn parts_view(r: Option<(Vec<u64>, usize)>) -> Option<(Seq<u64>, usize)> {
    match r {
        Some((words, nbits)) => Some((words@, nbits)),
        None => None,
    }
}

/// Calls `postcard::to_slice` on the array `[a, b]` with `buf` as the
/// output. Trusted: postcard writes the two varints at the start of the
/// buffer and reports their length, or fails when the buffer is shorter than
/// that; the bytes behind what it wrote stay as they were.
#[verifier::external_body]
pub(crate) fn write_usize_pair(a: usize, b: usize, buf: &mut [u8]) -> (r: Option<usize>)
    ensures
        final(buf)@.len() == old(buf)@.len(),
        r is Some <==> pair_encoding(a as nat, b as nat).len() <= old(buf)@.len(),
        r is Some ==> r->0 == pair_encoding(a as nat, b as nat).len() && final(buf)@ == pair_encoding(a as nat, b as nat)
            + old(buf)@.skip(r->0 as int),
{
    match postcard::to_slice::<[usize; 2]>(&[a, b], buf) {
        Ok(used) => Some(used.len()),
        Err(_) => None,
    }
}

/// Calls `postcard::from_bytes` for an array of two `usize`. Trusted: the
/// result depends on the bytes alone, and bytes that start with the encoding
/// of a pair read back as that pair, whatever follows.
#[verifier::external_body]
pub(crate) fn read_usize_pair(buf: &[u8]) -> (r: Option<(usize, usize)>)
    ensures
        r == postcard_usize_pair_of(buf@),
        forall|a: usize, b: usize|
            pair_encoding(a as nat, b as nat).is_prefix_of(buf@) ==> r == Some((a, b)),
{
    match postcard::from_bytes::<[usize; 2]>(buf) {
        Ok(pair) => Some((pair[0], pair[1])),
        Err(_) => None,
    }
}

/// Calls `postcard::to_slice` on the words and the bit count of a bit array,
/// with a scratch buffer of `cap` bytes. Trusted: postcard writes the length
/// of the word sequence, each word and the bit count as varints, and fails
/// when they take more than `cap` bytes.
#[verifier::external_body]
pub(crate) fn write_bitmap(words: &Vec<u64>, nbits: usize, cap: usize) -> (r: Option<Vec<u8>>)
    ensures
        r is Some <==> bitmap_encoding(words@, nbits).len() <= cap,
        r is Some ==> r->0@ == bitmap_encoding(words@, nbits),
{
    let mut buf = vec![0u8; cap];
    match postcard::to_slice::<(&Vec<u64>, usize)>(&(words, nbits), &mut buf) {
        Ok(used) => Some(used.to_vec()),
        Err(_) => None,
    }
}

/// Calls `postcard::from_bytes` for a word sequence and a bit count.
/// Trusted: the result depends on the bytes alone, and bytes that start with
/// the encoding of a bit array read back as its words and bit count,
/// whatever follows.
#[verifier::external_body]
pub(crate) fn read_bitmap(buf: &[u8]) -> (r: Option<(Vec<u64>, usize)>)
    ensures
        parts_view(r) == postcard_bitmap_of(buf@),
        forall|words: Seq<u64>, nbits: usize|
            bitmap_encoding(words, nbits).is_prefix_of(buf@) ==> parts_view(r) == Some(
                (words, nbits),
            ),
{
    match postcard::from_bytes::<(Vec<u64>, usize)>(buf) {
        Ok(pair) => Some(pair),
        Err(_) => None,
    }
}

/// The varint of a number below 2^14 takes at most two bytes.
pub proof fn lemma_varint_short(n: nat)
    requires
        n < 16384,
    ensures
        1 <= varint(n).len() <= 2,
{
    if n >= 128 {
        assert(n / 128 < 128);
        assert(varint(n / 128).len() == 1);
    }
}

} // verus!
