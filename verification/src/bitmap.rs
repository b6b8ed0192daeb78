//! A compact array of bits, packed into 64-bit words.
use vstd::prelude::*;

verus! {

/// Whether bit `i` of the word `w` is set.
pub open spec fn bit_of(w: u64, i: u64) -> bool {
    (w >> i) & 1 == 1
}

/// The indexes `i` with `lo <= i < hi` at which `s` holds `true`, ascending.
pub open spec fn ones_in(s: Seq<bool>, lo: int, hi: int) -> Seq<int>
    decreases hi - lo,
{
    if hi <= lo {
        Seq::empty()
    } else if s[hi - 1] {
        ones_in(s, lo, hi - 1).push(hi - 1)
    } else {
        ones_in(s, lo, hi - 1)
    }
}

/// The number of `true` entries of `s`.
pub open spec fn count_ones(s: Seq<bool>) -> nat {
    ones_in(s, 0, s.len() as int).len()
}

/// The least index at or after `from` at which `s` holds `true`, if any.
pub open spec fn first_one_from(s: Seq<bool>, from: int) -> Option<int> {
    if ones_in(s, from, s.len() as int).len() > 0 {
        Some(ones_in(s, from, s.len() as int)[0])
    } else {
        None
    }
}

/// Every entry of `ones_in(s, lo, hi)` lies in the range and is set in `s`,
/// the entries ascend strictly, and every set index of the range occurs.
pub proof fn lemma_ones_in(s: Seq<bool>, lo: int, hi: int)
    requires
        0 <= lo,
        hi <= s.len(),
    ensures
        ones_in(s, lo, hi).len() <= if hi >= lo { hi - lo } else { 0 },
        forall|k: int|
            0 <= k < ones_in(s, lo, hi).len() ==> lo <= (#[trigger] ones_in(s, lo, hi)[k]) < hi
                && s[ones_in(s, lo, hi)[k]],
        forall|j: int, k: int|
            0 <= j < k < ones_in(s, lo, hi).len() ==> ones_in(s, lo, hi)[j] < ones_in(
                s,
                lo,
                hi,
            )[k],
        forall|i: int| lo <= i < hi && s[i] ==> ones_in(s, lo, hi).contains(i),
    decreases hi - lo,
{
    if hi > lo {
        lemma_ones_in(s, lo, hi - 1);
        let prev = ones_in(s, lo, hi - 1);
        let cur = ones_in(s, lo, hi);
        assert forall|i: int| lo <= i < hi && s[i] implies cur.contains(i) by {
            if i < hi - 1 {
                assert(prev.contains(i));
                let k = choose|k: int| 0 <= k < prev.len() && prev[k] == i;
                assert(cur[k] == i);
            } else {
                assert(cur[cur.len() - 1] == i);
            }
        }
    }
}

/// Splitting a range at `mid` splits its set indexes.
pub proof fn lemma_ones_in_split(s: Seq<bool>, lo: int, mid: int, hi: int)
    requires
        lo <= mid <= hi,
    ensures
        ones_in(s, lo, hi) == ones_in(s, lo, mid) + ones_in(s, mid, hi),
    decreases hi - mid,
{
    if hi > mid {
        lemma_ones_in_split(s, lo, mid, hi - 1);
        if s[hi - 1] {
            assert(ones_in(s, lo, hi) =~= ones_in(s, lo, mid) + ones_in(s, mid, hi));
        }
    } else {
        assert(ones_in(s, mid, hi) =~= Seq::<int>::empty());
        assert(ones_in(s, lo, hi) =~= ones_in(s, lo, mid) + ones_in(s, mid, hi));
    }
}

/// Two sequences that agree on a range have the same set indexes there.
pub proof fn lemma_ones_in_agree(s: Seq<bool>, t: Seq<bool>, lo: int, hi: int)
    requires
        forall|i: int| lo <= i < hi ==> s[i] == t[i],
    ensures
        ones_in(s, lo, hi) == ones_in(t, lo, hi),
    decreases hi - lo,
{
    if hi > lo {
        lemma_ones_in_agree(s, t, lo, hi - 1);
    }
}

/// A range without a set entry has no set index.
pub proof fn lemma_ones_in_none(s: Seq<bool>, lo: int, hi: int)
    requires
        forall|i: int| lo <= i < hi ==> !s[i],
    ensures
        ones_in(s, lo, hi) == Seq::<int>::empty(),
    decreases hi - lo,
{
    if hi > lo {
        lemma_ones_in_none(s, lo, hi - 1);
    }
}

/// A range whose entries are all set has every index of it, in order.
pub proof fn lemma_ones_in_all(s: Seq<bool>, lo: int, hi: int)
    requires
        lo <= hi,
        forall|i: int| lo <= i < hi ==> s[i],
    ensures
        ones_in(s, lo, hi) == Seq::new((hi - lo) as nat, |k: int| lo + k),
    decreases hi - lo,
{
    if hi > lo {
        lemma_ones_in_all(s, lo, hi - 1);
        assert(ones_in(s, lo, hi) =~= Seq::new((hi - lo) as nat, |k: int| lo + k));
    } else {
        assert(ones_in(s, lo, hi) =~= Seq::new((hi - lo) as nat, |k: int| lo + k));
    }
}

/// Writing `v` at index `i` of a range changes the number of set entries
/// of the range by the difference between `v` and the entry that was there.
pub proof fn lemma_ones_in_update(s: Seq<bool>, lo: int, hi: int, i: int, v: bool)
    requires
        0 <= lo <= i < hi <= s.len(),
    ensures
        ones_in(s.update(i, v), lo, hi).len() + (if s[i] { 1int } else { 0 }) == ones_in(
            s,
            lo,
            hi,
        ).len() + (if v { 1int } else { 0 }),
{
    let t = s.update(i, v);
    lemma_ones_in_split(s, lo, i, hi);
    lemma_ones_in_split(s, i, i + 1, hi);
    lemma_ones_in_split(t, lo, i, hi);
    lemma_ones_in_split(t, i, i + 1, hi);
    lemma_ones_in_agree(s, t, lo, i);
    lemma_ones_in_agree(s, t, i + 1, hi);
    assert(ones_in(s, i, i) =~= Seq::<int>::empty());
    assert(ones_in(t, i, i) =~= Seq::<int>::empty());
    assert(ones_in(s, i, i + 1).len() == if s[i] { 1int } else { 0 });
    assert(ones_in(t, i, i + 1).len() == if v { 1int } else { 0 });
}

proof fn lemma_bit_set(w: u64, i: u64, j: u64)
    requires
        i < 64,
        j < 64,
    ensures
        bit_of(w | (1u64 << i), j) == (j == i || bit_of(w, j)),
{
    assert(((w | (1u64 << i)) >> j) & 1 == 1 <==> (j == i || (w >> j) & 1 == 1)) by (bit_vector)
        requires
            i < 64,
            j < 64,
    ;
}

proof fn lemma_bit_clear(w: u64, i: u64, j: u64)
    requires
        i < 64,
        j < 64,
    ensures
        bit_of(w & !(1u64 << i), j) == (j != i && bit_of(w, j)),
{
    assert(((w & !(1u64 << i)) >> j) & 1 == 1 <==> (j != i && (w >> j) & 1 == 1)) by (bit_vector)
        requires
            i < 64,
            j < 64,
    ;
}

proof fn lemma_bit_const(j: u64)
    requires
        j < 64,
    ensures
        bit_of(0xffff_ffff_ffff_ffffu64, j),
        !bit_of(0u64, j),
{
    assert((0xffff_ffff_ffff_ffffu64 >> j) & 1 == 1) by (bit_vector)
        requires
            j < 64,
    ;
    assert((0u64 >> j) & 1 == 0) by (bit_vector)
        requires
            j < 64,
    ;
}

/// The bits that `nbits` bits packed into `words` stand for.
pub open spec fn unpack(words: Seq<u64>, nbits: nat) -> Seq<bool> {
    Seq::new(nbits, |i: int| bit_of(words[i / 64], (i % 64) as u64))
}

/// A fixed-length array of bits.
pub struct BitMap {
    bits: Vec<u64>,
    nbits: usize,
}

impl View for BitMap {
    type V = Seq<bool>;

    closed spec fn view(&self) -> Seq<bool> {
        unpack(self.bits@, self.nbits as nat)
    }
}

impl BitMap {
    /// The words hold exactly the bits of the map.
    pub closed spec fn wf(&self) -> bool {
        self.bits@.len() * 64 >= self.nbits && self.bits@.len() == (self.nbits + 63) / 64
    }

    /// The packed words, as stored.
    pub closed spec fn words(&self) -> Seq<u64> {
        self.bits@
    }

    /// A well-formed map shows the bits that its words pack.
    pub proof fn lemma_view(&self)
        requires
            self.wf(),
        ensures
            self@ == unpack(self.words(), self@.len()),
            self.words().len() == (self@.len() + 63) / 64,
    {
    }

    /// A map of `nbits` bits, each equal to `value`.
    pub fn repeat(value: bool, nbits: usize) -> (m: BitMap)
        ensures
            m.wf(),
            m@ == Seq::new(nbits as nat, |i: int| value),
    {
        let nwords: usize = nbits / 64 + (if nbits % 64 == 0 { 0 } else { 1 });
        let word: u64 = if value { 0xffff_ffff_ffff_ffffu64 } else { 0u64 };
        let mut bits: Vec<u64> = Vec::new();
        let mut i: usize = 0;
        while i < nwords
            invariant
                i <= nwords,
                bits@.len() == i,
                forall|k: int| 0 <= k < i ==> bits@[k] == word,
            decreases nwords - i,
        {
            bits.push(word);
            i += 1;
        }
        let m = BitMap { bits, nbits };
        proof {
            assert forall|i: int| 0 <= i < nbits implies #[trigger] m@[i] == value by {
                lemma_bit_const((i % 64) as u64);
            }
            assert(m@ =~= Seq::new(nbits as nat, |i: int| value));
        }
        m
    }

    /// A map over words and a bit count read from elsewhere, if they fit
    /// together.
    pub fn from_words(bits: Vec<u64>, nbits: usize) -> (r: Option<BitMap>)
        ensures
            r is Some <==> bits@.len() == (nbits + 63) / 64,
            r is Some ==> r->0.wf() && r->0@ == unpack(bits@, nbits as nat),
    {
        let nwords: usize = nbits / 64 + (if nbits % 64 == 0 { 0 } else { 1 });
        if bits.len() == nwords {
            Some(BitMap { bits, nbits })
        } else {
            None
        }
    }

    /// The packed words and the bit count.
    pub fn as_words(&self) -> (r: (&Vec<u64>, usize))
        ensures
            r.0@ == self.words(),
            r.1 == self@.len(),
    {
        (&self.bits, self.nbits)
    }

    /// The number of bits.
    pub fn len(&self) -> (n: usize)
        ensures
            n == self@.len(),
    {
        self.nbits
    }

    /// Whether the map has no bits.
    pub fn is_empty(&self) -> (b: bool)
        ensures
            b == (self@.len() == 0),
    {
        self.nbits == 0
    }

    /// The bit at `index`.
    pub fn test_bit(&self, index: usize) -> (b: bool)
        requires
            self.wf(),
            index < self@.len(),
        ensures
            b == self@[index as int],
    {
        let w: u64 = self.bits[index / 64];
        let i: u64 = (index % 64) as u64;
        (w >> i) & 1 == 1
    }

    /// Writes `value` at `index`.
    pub fn set(&mut self, index: usize, value: bool)
        requires
            old(self).wf(),
            index < old(self)@.len(),
        ensures
            final(self).wf(),
            final(self)@ == old(self)@.update(index as int, value),
    {
        let w: u64 = self.bits[index / 64];
        let i: u64 = (index % 64) as u64;
        let nw: u64 = if value { w | (1u64 << i) } else { w & !(1u64 << i) };
        self.bits[index / 64] = nw;
        proof {
            assert forall|j: int| 0 <= j < self.nbits implies #[trigger] self@[j] == old(
                self,
            )@.update(index as int, value)[j] by {
                if j / 64 == index / 64 {
                    lemma_bit_set(w, i, (j % 64) as u64);
                    lemma_bit_clear(w, i, (j % 64) as u64);
                }
            }
            assert(self@ =~= old(self)@.update(index as int, value));
        }
    }

    /// The number of set bits.
    pub fn count_ones(&self) -> (n: usize)
        requires
            self.wf(),
        ensures
            n == count_ones(self@),
    {
        let mut n: usize = 0;
        let mut i: usize = 0;
        while i < self.nbits
            invariant
                self.wf(),
                i <= self.nbits,
                n == ones_in(self@, 0, i as int).len(),
                n <= i,
            decreases self.nbits - i,
        {
            if self.test_bit(i) {
                n += 1;
            }
            i += 1;
        }
        n
    }

    /// The index of the first set bit at or after `from`.
    pub fn first_one(&self, from: usize) -> (r: Option<usize>)
        requires
            self.wf(),
        ensures
            match r {
                Some(i) => first_one_from(self@, from as int) == Some(i as int) && from <= i
                    < self@.len() && self@[i as int],
                None => first_one_from(self@, from as int) is None,
            },
            r is None ==> forall|i: int| from <= i < self@.len() ==> !self@[i],
    {
        let mut i: usize = from;
        while i < self.nbits
            invariant
                self.wf(),
                from <= i,
                forall|k: int| from <= k < i && k < self.nbits ==> !self@[k],
            decreases self.nbits - i,
        {
            if self.test_bit(i) {
                proof {
                    let n = self.nbits as int;
                    lemma_ones_in_split(self@, from as int, i as int, n);
                    lemma_ones_in_split(self@, i as int, i + 1, n);
                    lemma_ones_in_none(self@, from as int, i as int);
                    assert(ones_in(self@, i as int, i as int) =~= Seq::<int>::empty());
                    assert(ones_in(self@, i as int, i + 1)[0] == i);
                }
                return Some(i);
            }
            i += 1;
        }
        proof {
            lemma_ones_in_none(self@, from as int, self.nbits as int);
        }
        None
    }

    /// The indexes of the first `count` set bits at or after `from`, if there
    /// are that many.
    pub fn first_ones(&self, from: usize, count: usize) -> (r: Option<Vec<usize>>)
        requires
            self.wf(),
        ensures
            r is Some <==> ones_in(self@, from as int, self@.len() as int).len() >= count,
            r is Some ==> r->0@.map_values(|i: usize| i as int) == ones_in(
                self@,
                from as int,
                self@.len() as int,
            ).take(count as int),
    {
        let mut found: Vec<usize> = Vec::new();
        if count == 0 {
            proof {
                assert(found@.map_values(|i: usize| i as int) =~= ones_in(
                    self@,
                    from as int,
                    self@.len() as int,
                ).take(0));
            }
            return Some(found);
        }
        let mut i: usize = from;
        while i < self.nbits
            invariant
                self.wf(),
                from <= i,
                i <= self.nbits || i == from,
                count > 0,
                i <= self.nbits ==> found@.map_values(|i: usize| i as int) == ones_in(
                    self@,
                    from as int,
                    i as int,
                ),
                i > self.nbits ==> found@.len() == 0,
                found@.len() < count,
            decreases self.nbits - i,
        {
            if self.test_bit(i) {
                found.push(i);
                proof {
                    let n = self.nbits as int;
                    assert(found@.map_values(|i: usize| i as int) =~= ones_in(
                        self@,
                        from as int,
                        i + 1,
                    ));
                }
                if found.len() == count {
                    proof {
                        let n = self.nbits as int;
                        lemma_ones_in_split(self@, from as int, i + 1, n);
                        assert(found@.map_values(|i: usize| i as int) =~= ones_in(
                            self@,
                            from as int,
                            n,
                        ).take(count as int));
                    }
                    return Some(found);
                }
            }
            i += 1;
        }
        proof {
            if from > self.nbits {
                assert(ones_in(self@, from as int, self.nbits as int) =~= Seq::<int>::empty());
            } else {
                assert(i == self.nbits);
                assert(found@.map_values(|i: usize| i as int).len() == found@.len());
            }
        }
        None
    }
}

} // verus!
