//! Bit-packed composite masks.
//!
//! A mask covers a half-open numeric range with one bit per number, packed
//! least-significant-bit first into 64-bit words: bit value 1 means the
//! number was struck as composite, 0 means it survived as prime.

use vstd::prelude::*;

verus! {

/// Bit `b` of the word `w`, counting from the least significant bit.
pub open spec fn spec_word_bit(w: u64, b: u64) -> bool {
    (w >> b) & 1 == 1
}

/// Bit `j` of a packed word sequence.
pub open spec fn spec_seq_bit(words: Seq<u64>, j: int) -> bool {
    spec_word_bit(words[j / 64], (j % 64) as u64)
}

/// Setting bit `bi` leaves every other bit of the word unchanged.
proof fn lemma_or_bit(w: u64, bi: u64, bj: u64)
    by (bit_vector)
    requires
        bi < 64,
        bj < 64,
    ensures
        bi == bj ==> spec_word_bit(w | (1u64 << bi), bj),
        bi != bj ==> spec_word_bit(w | (1u64 << bi), bj) == spec_word_bit(w, bj),
{
}

/// The all-zero word has no bit set.
pub proof fn lemma_zero_word_bit(b: u64)
    by (bit_vector)
    ensures
        !spec_word_bit(0u64, b),
{
}

/// Sets bit `j` in a packed word vector; every other bit keeps its value.
pub fn set_mask_bit(words: &mut Vec<u64>, j: u64)
    requires
        j < old(words)@.len() * 64,
    ensures
        final(words)@.len() == old(words)@.len(),
        forall|k: int|
            0 <= k < final(words)@.len() * 64 ==> spec_seq_bit(final(words)@, k) == (k == j
                || spec_seq_bit(old(words)@, k)),
{
    let wi = (j / 64) as usize;
    let b = j % 64;
    let w = words[wi];
    words.set(wi, w | (1u64 << b));
    proof {
        assert forall|k: int|
            0 <= k < words@.len() * 64 implies spec_seq_bit(words@, k) == (k == j as int
            || spec_seq_bit(old(words)@, k)) by {
            let kw = k / 64;
            let kb = (k % 64) as u64;
            if kw == wi as int {
                lemma_or_bit(w, b, kb);
                assert(k == j as int <==> (kw == j as int / 64 && kb == (j as int % 64) as u64));
            } else {
                assert(words@[kw] == old(words)@[kw]);
                assert(k != j as int);
            }
        }
    }
}

/// A bit-packed composite mask over a range of `len_bits` numbers.
///
/// Write-once, read-many: it is produced by the segment generator and only
/// read afterwards.
pub struct SegmentMask {
    words: Vec<u64>,
    len_bits: usize,
}

impl SegmentMask {
    /// Number of bits the mask covers.
    pub closed spec fn spec_len(&self) -> int {
        self.len_bits as int
    }

    /// Value of bit `j`.
    pub closed spec fn bit(&self, j: int) -> bool {
        spec_seq_bit(self.words@, j)
    }

    /// The word storage holds exactly the bits the mask covers.
    pub closed spec fn wf(&self) -> bool {
        self.words@.len() == (self.len_bits + 63) / 64
    }

    /// Wraps a word vector that carries `len_bits` mask bits.
    pub(crate) fn from_words(words: Vec<u64>, len_bits: usize) -> (m: SegmentMask)
        requires
            words@.len() == (len_bits + 63) / 64,
        ensures
            m.wf(),
            m.spec_len() == len_bits,
            forall|j: int| 0 <= j < len_bits ==> m.bit(j) == spec_seq_bit(words@, j),
    {
        SegmentMask { words, len_bits }
    }

    /// Length of the mask in bits.
    pub fn bit_len(&self) -> (n: usize)
        ensures
            n == self.spec_len(),
    {
        self.len_bits
    }

    /// Scans forward from `from` for the first unset bit.
    pub fn first_unset_from(&self, from: usize) -> (r: Option<usize>)
        requires
            self.wf(),
            from <= self.spec_len(),
        ensures
            match r {
                Some(k) => {
                    &&& from <= k < self.spec_len()
                    &&& !self.bit(k as int)
                    &&& forall|t: int| from <= t < k ==> self.bit(t)
                },
                None => forall|t: int| from <= t < self.spec_len() ==> self.bit(t),
            },
    {
        let mut k = from;
        while k < self.len_bits
            invariant
                self.wf(),
                from <= k <= self.spec_len(),
                forall|t: int| from <= t < k ==> self.bit(t),
            decreases self.spec_len() - k,
        {
            if !self.get_bit(k) {
                return Some(k);
            }
            k = k + 1;
        }
        None
    }

    /// Reads bit `i`.
    pub fn get_bit(&self, i: usize) -> (b: bool)
        requires
            self.wf(),
            i < self.spec_len(),
        ensures
            b == self.bit(i as int),
    {
        let wi = i / 64;
        let b = (i % 64) as u64;
        assert(wi < self.words@.len());
        (self.words[wi] >> b) & 1 == 1
    }
}

} // verus!
