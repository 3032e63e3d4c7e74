//! Run configuration: the analysis bound as a power of ten, the bin count,
//! the segment size, and the target gaps, with the validation the rest of
//! the library assumes.

use vstd::prelude::*;

verus! {

/// Powers of ten.
pub open spec fn spec_pow10(e: nat) -> nat
    decreases e,
{
    if e == 0 {
        1
    } else {
        10 * spec_pow10((e - 1) as nat)
    }
}

/// Powers of ten never shrink as the exponent grows.
proof fn lemma_pow10_grows(e1: nat, e2: nat)
    requires
        e1 <= e2,
    ensures
        spec_pow10(e1) <= spec_pow10(e2),
        spec_pow10(e1) >= 1,
    decreases e2,
{
    if e2 > 0 {
        if e1 == e2 {
            lemma_pow10_grows(0, (e2 - 1) as nat);
        } else {
            lemma_pow10_grows(e1, (e2 - 1) as nat);
        }
    }
}

/// The run parameters, as the excluded command-line layer hands them over.
pub struct Config {
    /// The upper bound, expressed as the exponent of a power of ten.
    pub max_exponent: u32,
    /// Number of resolution bins for the per-range output.
    pub bins: usize,
    /// Where the reporting layer writes its files.
    pub output_dir: String,
    /// Sieve segment size in kilobytes.
    pub segment_size_kb: usize,
    /// The gap sizes tracked per bin.
    pub gaps: Vec<u64>,
    /// Whether the reporting layer should render a web report.
    pub web_report: bool,
}

impl Config {
    /// Every configured gap is positive and even, or exactly 1: all prime
    /// gaps after the one between 2 and 3 are even.
    pub open spec fn spec_gaps_valid(&self) -> bool {
        &&& self.gaps@.len() > 0
        &&& forall|i: int|
            0 <= i < self.gaps@.len() ==> (#[trigger] self.gaps@[i] == 1 || (self.gaps@[i] > 0
                && self.gaps@[i] % 2 == 0))
    }

    /// Checks the target-gap list: non-empty, nothing zero or odd except a
    /// lone 1.
    pub fn gaps_valid(&self) -> (r: bool)
        ensures
            r == self.spec_gaps_valid(),
    {
        if self.gaps.len() == 0 {
            return false;
        }
        let mut i: usize = 0;
        while i < self.gaps.len()
            invariant
                i <= self.gaps@.len(),
                forall|t: int|
                    0 <= t < i ==> (#[trigger] self.gaps@[t] == 1 || (self.gaps@[t] > 0
                        && self.gaps@[t] % 2 == 0)),
            decreases self.gaps@.len() - i,
        {
            let g = self.gaps[i];
            if g == 0 {
                return false;
            }
            if g % 2 != 0 && g != 1 {
                return false;
            }
            i = i + 1;
        }
        true
    }

    /// Derives the analysis bound `10^max_exponent`, failing loudly instead
    /// of silently wrapping when it does not fit in 64 bits.
    pub fn max_n(&self) -> (r: Option<u64>)
        ensures
            match r {
                Some(v) => v == spec_pow10(self.max_exponent as nat),
                None => spec_pow10(self.max_exponent as nat) > u64::MAX,
            },
    {
        let mut acc: u64 = 1;
        let mut i: u32 = 0;
        while i < self.max_exponent
            invariant
                i <= self.max_exponent,
                acc == spec_pow10(i as nat),
            decreases self.max_exponent - i,
        {
            if acc > 0x1999_9999_9999_9999u64 {
                proof {
                    lemma_pow10_grows((i + 1) as nat, self.max_exponent as nat);
                    assert(spec_pow10((i + 1) as nat) == 10 * spec_pow10(i as nat));
                }
                return None;
            }
            acc = acc * 10;
            i = i + 1;
        }
        Some(acc)
    }
}

} // verus!
