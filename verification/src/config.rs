//! Settings of one clustering run.

use vstd::prelude::*;

verus! {

/// Longest k-mer that fits a 64-bit minimizer with two bits for each base.
pub const MAX_KMER_SIZE: usize = 31;

/// Widest window whose positions the extractor can add up in 16 bits.
pub const MAX_WINDOW_SIZE: u16 = 32768;

/// Settings of one clustering run, fixed from its start to its end.
#[derive(Clone, Copy, Debug)]
pub struct Config {
    /// Number of slots of every signature.
    pub sketch_size: usize,
    /// Number of bases of a minimizer.
    pub kmer_size: usize,
    /// Number of consecutive k-mers of which one minimizer is the smallest.
    pub window_size: u16,
    /// Least number of agreeing slots with which a read joins a cluster.
    ///
    /// This is the similarity threshold in whole slots: for a threshold `t` between 0 and 1 it
    /// is the least `m` with `m / sketch_size >= t`. It bounds the estimated similarity from
    /// below, so a larger value makes joining harder; a value above `sketch_size` lets no read
    /// join, and 0 sends every read after the first to the first cluster.
    pub min_matches: usize,
}

impl Config {
    /// The settings that the sketcher can work with: at least one slot, and no more than can
    /// be allocated; k-mers of 1 to 31 bases; windows of 1 to 32768 k-mers.
    pub open spec fn well_formed(&self) -> bool {
        &&& 1 <= self.sketch_size
        &&& 16 * self.sketch_size <= isize::MAX
        &&& 1 <= self.kmer_size <= MAX_KMER_SIZE
        &&& 1 <= self.window_size <= MAX_WINDOW_SIZE
    }

    /// Length of the shortest read that holds one full window of k-mers.
    pub open spec fn required_length(&self) -> int {
        self.window_size + self.kmer_size - 1
    }

    /// Whether a read of `len` bases is long enough to be sketched.
    pub open spec fn admits(&self, len: nat) -> bool {
        len >= self.required_length()
    }

    /// Tells whether the settings are ones the sketcher can work with.
    pub fn is_well_formed(&self) -> (ok: bool)
        ensures
            ok == self.well_formed(),
    {
        let most: usize = (isize::MAX as usize) / 16;
        1 <= self.sketch_size && self.sketch_size <= most && 1 <= self.kmer_size
            && self.kmer_size <= MAX_KMER_SIZE && 1 <= self.window_size
            && self.window_size <= MAX_WINDOW_SIZE
    }

    /// Length of the shortest read that is sketched; shorter reads are passed over.
    pub fn min_read_length(&self) -> (len: usize)
        requires
            self.well_formed(),
        ensures
            len == self.required_length(),
            len >= 1,
    {
        self.window_size as usize + self.kmer_size - 1
    }
}

} // verus!
