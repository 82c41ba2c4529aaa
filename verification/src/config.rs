//! The configuration surface of the store.

use vstd::prelude::*;

verus! {

/// Recognized options.  The membership filter is sized directly in bits per
/// record and hash count rather than by a fractional false-positive rate;
/// the defaults below approximate a target rate of one in ten thousand.
#[derive(Clone, Copy)]
pub struct Config {
    /// Segment membership filters get this many bits for each line of the
    /// segment file.
    pub bloom_filter_bits_per_record: usize,
    /// How many hash probes each filter query makes.
    pub bloom_filter_num_hashes: u32,
    /// How often the segment files of the store are compacted, in seconds.
    pub compactor_interval_seconds: u64,
    /// When the memtable reaches this number of keys it is flushed and a
    /// new segment file is created.
    pub memtable_capacity: usize,
    /// Segment sparse indices include every N keys where N is this value;
    /// it must be at least one.
    pub sparse_index_range_size: usize,
}

impl Config {
    /// The sampling stride must be positive, since the segment scan takes
    /// line indices modulo the stride.
    pub open spec fn valid(self) -> bool {
        self.sparse_index_range_size >= 1
    }
}

impl Default for Config {
    fn default() -> (r: Self)
        ensures
            r.bloom_filter_bits_per_record == 20,
            r.bloom_filter_num_hashes == 13,
            r.compactor_interval_seconds == 10,
            r.memtable_capacity == 32,
            r.sparse_index_range_size == 4,
            r.valid(),
    {
        Self {
            bloom_filter_bits_per_record: 20,
            bloom_filter_num_hashes: 13,
            compactor_interval_seconds: 10,
            memtable_capacity: 32,
            sparse_index_range_size: 4,
        }
    }
}

} // verus!
