//! The probabilistic membership filter of a segment, backed by the `bloom`
//! crate.  The filter answers "definitely absent" or "possibly present":
//! a negative answer is authoritative, a positive one may be a false
//! positive.  The crate is trusted through the contracts below; everything
//! built on them is verified.

use vstd::prelude::*;
use bloom::ASMS;

verus! {

#[verifier::external_type_specification]
#[verifier::external_body]
#[verifier::reject_recursive_types(R)]
#[verifier::reject_recursive_types(S)]
pub struct ExBloomFilter<R, S>(bloom::BloomFilter<R, S>);

/// The set of keys that have been recorded in the filter.
pub uninterp spec fn filter_keys(f: bloom::BloomFilter) -> Set<Seq<char>>;

/// The number of bits the filter was built with.
pub uninterp spec fn filter_bits(f: bloom::BloomFilter) -> usize;

/// Relies on bloom::BloomFilter::with_size: a filter of `num_bits` bits in
/// which no key has been recorded yet.  At least one bit is demanded, since
/// the crate reduces each hash modulo the bit count.
#[verifier::external_body]
pub(crate) fn filter_new(num_bits: usize, num_hashes: u32) -> (f: bloom::BloomFilter)
    requires
        num_bits >= 1,
    ensures
        filter_keys(f) == Set::<Seq<char>>::empty(),
        filter_bits(f) == num_bits,
{
    bloom::BloomFilter::with_size(num_bits, num_hashes)
}

/// Relies on bloom::BloomFilter::insert: records the key in the filter.
#[verifier::external_body]
pub(crate) fn filter_insert(f: &mut bloom::BloomFilter, key: &str)
    requires
        filter_bits(*old(f)) >= 1,
    ensures
        filter_keys(*final(f)) == filter_keys(*old(f)).insert(key@),
        filter_bits(*final(f)) == filter_bits(*old(f)),
{
    f.insert(&key);
}

/// Relies on bloom::BloomFilter::contains: a recorded key is never reported
/// absent; an unrecorded key may still be reported present.
#[verifier::external_body]
pub(crate) fn filter_contains(f: &bloom::BloomFilter, key: &str) -> (r: bool)
    requires
        filter_bits(*f) >= 1,
    ensures
        filter_keys(*f).contains(key@) ==> r,
{
    f.contains(&key)
}

} // verus!
