//! A small probabilistic set of trips.

use std::collections::hash_map::DefaultHasher;
use std::hash::Hasher;
use vstd::bytes::{spec_u64_to_le_bytes, u64_to_le_bytes};
use vstd::prelude::*;
use vstd::std_specs::hash::DefaultHasherAdditionalSpecFns;

verus! {

/// Number of bits of a filter.
pub const PROFILE_BLOOM_BITS: u64 = 256;

/// Number of bits that a trip sets.
pub const PROFILE_BLOOM_HASHES: u64 = 5;

/// A set of trips that may claim to hold a trip it does not, and never denies
/// one that it does.
#[derive(Clone, Copy, Debug, PartialEq, Eq, Structural)]
pub struct TripBloomFilter {
    pub word0: u64,
    pub word1: u64,
    pub word2: u64,
    pub word3: u64,
}

/// The bit that a trip sets for a seed: the hash of the two numbers, folded to
/// the size of the filter.
pub open spec fn trip_bit(trip: usize, seed: u64) -> int {
    DefaultHasher::spec_finish(seq![spec_u64_to_le_bytes(trip as u64), spec_u64_to_le_bytes(seed)]) as int % PROFILE_BLOOM_BITS as int
}

/// The bit that a trip sets for a seed.
pub fn bloom_bit(trip_index: usize, seed: u64) -> (bit: u64)
    ensures
        bit == trip_bit(trip_index, seed),
        bit < PROFILE_BLOOM_BITS,
{
    let mut hasher: DefaultHasher = DefaultHasher::new();
    let trip_bytes: Vec<u8> = u64_to_le_bytes(trip_index as u64);
    let seed_bytes: Vec<u8> = u64_to_le_bytes(seed);
    hasher.write(trip_bytes.as_slice());
    hasher.write(seed_bytes.as_slice());
    assert(hasher@ =~= seq![spec_u64_to_le_bytes(trip_index as u64), spec_u64_to_le_bytes(seed)]);
    hasher.finish() % PROFILE_BLOOM_BITS
}

/// Whether a bit of a word is set.
pub open spec fn word_bit(word: u64, bit: u64) -> bool {
    word & (1u64 << bit) != 0
}

proof fn word_bit_after_set(word: u64, bit: u64, other: u64)
    requires
        bit < 64,
        other < 64,
    ensures
        word_bit(word | (1u64 << bit), other) <==> word_bit(word, other) || other == bit,
{
    assert((word | (1u64 << bit)) & (1u64 << other) != 0 <==> word & (1u64 << other) != 0 || other == bit) by (bit_vector)
        requires
            bit < 64,
            other < 64,
    ;
}

proof fn no_bit_in_zero(bit: u64)
    ensures
        !word_bit(0, bit),
{
    assert(0u64 & (1u64 << bit) == 0) by (bit_vector);
}

impl TripBloomFilter {
    /// The word with the given number.
    pub open spec fn word(self, index: int) -> u64 {
        if index == 0 { self.word0 } else if index == 1 { self.word1 } else if index == 2 { self.word2 } else { self.word3 }
    }

    /// Whether a bit is set.
    pub open spec fn bit(self, bit: int) -> bool {
        word_bit(self.word(bit / 64), (bit % 64) as u64)
    }

    /// Whether every bit of a trip is set.
    pub open spec fn claims(self, trip: usize) -> bool {
        forall|seed: u64| seed < PROFILE_BLOOM_HASHES ==> self.bit(#[trigger] trip_bit(trip, seed))
    }

    /// Whether the filter claims one of the trips.
    pub open spec fn claims_any(self, trips: Seq<usize>) -> bool {
        exists|i: int| 0 <= i < trips.len() && self.claims(#[trigger] trips[i])
    }

    /// A filter without trips.
    pub fn empty() -> (filter: TripBloomFilter)
        ensures
            forall|bit: int| 0 <= bit < PROFILE_BLOOM_BITS ==> !#[trigger] filter.bit(bit),
            filter == (TripBloomFilter { word0: 0, word1: 0, word2: 0, word3: 0 }),
    {
        let filter: TripBloomFilter = TripBloomFilter { word0: 0, word1: 0, word2: 0, word3: 0 };
        assert forall|bit: int| 0 <= bit < PROFILE_BLOOM_BITS implies !#[trigger] filter.bit(bit) by {
            no_bit_in_zero((bit % 64) as u64);
        }
        filter
    }

    fn set_bit(&mut self, bit: u64)
        requires
            bit < PROFILE_BLOOM_BITS,
        ensures
            forall|other: int| 0 <= other < PROFILE_BLOOM_BITS ==> (#[trigger] final(self).bit(other) <==> old(self).bit(other) || other == bit),
    {
        let mask: u64 = 1u64 << (bit % 64);
        let index: u64 = bit / 64;
        if index == 0 {
            self.word0 = self.word0 | mask;
        } else if index == 1 {
            self.word1 = self.word1 | mask;
        } else if index == 2 {
            self.word2 = self.word2 | mask;
        } else {
            self.word3 = self.word3 | mask;
        }
        assert forall|other: int| 0 <= other < PROFILE_BLOOM_BITS implies (#[trigger] self.bit(other) <==> old(self).bit(other) || other == bit) by {
            word_bit_after_set(old(self).word(other / 64), bit % 64, (other % 64) as u64);
        }
    }

    /// Adds a trip: exactly its bits are set besides those that were.
    pub fn insert_trip(&mut self, trip_index: usize)
        ensures
            forall|bit: int| 0 <= bit < PROFILE_BLOOM_BITS ==> (#[trigger] final(self).bit(bit) <==> old(self).bit(bit) || exists|seed: u64|
                seed < PROFILE_BLOOM_HASHES && #[trigger] trip_bit(trip_index, seed) == bit),
            final(self).claims(trip_index),
            forall|trip: usize| old(self).claims(trip) ==> #[trigger] final(self).claims(trip),
    {
        let mut seed: u64 = 0;
        while seed < PROFILE_BLOOM_HASHES
            invariant
                seed <= PROFILE_BLOOM_HASHES,
                forall|bit: int| 0 <= bit < PROFILE_BLOOM_BITS ==> (#[trigger] self.bit(bit) <==> old(self).bit(bit) || exists|done: u64|
                    done < seed && #[trigger] trip_bit(trip_index, done) == bit),
            decreases PROFILE_BLOOM_HASHES - seed,
        {
            let bit: u64 = bloom_bit(trip_index, seed);
            let ghost before = *self;
            self.set_bit(bit);
            assert forall|other: int| 0 <= other < PROFILE_BLOOM_BITS implies (#[trigger] self.bit(other) <==> old(self).bit(other) || exists|done: u64|
                done < seed + 1 && #[trigger] trip_bit(trip_index, done) == other) by {
                assert(self.bit(other) <==> before.bit(other) || other == bit);
                if self.bit(other) && !old(self).bit(other) {
                    if other == bit {
                        assert(trip_bit(trip_index, seed) == other);
                    } else {
                        let done = choose|done: u64| done < seed && #[trigger] trip_bit(trip_index, done) == other;
                        assert(trip_bit(trip_index, done) == other);
                    }
                }
                if exists|done: u64| done < seed + 1 && #[trigger] trip_bit(trip_index, done) == other {
                    let done = choose|done: u64| done < seed + 1 && #[trigger] trip_bit(trip_index, done) == other;
                    if done == seed {
                        assert(other == bit);
                    } else {
                        assert(before.bit(other));
                    }
                }
            }
            seed = seed + 1;
        }
        assert forall|s: u64| s < PROFILE_BLOOM_HASHES implies self.bit(#[trigger] trip_bit(trip_index, s)) by {
            assert(0 <= trip_bit(trip_index, s) < PROFILE_BLOOM_BITS);
        }
        assert forall|trip: usize| old(self).claims(trip) implies #[trigger] self.claims(trip) by {
            assert forall|s: u64| s < PROFILE_BLOOM_HASHES implies self.bit(#[trigger] trip_bit(trip, s)) by {
                assert(0 <= trip_bit(trip, s) < PROFILE_BLOOM_BITS);
                assert(old(self).bit(trip_bit(trip, s)));
            }
        }
    }

    /// Whether the filter claims a trip.
    pub fn might_contain_trip(&self, trip_index: usize) -> (claimed: bool)
        ensures
            claimed == self.claims(trip_index),
    {
        let mut seed: u64 = 0;
        while seed < PROFILE_BLOOM_HASHES
            invariant
                seed <= PROFILE_BLOOM_HASHES,
                forall|done: u64| done < seed ==> self.bit(#[trigger] trip_bit(trip_index, done)),
            decreases PROFILE_BLOOM_HASHES - seed,
        {
            let bit: u64 = bloom_bit(trip_index, seed);
            let index: u64 = bit / 64;
            let word: u64 = if index == 0 { self.word0 } else if index == 1 { self.word1 } else if index == 2 { self.word2 } else { self.word3 };
            let mask: u64 = 1u64 << (bit % 64);
            if word & mask == 0 {
                assert(!self.bit(trip_bit(trip_index, seed)));
                return false;
            }
            assert(self.bit(trip_bit(trip_index, seed)));
            seed = seed + 1;
        }
        true
    }

    /// Whether the filter claims one of the trips.
    pub fn might_intersect_any(&self, changed_trips: &Vec<usize>) -> (claimed: bool)
        ensures
            claimed == self.claims_any(changed_trips@),
    {
        let mut i: usize = 0;
        while i < changed_trips.len()
            invariant
                i <= changed_trips.len(),
                forall|k: int| 0 <= k < i ==> !self.claims(#[trigger] changed_trips@[k]),
            decreases changed_trips.len() - i,
        {
            if self.might_contain_trip(changed_trips[i]) {
                assert(self.claims(changed_trips@[i as int]));
                return true;
            }
            i = i + 1;
        }
        false
    }
}

/// The filter that holds the first `n` of the trips.
pub open spec fn filter_holds(filter: TripBloomFilter, trips: Seq<usize>, n: int) -> bool {
    forall|bit: int| 0 <= bit < PROFILE_BLOOM_BITS ==> (#[trigger] filter.bit(bit) <==> exists|i: int, seed: u64|
        0 <= i < n && seed < PROFILE_BLOOM_HASHES && #[trigger] trip_bit(trips[i], seed) == bit)
}

/// A filter that holds trips claims each of them.
pub proof fn filter_never_denies(filter: TripBloomFilter, trips: Seq<usize>, i: int)
    requires
        filter_holds(filter, trips, trips.len() as int),
        0 <= i < trips.len(),
    ensures
        filter.claims(trips[i]),
{
    assert forall|seed: u64| seed < PROFILE_BLOOM_HASHES implies filter.bit(#[trigger] trip_bit(trips[i], seed)) by {
        assert(0 <= trip_bit(trips[i], seed) < PROFILE_BLOOM_BITS);
    }
}

/// Builds the filter that holds the trips.
pub fn filter_of(trips: &Vec<usize>) -> (filter: TripBloomFilter)
    ensures
        filter_holds(filter, trips@, trips@.len() as int),
{
    let mut filter: TripBloomFilter = TripBloomFilter::empty();
    let mut i: usize = 0;
    while i < trips.len()
        invariant
            i <= trips.len(),
            filter_holds(filter, trips@, i as int),
        decreases trips.len() - i,
    {
        let ghost before = filter;
        filter.insert_trip(trips[i]);
        assert forall|bit: int| 0 <= bit < PROFILE_BLOOM_BITS implies (#[trigger] filter.bit(bit) <==> exists|k: int, seed: u64|
            0 <= k < i + 1 && seed < PROFILE_BLOOM_HASHES && #[trigger] trip_bit(trips@[k], seed) == bit) by {
            if filter.bit(bit) {
                if before.bit(bit) {
                    let (k, seed) = choose|k: int, seed: u64| 0 <= k < i && seed < PROFILE_BLOOM_HASHES && #[trigger] trip_bit(trips@[k], seed) == bit;
                    assert(trip_bit(trips@[k], seed) == bit);
                } else {
                    let seed = choose|seed: u64| seed < PROFILE_BLOOM_HASHES && #[trigger] trip_bit(trips@[i as int], seed) == bit;
                    assert(trip_bit(trips@[i as int], seed) == bit);
                }
            }
            if exists|k: int, seed: u64| 0 <= k < i + 1 && seed < PROFILE_BLOOM_HASHES && #[trigger] trip_bit(trips@[k], seed) == bit {
                let (k, seed) = choose|k: int, seed: u64| 0 <= k < i + 1 && seed < PROFILE_BLOOM_HASHES && #[trigger] trip_bit(trips@[k], seed) == bit;
                if k < i {
                    assert(before.bit(bit));
                }
            }
        }
        i = i + 1;
    }
    filter
}

} // verus!
