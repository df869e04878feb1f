//! Numbers and names of stops, routes and trips.

use std::collections::hash_map::DefaultHasher;
use std::collections::HashSet;
use std::hash::Hasher;
use vstd::bytes::{spec_u64_to_le_bytes, u64_to_le_bytes};
use vstd::prelude::*;
use vstd::std_specs::hash::DefaultHasherAdditionalSpecFns;
use vstd::string::*;

verus! {

/// What a number stands for.
#[derive(Clone, Copy, Debug, PartialEq, Eq, Structural)]
pub enum EntityKind {
    Stop,
    Route,
    Trip,
}

/// The greatest ordinal that a number has room for.
pub const ENTITY_ORDINAL_MASK: u64 = 17592186044415;

/// Why no number could be given.
#[derive(Clone, Copy, Debug, PartialEq, Eq, Structural)]
pub enum IdError {
    /// The ordinal is beyond what a number has room for.
    OrdinalTooLarge(u64),
    /// Every number that could be tried is taken.
    Exhausted,
}

/// The code of a kind.
pub open spec fn kind_code(kind: EntityKind) -> int {
    match kind {
        EntityKind::Stop => 1,
        EntityKind::Route => 2,
        EntityKind::Trip => 3,
    }
}

/// The number of the entity of a feed with a kind and an ordinal: 16 bits for the
/// feed, 4 for the kind, 44 for the ordinal.
pub open spec fn packed_id(feed_index: u16, kind: EntityKind, ordinal: int) -> int {
    feed_index * 0x1_0000_0000_0000 + kind_code(kind) * 0x1000_0000_0000 + ordinal
}

/// Packs the number of an entity.
pub fn pack_global_id(feed_index: u16, kind: EntityKind, local_ordinal: u64) -> (id: Result<u64, IdError>)
    ensures
        local_ordinal > ENTITY_ORDINAL_MASK ==> id == Err::<u64, IdError>(IdError::OrdinalTooLarge(local_ordinal)),
        local_ordinal <= ENTITY_ORDINAL_MASK ==> id is Ok && id->Ok_0 == packed_id(feed_index, kind, local_ordinal as int),
{
    if local_ordinal > ENTITY_ORDINAL_MASK {
        return Err(IdError::OrdinalTooLarge(local_ordinal));
    }
    let code: u64 = match kind {
        EntityKind::Stop => 1,
        EntityKind::Route => 2,
        EntityKind::Trip => 3,
    };
    Ok(feed_index as u64 * 0x1_0000_0000_0000 + code * 0x1000_0000_0000 + local_ordinal)
}

/// Different entities have different numbers.
pub proof fn packing_is_injective(feed_a: u16, kind_a: EntityKind, ordinal_a: int, feed_b: u16, kind_b: EntityKind, ordinal_b: int)
    requires
        0 <= ordinal_a <= ENTITY_ORDINAL_MASK,
        0 <= ordinal_b <= ENTITY_ORDINAL_MASK,
        packed_id(feed_a, kind_a, ordinal_a) == packed_id(feed_b, kind_b, ordinal_b),
    ensures
        feed_a == feed_b,
        kind_a == kind_b,
        ordinal_a == ordinal_b,
{
}

/// The ordinal that is tried for a local id with a salt: the hash of both, cut
/// to size.
pub open spec fn salted_ordinal(local_id: Seq<u8>, salt: u64) -> int {
    DefaultHasher::spec_finish(seq![local_id, seq![255u8], spec_u64_to_le_bytes(salt)]) as int % 0x1000_0000_0000
}

/// The ordinal that is tried for a local id with a salt.
pub fn hash_local_ordinal(local_id: &str, salt: u64) -> (ordinal: u64)
    ensures
        ordinal == salted_ordinal(local_id.spec_bytes(), salt),
        ordinal <= ENTITY_ORDINAL_MASK,
{
    let mut hasher: DefaultHasher = DefaultHasher::new();
    let mut end: Vec<u8> = Vec::new();
    end.push(255);
    let salt_bytes: Vec<u8> = u64_to_le_bytes(salt);
    hasher.write(local_id.as_bytes());
    hasher.write(end.as_slice());
    hasher.write(salt_bytes.as_slice());
    proof {
        assert(end@ =~= seq![255u8]);
        assert(hasher@ =~= seq![local_id.spec_bytes(), seq![255u8], spec_u64_to_le_bytes(salt)]);
    }
    hasher.finish() % 0x1000_0000_0000
}

/// The number that is tried with a salt.
pub open spec fn salted_id(feed_index: u16, kind: EntityKind, local_id: Seq<u8>, salt: u64) -> int {
    packed_id(feed_index, kind, salted_ordinal(local_id, salt))
}

/// Whether a number is the one to give: the proposed one if it is free, else the
/// one with the least salt that is.
pub open spec fn is_free_id(proposed: u64, feed_index: u16, kind: EntityKind, local_id: Seq<u8>, taken: Set<u64>, id: u64) -> bool {
    &&& !taken.contains(id)
    &&& if !taken.contains(proposed) {
        id == proposed
    } else {
        exists|salt: u64| #[trigger] is_least_salt(feed_index, kind, local_id, taken, salt) && id == salted_id(feed_index, kind, local_id, salt)
    }
}

/// Whether a salt is the least that gives a free number.
pub open spec fn is_least_salt(feed_index: u16, kind: EntityKind, local_id: Seq<u8>, taken: Set<u64>, salt: u64) -> bool {
    &&& 1 <= salt < u64::MAX
    &&& !taken.contains(salted_id(feed_index, kind, local_id, salt) as u64)
    &&& forall|s: u64| 1 <= s < salt ==> taken.contains(#[trigger] salted_id(feed_index, kind, local_id, s) as u64)
}

/// The number to give, if there is one.
pub open spec fn free_id(proposed: u64, feed_index: u16, kind: EntityKind, local_id: Seq<u8>, taken: Set<u64>) -> Option<u64> {
    if exists|id: u64| is_free_id(proposed, feed_index, kind, local_id, taken, id) {
        Some(choose|id: u64| is_free_id(proposed, feed_index, kind, local_id, taken, id))
    } else {
        None
    }
}

/// At most one number is the one to give.
pub proof fn free_id_is_unique(proposed: u64, feed_index: u16, kind: EntityKind, local_id: Seq<u8>, taken: Set<u64>, a: u64, b: u64)
    requires
        is_free_id(proposed, feed_index, kind, local_id, taken, a),
        is_free_id(proposed, feed_index, kind, local_id, taken, b),
    ensures
        a == b,
{
    if taken.contains(proposed) {
        let s = choose|salt: u64| #[trigger] is_least_salt(feed_index, kind, local_id, taken, salt) && a == salted_id(feed_index, kind, local_id, salt);
        let t = choose|salt: u64| #[trigger] is_least_salt(feed_index, kind, local_id, taken, salt) && b == salted_id(feed_index, kind, local_id, salt);
        if s < t {
            assert(taken.contains(salted_id(feed_index, kind, local_id, s) as u64));
        }
        if t < s {
            assert(taken.contains(salted_id(feed_index, kind, local_id, t) as u64));
        }
    }
}

/// Gives an entity a number that no other has: the proposed one, or one made of
/// its local id.
pub fn allocate_unique_global_id(proposed: u64, feed_index: u16, kind: EntityKind, local_id: &str, global_ids: &mut HashSet<u64>) -> (id: Result<u64, IdError>)
    ensures
        match free_id(proposed, feed_index, kind, local_id.spec_bytes(), old(global_ids)@) {
            Some(free) => {
                &&& id == Ok::<u64, IdError>(free)
                &&& is_free_id(proposed, feed_index, kind, local_id.spec_bytes(), old(global_ids)@, free)
                &&& final(global_ids)@ == old(global_ids)@.insert(free)
            },
            None => id == Err::<u64, IdError>(IdError::Exhausted) && final(global_ids)@ == old(global_ids)@,
        },
{
    let ghost taken = global_ids@;
    if global_ids.insert(proposed) {
        proof {
            assert(is_free_id(proposed, feed_index, kind, local_id.spec_bytes(), taken, proposed));
            free_id_is_unique(proposed, feed_index, kind, local_id.spec_bytes(), taken, proposed, free_id(proposed, feed_index, kind, local_id.spec_bytes(), taken)->0);
        }
        return Ok(proposed);
    }
    assert(global_ids@ =~= taken);
    let mut salt: u64 = 1;
    while salt < u64::MAX
        invariant
            1 <= salt,
            taken == old(global_ids)@,
            global_ids@ == taken,
            taken.contains(proposed),
            forall|s: u64| 1 <= s < salt ==> taken.contains(#[trigger] salted_id(feed_index, kind, local_id.spec_bytes(), s) as u64),
        decreases u64::MAX - salt,
    {
        let ordinal: u64 = hash_local_ordinal(local_id, salt);
        let candidate: u64 = match pack_global_id(feed_index, kind, ordinal) {
            Ok(candidate) => candidate,
            Err(error) => {
                assert(false);
                return Err(error);
            },
        };
        assert(candidate == salted_id(feed_index, kind, local_id.spec_bytes(), salt));
        if global_ids.insert(candidate) {
            proof {
                assert(is_least_salt(feed_index, kind, local_id.spec_bytes(), taken, salt));
                assert(is_free_id(proposed, feed_index, kind, local_id.spec_bytes(), taken, candidate));
                free_id_is_unique(proposed, feed_index, kind, local_id.spec_bytes(), taken, candidate, free_id(proposed, feed_index, kind, local_id.spec_bytes(), taken)->0);
            }
            return Ok(candidate);
        }
        assert(global_ids@ =~= taken);
        salt = salt + 1;
    }
    Err(IdError::Exhausted)
}

/// The name of something within its feed.
pub open spec fn namespaced(feed_id: Seq<char>, local_id: Seq<char>) -> Seq<char> {
    feed_id + seq![':'] + local_id
}

/// The name of something within its feed.
pub fn namespaced_id(feed_id: &str, local_id: &str) -> (id: String)
    ensures
        id@ == namespaced(feed_id@, local_id@),
{
    crate::realtime::scoped_id(feed_id, local_id)
}

/// Names within feeds are different where feeds or local ids are, for feed ids
/// without a colon.
pub proof fn namespacing_is_injective(feed_a: Seq<char>, local_a: Seq<char>, feed_b: Seq<char>, local_b: Seq<char>)
    requires
        !feed_a.contains(':'),
        !feed_b.contains(':'),
        namespaced(feed_a, local_a) == namespaced(feed_b, local_b),
    ensures
        feed_a == feed_b,
        local_a == local_b,
{
    let whole = namespaced(feed_a, local_a);
    let n = feed_a.len() as int;
    let m = feed_b.len() as int;
    assert(whole[n] == ':');
    assert(namespaced(feed_b, local_b)[m] == ':');
    if n < m {
        assert(feed_b[n] == whole[n]);
        assert(feed_b.contains(':'));
    }
    if m < n {
        assert(feed_a[m] == whole[m]);
        assert(feed_a.contains(':'));
    }
    assert forall|i: int| 0 <= i < n implies feed_a[i] == feed_b[i] by {
        assert(whole[i] == feed_a[i]);
        assert(namespaced(feed_b, local_b)[i] == feed_b[i]);
    }
    assert(feed_a =~= feed_b);
    assert(whole.len() == n + 1 + local_a.len());
    assert(namespaced(feed_b, local_b).len() == m + 1 + local_b.len());
    assert forall|i: int| 0 <= i < local_a.len() implies local_a[i] == local_b[i] by {
        assert(whole[n + 1 + i] == local_a[i]);
        assert(namespaced(feed_b, local_b)[n + 1 + i] == local_b[i]);
    }
    assert(local_a =~= local_b);
}

} // verus!
