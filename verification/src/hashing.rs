//! The hash primitive of the filter: `gxhash::GxHasher`, seen as a seed and the
//! byte strings written into it so far.
use gxhash::GxHasher;
use std::hash::Hasher;
use vstd::prelude::*;

verus! {

/// `gxhash::GxHasher`, opaque to the verifier. A hasher stands for the seed
/// it was made with and the writes made to it since; every hasher is made by
/// `hasher_with_seed` and changed by `hasher_write` alone.
#[verifier::external_type_specification]
#[verifier::external_body]
pub struct ExGxHasher(GxHasher);

/// The seed that a hasher was made with.
pub uninterp spec fn seed_of(h: GxHasher) -> i64;

/// The byte strings written into a hasher so far, oldest first.
pub uninterp spec fn written(h: GxHasher) -> Seq<Seq<u8>>;

/// The 64-bit digest that a hasher made with `seed` gives once `writes` have
/// been written into it, one after the other. It is the same on every
/// platform that gxhash supports.
pub uninterp spec fn gx_digest(seed: i64, writes: Seq<Seq<u8>>) -> u64;

/// `GxHasher::with_seed`: a fresh hasher for `seed`, with nothing written yet.
#[verifier::external_body]
pub(crate) fn hasher_with_seed(seed: i64) -> (h: GxHasher)
    ensures
        seed_of(h) == seed,
        written(h) == Seq::<Seq<u8>>::empty(),
{
    GxHasher::with_seed(seed)
}

/// `Hasher::write` of `GxHasher`: `bytes` is appended to what was written; the
/// seed stays.
#[verifier::external_body]
pub(crate) fn hasher_write(h: &mut GxHasher, bytes: &[u8])
    ensures
        seed_of(*final(h)) == seed_of(*old(h)),
        written(*final(h)) == written(*old(h)).push(bytes@),
{
    h.write(bytes)
}

/// `Hasher::finish` of `GxHasher`: the digest of the seed and of what was
/// written. The hasher's state is computed from these alone, and `finish`
/// from the state alone.
#[verifier::external_body]
pub(crate) fn hasher_finish(h: &GxHasher) -> (digest: u64)
    ensures
        digest == gx_digest(seed_of(*h), written(*h)),
{
    h.finish()
}

} // verus!
