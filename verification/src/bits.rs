//! The bit array of the filter: `bit_vec::BitVec`, seen as a sequence of booleans.
use bit_vec::BitVec;
use vstd::prelude::*;

verus! {

/// `bit_vec::BitVec`, opaque to the verifier: what it holds is `bits_of`.
#[verifier::external_type_specification]
#[verifier::external_body]
#[verifier::reject_recursive_types(B)]
pub struct ExBitVec<B>(BitVec<B>);

/// The bits that a `BitVec` holds, in index order.
pub uninterp spec fn bits_of(v: BitVec<u32>) -> Seq<bool>;

/// `BitVec::from_elem`: a vector of `len` bits, each equal to `bit`. Running out
/// of memory ends the process, as it does for `Vec`.
#[verifier::external_body]
pub(crate) fn bits_from_elem(len: usize, bit: bool) -> (v: BitVec<u32>)
    ensures
        bits_of(v) == Seq::new(len as nat, |i: int| bit),
{
    BitVec::from_elem(len, bit)
}

/// `BitVec::set`: bit `i` becomes `x` and every other bit stays. The call panics
/// on an index past the end, so the index must lie within the vector.
#[verifier::external_body]
pub(crate) fn bits_set(v: &mut BitVec<u32>, i: usize, x: bool)
    requires
        i < bits_of(*old(v)).len(),
    ensures
        bits_of(*final(v)) == bits_of(*old(v)).update(i as int, x),
{
    v.set(i, x)
}

/// Indexing a `BitVec`: the bit at `i`. The call panics on an index past the
/// end, so the index must lie within the vector.
#[verifier::external_body]
pub(crate) fn bits_index(v: &BitVec<u32>, i: usize) -> (b: bool)
    requires
        i < bits_of(*v).len(),
    ensures
        b == bits_of(*v)[i as int],
{
    v[i]
}

} // verus!
