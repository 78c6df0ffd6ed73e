//! A set of x-coordinates, used by recovery to count distinct
//! x-coordinates in one pass.  The storage is hashbrown's hash set,
//! reached through trusted wrappers.

use vstd::prelude::*;

verus! {

/// A collection of x-coordinate bytes with constant-time membership.
#[verifier::external_body]
pub struct XCoordSet {
    inner: hashbrown::HashSet<u8>,
}

/// The elements the collection holds.
pub uninterp spec fn x_coord_set_view(s: XCoordSet) -> Set<u8>;

/// Relies on hashbrown::HashSet::new: the new set is empty.
#[verifier::external_body]
pub(crate) fn x_coord_set_new() -> (s: XCoordSet)
    ensures
        x_coord_set_view(s) == Set::<u8>::empty(),
{
    XCoordSet { inner: hashbrown::HashSet::new() }
}

/// Relies on hashbrown::HashSet::insert: afterwards the set holds the old
/// elements and the inserted one, and the result says whether the value
/// was absent before.
#[verifier::external_body]
pub(crate) fn x_coord_set_insert(s: &mut XCoordSet, v: u8) -> (absent: bool)
    ensures
        x_coord_set_view(*final(s)) == x_coord_set_view(*old(s)).insert(v),
        absent == !x_coord_set_view(*old(s)).contains(v),
{
    s.inner.insert(v)
}

/// Relies on hashbrown::HashSet::len: the number of elements held.
#[verifier::external_body]
pub(crate) fn x_coord_set_len(s: &XCoordSet) -> (n: usize)
    ensures
        x_coord_set_view(*s).finite() ==> n == x_coord_set_view(*s).len(),
{
    s.inner.len()
}

} // verus!
