//! Scratch sets of node identities, kept in `tinyset::SetUsize` as the walk
//! maintenance uses them for dedup and set difference.

use vstd::prelude::*;

verus! {

/// Declares `tinyset::SetUsize`; what it holds is named by
/// `set_usize_elems` below.
#[verifier::external_type_specification]
#[verifier::external_body]
pub struct ExSetUsize(tinyset::SetUsize);

/// The elements a `tinyset::SetUsize` holds.
pub uninterp spec fn set_usize_elems(s: tinyset::SetUsize) -> Set<usize>;

/// Relies on `tinyset::SetUsize::new`: the fresh set is empty.
#[verifier::external_body]
pub(crate) fn set_usize_new() -> (s: tinyset::SetUsize)
    ensures
        set_usize_elems(s) == Set::<usize>::empty(),
{
    tinyset::SetUsize::new()
}

/// Relies on `tinyset::SetUsize::insert`: the element is added, and the
/// result reports whether it was absent before.
#[verifier::external_body]
pub(crate) fn set_usize_insert(s: &mut tinyset::SetUsize, v: usize) -> (r: bool)
    ensures
        set_usize_elems(*final(s)) == set_usize_elems(*old(s)).insert(v),
        r == !set_usize_elems(*old(s)).contains(v),
{
    s.insert(v)
}

/// Relies on `tinyset::SetUsize::iter`: every element exactly once.
#[verifier::external_body]
pub(crate) fn set_usize_to_vec(s: &tinyset::SetUsize) -> (r: Vec<usize>)
    ensures
        r@.no_duplicates(),
        forall|v: usize| r@.contains(v) == set_usize_elems(*s).contains(v),
{
    s.iter().collect()
}

} // verus!
