//! The sets in which blocked vertices wait for another vertex to be
//! unblocked. They are `ahash::AHashSet`s of local indices.

use ahash::AHashSet;
use vstd::prelude::*;

verus! {

/// `ahash::RandomState`, the hasher that an `AHashSet` is built with. Nothing
/// is known of what is inside.
#[verifier::external_type_specification]
#[verifier::external_body]
pub struct ExRandomState(ahash::RandomState);

/// `ahash::AHashSet`. Nothing is known of what is inside but through
/// `members`.
#[verifier::external_type_specification]
#[verifier::external_body]
#[verifier::reject_recursive_types(T)]
#[verifier::reject_recursive_types(S)]
pub struct ExAHashSet<T, S>(ahash::AHashSet<T, S>);

/// The values that a set holds.
pub uninterp spec fn members(set: AHashSet<usize>) -> Set<usize>;

/// The sets held by a vector of them.
pub open spec fn all_members(sets: Seq<AHashSet<usize>>) -> Seq<Set<usize>> {
    sets.map_values(|set: AHashSet<usize>| members(set))
}

/// `AHashSet::default`: a set that holds nothing.
#[verifier::external_body]
pub(crate) fn empty_set() -> (set: AHashSet<usize>)
    ensures
        members(set) == Set::<usize>::empty(),
{
    AHashSet::default()
}

/// `HashSet::insert`, reached through `AHashSet`'s `DerefMut`: afterwards
/// the set holds `value` besides what it held.
#[verifier::external_body]
pub(crate) fn insert(set: &mut AHashSet<usize>, value: usize)
    ensures
        members(*final(set)) == members(*old(set)).insert(value),
{
    set.insert(value);
}

/// `HashSet::clear`, reached through `AHashSet`'s `DerefMut`: afterwards the
/// set holds nothing.
#[verifier::external_body]
pub(crate) fn clear(set: &mut AHashSet<usize>)
    ensures
        members(*final(set)) == Set::<usize>::empty(),
{
    set.clear();
}

/// `HashSet::iter`, reached through `AHashSet`'s `Deref`: the values the set
/// holds, each once. The order in which they come is whatever the hasher
/// makes of them, and nothing is claimed of it.
#[verifier::external_body]
pub(crate) fn to_vec(set: &AHashSet<usize>) -> (values: Vec<usize>)
    ensures
        values@.no_duplicates(),
        values@.to_set() == members(*set),
{
    set.iter().copied().collect()
}

} // verus!
