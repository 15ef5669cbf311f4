//! Account ids: what identifies a voter.

use frame_election_provider_support::VoteWeight;
use vstd::laws_cmp::obeys_cmp;
use vstd::laws_eq::obeys_concrete_eq;
use vstd::prelude::*;
use vstd::std_specs::btree::increasing_seq;
use vstd::std_specs::cmp::OrdSpec;

verus! {

/// Cloning a value of this type gives the same value back.
pub open spec fn clones_faithfully<A: Clone>() -> bool {
    forall|a: A, b: A| #[trigger] cloned::<A>(a, b) ==> a == b
}

/// The order of this type is a total order.
pub open spec fn ordered<A: Ord>() -> bool {
    obeys_cmp::<A>()
}

/// Vote weights are ordered.
pub proof fn lemma_weights_ordered()
    ensures
        ordered::<VoteWeight>(),
{
    broadcast use vstd::laws_cmp::group_laws_cmp;

}

/// A type whose values identify voters: its order, its equality and its clones all agree on when
/// two values are the same.
pub trait AccountId: Ord + Clone {
    /// The order is a total order, `==` holds of equal values alone, and a clone is the same value.
    proof fn lawful()
        ensures
            ordered::<Self>(),
            obeys_concrete_eq::<Self>(),
            clones_faithfully::<Self>(),
    ;
}

impl AccountId for u32 {
    proof fn lawful() {
        broadcast use vstd::laws_cmp::group_laws_cmp;
        broadcast use vstd::laws_eq::group_laws_eq;

    }
}

impl AccountId for u64 {
    proof fn lawful() {
        broadcast use vstd::laws_cmp::group_laws_cmp;
        broadcast use vstd::laws_eq::group_laws_eq;

    }
}

/// References in increasing order refer to values in increasing order.
pub(crate) proof fn lemma_increasing_values<A: AccountId>(order: Seq<&A>)
    requires
        increasing_seq(order),
    ensures
        increasing_seq(order.unref()),
{
    broadcast use vstd::laws_cmp::group_laws_cmp;

    A::lawful();
    assert(obeys_cmp::<&A>());
    assert forall|i: int, j: int| 0 <= i < j < order.unref().len() implies OrdSpec::cmp_spec(
        &order.unref()[i],
        &order.unref()[j],
    ) is Less by {
        assert(OrdSpec::cmp_spec(&order[i], &order[j]) is Less);
    }
}

/// Whether two ids are the same.
pub(crate) fn same_id<A: AccountId>(a: &A, b: &A) -> (r: bool)
    ensures
        r == (*a == *b),
{
    proof {
        A::lawful();
        reveal(obeys_concrete_eq);
    }
    *a == *b
}

/// Whether `a` is there and is `b`.
pub(crate) fn is_id<A: AccountId>(a: &Option<A>, b: &A) -> (r: bool)
    ensures
        r == (*a == Some(*b)),
{
    match a {
        Some(id) => same_id(id, b),
        None => false,
    }
}

/// A copy of an id.
pub(crate) fn copy_id<A: AccountId>(a: &A) -> (r: A)
    ensures
        r == *a,
{
    proof {
        A::lawful();
    }
    let copy = a.clone();
    assert(cloned::<A>(*a, copy));
    copy
}

/// A copy of an id that may be missing.
pub(crate) fn copy_link<A: AccountId>(a: &Option<A>) -> (r: Option<A>)
    ensures
        r == *a,
{
    match a {
        Some(id) => Some(copy_id(id)),
        None => None,
    }
}

} // verus!
