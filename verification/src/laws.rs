//! Laws of the set model.
//!
//! The operations' contracts describe each call in terms of the abstract
//! member set (`Set<int>`); the proof functions here state, once and for
//! all inputs, how those descriptions compose: idempotence of insertion
//! and removal, membership round trips, and the relations between subset,
//! disjointness and intersection.

use vstd::prelude::*;

verus! {

/// Inserting a value twice in a row yields the same set — cardinality
/// included — as inserting it once, and after the first insertion the
/// value is already a member, so a second insertion reports nothing new.
pub proof fn lemma_insert_idempotent(s: Set<int>, x: int)
    ensures
        s.insert(x).insert(x) =~= s.insert(x),
        s.insert(x).contains(x),
{
}

/// Removing an absent value is a no-op: the set — cardinality included —
/// is exactly what it was.
pub proof fn lemma_remove_absent(s: Set<int>, x: int)
    requires
        !s.contains(x),
    ensures
        s.remove(x) =~= s,
{
}

/// Membership round trip: after inserting `x` the set contains `x`, and
/// after removing `x` it does not.
pub proof fn lemma_membership_round_trip(s: Set<int>, x: int)
    ensures
        s.insert(x).contains(x),
        !s.remove(x).contains(x),
{
}

/// A set is a subset of another exactly when intersecting with the other
/// gives the set back unchanged.
pub proof fn lemma_subset_iff_intersection(a: Set<int>, b: Set<int>)
    ensures
        a.subset_of(b) <==> (a.intersect(b) =~= a),
{
    if a.subset_of(b) {
        assert(a.intersect(b) =~= a);
    }
    if a.intersect(b) =~= a {
        assert forall|x: int| a.contains(x) implies b.contains(x) by {
            assert(a.intersect(b).contains(x));
        }
    }
}

/// Two sets are disjoint exactly when their intersection is empty.
pub proof fn lemma_disjoint_iff_intersection_empty(a: Set<int>, b: Set<int>)
    ensures
        a.disjoint(b) <==> (a.intersect(b) =~= Set::<int>::empty()),
{
    if a.disjoint(b) {
        assert(a.intersect(b) =~= Set::<int>::empty());
    }
    if a.intersect(b) =~= Set::<int>::empty() {
        assert forall|x: int| a.contains(x) implies !b.contains(x) by {
            if b.contains(x) {
                assert(a.intersect(b).contains(x));
            }
        }
    }
}

} // verus!
