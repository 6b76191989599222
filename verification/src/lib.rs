//! A dense-bitmap set for values drawn from a statically bounded, contiguous
//! integer domain `[MIN, MAX]`.
//!
//! Membership, insertion and removal collapse to O(1) word-indexed bit
//! operations: a value `x` with `MIN <= x <= MAX` is stored as bit
//! `(x - MIN) % 64` of word `(x - MIN) / 64` in a fixed vector of `u64`
//! words.  A cached cardinality counter is kept in lock-step with the bits,
//! so `len` is O(1) as well.
//!
//! A value outside `[MIN, MAX]` is a contract violation, uniformly for
//! every operation that takes a value: the preconditions exclude it, so a
//! verified caller can never silently clamp, wrap, or ignore one.

mod bits;
mod bitset;
mod iter;
mod laws;

pub use bits::WORD_BITS;
pub use bitset::BitSet;
pub use laws::lemma_disjoint_iff_intersection_empty;
pub use laws::lemma_insert_idempotent;
pub use laws::lemma_membership_round_trip;
pub use laws::lemma_remove_absent;
pub use laws::lemma_subset_iff_intersection;
pub use iter::Difference;
pub use iter::IntoIter;
pub use iter::Intersection;
pub use iter::Iter;
pub use iter::SymmetricDifference;
pub use iter::Union;
