//! The bounded bitmap set itself: the addressing that sends a domain
//! value to a (word, bit) pair, the backing store with its cached
//! cardinality, and the mutation and query operations.

use vstd::prelude::*;

use crate::bits::WORD_BITS;
use crate::bits::bit_at;
use crate::bits::lemma_and_bits;
use crate::bits::lemma_and_not_bits;
use crate::bits::lemma_bits_eq;
use crate::bits::lemma_clear_bit;
use crate::bits::lemma_or_bits;
use crate::bits::lemma_set_bit;
use crate::bits::lemma_test_bit;
use crate::bits::lemma_xor_bits;
use crate::bits::lemma_zero_word;
use crate::bits::word_bit;
use crate::iter::Difference;
use crate::iter::IntoIter;
use crate::iter::Intersection;
use crate::iter::Iter;
use crate::iter::SymmetricDifference;
use crate::iter::Union;
use crate::iter::ascending;
use crate::iter::elems;
use crate::iter::lemma_ascending_elems_len;
use crate::iter::lemma_elems_push;

verus! {

/// A set of `usize` values drawn from the inclusive domain `[MIN, MAX]`,
/// stored as one bit per representable value in a fixed vector of `u64`
/// words, together with a cached member count.
///
/// Value `x` lives at bit `(x - MIN) % 64` of word `(x - MIN) / 64`: the
/// lower bound is subtracted before the quotient and remainder are taken,
/// which keeps the addressing exact when `MIN` is not a multiple of the
/// word width.
#[derive(Debug)]
pub struct BitSet<const MIN: usize, const MAX: usize> {
    data: Vec<u64>,
    len: usize,
}

impl<const MIN: usize, const MAX: usize> Clone for BitSet<MIN, MAX> {
    /// A clone is a deep, independent copy: it owns its own backing words
    /// and agrees with the cloned set on the stored words, the cached
    /// count, the abstract member set, and well-formedness.
    fn clone(&self) -> (r: Self)
        ensures
            r.spec_words() == self.spec_words(),
            r.spec_count() == self.spec_count(),
            r@ == self@,
            r.wf() == self.wf(),
    {
        let r = BitSet { data: self.data.clone(), len: self.len };
        proof {
            assert forall|i: int| 0 <= i < self.data@.len() implies r.data@[i]
                == self.data@[i] by {
                assert(vstd::pervasive::cloned(self.data@[i], r.data@[i]));
            }
            assert(r.data@ =~= self.data@);
            assert(r@ =~= self@);
        }
        r
    }
}

impl<const MIN: usize, const MAX: usize> BitSet<MIN, MAX> {
    /// Number of backing words: exactly enough to cover the
    /// `MAX - MIN + 1` representable values.
    pub open spec fn spec_word_count() -> int {
        (MAX - MIN) / 64 + 1
    }

    /// The backing words.
    pub closed spec fn spec_words(self) -> Seq<u64> {
        self.data@
    }

    /// The cached member count.
    pub closed spec fn spec_count(self) -> int {
        self.len as int
    }

    /// Whether the bit addressed by the domain value `v` is set.
    pub closed spec fn spec_bit_for(self, v: int) -> bool {
        bit_at(self.data@, v - MIN)
    }

    /// Whether `v` is a member: it lies in the domain and its bit is set.
    pub closed spec fn spec_contains(self, v: int) -> bool {
        MIN <= v <= MAX && self.spec_bit_for(v)
    }

    /// The structural invariant: the bounds are ordered, the member count
    /// fits a machine word, the store has exactly the fixed word count,
    /// no bit outside the domain's mapped positions is set, and the cached
    /// count equals the number of members.
    pub closed spec fn wf(self) -> bool {
        &&& MIN <= MAX
        &&& MAX - MIN < usize::MAX
        &&& self.data@.len() == Self::spec_word_count()
        &&& forall|sh: int|
            MAX - MIN < sh < self.data@.len() * 64 ==> !bit_at(self.data@, sh)
        &&& self.len as int == self@.len()
    }
}

impl<const MIN: usize, const MAX: usize> View for BitSet<MIN, MAX> {
    type V = Set<int>;

    /// A set is abstractly the set of its member values.
    closed spec fn view(&self) -> Set<int> {
        Set::new(|v: int| self.spec_contains(v))
    }
}

/// A bit position splits into its word index and bit offset and nothing is
/// lost: `64 * (sh / 64) + sh % 64 == sh`.
proof fn lemma_addr(sh: int)
    requires
        0 <= sh,
    ensures
        64 * (sh / 64) + sh % 64 == sh,
        0 <= sh % 64 < 64,
        0 <= sh / 64,
{
    vstd::arithmetic::div_mod::lemma_fundamental_div_mod(sh, 64);
    vstd::arithmetic::div_mod::lemma_mod_division_less_than_divisor(sh, 64);
    vstd::arithmetic::div_mod::lemma_div_pos_is_pos(sh, 64);
}

/// Two bit positions with the same word index and the same bit offset are
/// the same position: the addressing is injective.
proof fn lemma_addr_injective(sh1: int, sh2: int)
    requires
        0 <= sh1,
        0 <= sh2,
        sh1 / 64 == sh2 / 64,
        sh1 % 64 == sh2 % 64,
    ensures
        sh1 == sh2,
{
    lemma_addr(sh1);
    lemma_addr(sh2);
}

/// Ordered bit positions have ordered word indices.
proof fn lemma_addr_ordered(sh1: int, sh2: int)
    requires
        0 <= sh1 <= sh2,
    ensures
        sh1 / 64 <= sh2 / 64,
{
    vstd::arithmetic::div_mod::lemma_div_is_ordered(sh1, sh2, 64);
}

/// A bit position below `w * 64` addresses one of the first `w` words.
proof fn lemma_word_index(sh: int, w: int)
    requires
        0 <= sh < w * 64,
    ensures
        0 <= sh / 64 < w,
        64 * (sh / 64) + sh % 64 == sh,
        0 <= sh % 64 < 64,
{
    lemma_addr(sh);
}

impl<const MIN: usize, const MAX: usize> BitSet<MIN, MAX> {
    /// The view only ever holds domain values, so it is finite and no
    /// larger than the domain itself.
    proof fn lemma_view_in_domain(self)
        requires
            MIN <= MAX,
        ensures
            self@.finite(),
            self@.len() <= MAX - MIN + 1,
            forall|v: int| self@.contains(v) ==> MIN <= v <= MAX,
    {
        let dom = vstd::set_lib::set_int_range(MIN as int, MAX as int + 1);
        vstd::set_lib::lemma_int_range(MIN as int, MAX as int + 1);
        assert(self@.subset_of(dom));
        vstd::set_lib::lemma_len_subset(self@, dom);
    }

    /// The fixed word count covers the whole domain: the highest used bit
    /// position `MAX - MIN` lies strictly below `spec_word_count() * 64`.
    proof fn lemma_word_span()
        requires
            MIN <= MAX,
        ensures
            1 <= Self::spec_word_count(),
            MAX - MIN < Self::spec_word_count() * 64,
    {
        lemma_addr(MAX - MIN);
    }

    /// A store of all-zero words has no bit set anywhere.
    proof fn lemma_zero_words_no_members(data: Seq<u64>)
        requires
            MIN <= MAX,
            data.len() == Self::spec_word_count(),
            forall|j: int| 0 <= j < data.len() ==> data[j] == 0u64,
        ensures
            forall|sh: int| 0 <= sh < data.len() * 64 ==> !bit_at(data, sh),
    {
        lemma_zero_word();
        assert forall|sh: int| 0 <= sh < data.len() * 64 implies !bit_at(data, sh) by {
            lemma_word_index(sh, data.len() as int);
        }
    }

    /// Changing a single bit of the store changes exactly the one addressed
    /// position: position `shx` follows `set`, every other position keeps
    /// its old value.
    proof fn lemma_single_bit_update(old_data: Seq<u64>, new_data: Seq<u64>, shx: int, set: bool)
        requires
            MIN <= MAX,
            old_data.len() == Self::spec_word_count(),
            new_data.len() == old_data.len(),
            0 <= shx <= MAX - MIN,
            forall|j: int|
                0 <= j < old_data.len() && j != shx / 64 ==> new_data[j] == old_data[j],
            forall|b: u64|
                b < 64 ==> #[trigger] word_bit(new_data[shx / 64], b) == (if set {
                    b == (shx % 64) as u64 || word_bit(old_data[shx / 64], b)
                } else {
                    b != (shx % 64) as u64 && word_bit(old_data[shx / 64], b)
                }),
        ensures
            forall|sh: int|
                0 <= sh < old_data.len() * 64 ==> #[trigger] bit_at(new_data, sh) == (if set {
                    sh == shx || bit_at(old_data, sh)
                } else {
                    sh != shx && bit_at(old_data, sh)
                }),
    {
        Self::lemma_word_span();
        lemma_addr(shx);
        assert forall|sh: int| 0 <= sh < old_data.len() * 64 implies #[trigger] bit_at(
            new_data,
            sh,
        ) == (if set {
            sh == shx || bit_at(old_data, sh)
        } else {
            sh != shx && bit_at(old_data, sh)
        }) by {
            lemma_word_index(sh, old_data.len() as int);
            if sh / 64 == shx / 64 {
                if sh % 64 == shx % 64 {
                    lemma_addr_injective(sh, shx);
                }
            }
        }
    }

    /// Construct an empty set.  The bounds must be ordered and the domain
    /// small enough that a member count always fits a machine word.
    pub fn new() -> (r: Self)
        requires
            MIN <= MAX,
            MAX - MIN < usize::MAX,
        ensures
            r.wf(),
            r@ =~= Set::<int>::empty(),
    {
        Self::default()
    }

    /// The number of members.
    pub fn len(&self) -> (r: usize)
        requires
            self.wf(),
        ensures
            r as int == self@.len(),
    {
        self.len
    }

    /// Whether the set has no members.
    pub fn is_empty(&self) -> (r: bool)
        requires
            self.wf(),
        ensures
            r == (self@.len() == 0),
            r == (self@ =~= Set::<int>::empty()),
    {
        proof {
            self.lemma_view_in_domain();
            if self@.len() == 0 {
                self@.lemma_len0_is_empty();
            }
        }
        self.len == 0
    }

    /// The word index and bit offset for the domain value `x`.  The lower
    /// bound is subtracted first; only then are the quotient and remainder
    /// taken, so the offset can never underflow.
    fn position(x: usize) -> (r: (usize, usize))
        requires
            MIN <= x <= MAX,
        ensures
            r.0 as int == (x - MIN as int) / 64,
            r.1 as int == (x - MIN as int) % 64,
            (r.0 as int) < Self::spec_word_count(),
            r.1 < 64,
    {
        let sh = x - MIN;
        proof {
            lemma_addr(sh as int);
            lemma_addr_ordered(sh as int, MAX - MIN);
        }
        (sh / WORD_BITS, sh % WORD_BITS)
    }

    /// Whether bit `bit` of word `idx` is set in the backing store.
    fn is_bit_set(&self, idx: usize, bit: usize) -> (r: bool)
        requires
            idx < self.data@.len(),
            bit < 64,
        ensures
            r == word_bit(self.data@[idx as int], bit as u64),
    {
        proof {
            lemma_test_bit(self.data@[idx as int], bit as u64);
        }
        self.data[idx] & (1u64 << (bit as u64)) != 0
    }

    /// Whether `x` is a member of the set.
    pub fn contains(&self, x: usize) -> (r: bool)
        requires
            self.wf(),
            MIN <= x <= MAX,
        ensures
            r == self@.contains(x as int),
    {
        let (idx, bit) = Self::position(x);
        self.is_bit_set(idx, bit)
    }

    /// Insert `x` into the set.  Returns whether `x` was newly added: a
    /// second insertion of the same value reports `false` and leaves the
    /// set, its cardinality included, exactly as it was.
    pub fn insert(&mut self, x: usize) -> (r: bool)
        requires
            old(self).wf(),
            MIN <= x <= MAX,
        ensures
            final(self).wf(),
            final(self)@ =~= old(self)@.insert(x as int),
            r == !old(self)@.contains(x as int),
    {
        let (idx, bit) = Self::position(x);
        if self.is_bit_set(idx, bit) {
            proof {
                assert(self@.insert(x as int) =~= self@);
            }
            false
        } else {
            let ghost shx = x - MIN as int;
            let w = self.data[idx];
            proof {
                self.lemma_view_in_domain();
                let dom = vstd::set_lib::set_int_range(MIN as int, MAX as int + 1);
                vstd::set_lib::lemma_int_range(MIN as int, MAX as int + 1);
                assert(self@.insert(x as int).subset_of(dom));
                vstd::set_lib::lemma_len_subset(self@.insert(x as int), dom);
                lemma_set_bit(w, (shx % 64) as u64);
            }
            self.data[idx] = w | (1u64 << (bit as u64));
            self.len = self.len + 1;
            proof {
                Self::lemma_word_span();
                Self::lemma_single_bit_update(old(self).data@, self.data@, shx, true);
                assert forall|v: int| #[trigger] self.spec_contains(v) == (old(
                    self,
                ).spec_contains(v) || v == x as int) by {
                    if MIN <= v <= MAX {
                        assert(0 <= v - MIN < old(self).data@.len() * 64);
                    }
                }
                assert(self@ =~= old(self)@.insert(x as int));
            }
            true
        }
    }

    /// Remove `x` from the set.  Returns whether `x` was present: removing
    /// an absent value reports `false` and leaves the set, its cardinality
    /// included, exactly as it was.
    pub fn remove(&mut self, x: usize) -> (r: bool)
        requires
            old(self).wf(),
            MIN <= x <= MAX,
        ensures
            final(self).wf(),
            final(self)@ =~= old(self)@.remove(x as int),
            r == old(self)@.contains(x as int),
    {
        let (idx, bit) = Self::position(x);
        if self.is_bit_set(idx, bit) {
            let ghost shx = x - MIN as int;
            let w = self.data[idx];
            proof {
                self.lemma_view_in_domain();
                lemma_clear_bit(w, (shx % 64) as u64);
            }
            self.data[idx] = w & !(1u64 << (bit as u64));
            proof {
                Self::lemma_word_span();
                Self::lemma_single_bit_update(old(self).data@, self.data@, shx, false);
                assert forall|v: int| #[trigger] self.spec_contains(v) == (old(
                    self,
                ).spec_contains(v) && v != x as int) by {
                    if MIN <= v <= MAX {
                        assert(0 <= v - MIN < old(self).data@.len() * 64);
                    }
                }
                assert(self@ =~= old(self)@.remove(x as int));
                assert(old(self)@.contains(x as int));
                assert(old(self)@.remove(x as int).len() == old(self)@.len() - 1);
            }
            self.len = self.len - 1;
            proof {
                assert(self@ =~= old(self)@.remove(x as int));
                assert(self@.len() == old(self)@.len() - 1);
            }
            true
        } else {
            proof {
                assert(self@.remove(x as int) =~= self@);
            }
            false
        }
    }

    /// Collect, in ascending order, every domain value whose bit is set in
    /// `data`, scanning the store position by position.
    fn members_from_data(data: &Vec<u64>) -> (r: Vec<usize>)
        requires
            MIN <= MAX,
            MAX - MIN < usize::MAX,
            data@.len() == Self::spec_word_count(),
        ensures
            ascending(r@),
            forall|i: int| 0 <= i < r@.len() ==> MIN <= #[trigger] r@[i] <= MAX,
            forall|v: int|
                #[trigger] elems(r@).contains(v) <==> (MIN <= v <= MAX && bit_at(data@, v - MIN)),
            elems(r@).finite(),
            elems(r@).len() == r@.len(),
    {
        let span = MAX - MIN;
        let mut r: Vec<usize> = Vec::new();
        let mut sh: usize = 0;
        while sh <= span
            invariant
                MIN <= MAX,
                span == MAX - MIN,
                MAX - MIN < usize::MAX,
                data@.len() == Self::spec_word_count(),
                sh <= span + 1,
                ascending(r@),
                forall|i: int|
                    0 <= i < r@.len() ==> MIN <= #[trigger] r@[i] && (r@[i] as int) < MIN + sh,
                forall|v: int|
                    #[trigger] elems(r@).contains(v) <==> (MIN <= v < MIN + sh && bit_at(
                        data@,
                        v - MIN,
                    )),
            decreases span + 1 - sh,
        {
            proof {
                Self::lemma_word_span();
                lemma_word_index(sh as int, data@.len() as int);
            }
            let idx = sh / WORD_BITS;
            let bit = sh % WORD_BITS;
            let w = data[idx];
            proof {
                lemma_test_bit(w, bit as u64);
            }
            if w & (1u64 << (bit as u64)) != 0 {
                let v = MIN + sh;
                let ghost r0 = r@;
                r.push(v);
                proof {
                    lemma_elems_push(r0, v);
                }
            }
            sh = sh + 1;
        }
        proof {
            lemma_ascending_elems_len(r@);
        }
        r
    }

    /// An iterator over the members of the set, in ascending order.  The
    /// iterator holds its own snapshot of the contents, so it observes the
    /// set as it was at this call.
    pub fn iter(&self) -> (r: Iter)
        requires
            self.wf(),
        ensures
            r.cursor() == 0,
            ascending(r.items()),
            elems(r.items()) =~= self@,
            r.items().len() == self@.len(),
    {
        let values = Self::members_from_data(&self.data);
        proof {
            assert(elems(values@) =~= self@);
        }
        Iter::from_values(values)
    }

    /// Consume the set, yielding an iterator over its members in ascending
    /// order.
    pub fn into_iter(self) -> (r: IntoIter)
        requires
            self.wf(),
        ensures
            r.cursor() == 0,
            ascending(r.items()),
            elems(r.items()) =~= self@,
            r.items().len() == self@.len(),
    {
        let values = Self::members_from_data(&self.data);
        proof {
            assert(elems(values@) =~= self@);
        }
        IntoIter::from_values(values)
    }

    /// The word-wise bitwise or of the two backing stores.
    fn or_words(&self, other: &Self) -> (r: Vec<u64>)
        requires
            self.wf(),
            other.wf(),
        ensures
            r@.len() == Self::spec_word_count(),
            forall|j: int| 0 <= j < r@.len() ==> r@[j] == (self.data@[j] | other.data@[j]),
    {
        let n = self.data.len();
        let mut r: Vec<u64> = Vec::new();
        let mut i: usize = 0;
        while i < n
            invariant
                self.wf(),
                other.wf(),
                n == self.data@.len(),
                i == r@.len() <= n,
                forall|j: int| 0 <= j < i ==> r@[j] == (self.data@[j] | other.data@[j]),
            decreases n - i,
        {
            r.push(self.data[i] | other.data[i]);
            i = i + 1;
        }
        r
    }

    /// The word-wise bitwise and of the two backing stores.
    fn and_words(&self, other: &Self) -> (r: Vec<u64>)
        requires
            self.wf(),
            other.wf(),
        ensures
            r@.len() == Self::spec_word_count(),
            forall|j: int| 0 <= j < r@.len() ==> r@[j] == (self.data@[j] & other.data@[j]),
    {
        let n = self.data.len();
        let mut r: Vec<u64> = Vec::new();
        let mut i: usize = 0;
        while i < n
            invariant
                self.wf(),
                other.wf(),
                n == self.data@.len(),
                i == r@.len() <= n,
                forall|j: int| 0 <= j < i ==> r@[j] == (self.data@[j] & other.data@[j]),
            decreases n - i,
        {
            r.push(self.data[i] & other.data[i]);
            i = i + 1;
        }
        r
    }

    /// The word-wise bitwise and-not of the two backing stores.
    fn and_not_words(&self, other: &Self) -> (r: Vec<u64>)
        requires
            self.wf(),
            other.wf(),
        ensures
            r@.len() == Self::spec_word_count(),
            forall|j: int| 0 <= j < r@.len() ==> r@[j] == (self.data@[j] & !other.data@[j]),
    {
        let n = self.data.len();
        let mut r: Vec<u64> = Vec::new();
        let mut i: usize = 0;
        while i < n
            invariant
                self.wf(),
                other.wf(),
                n == self.data@.len(),
                i == r@.len() <= n,
                forall|j: int| 0 <= j < i ==> r@[j] == (self.data@[j] & !other.data@[j]),
            decreases n - i,
        {
            r.push(self.data[i] & !other.data[i]);
            i = i + 1;
        }
        r
    }

    /// The word-wise bitwise exclusive or of the two backing stores.
    fn xor_words(&self, other: &Self) -> (r: Vec<u64>)
        requires
            self.wf(),
            other.wf(),
        ensures
            r@.len() == Self::spec_word_count(),
            forall|j: int| 0 <= j < r@.len() ==> r@[j] == (self.data@[j] ^ other.data@[j]),
    {
        let n = self.data.len();
        let mut r: Vec<u64> = Vec::new();
        let mut i: usize = 0;
        while i < n
            invariant
                self.wf(),
                other.wf(),
                n == self.data@.len(),
                i == r@.len() <= n,
                forall|j: int| 0 <= j < i ==> r@[j] == (self.data@[j] ^ other.data@[j]),
            decreases n - i,
        {
            r.push(self.data[i] ^ other.data[i]);
            i = i + 1;
        }
        r
    }

    /// The values in `self` or `other` (or both), in ascending order:
    /// the word-wise or of the two stores.  Both operands share the bounds
    /// `[MIN, MAX]` by construction of the type.
    pub fn union(&self, other: &Self) -> (r: Union)
        requires
            self.wf(),
            other.wf(),
        ensures
            r.cursor() == 0,
            ascending(r.items()),
            elems(r.items()) =~= self@.union(other@),
            r.items().len() == self@.union(other@).len(),
    {
        let words = self.or_words(other);
        let values = Self::members_from_data(&words);
        proof {
            Self::lemma_word_span();
            assert forall|v: int|
                #[trigger] elems(values@).contains(v) == (self@.contains(v) || other@.contains(
                    v,
                )) by {
                if MIN <= v <= MAX {
                    lemma_word_index(v - MIN, Self::spec_word_count());
                    lemma_or_bits(self.data@[(v - MIN) / 64], other.data@[(v - MIN) / 64]);
                }
            }
            assert(elems(values@) =~= self@.union(other@));
        }
        Union::from_values(values)
    }

    /// The values in both `self` and `other`, in ascending order: the
    /// word-wise and of the two stores.
    pub fn intersection(&self, other: &Self) -> (r: Intersection)
        requires
            self.wf(),
            other.wf(),
        ensures
            r.cursor() == 0,
            ascending(r.items()),
            elems(r.items()) =~= self@.intersect(other@),
            r.items().len() == self@.intersect(other@).len(),
    {
        let words = self.and_words(other);
        let values = Self::members_from_data(&words);
        proof {
            Self::lemma_word_span();
            assert forall|v: int|
                #[trigger] elems(values@).contains(v) == (self@.contains(v) && other@.contains(
                    v,
                )) by {
                if MIN <= v <= MAX {
                    lemma_word_index(v - MIN, Self::spec_word_count());
                    lemma_and_bits(self.data@[(v - MIN) / 64], other.data@[(v - MIN) / 64]);
                }
            }
            assert(elems(values@) =~= self@.intersect(other@));
        }
        Intersection::from_values(values)
    }

    /// The values in `self` but not in `other`, in ascending order: the
    /// word-wise and-not of the two stores.
    pub fn difference(&self, other: &Self) -> (r: Difference)
        requires
            self.wf(),
            other.wf(),
        ensures
            r.cursor() == 0,
            ascending(r.items()),
            elems(r.items()) =~= self@.difference(other@),
            r.items().len() == self@.difference(other@).len(),
    {
        let words = self.and_not_words(other);
        let values = Self::members_from_data(&words);
        proof {
            Self::lemma_word_span();
            assert forall|v: int|
                #[trigger] elems(values@).contains(v) == (self@.contains(v) && !other@.contains(
                    v,
                )) by {
                if MIN <= v <= MAX {
                    lemma_word_index(v - MIN, Self::spec_word_count());
                    lemma_and_not_bits(self.data@[(v - MIN) / 64], other.data@[(v - MIN) / 64]);
                }
            }
            assert(elems(values@) =~= self@.difference(other@));
        }
        Difference::from_values(values)
    }

    /// The values in exactly one of `self` and `other`, in ascending
    /// order: the word-wise exclusive or of the two stores.
    pub fn symmetric_difference(&self, other: &Self) -> (r: SymmetricDifference)
        requires
            self.wf(),
            other.wf(),
        ensures
            r.cursor() == 0,
            ascending(r.items()),
            elems(r.items()) =~= self@.difference(other@).union(other@.difference(self@)),
            r.items().len() == self@.difference(other@).union(other@.difference(self@)).len(),
    {
        let words = self.xor_words(other);
        let values = Self::members_from_data(&words);
        proof {
            Self::lemma_word_span();
            assert forall|v: int|
                #[trigger] elems(values@).contains(v) == (self@.contains(v) != other@.contains(
                    v,
                )) by {
                if MIN <= v <= MAX {
                    lemma_word_index(v - MIN, Self::spec_word_count());
                    lemma_xor_bits(self.data@[(v - MIN) / 64], other.data@[(v - MIN) / 64]);
                }
            }
            assert(elems(values@) =~= self@.difference(other@).union(other@.difference(self@)));
        }
        SymmetricDifference::from_values(values)
    }

    /// Whether `self` and `other` share no member.
    pub fn is_disjoint(&self, other: &Self) -> (r: bool)
        requires
            self.wf(),
            other.wf(),
        ensures
            r == self@.disjoint(other@),
    {
        let values = Self::members_from_data(&self.data);
        let n = values.len();
        let mut i: usize = 0;
        while i < n
            invariant
                self.wf(),
                other.wf(),
                n == values@.len(),
                i <= n,
                forall|k: int| 0 <= k < values@.len() ==> MIN <= #[trigger] values@[k] <= MAX,
                forall|v: int| #[trigger] elems(values@).contains(v) <==> self@.contains(v),
                forall|k: int| 0 <= k < i ==> !other@.contains(#[trigger] values@[k] as int),
            decreases n - i,
        {
            if other.contains(values[i]) {
                proof {
                    assert(elems(values@).contains(values@[i as int] as int));
                }
                return false;
            }
            i = i + 1;
        }
        proof {
            assert forall|v: int| #[trigger] self@.contains(v) implies !other@.contains(v) by {
                assert(elems(values@).contains(v));
                let k = choose|k: int|
                    0 <= k < values@.len() && (#[trigger] values@[k]) as int == v;
            }
        }
        true
    }

    /// Whether every member of `self` is a member of `other`.
    pub fn is_subset(&self, other: &Self) -> (r: bool)
        requires
            self.wf(),
            other.wf(),
        ensures
            r == self@.subset_of(other@),
    {
        let values = Self::members_from_data(&self.data);
        let n = values.len();
        let mut i: usize = 0;
        while i < n
            invariant
                self.wf(),
                other.wf(),
                n == values@.len(),
                i <= n,
                forall|k: int| 0 <= k < values@.len() ==> MIN <= #[trigger] values@[k] <= MAX,
                forall|v: int| #[trigger] elems(values@).contains(v) <==> self@.contains(v),
                forall|k: int| 0 <= k < i ==> other@.contains(#[trigger] values@[k] as int),
            decreases n - i,
        {
            if !other.contains(values[i]) {
                proof {
                    assert(elems(values@).contains(values@[i as int] as int));
                }
                return false;
            }
            i = i + 1;
        }
        proof {
            assert forall|v: int| #[trigger] self@.contains(v) implies other@.contains(v) by {
                assert(elems(values@).contains(v));
                let k = choose|k: int|
                    0 <= k < values@.len() && (#[trigger] values@[k]) as int == v;
            }
        }
        true
    }

    /// Whether every member of `other` is a member of `self`.
    pub fn is_superset(&self, other: &Self) -> (r: bool)
        requires
            self.wf(),
            other.wf(),
        ensures
            r == other@.subset_of(self@),
    {
        other.is_subset(self)
    }

    /// Build a set from a sequence of values, exactly as repeated single
    /// insertions would: the result holds each value once, however often
    /// the sequence repeats it.
    pub fn from_iter(values: &Vec<usize>) -> (r: Self)
        requires
            MIN <= MAX,
            MAX - MIN < usize::MAX,
            forall|i: int| 0 <= i < values@.len() ==> MIN <= #[trigger] values@[i] <= MAX,
        ensures
            r.wf(),
            r@ =~= elems(values@),
    {
        let mut r = Self::new();
        let n = values.len();
        let mut i: usize = 0;
        while i < n
            invariant
                MIN <= MAX,
                MAX - MIN < usize::MAX,
                n == values@.len(),
                i <= n,
                forall|k: int| 0 <= k < values@.len() ==> MIN <= #[trigger] values@[k] <= MAX,
                r.wf(),
                r@ == elems(values@.take(i as int)),
            decreases n - i,
        {
            r.insert(values[i]);
            proof {
                assert(values@.take(i + 1 as int) =~= values@.take(i as int).push(
                    values@[i as int],
                ));
                lemma_elems_push(values@.take(i as int), values@[i as int]);
            }
            i = i + 1;
        }
        proof {
            assert(values@.take(n as int) =~= values@);
        }
        r
    }

    /// Keep only the members for which the predicate holds.  The predicate
    /// is asked about every domain value; a member stays exactly when the
    /// predicate returned `true` for it, and the cardinality is kept
    /// consistent throughout.
    pub fn retain<F: Fn(usize) -> bool>(&mut self, f: F)
        requires
            old(self).wf(),
            forall|v: usize| MIN <= v <= MAX ==> #[trigger] f.requires((v,)),
        ensures
            final(self).wf(),
            forall|v: int|
                #[trigger] final(self)@.contains(v) ==> old(self)@.contains(v) && f.ensures(
                    ((v as usize),),
                    true,
                ),
            forall|v: int|
                old(self)@.contains(v) && !#[trigger] final(self)@.contains(v) ==> f.ensures(
                    ((v as usize),),
                    false,
                ),
    {
        let span = MAX - MIN;
        let mut sh: usize = 0;
        while sh <= span
            invariant
                span == MAX - MIN,
                sh <= span + 1,
                self.wf(),
                forall|v: usize| MIN <= v <= MAX ==> #[trigger] f.requires((v,)),
                forall|v: int|
                    v >= MIN + sh || v < MIN ==> #[trigger] self@.contains(v) == old(
                        self,
                    )@.contains(v),
                forall|v: int|
                    MIN <= v < MIN + sh ==> (#[trigger] self@.contains(v) ==> old(
                        self,
                    )@.contains(v) && f.ensures(((v as usize),), true)),
                forall|v: int|
                    MIN <= v < MIN + sh && old(self)@.contains(v) && !#[trigger] self@.contains(v)
                        ==> f.ensures(((v as usize),), false),
            decreases span + 1 - sh,
        {
            let v = MIN + sh;
            if !f(v) {
                self.remove(v);
            }
            sh = sh + 1;
        }
    }

    /// Remove every member, zeroing each backing word in place and
    /// resetting the cardinality.
    pub fn clear(&mut self)
        requires
            old(self).wf(),
        ensures
            final(self).wf(),
            final(self)@ =~= Set::<int>::empty(),
    {
        let words = self.data.len();
        let mut i: usize = 0;
        while i < words
            invariant
                MIN <= MAX,
                MAX - MIN < usize::MAX,
                i <= words,
                self.data@.len() == words,
                words == Self::spec_word_count(),
                forall|j: int| 0 <= j < i ==> self.data@[j] == 0u64,
            decreases words - i,
        {
            self.data[i] = 0u64;
            i = i + 1;
        }
        self.len = 0;
        proof {
            Self::lemma_word_span();
            Self::lemma_zero_words_no_members(self.data@);
            assert(self@ =~= Set::<int>::empty());
        }
    }
}

impl<const MIN: usize, const MAX: usize> BitSet<MIN, MAX> {
    /// Cardinality consistency: whatever sequence of operations a
    /// well-formed set has been through, its cached count equals the
    /// number of values it contains, and that number is finite.
    pub proof fn lemma_cardinality_consistent(s: Self)
        requires
            s.wf(),
        ensures
            s.spec_count() == s@.len(),
            s@.finite(),
    {
        s.lemma_view_in_domain();
    }

    /// Two well-formed sets over the same bounds are equal — same backing
    /// words and same cached count — exactly when they have the same
    /// members.
    pub proof fn lemma_eq_iff_same_members(a: Self, b: Self)
        requires
            a.wf(),
            b.wf(),
        ensures
            (a.spec_words() == b.spec_words() && a.spec_count() == b.spec_count()) <==> (a@
                =~= b@),
    {
        if a.spec_words() == b.spec_words() {
            assert(a@ =~= b@);
        }
        if a@ =~= b@ {
            Self::lemma_word_span();
            assert forall|j: int| 0 <= j < a.data@.len() implies a.data@[j] == b.data@[j] by {
                assert forall|i: u64| i < 64 implies #[trigger] word_bit(a.data@[j], i)
                    == word_bit(b.data@[j], i) by {
                    let sh = 64 * j + i;
                    vstd::arithmetic::div_mod::lemma_fundamental_div_mod_converse(
                        sh,
                        64,
                        j,
                        i as int,
                    );
                    if sh <= MAX - MIN {
                        assert(a@.contains(MIN + sh) == b@.contains(MIN + sh));
                        assert(a.spec_contains(MIN + sh) == b.spec_contains(MIN + sh));
                    } else {
                        assert(sh < a.data@.len() * 64) by (nonlinear_arith)
                            requires
                                j < a.data@.len(),
                                i < 64,
                                sh == 64 * j + i,
                        ;
                        assert(!bit_at(a.data@, sh));
                        assert(!bit_at(b.data@, sh));
                    }
                }
                lemma_bits_eq(a.data@[j], b.data@[j]);
            }
            assert(a.data@ =~= b.data@);
            assert(a@.len() == b@.len());
        }
    }
}

impl<const MIN: usize, const MAX: usize> PartialEq for BitSet<MIN, MAX> {
    /// Word-wise comparison of the two stores, plus the cached counts.
    /// For well-formed sets this coincides with having the same members
    /// (see `lemma_eq_iff_same_members`).
    fn eq(&self, other: &Self) -> (r: bool) {
        let words_eq = self.data == other.data;
        proof {
            if words_eq {
                assert(self.data@ =~= other.data@);
            } else {
                if self.data@ == other.data@ {
                    assert(vstd::std_specs::cmp::PartialEqSpec::eq_spec(&self.data, &other.data));
                }
            }
        }
        words_eq && self.len == other.len
    }
}

impl<const MIN: usize, const MAX: usize> vstd::std_specs::cmp::PartialEqSpecImpl for BitSet<MIN, MAX> {
    open spec fn obeys_eq_spec() -> bool {
        true
    }

    open spec fn eq_spec(&self, other: &Self) -> bool {
        self.spec_words() == other.spec_words() && self.spec_count() == other.spec_count()
    }
}

impl<const MIN: usize, const MAX: usize> Default for BitSet<MIN, MAX> {
    /// An empty set over a valid domain; over an invalid one (unordered
    /// bounds, or a domain too large for its member count to fit a machine
    /// word) a harmless placeholder that satisfies no invariant.
    fn default() -> (r: Self)
        ensures
            MIN <= MAX && MAX - MIN < usize::MAX ==> r.wf() && r@ =~= Set::<
                int,
            >::empty(),
    {
        if MAX >= MIN && MAX - MIN < usize::MAX {
            let words = (MAX - MIN) / WORD_BITS + 1;
            let mut data: Vec<u64> = Vec::new();
            while data.len() < words
                invariant
                    data@.len() <= words,
                    forall|j: int| 0 <= j < data@.len() ==> data@[j] == 0u64,
                decreases words - data@.len(),
            {
                data.push(0u64);
            }
            let r = BitSet { data, len: 0 };
            proof {
                Self::lemma_word_span();
                Self::lemma_zero_words_no_members(r.data@);
                assert(r@ =~= Set::<int>::empty());
            }
            r
        } else {
            BitSet { data: Vec::new(), len: 0 }
        }
    }
}

} // verus!
