//! Iteration over set contents.
//!
//! Every operation that exposes set contents as a sequence — plain
//! iteration and the four set-algebra operations — hands back one of the
//! producer types below.  A producer owns a snapshot of the values it
//! yields, in strictly ascending order, so it can be consumed without
//! borrowing the set it came from and is unaffected by later mutation.

use vstd::prelude::*;

verus! {

/// The set of values occurring in the sequence `s`.
pub open spec fn elems(s: Seq<usize>) -> Set<int> {
    Set::new(|v: int| exists|i: int| 0 <= i < s.len() && (#[trigger] s[i]) as int == v)
}

/// Whether `s` is strictly ascending: each element is greater than the one
/// before it, so there are no duplicates.
pub open spec fn ascending(s: Seq<usize>) -> bool {
    forall|i: int, j: int| 0 <= i < j < s.len() ==> s[i] < s[j]
}

/// Appending a value to a sequence adds exactly that value to its element
/// set.
pub proof fn lemma_elems_push(s: Seq<usize>, v: usize)
    ensures
        elems(s.push(v)) =~= elems(s).insert(v as int),
{
    assert forall|w: int| elems(s.push(v)).contains(w) implies elems(s).insert(
        v as int,
    ).contains(w) by {
        let i = choose|i: int| 0 <= i < s.push(v).len() && (#[trigger] s.push(v)[i]) as int == w;
        if i < s.len() {
            assert((s[i]) as int == w);
        }
    }
    assert forall|w: int| elems(s).insert(v as int).contains(w) implies elems(s.push(v)).contains(
        w,
    ) by {
        if w == v as int {
            assert((s.push(v)[s.len() as int]) as int == w);
        } else {
            let i = choose|i: int| 0 <= i < s.len() && (#[trigger] s[i]) as int == w;
            assert((s.push(v)[i]) as int == w);
        }
    }
}

/// A strictly ascending sequence has no duplicates, so its length equals
/// the cardinality of its element set.
pub proof fn lemma_ascending_elems_len(s: Seq<usize>)
    requires
        ascending(s),
    ensures
        elems(s).finite(),
        elems(s).len() == s.len(),
    decreases s.len(),
{
    if s.len() == 0 {
        assert(elems(s) =~= Set::<int>::empty());
    } else {
        let s0 = s.drop_last();
        let last = s.last();
        lemma_ascending_elems_len(s0);
        lemma_elems_push(s0, last);
        assert(s0.push(last) =~= s);
        assert(!elems(s0).contains(last as int)) by {
            if elems(s0).contains(last as int) {
                let i = choose|i: int| 0 <= i < s0.len() && (#[trigger] s0[i]) as int
                    == last as int;
                assert(s[i] < s[s.len() - 1]);
            }
        }
    }
}

/// An ascending iterator over the members of a set.
pub struct Iter {
    values: Vec<usize>,
    pos: usize,
}

/// An ascending iterator over the members of a consumed set.
pub struct IntoIter {
    values: Vec<usize>,
    pos: usize,
}

/// An ascending iterator over the values in either of two sets.
pub struct Union {
    values: Vec<usize>,
    pos: usize,
}

/// An ascending iterator over the values in both of two sets.
pub struct Intersection {
    values: Vec<usize>,
    pos: usize,
}

/// An ascending iterator over the values in one set but not another.
pub struct Difference {
    values: Vec<usize>,
    pos: usize,
}

/// An ascending iterator over the values in exactly one of two sets.
pub struct SymmetricDifference {
    values: Vec<usize>,
    pos: usize,
}

impl Iter {
    /// The full sequence of values this producer yields.
    pub closed spec fn items(self) -> Seq<usize> {
        self.values@
    }

    /// How many values have been yielded so far.
    pub closed spec fn cursor(self) -> int {
        self.pos as int
    }

    pub(crate) fn from_values(values: Vec<usize>) -> (r: Self)
        ensures
            r.items() == values@,
            r.cursor() == 0,
    {
        Iter { values, pos: 0 }
    }

    /// The next value, or `None` once every value has been yielded.
    pub fn next(&mut self) -> (r: Option<usize>)
        ensures
            final(self).items() == old(self).items(),
            old(self).cursor() < old(self).items().len() ==> r == Some(
                old(self).items()[old(self).cursor()],
            ) && final(self).cursor() == old(self).cursor() + 1,
            old(self).cursor() >= old(self).items().len() ==> r is None && final(self).cursor()
                == old(self).cursor(),
    {
        if self.pos < self.values.len() {
            let v = self.values[self.pos];
            self.pos = self.pos + 1;
            Some(v)
        } else {
            None
        }
    }
}

impl IntoIter {
    /// The full sequence of values this producer yields.
    pub closed spec fn items(self) -> Seq<usize> {
        self.values@
    }

    /// How many values have been yielded so far.
    pub closed spec fn cursor(self) -> int {
        self.pos as int
    }

    pub(crate) fn from_values(values: Vec<usize>) -> (r: Self)
        ensures
            r.items() == values@,
            r.cursor() == 0,
    {
        IntoIter { values, pos: 0 }
    }

    /// The next value, or `None` once every value has been yielded.
    pub fn next(&mut self) -> (r: Option<usize>)
        ensures
            final(self).items() == old(self).items(),
            old(self).cursor() < old(self).items().len() ==> r == Some(
                old(self).items()[old(self).cursor()],
            ) && final(self).cursor() == old(self).cursor() + 1,
            old(self).cursor() >= old(self).items().len() ==> r is None && final(self).cursor()
                == old(self).cursor(),
    {
        if self.pos < self.values.len() {
            let v = self.values[self.pos];
            self.pos = self.pos + 1;
            Some(v)
        } else {
            None
        }
    }
}

impl Union {
    /// The full sequence of values this producer yields.
    pub closed spec fn items(self) -> Seq<usize> {
        self.values@
    }

    /// How many values have been yielded so far.
    pub closed spec fn cursor(self) -> int {
        self.pos as int
    }

    pub(crate) fn from_values(values: Vec<usize>) -> (r: Self)
        ensures
            r.items() == values@,
            r.cursor() == 0,
    {
        Union { values, pos: 0 }
    }

    /// The next value, or `None` once every value has been yielded.
    pub fn next(&mut self) -> (r: Option<usize>)
        ensures
            final(self).items() == old(self).items(),
            old(self).cursor() < old(self).items().len() ==> r == Some(
                old(self).items()[old(self).cursor()],
            ) && final(self).cursor() == old(self).cursor() + 1,
            old(self).cursor() >= old(self).items().len() ==> r is None && final(self).cursor()
                == old(self).cursor(),
    {
        if self.pos < self.values.len() {
            let v = self.values[self.pos];
            self.pos = self.pos + 1;
            Some(v)
        } else {
            None
        }
    }
}

impl Intersection {
    /// The full sequence of values this producer yields.
    pub closed spec fn items(self) -> Seq<usize> {
        self.values@
    }

    /// How many values have been yielded so far.
    pub closed spec fn cursor(self) -> int {
        self.pos as int
    }

    pub(crate) fn from_values(values: Vec<usize>) -> (r: Self)
        ensures
            r.items() == values@,
            r.cursor() == 0,
    {
        Intersection { values, pos: 0 }
    }

    /// The next value, or `None` once every value has been yielded.
    pub fn next(&mut self) -> (r: Option<usize>)
        ensures
            final(self).items() == old(self).items(),
            old(self).cursor() < old(self).items().len() ==> r == Some(
                old(self).items()[old(self).cursor()],
            ) && final(self).cursor() == old(self).cursor() + 1,
            old(self).cursor() >= old(self).items().len() ==> r is None && final(self).cursor()
                == old(self).cursor(),
    {
        if self.pos < self.values.len() {
            let v = self.values[self.pos];
            self.pos = self.pos + 1;
            Some(v)
        } else {
            None
        }
    }
}

impl Difference {
    /// The full sequence of values this producer yields.
    pub closed spec fn items(self) -> Seq<usize> {
        self.values@
    }

    /// How many values have been yielded so far.
    pub closed spec fn cursor(self) -> int {
        self.pos as int
    }

    pub(crate) fn from_values(values: Vec<usize>) -> (r: Self)
        ensures
            r.items() == values@,
            r.cursor() == 0,
    {
        Difference { values, pos: 0 }
    }

    /// The next value, or `None` once every value has been yielded.
    pub fn next(&mut self) -> (r: Option<usize>)
        ensures
            final(self).items() == old(self).items(),
            old(self).cursor() < old(self).items().len() ==> r == Some(
                old(self).items()[old(self).cursor()],
            ) && final(self).cursor() == old(self).cursor() + 1,
            old(self).cursor() >= old(self).items().len() ==> r is None && final(self).cursor()
                == old(self).cursor(),
    {
        if self.pos < self.values.len() {
            let v = self.values[self.pos];
            self.pos = self.pos + 1;
            Some(v)
        } else {
            None
        }
    }
}

impl SymmetricDifference {
    /// The full sequence of values this producer yields.
    pub closed spec fn items(self) -> Seq<usize> {
        self.values@
    }

    /// How many values have been yielded so far.
    pub closed spec fn cursor(self) -> int {
        self.pos as int
    }

    pub(crate) fn from_values(values: Vec<usize>) -> (r: Self)
        ensures
            r.items() == values@,
            r.cursor() == 0,
    {
        SymmetricDifference { values, pos: 0 }
    }

    /// The next value, or `None` once every value has been yielded.
    pub fn next(&mut self) -> (r: Option<usize>)
        ensures
            final(self).items() == old(self).items(),
            old(self).cursor() < old(self).items().len() ==> r == Some(
                old(self).items()[old(self).cursor()],
            ) && final(self).cursor() == old(self).cursor() + 1,
            old(self).cursor() >= old(self).items().len() ==> r is None && final(self).cursor()
                == old(self).cursor(),
    {
        if self.pos < self.values.len() {
            let v = self.values[self.pos];
            self.pos = self.pos + 1;
            Some(v)
        } else {
            None
        }
    }
}

} // verus!
