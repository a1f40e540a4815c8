//! Sparse value sets: a sorted list of values.

use vstd::prelude::*;

use crate::seqs;

verus! {

/// A value set stored as its values in increasing order.
pub struct ArrayContainer {
    values: Vec<u16>,
}

impl View for ArrayContainer {
    type V = Set<u16>;

    closed spec fn view(&self) -> Set<u16> {
        self.values@.to_set()
    }
}

impl ArrayContainer {
    /// The values, as listed.
    pub closed spec fn list(&self) -> Seq<u16> {
        self.values@
    }

    /// The values are listed in strictly increasing order.
    pub closed spec fn wf(&self) -> bool {
        seqs::increasing(self.values@)
    }

    /// What well-formedness says of the listed values.
    pub proof fn lemma_list(&self)
        requires
            self.wf(),
        ensures
            seqs::increasing(self.list()),
            self@ == self.list().to_set(),
            self@.finite(),
            self@.len() == self.list().len(),
    {
        assert(self.values@.no_duplicates());
        self.values@.unique_seq_to_set();
    }

    /// Adopt `values`, which must be strictly increasing.
    pub fn from_sorted(values: Vec<u16>) -> (c: Self)
        requires
            seqs::increasing(values@),
        ensures
            c.wf(),
            c.list() == values@,
            c@ == values@.to_set(),
    {
        ArrayContainer { values }
    }

    pub fn values(&self) -> (values: &[u16])
        ensures
            values@ == self.list(),
    {
        self.values.as_slice()
    }

    pub fn contains(&self, v: u16) -> (found: bool)
        requires
            self.wf(),
        ensures
            found == self@.contains(v),
    {
        let mut lo: usize = 0;
        let mut hi: usize = self.values.len();
        while lo < hi
            invariant
                lo <= hi <= self.values@.len(),
                seqs::increasing(self.values@),
                forall|k: int| 0 <= k < lo ==> self.values@[k] < v,
                forall|k: int| hi <= k < self.values@.len() ==> self.values@[k] > v,
            decreases hi - lo,
        {
            let mid: usize = lo + (hi - lo) / 2;
            let x: u16 = self.values[mid];
            if x == v {
                assert(self.values@.contains(v));
                return true;
            } else if x < v {
                lo = mid + 1;
            } else {
                hi = mid;
            }
        }
        false
    }

    pub fn cardinality(&self) -> (n: usize)
        requires
            self.wf(),
        ensures
            n == self@.len(),
    {
        proof {
            self.lemma_list();
        }
        self.values.len()
    }
}

/// The values of an array container are those that it lists.
pub proof fn law_values_of_arrays(c: ArrayContainer, v: u16)
    ensures
        c@.contains(v) <==> exists|i: int| 0 <= i < c.list().len() && #[trigger] c.list()[i] == v,
{
    if c@.contains(v) {
        let i = choose|i: int| 0 <= i < c.list().len() && c.list()[i] == v;
        assert(c.list()[i] == v);
    }
    if exists|i: int| 0 <= i < c.list().len() && #[trigger] c.list()[i] == v {
        let i = choose|i: int| 0 <= i < c.list().len() && #[trigger] c.list()[i] == v;
        assert(c.list().contains(v));
    }
}

} // verus!
