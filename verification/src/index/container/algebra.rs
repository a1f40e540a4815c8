//! Set algebra on containers, whatever their form.

use vstd::prelude::*;

use super::array::ArrayContainer;
use super::bitset::BitsetContainer;
use super::ops::{
    array_and_bitset, array_and_run, array_andnot_bitset, array_andnot_run, array_or_bitset, array_or_run_values, bitset_and_run,
    bitset_andnot_array, bitset_andnot_run, bitset_or_run, run_andnot_array, run_andnot_bitset,
};
use super::run::{run_starts, RunContainer};
use super::set::{lemma_u16_set_bound, Container};
use crate::index::simd_support::bitwise;
use crate::seqs;

verus! {

/// Most values of an array container; more values take a bitset.
pub const ARRAY_MAX: usize = 4096;

/// Bytes of a bitset.
pub const BITSET_BYTES: usize = 8192;

/// Bytes of a run.
pub const RUN_BYTES: usize = 4;

/// The three forms of a container.
pub enum Form {
    Array,
    Bitset,
    Run,
}

/// The form of a set that is not stored as runs.
pub open spec fn plain_form(s: Set<u16>) -> Form {
    if s.len() <= ARRAY_MAX {
        Form::Array
    } else {
        Form::Bitset
    }
}

/// Bytes that the values of a set take when it is not stored as runs.
pub open spec fn plain_bytes(s: Set<u16>) -> nat {
    if s.len() <= ARRAY_MAX {
        2 * s.len()
    } else {
        BITSET_BYTES as nat
    }
}

/// The form in which a set takes the least space; runs only where they take less
/// than the others.
pub open spec fn smallest_form(s: Set<u16>) -> Form {
    if RUN_BYTES * run_starts(s).len() < plain_bytes(s) {
        Form::Run
    } else {
        plain_form(s)
    }
}

/// The container of a list of increasing values.
fn from_list(list: Vec<u16>) -> (c: Container)
    requires
        seqs::increasing(list@),
    ensures
        c.wf(),
        c@ == list@.to_set(),
        c.form() == plain_form(c@),
{
    proof {
        assert(list@.no_duplicates());
        list@.unique_seq_to_set();
    }
    if list.len() <= ARRAY_MAX {
        Container::Array(ArrayContainer::from_sorted(list))
    } else {
        Container::Bitset(BitsetContainer::from_values(list.as_slice()))
    }
}

/// The listed values that are in `other`, or those that are not.
fn keep(list: &[u16], other: &Container, inside: bool) -> (out: Vec<u16>)
    requires
        seqs::increasing(list@),
        other.wf(),
    ensures
        seqs::increasing(out@),
        forall|v: u16| #[trigger] out@.contains(v) <==> list@.contains(v) && other@.contains(v) == inside,
{
    let mut out: Vec<u16> = Vec::new();
    let mut i: usize = 0;
    while i < list.len()
        invariant
            i <= list@.len(),
            seqs::increasing(list@),
            other.wf(),
            seqs::increasing(out@),
            forall|v: u16| #[trigger] out@.contains(v) <==> list@.take(i as int).contains(v) && other@.contains(v) == inside,
        decreases list@.len() - i,
    {
        let v: u16 = list[i];
        let ghost before = out@;
        let ghost seen = list@.take(i as int);
        if other.contains(v) == inside {
            out.push(v);
        }
        proof {
            assert(list@.take(i + 1) =~= seen.push(v));
            assert forall|u: u16| #[trigger] out@.contains(u) <==> list@.take(i + 1).contains(u) && other@.contains(u)
                == inside by {
                seqs::lemma_push_contains(seen, v, u);
                seqs::lemma_push_contains(before, v, u);
                assert(before.contains(u) <==> seen.contains(u) && other@.contains(u) == inside);
            }
            assert forall|u: u16| #[trigger] before.contains(u) implies u < v by {
                assert(seen.contains(u));
                let k = choose|k: int| 0 <= k < seen.len() && seen[k] == u;
                assert(list@[k] < list@[i as int]);
            }
            seqs::lemma_push_increasing(before, v);
        }
        i = i + 1;
    }
    proof {
        assert(list@.take(i as int) =~= list@);
    }
    out
}

impl Container {
    /// The form of the container.
    pub open spec fn form(&self) -> Form {
        match self {
            Container::Array(_) => Form::Array,
            Container::Bitset(_) => Form::Bitset,
            Container::Run(_) => Form::Run,
        }
    }

    /// Whether `v` is in the set.
    pub fn contains(&self, v: u16) -> (found: bool)
        requires
            self.wf(),
        ensures
            found == self@.contains(v),
    {
        match self {
            Container::Array(c) => c.contains(v),
            Container::Bitset(c) => c.contains(v),
            Container::Run(c) => c.contains(v),
        }
    }

    /// The set of one value.
    pub fn single(v: u16) -> (c: Container)
        ensures
            c.wf(),
            c@ == Set::empty().insert(v),
    {
        let mut list: Vec<u16> = Vec::new();
        list.push(v);
        proof {
            assert forall|u: u16| list@.to_set().contains(u) == Set::empty().insert(v).contains(u) by {
                if u == v {
                    assert(list@[0] == u);
                }
            }
            assert(list@.to_set() =~= Set::empty().insert(v));
        }
        Container::Array(ArrayContainer::from_sorted(list))
    }

    /// A copy; runs are written out.
    pub fn copy(&self) -> (c: Container)
        requires
            self.wf(),
        ensures
            c.wf(),
            c@ == self@,
            c.form() == if self.form() == Form::Bitset {
                Form::Bitset
            } else {
                plain_form(self@)
            },
    {
        match self {
            Container::Bitset(b) => {
                let bits = *b.bits();
                Container::Bitset(BitsetContainer::from_raw_bits(Box::new(bits), b.cardinality()))
            },
            _ => {
                let list = self.to_values();
                proof {
                    assert(list@.to_set() =~= self@);
                }
                from_list(list)
            },
        }
    }

    /// A bitset of few values as an array; any other container as it is.
    fn tidy(self) -> (c: Container)
        requires
            self.wf(),
        ensures
            c.wf(),
            c@ == self@,
            self.form() == Form::Bitset && self@.len() <= ARRAY_MAX ==> c.form() == Form::Array,
            !(self.form() == Form::Bitset && self@.len() <= ARRAY_MAX) ==> c == self,
    {
        match self {
            Container::Bitset(b) => {
                if b.cardinality() <= ARRAY_MAX {
                    let list = b.to_values();
                    proof {
                        assert(list@.to_set() =~= b@);
                    }
                    Container::Array(ArrayContainer::from_sorted(list))
                } else {
                    Container::Bitset(b)
                }
            },
            other => other,
        }
    }

    /// The values in both sets.
    pub fn and(&self, other: &Container) -> (c: Container)
        requires
            self.wf(),
            other.wf(),
        ensures
            c.wf(),
            c@ == self@.intersect(other@),
            c.form() != Form::Run,
            c.form() == Form::Bitset ==> c@.len() > ARRAY_MAX,
    {
        let c: Container = match (self, other) {
            (Container::Array(a), Container::Bitset(b)) => Container::Array(array_and_bitset(a, b)),
            (Container::Array(a), Container::Run(r)) => Container::Array(array_and_run(a, r)),
            (Container::Bitset(b), Container::Array(a)) => Container::Array(array_and_bitset(a, b)),
            (Container::Run(r), Container::Array(a)) => Container::Array(array_and_run(a, r)),
            (Container::Bitset(b), Container::Run(r)) => Container::Bitset(bitset_and_run(b, r)),
            (Container::Run(r), Container::Bitset(b)) => Container::Bitset(bitset_and_run(b, r)),
            (Container::Bitset(a), Container::Bitset(b)) => {
                let r = bitwise::and(a.bits(), b.bits());
                Container::Bitset(BitsetContainer::from_raw_bits(r.bits, r.cardinality))
            },
            _ => {
                let list = keep(self.to_values().as_slice(), other, true);
                proof {
                    assert(list@.to_set() =~= self@.intersect(other@));
                }
                from_list(list)
            },
        };
        proof {
            assert(c@ =~= self@.intersect(other@));
        }
        c.tidy()
    }

    /// The values in either set.
    pub fn or(&self, other: &Container) -> (c: Container)
        requires
            self.wf(),
            other.wf(),
        ensures
            c.wf(),
            c@ == self@.union(other@),
            c.form() != Form::Run,
            c.form() == Form::Bitset ==> c@.len() > ARRAY_MAX,
    {
        let c: Container = match (self, other) {
            (Container::Array(a), Container::Bitset(b)) => Container::Bitset(array_or_bitset(a, b)),
            (Container::Bitset(b), Container::Array(a)) => Container::Bitset(array_or_bitset(a, b)),
            (Container::Array(a), Container::Run(r)) => from_list(array_or_run_values(a, r)),
            (Container::Run(r), Container::Array(a)) => from_list(array_or_run_values(a, r)),
            (Container::Bitset(b), Container::Run(r)) => Container::Bitset(bitset_or_run(b, r)),
            (Container::Run(r), Container::Bitset(b)) => Container::Bitset(bitset_or_run(b, r)),
            (Container::Bitset(a), Container::Bitset(b)) => {
                let r = bitwise::or(a.bits(), b.bits());
                Container::Bitset(BitsetContainer::from_raw_bits(r.bits, r.cardinality))
            },
            _ => {
                let list = self.to_values();
                let runs = RunContainer::from_sorted_values(other.to_values().as_slice());
                proof {
                    assert(list@.to_set() =~= self@);
                    assert(runs@ =~= other@);
                }
                let array = ArrayContainer::from_sorted(list);
                from_list(array_or_run_values(&array, &runs))
            },
        };
        proof {
            assert(c@ =~= self@.union(other@));
        }
        c.tidy()
    }

    /// The values of this set that are not in the other.
    pub fn and_not(&self, other: &Container) -> (c: Container)
        requires
            self.wf(),
            other.wf(),
        ensures
            c.wf(),
            c@ == self@.difference(other@),
            c.form() != Form::Run,
            c.form() == Form::Bitset ==> c@.len() > ARRAY_MAX,
    {
        let c: Container = match (self, other) {
            (Container::Array(a), Container::Bitset(b)) => Container::Array(array_andnot_bitset(a, b)),
            (Container::Array(a), Container::Run(r)) => Container::Array(array_andnot_run(a, r)),
            (Container::Bitset(b), Container::Array(a)) => Container::Bitset(bitset_andnot_array(b, a)),
            (Container::Bitset(b), Container::Run(r)) => Container::Bitset(bitset_andnot_run(b, r)),
            (Container::Run(r), Container::Array(a)) => from_list(run_andnot_array(r, a)),
            (Container::Run(r), Container::Bitset(b)) => from_list(run_andnot_bitset(r, b)),
            (Container::Bitset(a), Container::Bitset(b)) => {
                let r = bitwise::and_not(a.bits(), b.bits());
                Container::Bitset(BitsetContainer::from_raw_bits(r.bits, r.cardinality))
            },
            _ => {
                let list = keep(self.to_values().as_slice(), other, false);
                proof {
                    assert(list@.to_set() =~= self@.difference(other@));
                }
                from_list(list)
            },
        };
        proof {
            assert(c@ =~= self@.difference(other@));
        }
        c.tidy()
    }

    /// The same set in the form that takes the least space.
    pub fn optimized(&self) -> (c: Container)
        requires
            self.wf(),
        ensures
            c.wf(),
            c@ == self@,
            c.form() == smallest_form(self@),
    {
        let list = self.to_values();
        let runs = RunContainer::from_sorted_values(list.as_slice());
        proof {
            assert(list@.to_set() =~= self@);
            assert(runs@ =~= self@);
            assert(list@.no_duplicates());
            list@.unique_seq_to_set();
            lemma_u16_set_bound(self@);
            lemma_u16_set_bound(run_starts(self@));
        }
        let plain: usize = if list.len() <= ARRAY_MAX {
            2 * list.len()
        } else {
            BITSET_BYTES
        };
        if RUN_BYTES * runs.runs().len() < plain {
            Container::Run(runs)
        } else {
            from_list(list)
        }
    }
}

/// Up to 4096 values are listed in two bytes each; more take a bitset of 8192 bytes. Runs
/// take four bytes each, and are chosen where that is less.
pub proof fn law_forms_by_size(s: Set<u16>)
    ensures
        s.len() <= 4096 ==> plain_form(s) == Form::Array && plain_bytes(s) == 2 * s.len(),
        s.len() > 4096 ==> plain_form(s) == Form::Bitset && plain_bytes(s) == 8192,
        s.len() <= 4096 && 4 * run_starts(s).len() < 2 * s.len() ==> smallest_form(s) == Form::Run,
        s.len() > 4096 && 4 * run_starts(s).len() < 8192 ==> smallest_form(s) == Form::Run,
        s.len() <= 4096 && 4 * run_starts(s).len() >= 2 * s.len() ==> smallest_form(s) == Form::Array,
        s.len() > 4096 && 4 * run_starts(s).len() >= 8192 ==> smallest_form(s) == Form::Bitset,
{
}

/// The form of a container is that of its representation, and so are its values and its
/// validity.
pub proof fn law_containers_are_their_representation(c: Container)
    ensures
        c.form() == Form::Array <==> c is Array,
        c.form() == Form::Bitset <==> c is Bitset,
        c.form() == Form::Run <==> c is Run,
        c matches Container::Array(a) ==> c@ == a@ && c.wf() == a.wf(),
        c matches Container::Bitset(b) ==> c@ == b@ && c.wf() == b.wf(),
        c matches Container::Run(r) ==> c@ == r@ && c.wf() == r.wf(),
{
}

/// A value is found in the intersection, union and difference of two containers as it should
/// be; a copy and the smallest form hold the same values, and a single value is found alone.
pub proof fn law_container_operations(
    a: &Container,
    b: &Container,
    both: Container,
    either: Container,
    only: Container,
    same: Container,
    small: Container,
    v: u16,
    one: Container,
    w: u16,
    in_a: bool,
    in_b: bool,
)
    requires
        a.wf(),
        b.wf(),
        call_ensures(Container::and, (a, b), both),
        call_ensures(Container::or, (a, b), either),
        call_ensures(Container::and_not, (a, b), only),
        call_ensures(Container::copy, (a,), same),
        call_ensures(Container::optimized, (a,), small),
        call_ensures(Container::single, (v,), one),
        call_ensures(Container::contains, (a, w), in_a),
        call_ensures(Container::contains, (b, w), in_b),
    ensures
        forall|r: bool| #[trigger] call_ensures(Container::contains, (&both, w), r) ==> r == (in_a && in_b),
        forall|r: bool| #[trigger] call_ensures(Container::contains, (&either, w), r) ==> r == (in_a || in_b),
        forall|r: bool| #[trigger] call_ensures(Container::contains, (&only, w), r) ==> r == (in_a && !in_b),
        forall|r: bool| #[trigger] call_ensures(Container::contains, (&same, w), r) ==> r == in_a,
        forall|r: bool| #[trigger] call_ensures(Container::contains, (&small, w), r) ==> r == in_a,
        forall|r: bool| #[trigger] call_ensures(Container::contains, (&one, w), r) ==> r == (w == v),
{
}

/// The values of a container come in ascending order, each once, and are those that are found
/// in it; and containers with the same words hold the same values in the same form.
pub proof fn law_container_values(
    a: &Container,
    out: Vec<u16>,
    w: u16,
    found: bool,
    b: &Container,
    words: Vec<u64>,
    others: Vec<u64>,
)
    requires
        a.wf(),
        b.wf(),
        call_ensures(Container::to_values, (a,), out),
        call_ensures(Container::contains, (a, w), found),
        call_ensures(Container::to_words, (a,), words),
        call_ensures(Container::to_words, (b,), others),
    ensures
        found <==> exists|i: int| 0 <= i < out@.len() && #[trigger] out@[i] == w,
        forall|i: int, j: int| 0 <= i < j < out@.len() ==> #[trigger] out@[i] < #[trigger] out@[j],
        words@ == others@ ==> a@ == b@ && a.form() == b.form(),
{
    seqs::law_increasing(out@);
    assert(found == out@.contains(w));
    if words@ == others@ {
        super::set::lemma_frame_injective(*a, *b);
    }
}

} // verus!
