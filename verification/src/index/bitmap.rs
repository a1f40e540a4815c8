//! Sets of 128-bit numbers, as containers of their low sixteen bits.

use vstd::prelude::*;

use super::container::algebra::{smallest_form, Form};
use super::container::Container;

verus! {

/// A set of 128-bit numbers: one container per value of the upper bits, in
/// increasing order.
pub struct RoaringBitmap {
    keys: Vec<u128>,
    sets: Vec<Container>,
}

/// The upper bits of a number.
pub open spec fn high(v: u128) -> u128 {
    v / 0x1_0000
}

/// The low sixteen bits of a number.
pub open spec fn low(v: u128) -> u16 {
    (v % 0x1_0000) as u16
}

/// Keys in increasing order.
pub open spec fn ascending(keys: Seq<u128>) -> bool {
    forall|i: int, j: int| 0 <= i < j < keys.len() ==> #[trigger] keys[i] < #[trigger] keys[j]
}

impl View for RoaringBitmap {
    type V = Set<u128>;

    open spec fn view(&self) -> Set<u128> {
        Set::new(|v: u128| self.chunk(high(v)).contains(low(v)))
    }
}

impl RoaringBitmap {
    /// The position of `key`.
    spec fn at(&self, key: u128, i: int) -> bool {
        0 <= i < self.keys@.len() && self.keys@[i] == key
    }

    /// The low halves of the numbers with these upper bits.
    pub closed spec fn chunk(&self, key: u128) -> Set<u16> {
        if exists|i: int| self.at(key, i) {
            self.sets@[choose|i: int| self.at(key, i)]@
        } else {
            Set::empty()
        }
    }

    /// The form of the container for these upper bits; none where there is no such
    /// container.
    pub closed spec fn chunk_form(&self, key: u128) -> Option<Form> {
        if exists|i: int| self.at(key, i) {
            Some(self.sets@[choose|i: int| self.at(key, i)].form())
        } else {
            None
        }
    }

    /// Keys are in order and in range, and no container is empty.
    pub closed spec fn wf(&self) -> bool {
        &&& self.keys@.len() == self.sets@.len()
        &&& ascending(self.keys@)
        &&& forall|i: int| 0 <= i < self.keys@.len() ==> (#[trigger] self.keys@[i]) <= u128::MAX / 0x1_0000
        &&& forall|i: int| 0 <= i < self.sets@.len() ==> (#[trigger] self.sets@[i]).wf()
        &&& forall|i: int| 0 <= i < self.sets@.len() ==> !((#[trigger] self.sets@[i])@ =~= Set::<u16>::empty())
    }

    proof fn lemma_chunk(&self, i: int)
        requires
            self.wf(),
            0 <= i < self.keys@.len(),
        ensures
            self.chunk(self.keys@[i]) == self.sets@[i]@,
            self.chunk_form(self.keys@[i]) == Some(self.sets@[i].form()),
    {
        let key = self.keys@[i];
        assert(self.at(key, i));
        let j = choose|j: int| self.at(key, j);
        if j < i {
            assert(self.keys@[j] < self.keys@[i]);
        } else if i < j {
            assert(self.keys@[i] < self.keys@[j]);
        }
    }

    proof fn lemma_no_chunk(&self, key: u128)
        requires
            self.wf(),
            forall|i: int| 0 <= i < self.keys@.len() ==> #[trigger] self.keys@[i] != key,
        ensures
            self.chunk(key) == Set::<u16>::empty(),
            self.chunk_form(key) is None,
    {
        if exists|i: int| self.at(key, i) {
            let i = choose|i: int| self.at(key, i);
            assert(self.keys@[i] != key);
        }
    }

    /// An empty set.
    pub fn new() -> (b: RoaringBitmap)
        ensures
            b.wf(),
            b@ == Set::<u128>::empty(),
            forall|k: u128| #[trigger] b.chunk(k) == Set::<u16>::empty(),
    {
        let b = RoaringBitmap { keys: Vec::new(), sets: Vec::new() };
        proof {
            assert forall|k: u128| #[trigger] b.chunk(k) == Set::<u16>::empty() by {
                b.lemma_no_chunk(k);
            }
            assert(b@ =~= Set::<u128>::empty());
        }
        b
    }

    /// Where `key` stands, or where it would.
    fn find(&self, key: u128) -> (r: (usize, bool))
        requires
            self.wf(),
        ensures
            r.0 <= self.keys@.len(),
            r.1 ==> r.0 < self.keys@.len() && self.keys@[r.0 as int] == key,
            forall|i: int| 0 <= i < r.0 ==> #[trigger] self.keys@[i] < key,
            !r.1 ==> forall|i: int| r.0 <= i < self.keys@.len() ==> #[trigger] self.keys@[i] > key,
    {
        let mut lo: usize = 0;
        let mut hi: usize = self.keys.len();
        while lo < hi
            invariant
                self.wf(),
                lo <= hi <= self.keys@.len(),
                forall|i: int| 0 <= i < lo ==> #[trigger] self.keys@[i] < key,
                forall|i: int| hi <= i < self.keys@.len() ==> #[trigger] self.keys@[i] > key,
            decreases hi - lo,
        {
            let mid: usize = lo + (hi - lo) / 2;
            let x: u128 = self.keys[mid];
            if x == key {
                return (mid, true);
            } else if x < key {
                lo = mid + 1;
            } else {
                hi = mid;
            }
        }
        (lo, false)
    }

    /// Makes `set` the container of `key`; an empty one takes the key out.
    fn set_chunk(&mut self, key: u128, set: Container)
        requires
            old(self).wf(),
            set.wf(),
            key <= u128::MAX / 0x1_0000,
        ensures
            final(self).wf(),
            forall|k: u128| #[trigger] final(self).chunk(k) == if k == key {
                set@
            } else {
                old(self).chunk(k)
            },
    {
        let ghost before = *self;
        let empty: bool = set.cardinality() == 0;
        proof {
            if empty {
                vstd::set_lib::lemma_set_empty_equivalency_len(set@);
            }
        }
        let (at, found) = self.find(key);
        if found {
            if empty {
                let _key = self.keys.remove(at);
                let _set = self.sets.remove(at);
            } else {
                self.sets.set(at, set);
            }
        } else if !empty {
            self.keys.insert(at, key);
            self.sets.insert(at, set);
        }
        proof {
            assert(!empty ==> !(set@ =~= Set::<u16>::empty()));
            assert(empty ==> set@ =~= Set::<u16>::empty());
            lemma_changed(before, *self, at as int, key, set@, found, empty);
        }
    }

    /// Whether `value` is in the set.
    pub fn contains(&self, value: u128) -> (found: bool)
        requires
            self.wf(),
        ensures
            found == self@.contains(value),
    {
        let (at, found) = self.find(value / 0x1_0000);
        if found {
            proof {
                self.lemma_chunk(at as int);
            }
            self.sets[at].contains((value % 0x1_0000) as u16)
        } else {
            proof {
                self.lemma_no_chunk(high(value));
            }
            false
        }
    }

    /// Inserts a value; `true` if it was not there.
    pub fn insert(&mut self, value: u128) -> (new: bool)
        requires
            old(self).wf(),
        ensures
            final(self).wf(),
            final(self)@ == old(self)@.insert(value),
            new <==> !old(self)@.contains(value),
    {
        let ghost before = *self;
        let key: u128 = value / 0x1_0000;
        let single = Container::single((value % 0x1_0000) as u16);
        let (at, found) = self.find(key);
        let mut was: bool = false;
        let set: Container = if found {
            proof {
                self.lemma_chunk(at as int);
            }
            was = self.sets[at].contains((value % 0x1_0000) as u16);
            self.sets[at].or(&single)
        } else {
            proof {
                self.lemma_no_chunk(key);
            }
            single
        };
        proof {
            assert(set@ =~= before.chunk(key).insert(low(value)));
        }
        self.set_chunk(key, set);
        proof {
            assert forall|v: u128| self@.contains(v) == before@.insert(value).contains(v) by {
                lemma_halves(v, value);
                let _ = self.chunk(high(v));
            }
            assert(self@ =~= before@.insert(value));
        }
        !was
    }

    /// Removes a value; `true` if it was there.
    pub fn remove(&mut self, value: u128) -> (was: bool)
        requires
            old(self).wf(),
        ensures
            final(self).wf(),
            final(self)@ == old(self)@.remove(value),
            was <==> old(self)@.contains(value),
    {
        let ghost before = *self;
        let key: u128 = value / 0x1_0000;
        let (at, found) = self.find(key);
        if !found {
            proof {
                self.lemma_no_chunk(key);
                assert(self@ =~= before@.remove(value));
            }
            return false;
        }
        proof {
            self.lemma_chunk(at as int);
        }
        let was: bool = self.sets[at].contains((value % 0x1_0000) as u16);
        let set = self.sets[at].and_not(&Container::single((value % 0x1_0000) as u16));
        proof {
            assert(set@ =~= before.chunk(key).remove(low(value)));
        }
        self.set_chunk(key, set);
        proof {
            assert forall|v: u128| self@.contains(v) == before@.remove(value).contains(v) by {
                lemma_halves(v, value);
                let _ = self.chunk(high(v));
            }
            assert(self@ =~= before@.remove(value));
        }
        was
    }

    /// Removes all values.
    pub fn clear(&mut self)
        ensures
            final(self).wf(),
            final(self)@ == Set::<u128>::empty(),
    {
        self.keys = Vec::new();
        self.sets = Vec::new();
        proof {
            assert(self@ =~= Set::<u128>::empty());
        }
    }

    /// Number of containers: the number of different upper halves.
    pub fn num_containers(&self) -> (n: usize)
        requires
            self.wf(),
        ensures
            n == self@.map(|v: u128| high(v)).len(),
    {
        proof {
            let halves = self@.map(|v: u128| high(v));
            assert forall|k: u128| halves.contains(k) == self.keys@.to_set().contains(k) by {
                if halves.contains(k) {
                    let v = choose|v: u128| self@.contains(v) && high(v) == k;
                    if !self.keys@.contains(k) {
                        assert forall|i: int| 0 <= i < self.keys@.len() implies #[trigger] self.keys@[i] != k by {}
                        self.lemma_no_chunk(k);
                    }
                }
                if self.keys@.contains(k) {
                    let i = choose|i: int| 0 <= i < self.keys@.len() && self.keys@[i] == k;
                    self.lemma_chunk(i);
                    assert(!(self.sets@[i]@ =~= Set::<u16>::empty()));
                    let x = choose|x: u16| self.sets@[i]@.contains(x);
                    let v = (k * 0x1_0000 + x) as u128;
                    assert(high(v) == k && low(v) == x);
                    assert(self@.contains(v));
                }
            }
            assert(halves =~= self.keys@.to_set());
            assert(self.keys@.no_duplicates());
            self.keys@.unique_seq_to_set();
        }
        self.keys.len()
    }

    /// A copy.
    pub fn copy(&self) -> (out: RoaringBitmap)
        requires
            self.wf(),
        ensures
            out.wf(),
            out@ == self@,
            forall|k: u128| #[trigger] out.chunk(k) == self.chunk(k),
    {
        let mut keys: Vec<u128> = Vec::with_capacity(self.keys.len());
        let mut sets: Vec<Container> = Vec::with_capacity(self.keys.len());
        let mut i: usize = 0;
        while i < self.keys.len()
            invariant
                self.wf(),
                i <= self.keys@.len(),
                keys@ =~= self.keys@.take(i as int),
                sets@.len() == i,
                forall|j: int| 0 <= j < i ==> (#[trigger] sets@[j]).wf() && sets@[j]@ == self.sets@[j]@,
            decreases self.keys@.len() - i,
        {
            keys.push(self.keys[i]);
            sets.push(self.sets[i].copy());
            i = i + 1;
        }
        let out = RoaringBitmap { keys, sets };
        proof {
            assert(out.keys@ =~= self.keys@);
            assert forall|j: int| 0 <= j < out.sets@.len() implies !((#[trigger] out.sets@[j])@ =~= Set::<u16>::empty()) by {
                assert(!(self.sets@[j]@ =~= Set::<u16>::empty()));
            }
            assert(out.wf());
            assert forall|k: u128| #[trigger] out.chunk(k) == self.chunk(k) by {
                lemma_same_chunk(out, *self, k);
            }
            assert(out@ =~= self@);
        }
        out
    }

    /// The values in both sets.
    pub fn and(&self, other: &RoaringBitmap) -> (out: RoaringBitmap)
        requires
            self.wf(),
            other.wf(),
        ensures
            out.wf(),
            out@ == self@.intersect(other@),
    {
        let mut out = RoaringBitmap::new();
        let mut i: usize = 0;
        while i < self.keys.len()
            invariant
                self.wf(),
                other.wf(),
                out.wf(),
                i <= self.keys@.len(),
                forall|k: u128| #[trigger] out.chunk(k) == if below(self.keys@, i as int, k) {
                    self.chunk(k).intersect(other.chunk(k))
                } else {
                    Set::<u16>::empty()
                },
            decreases self.keys@.len() - i,
        {
            let key: u128 = self.keys[i];
            let (at, found) = other.find(key);
            let ghost before = out;
            proof {
                self.lemma_chunk(i as int);
                lemma_below(self.keys@, i as int);
            }
            if found {
                proof {
                    other.lemma_chunk(at as int);
                }
                let set = self.sets[i].and(&other.sets[at]);
                out.set_chunk(key, set);
            } else {
                proof {
                    other.lemma_no_chunk(key);
                    assert(self.chunk(key).intersect(other.chunk(key)) =~= Set::<u16>::empty());
                }
            }
            proof {
                assert forall|k: u128| #[trigger] out.chunk(k) == if below(self.keys@, i + 1, k) {
                    self.chunk(k).intersect(other.chunk(k))
                } else {
                    Set::<u16>::empty()
                } by {
                    let _ = before.chunk(k);
                    assert(below(self.keys@, i + 1, k) <==> below(self.keys@, i as int, k) || k == key);
                }
            }
            i = i + 1;
        }
        proof {
            assert forall|k: u128| #[trigger] out.chunk(k) == self.chunk(k).intersect(other.chunk(k)) by {
                if !below(self.keys@, i as int, k) {
                    lemma_not_below(*self, k);
                    assert(self.chunk(k).intersect(other.chunk(k)) =~= Set::<u16>::empty());
                }
            }
            assert(out@ =~= self@.intersect(other@));
        }
        out
    }

    /// The values of this set that are not in the other.
    pub fn and_not(&self, other: &RoaringBitmap) -> (out: RoaringBitmap)
        requires
            self.wf(),
            other.wf(),
        ensures
            out.wf(),
            out@ == self@.difference(other@),
    {
        let mut out = RoaringBitmap::new();
        let mut i: usize = 0;
        while i < self.keys.len()
            invariant
                self.wf(),
                other.wf(),
                out.wf(),
                i <= self.keys@.len(),
                forall|k: u128| #[trigger] out.chunk(k) == if below(self.keys@, i as int, k) {
                    self.chunk(k).difference(other.chunk(k))
                } else {
                    Set::<u16>::empty()
                },
            decreases self.keys@.len() - i,
        {
            let key: u128 = self.keys[i];
            let (at, found) = other.find(key);
            let ghost before = out;
            proof {
                self.lemma_chunk(i as int);
                lemma_below(self.keys@, i as int);
            }
            let set: Container = if found {
                proof {
                    other.lemma_chunk(at as int);
                }
                self.sets[i].and_not(&other.sets[at])
            } else {
                proof {
                    other.lemma_no_chunk(key);
                }
                self.sets[i].copy()
            };
            proof {
                assert(set@ =~= self.chunk(key).difference(other.chunk(key)));
            }
            out.set_chunk(key, set);
            proof {
                assert forall|k: u128| #[trigger] out.chunk(k) == if below(self.keys@, i + 1, k) {
                    self.chunk(k).difference(other.chunk(k))
                } else {
                    Set::<u16>::empty()
                } by {
                    let _ = before.chunk(k);
                    assert(below(self.keys@, i + 1, k) <==> below(self.keys@, i as int, k) || k == key);
                }
            }
            i = i + 1;
        }
        proof {
            assert forall|k: u128| #[trigger] out.chunk(k) == self.chunk(k).difference(other.chunk(k)) by {
                if !below(self.keys@, i as int, k) {
                    lemma_not_below(*self, k);
                    assert(self.chunk(k).difference(other.chunk(k)) =~= Set::<u16>::empty());
                }
            }
            assert(out@ =~= self@.difference(other@));
        }
        out
    }

    /// The values in either set.
    pub fn or(&self, other: &RoaringBitmap) -> (out: RoaringBitmap)
        requires
            self.wf(),
            other.wf(),
        ensures
            out.wf(),
            out@ == self@.union(other@),
    {
        let mut out = self.copy();
        let mut i: usize = 0;
        while i < other.keys.len()
            invariant
                self.wf(),
                other.wf(),
                out.wf(),
                i <= other.keys@.len(),
                forall|k: u128| #[trigger] out.chunk(k) == if below(other.keys@, i as int, k) {
                    self.chunk(k).union(other.chunk(k))
                } else {
                    self.chunk(k)
                },
            decreases other.keys@.len() - i,
        {
            let key: u128 = other.keys[i];
            let (at, found) = self.find(key);
            let ghost before = out;
            proof {
                other.lemma_chunk(i as int);
                lemma_below(other.keys@, i as int);
            }
            let set: Container = if found {
                proof {
                    self.lemma_chunk(at as int);
                }
                self.sets[at].or(&other.sets[i])
            } else {
                proof {
                    self.lemma_no_chunk(key);
                }
                other.sets[i].copy()
            };
            proof {
                assert(set@ =~= self.chunk(key).union(other.chunk(key)));
            }
            out.set_chunk(key, set);
            proof {
                assert forall|k: u128| #[trigger] out.chunk(k) == if below(other.keys@, i + 1, k) {
                    self.chunk(k).union(other.chunk(k))
                } else {
                    self.chunk(k)
                } by {
                    let _ = before.chunk(k);
                    assert(below(other.keys@, i + 1, k) <==> below(other.keys@, i as int, k) || k == key);
                }
            }
            i = i + 1;
        }
        proof {
            assert forall|k: u128| #[trigger] out.chunk(k) == self.chunk(k).union(other.chunk(k)) by {
                if !below(other.keys@, i as int, k) {
                    lemma_not_below(*other, k);
                    assert(self.chunk(k).union(other.chunk(k)) =~= self.chunk(k));
                }
            }
            assert(out@ =~= self@.union(other@));
        }
        out
    }

    /// Keeps the values that are in the other set too.
    pub fn and_inplace(&mut self, other: &RoaringBitmap)
        requires
            old(self).wf(),
            other.wf(),
        ensures
            final(self).wf(),
            final(self)@ == old(self)@.intersect(other@),
    {
        let out = self.and(other);
        *self = out;
    }

    /// Adds the values of the other set.
    pub fn or_inplace(&mut self, other: &RoaringBitmap)
        requires
            old(self).wf(),
            other.wf(),
        ensures
            final(self).wf(),
            final(self)@ == old(self)@.union(other@),
    {
        let out = self.or(other);
        *self = out;
    }

    /// Removes the values of the other set.
    pub fn and_not_inplace(&mut self, other: &RoaringBitmap)
        requires
            old(self).wf(),
            other.wf(),
        ensures
            final(self).wf(),
            final(self)@ == old(self)@.difference(other@),
    {
        let out = self.and_not(other);
        *self = out;
    }

    /// The values in increasing order.
    pub fn to_values(&self) -> (out: Vec<u128>)
        requires
            self.wf(),
        ensures
            ascending(out@),
            forall|v: u128| #[trigger] out@.contains(v) <==> self@.contains(v),
            self@.finite(),
            self@.len() == out@.len(),
    {
        let mut out: Vec<u128> = Vec::new();
        let mut i: usize = 0;
        while i < self.keys.len()
            invariant
                self.wf(),
                i <= self.keys@.len(),
                ascending(out@),
                forall|v: u128| #[trigger] out@.contains(v) <==> self@.contains(v) && below(self.keys@, i as int, high(v)),
            decreases self.keys@.len() - i,
        {
            let key: u128 = self.keys[i];
            let list = self.sets[i].to_values();
            let ghost before = out@;
            proof {
                self.lemma_chunk(i as int);
                lemma_below(self.keys@, i as int);
                assert forall|v: u128| #[trigger] before.contains(v) implies v < key * 0x1_0000 by {
                    let j = choose|j: int|
                        0 <= j < i && j < self.keys@.len() && #[trigger] self.keys@[j] == high(v);
                    assert(self.keys@[j] < self.keys@[i as int]);
                }
            }
            let mut k: usize = 0;
            while k < list.len()
                invariant
                    k <= list@.len(),
                    key <= u128::MAX / 0x1_0000,
                    crate::seqs::increasing(list@),
                    ascending(out@),
                    forall|v: u128| #[trigger] before.contains(v) ==> v < key * 0x1_0000,
                    forall|v: u128| #[trigger]
                        out@.contains(v) <==> before.contains(v) || high(v) == key && list@.take(k as int).contains(low(v)),
                decreases list@.len() - k,
            {
                let v: u128 = key * 0x1_0000 + list[k] as u128;
                let ghost held = out@;
                let ghost seen = list@.take(k as int);
                out.push(v);
                proof {
                    assert(high(v) == key && low(v) == list@[k as int]);
                    assert(list@.take(k + 1) =~= seen.push(list@[k as int]));
                    assert forall|u: u128| #[trigger] held.contains(u) implies u < v by {
                        if !before.contains(u) {
                            let m = choose|m: int| 0 <= m < seen.len() && seen[m] == low(u);
                            assert(list@[m] < list@[k as int]);
                        }
                    }
                    assert forall|a: int, b: int| 0 <= a < b < out@.len() implies #[trigger] out@[a] < #[trigger] out@[b] by {
                        if b == held.len() {
                            assert(held.contains(held[a]));
                        }
                    }
                    assert forall|u: u128| #[trigger] out@.contains(u) <==> before.contains(u) || high(u) == key
                        && list@.take(k + 1).contains(low(u)) by {
                        crate::seqs::lemma_push_contains(held, v, u);
                        crate::seqs::lemma_push_contains(seen, list@[k as int], low(u));
                        lemma_halves(u, v);
                    }
                }
                k = k + 1;
            }
            proof {
                assert(list@.take(k as int) =~= list@);
                assert forall|v: u128| #[trigger] out@.contains(v) <==> self@.contains(v) && below(
                    self.keys@,
                    i + 1,
                    high(v),
                ) by {
                    assert(before.contains(v) <==> self@.contains(v) && below(self.keys@, i as int, high(v)));
                    assert(below(self.keys@, i + 1, high(v)) <==> below(self.keys@, i as int, high(v)) || high(v)
                        == key);
                    if high(v) == key {
                        assert(list@.contains(low(v)) <==> self.sets@[i as int]@.contains(low(v)));
                    }
                }
            }
            i = i + 1;
        }
        proof {
            assert forall|v: u128| #[trigger] out@.contains(v) <==> self@.contains(v) by {
                if self@.contains(v) && !below(self.keys@, i as int, high(v)) {
                    lemma_not_below(*self, high(v));
                }
            }
            assert(out@.no_duplicates());
            out@.unique_seq_to_set();
            assert(out@.to_set() =~= self@);
        }
        out
    }

    /// Number of values.
    pub fn cardinality(&self) -> (n: usize)
        requires
            self.wf(),
            self@.len() <= usize::MAX,
        ensures
            n == self@.len(),
            self@.finite(),
    {
        let mut n: usize = 0;
        let mut i: usize = 0;
        proof {
            assert(self.first(0) =~= Set::<u128>::empty());
        }
        while i < self.keys.len()
            invariant
                self.wf(),
                i <= self.keys@.len(),
                self.first(i as int).finite(),
                n == self.first(i as int).len(),
                self@.len() <= usize::MAX,
            decreases self.keys@.len() - i,
        {
            let card: usize = self.sets[i].cardinality();
            proof {
                self.lemma_first_step(i as int);
                self.lemma_first_bound(i + 1);
            }
            n = n + card;
            i = i + 1;
        }
        proof {
            self.lemma_first_all();
        }
        n
    }

    /// The values in the first `n` containers.
    spec fn first(&self, n: int) -> Set<u128> {
        Set::new(|v: u128| self@.contains(v) && below(self.keys@, n, high(v)))
    }

    proof fn lemma_first_step(&self, n: int)
        requires
            self.wf(),
            0 <= n < self.keys@.len(),
            self.first(n).finite(),
            self.sets@[n]@.finite(),
        ensures
            self.first(n + 1).finite(),
            self.first(n + 1).len() == self.first(n).len() + self.sets@[n]@.len(),
    {
        let key = self.keys@[n];
        let f = |x: u16| (key * 0x1_0000 + x) as u128;
        let part = self.sets@[n]@.map(f);
        self.lemma_chunk(n);
        lemma_below(self.keys@, n);
        assert forall|a: u16, b: u16| #[trigger] f(a) == #[trigger] f(b) implies a == b by {
            assert(low(f(a)) == a);
            assert(low(f(b)) == b);
        }
        assert(vstd::relations::injective_on(f, self.sets@[n]@));
        vstd::set_lib::lemma_map_size(self.sets@[n]@, part, f);
        assert forall|v: u128| part.contains(v) <==> high(v) == key && self.sets@[n]@.contains(low(v)) by {
            if part.contains(v) {
                let x = choose|x: u16| self.sets@[n]@.contains(x) && f(x) == v;
                assert(high(v) == key && low(v) == x);
            }
            if high(v) == key && self.sets@[n]@.contains(low(v)) {
                assert(f(low(v)) == v);
            }
        }
        assert forall|v: u128| self.first(n + 1).contains(v) == self.first(n).union(part).contains(v) by {
            assert(below(self.keys@, n + 1, high(v)) <==> below(self.keys@, n, high(v)) || high(v) == key);
        }
        assert(self.first(n + 1) =~= self.first(n).union(part));
        assert(self.first(n).disjoint(part)) by {
            assert forall|v: u128| !(self.first(n).contains(v) && part.contains(v)) by {}
        }
        vstd::set_lib::lemma_set_disjoint_lens(self.first(n), part);
    }

    proof fn lemma_all_finite(&self, n: int)
        requires
            self.wf(),
            0 <= n <= self.keys@.len(),
            forall|i: int| 0 <= i < self.sets@.len() ==> (#[trigger] self.sets@[i])@.finite(),
        ensures
            self.first(n).finite(),
        decreases n,
    {
        if n == 0 {
            assert(self.first(0) =~= Set::<u128>::empty());
        } else {
            self.lemma_all_finite(n - 1);
            self.lemma_first_step(n - 1);
        }
    }

    proof fn lemma_first_all(&self)
        requires
            self.wf(),
        ensures
            self.first(self.keys@.len() as int) == self@,
    {
        assert forall|v: u128| self.first(self.keys@.len() as int).contains(v) == self@.contains(v) by {
            if self@.contains(v) && !below(self.keys@, self.keys@.len() as int, high(v)) {
                lemma_not_below(*self, high(v));
            }
        }
        assert(self.first(self.keys@.len() as int) =~= self@);
    }

    proof fn lemma_first_bound(&self, n: int)
        requires
            self.wf(),
            0 <= n <= self.keys@.len(),
        ensures
            self.first(n).len() <= self@.len(),
    {
        assert forall|i: int| 0 <= i < self.sets@.len() implies (#[trigger] self.sets@[i])@.finite() by {
            super::container::set::lemma_u16_set_bound(self.sets@[i]@);
        }
        self.lemma_all_finite(self.keys@.len() as int);
        self.lemma_first_all();
        assert(self.first(n).subset_of(self@));
        vstd::set_lib::lemma_len_subset(self.first(n), self@);
    }

    /// Whether there is no value.
    pub fn is_empty(&self) -> (empty: bool)
        requires
            self.wf(),
        ensures
            empty <==> self@ == Set::<u128>::empty(),
    {
        let empty: bool = self.keys.len() == 0;
        proof {
            if empty {
                assert forall|v: u128| !self@.contains(v) by {
                    self.lemma_no_chunk(high(v));
                }
                assert(self@ =~= Set::<u128>::empty());
            } else {
                self.lemma_chunk(0);
                let x = choose|x: u16| self.sets@[0]@.contains(x);
                assert(exists|x: u16| self.sets@[0]@.contains(x)) by {
                    if forall|x: u16| !self.sets@[0]@.contains(x) {
                        assert(self.sets@[0]@ =~= Set::<u16>::empty());
                    }
                }
                let v = (self.keys@[0] * 0x1_0000 + x) as u128;
                assert(high(v) == self.keys@[0] && low(v) == x);
                assert(self@.contains(v));
            }
        }
        empty
    }

    /// The smallest value.
    pub fn min(&self) -> (m: Option<u128>)
        requires
            self.wf(),
        ensures
            m is None <==> self@ == Set::<u128>::empty(),
            m is Some ==> self@.contains(m->0),
            m is Some ==> forall|v: u128| #[trigger] self@.contains(v) ==> m->0 <= v,
    {
        if self.is_empty() {
            return None;
        }
        let list = self.to_values();
        proof {
            self.lemma_some_value();
            let v = choose|v: u128| self@.contains(v);
            assert(list@.contains(v));
            assert(list@.contains(list@[0]));
            assert forall|v: u128| #[trigger] self@.contains(v) implies list@[0] <= v by {
                assert(list@.contains(v));
                let k = choose|k: int| 0 <= k < list@.len() && list@[k] == v;
                if k > 0 {
                    assert(list@[0] < list@[k]);
                }
            }
        }
        Some(list[0])
    }

    /// The largest value.
    pub fn max(&self) -> (m: Option<u128>)
        requires
            self.wf(),
        ensures
            m is None <==> self@ == Set::<u128>::empty(),
            m is Some ==> self@.contains(m->0),
            m is Some ==> forall|v: u128| #[trigger] self@.contains(v) ==> m->0 >= v,
    {
        if self.is_empty() {
            return None;
        }
        let list = self.to_values();
        proof {
            self.lemma_some_value();
            let v = choose|v: u128| self@.contains(v);
            assert(list@.contains(v));
            assert(list@.contains(list@[list@.len() - 1]));
            assert forall|v: u128| #[trigger] self@.contains(v) implies list@[list@.len() - 1] >= v by {
                assert(list@.contains(v));
                let k = choose|k: int| 0 <= k < list@.len() && list@[k] == v;
                if k < list@.len() - 1 {
                    assert(list@[k] < list@[list@.len() - 1]);
                }
            }
        }
        Some(list[list.len() - 1])
    }

    proof fn lemma_some_value(&self)
        requires
            self@ != Set::<u128>::empty(),
        ensures
            exists|v: u128| self@.contains(v),
    {
        if forall|v: u128| !self@.contains(v) {
            assert(self@ =~= Set::<u128>::empty());
        }
    }

    /// Brings every container into the form that takes the least space.
    pub fn optimize(&mut self)
        requires
            old(self).wf(),
        ensures
            final(self).wf(),
            final(self)@ == old(self)@,
            forall|k: u128| #[trigger] final(self).chunk(k) == old(self).chunk(k),
            forall|k: u128| #[trigger] final(self).chunk_form(k) == if old(self).chunk(k) =~= Set::<u16>::empty() {
                None::<Form>
            } else {
                Some(smallest_form(old(self).chunk(k)))
            },
    {
        let mut sets: Vec<Container> = Vec::with_capacity(self.sets.len());
        let mut i: usize = 0;
        while i < self.sets.len()
            invariant
                self.wf(),
                *self == *old(self),
                i <= self.sets@.len(),
                sets@.len() == i,
                forall|j: int| 0 <= j < i ==> (#[trigger] sets@[j]).wf() && sets@[j]@ == self.sets@[j]@,
                forall|j: int| 0 <= j < i ==> (#[trigger] sets@[j]).form() == smallest_form(self.sets@[j]@),
            decreases self.sets@.len() - i,
        {
            sets.push(self.sets[i].optimized());
            i = i + 1;
        }
        self.sets = sets;
        proof {
            assert forall|j: int| 0 <= j < self.sets@.len() implies !((#[trigger] self.sets@[j])@ =~= Set::<u16>::empty()) by {
                assert(!(old(self).sets@[j]@ =~= Set::<u16>::empty()));
            }
            assert(self.wf());
            assert forall|k: u128| #[trigger] self.chunk(k) == old(self).chunk(k) by {
                lemma_same_chunk(*self, *old(self), k);
            }
            assert forall|k: u128| #[trigger] self.chunk_form(k) == if old(self).chunk(k) =~= Set::<u16>::empty() {
                None::<Form>
            } else {
                Some(smallest_form(old(self).chunk(k)))
            } by {
                if exists|i: int| self.at(k, i) {
                    let i = choose|i: int| self.at(k, i);
                    self.lemma_chunk(i);
                    old(self).lemma_chunk(i);
                    assert(!(old(self).sets@[i]@ =~= Set::<u16>::empty()));
                } else {
                    assert forall|i: int| 0 <= i < self.keys@.len() implies #[trigger] self.keys@[i] != k by {
                        assert(!self.at(k, i));
                    }
                    old(self).lemma_no_chunk(k);
                }
            }
            assert(self@ =~= old(self)@);
        }
    }

    /// The set of the listed values, in any order.
    pub fn from_values(values: &[u128]) -> (b: RoaringBitmap)
        ensures
            b.wf(),
            b@ == values@.to_set(),
    {
        let mut b = RoaringBitmap::new();
        let mut i: usize = 0;
        proof {
            assert(values@.take(0).to_set() =~= Set::<u128>::empty());
        }
        while i < values.len()
            invariant
                b.wf(),
                i <= values@.len(),
                b@ == values@.take(i as int).to_set(),
            decreases values@.len() - i,
        {
            let v: u128 = values[i];
            let _new = b.insert(v);
            proof {
                let (seen, next) = (values@.take(i as int), values@.take(i + 1));
                assert(next =~= seen.push(v));
                assert forall|u: u128| next.to_set().contains(u) == seen.to_set().insert(v).contains(u) by {
                    crate::seqs::lemma_push_contains(seen, v, u);
                }
                assert(next.to_set() =~= seen.to_set().insert(v));
            }
            i = i + 1;
        }
        proof {
            assert(values@.take(i as int) =~= values@);
        }
        b
    }
}

/// `k` is one of the first `n` keys.
spec fn below(keys: Seq<u128>, n: int, k: u128) -> bool {
    exists|i: int| 0 <= i < n && i < keys.len() && #[trigger] keys[i] == k
}

proof fn lemma_below(keys: Seq<u128>, n: int)
    requires
        0 <= n < keys.len(),
        ascending(keys),
    ensures
        forall|k: u128| #[trigger] below(keys, n + 1, k) <==> below(keys, n, k) || k == keys[n],
        !below(keys, n, keys[n]),
{
    assert forall|k: u128| #[trigger] below(keys, n + 1, k) <==> below(keys, n, k) || k == keys[n] by {
        if below(keys, n + 1, k) {
            let i = choose|i: int| 0 <= i < n + 1 && i < keys.len() && #[trigger] keys[i] == k;
            if i < n {
                assert(below(keys, n, k));
            }
        }
        if below(keys, n, k) {
            let i = choose|i: int| 0 <= i < n && i < keys.len() && #[trigger] keys[i] == k;
            assert(keys[i] == k && i < n + 1);
        }
        if k == keys[n] {
            assert(keys[n] == k);
        }
    }
    if below(keys, n, keys[n]) {
        let i = choose|i: int| 0 <= i < n && i < keys.len() && #[trigger] keys[i] == keys[n];
        assert(keys[i] < keys[n]);
    }
}

proof fn lemma_not_below(b: RoaringBitmap, k: u128)
    requires
        b.wf(),
        !below(b.keys@, b.keys@.len() as int, k),
    ensures
        b.chunk(k) == Set::<u16>::empty(),
{
    assert forall|i: int| 0 <= i < b.keys@.len() implies #[trigger] b.keys@[i] != k by {}
    b.lemma_no_chunk(k);
}

/// Bitmaps with the same keys and the same sets have the same chunks.
proof fn lemma_same_chunk(a: RoaringBitmap, b: RoaringBitmap, k: u128)
    requires
        a.wf(),
        b.wf(),
        a.keys@ == b.keys@,
        forall|j: int| 0 <= j < a.sets@.len() ==> (#[trigger] a.sets@[j])@ == b.sets@[j]@,
    ensures
        a.chunk(k) == b.chunk(k),
{
    if exists|i: int| a.at(k, i) {
        let i = choose|i: int| a.at(k, i);
        a.lemma_chunk(i);
        b.lemma_chunk(i);
    } else {
        assert forall|i: int| 0 <= i < a.keys@.len() implies #[trigger] a.keys@[i] != k by {
            assert(!a.at(k, i));
        }
        a.lemma_no_chunk(k);
        b.lemma_no_chunk(k);
    }
}

/// A number is its two halves.
proof fn lemma_halves(v: u128, w: u128)
    ensures
        v == w <==> high(v) == high(w) && low(v) == low(w),
        high(v) <= u128::MAX / 0x1_0000,
{
}

/// What replacing, inserting or removing one container does to the others.
proof fn lemma_changed(
    before: RoaringBitmap,
    after: RoaringBitmap,
    at: int,
    key: u128,
    set: Set<u16>,
    found: bool,
    empty: bool,
)
    requires
        before.wf(),
        key <= u128::MAX / 0x1_0000,
        0 <= at <= before.keys@.len(),
        found ==> at < before.keys@.len() && before.keys@[at] == key,
        forall|i: int| 0 <= i < at ==> #[trigger] before.keys@[i] < key,
        !found ==> forall|i: int| at <= i < before.keys@.len() ==> #[trigger] before.keys@[i] > key,
        empty ==> set == Set::<u16>::empty(),
        !empty ==> !(set =~= Set::<u16>::empty()),
        found && empty ==> after.keys@ == before.keys@.remove(at) && after.sets@ == before.sets@.remove(at),
        found && !empty ==> after.keys@ == before.keys@ && after.sets@.len() == before.sets@.len() && after.sets@[at]@ == set
            && after.sets@[at].wf() && forall|i: int|
            0 <= i < before.sets@.len() && i != at ==> #[trigger] after.sets@[i] == before.sets@[i],
        !found && empty ==> after.keys@ == before.keys@ && after.sets@ == before.sets@,
        !found && !empty ==> after.keys@ == before.keys@.insert(at, key) && after.sets@.len() == before.sets@.len() + 1
            && after.sets@[at]@ == set && after.sets@[at].wf() && (forall|i: int|
            0 <= i < at ==> #[trigger] after.sets@[i] == before.sets@[i]) && (forall|i: int|
            at < i < after.sets@.len() ==> #[trigger] after.sets@[i] == before.sets@[i - 1]),
    ensures
        after.wf(),
        forall|k: u128| #[trigger] after.chunk(k) == if k == key {
            set
        } else {
            before.chunk(k)
        },
{
    if found {
        assert forall|i: int| at < i < before.keys@.len() implies #[trigger] before.keys@[i] > key by {
            assert(before.keys@[at] < before.keys@[i]);
        }
    }
    assert(after.wf());
    assert forall|k: u128| #[trigger] after.chunk(k) == if k == key {
        set
    } else {
        before.chunk(k)
    } by {
        if k == key {
            if empty {
                after.lemma_no_chunk(k);
            } else {
                after.lemma_chunk(at);
            }
        } else if exists|i: int| before.at(k, i) {
            let i = choose|i: int| before.at(k, i);
            before.lemma_chunk(i);
            let j = if found && empty && i > at {
                i - 1
            } else if !found && !empty && i >= at {
                i + 1
            } else {
                i
            };
            assert(after.keys@[j] == k);
            after.lemma_chunk(j);
        } else {
            assert forall|i: int| 0 <= i < before.keys@.len() implies #[trigger] before.keys@[i] != k by {
                assert(!before.at(k, i));
            }
            before.lemma_no_chunk(k);
            assert forall|i: int| 0 <= i < after.keys@.len() implies #[trigger] after.keys@[i] != k by {
                let j = if found && empty && i >= at {
                    i + 1
                } else if !found && !empty && i > at {
                    i - 1
                } else {
                    i
                };
                if !(!found && !empty && i == at) {
                    assert(after.keys@[i] == before.keys@[j]);
                }
            }
            after.lemma_no_chunk(k);
        }
    }
}

/// A number is split into its upper bits and its low sixteen, and is made of them again.
pub proof fn law_halves(v: u128)
    ensures
        high(v) * 0x1_0000 + low(v) == v,
        high(v) == v / 0x1_0000,
        low(v) < 0x1_0000,
{
}

/// Ascending numbers grow at every step, from the first to the last.
pub proof fn law_ascending(keys: Seq<u128>)
    ensures
        ascending(keys) <==> forall|i: int, j: int| 0 <= i < j < keys.len() ==> #[trigger] keys[i] < #[trigger] keys[j],
{
}

/// A bitmap holds a number exactly where the container of its upper bits holds its low
/// ones.
pub proof fn law_members(b: RoaringBitmap, v: u128)
    ensures
        b@.contains(v) <==> b.chunk((v / 0x1_0000) as u128).contains((v % 0x1_0000) as u16),
{
}

/// A value is found after it was inserted and not after it was removed, whether another one
/// is found does not change, and what is returned says whether anything did. Nothing is
/// found in a new or cleared set.
pub proof fn law_insert_and_remove(
    b: &mut RoaringBitmap,
    d: &mut RoaringBitmap,
    e: &mut RoaringBitmap,
    fresh: RoaringBitmap,
    v: u128,
    inserted: bool,
    removed: bool,
    w: u128,
    before: bool,
    after: bool,
)
    requires
        old(b).wf(),
        call_ensures(RoaringBitmap::insert, (b, v), inserted),
        old(d).wf(),
        call_ensures(RoaringBitmap::remove, (d, v), removed),
        call_ensures(RoaringBitmap::clear, (e,), ()),
        call_ensures(RoaringBitmap::new, (), fresh),
    ensures
        call_ensures(RoaringBitmap::contains, (&*old(b), w), before) && call_ensures(
            RoaringBitmap::contains,
            (&*final(b), w),
            after,
        ) ==> after == (before || w == v) && (w == v ==> inserted == !before),
        call_ensures(RoaringBitmap::contains, (&*old(d), w), before) && call_ensures(
            RoaringBitmap::contains,
            (&*final(d), w),
            after,
        ) ==> after == (before && w != v) && (w == v ==> removed == before),
        call_ensures(RoaringBitmap::contains, (&*final(e), w), after) ==> !after,
        call_ensures(RoaringBitmap::contains, (&fresh, w), after) ==> !after,
{
}

/// A value is found in the intersection, union and difference of two sets as it should be.
pub proof fn law_set_operations(
    a: &RoaringBitmap,
    b: &RoaringBitmap,
    both: RoaringBitmap,
    either: RoaringBitmap,
    only: RoaringBitmap,
    same: RoaringBitmap,
    w: u128,
    in_a: bool,
    in_b: bool,
    in_both: bool,
    in_either: bool,
    in_only: bool,
    in_same: bool,
)
    requires
        a.wf(),
        b.wf(),
        call_ensures(RoaringBitmap::and, (a, b), both),
        call_ensures(RoaringBitmap::or, (a, b), either),
        call_ensures(RoaringBitmap::and_not, (a, b), only),
        call_ensures(RoaringBitmap::copy, (a,), same),
        call_ensures(RoaringBitmap::contains, (a, w), in_a),
        call_ensures(RoaringBitmap::contains, (b, w), in_b),
        call_ensures(RoaringBitmap::contains, (&both, w), in_both),
        call_ensures(RoaringBitmap::contains, (&either, w), in_either),
        call_ensures(RoaringBitmap::contains, (&only, w), in_only),
        call_ensures(RoaringBitmap::contains, (&same, w), in_same),
    ensures
        in_both == (in_a && in_b),
        in_either == (in_a || in_b),
        in_only == (in_a && !in_b),
        in_same == in_a,
{
}

/// The operations in place give what the others give, and optimizing a set changes nothing
/// of what is found in it.
pub proof fn law_set_operations_in_place(
    a: &mut RoaringBitmap,
    c: &mut RoaringBitmap,
    d: &mut RoaringBitmap,
    e: &mut RoaringBitmap,
    b: &RoaringBitmap,
    w: u128,
    before: bool,
    in_b: bool,
    after: bool,
)
    requires
        old(a).wf(),
        old(c).wf(),
        old(d).wf(),
        old(e).wf(),
        b.wf(),
        call_ensures(RoaringBitmap::and_inplace, (a, b), ()),
        call_ensures(RoaringBitmap::or_inplace, (c, b), ()),
        call_ensures(RoaringBitmap::and_not_inplace, (d, b), ()),
        call_ensures(RoaringBitmap::optimize, (e,), ()),
        call_ensures(RoaringBitmap::contains, (b, w), in_b),
    ensures
        call_ensures(RoaringBitmap::contains, (&*old(a), w), before) && call_ensures(
            RoaringBitmap::contains,
            (&*final(a), w),
            after,
        ) ==> after == (before && in_b),
        call_ensures(RoaringBitmap::contains, (&*old(c), w), before) && call_ensures(
            RoaringBitmap::contains,
            (&*final(c), w),
            after,
        ) ==> after == (before || in_b),
        call_ensures(RoaringBitmap::contains, (&*old(d), w), before) && call_ensures(
            RoaringBitmap::contains,
            (&*final(d), w),
            after,
        ) ==> after == (before && !in_b),
        call_ensures(RoaringBitmap::contains, (&*old(e), w), before) && call_ensures(
            RoaringBitmap::contains,
            (&*final(e), w),
            after,
        ) ==> after == before,
{
}

/// The values of a set come in ascending order, each once, and are those that are found in
/// it; their number, the least and the greatest are those of the set. A set made of values
/// has exactly those.
pub proof fn law_listed_values(
    b: &RoaringBitmap,
    out: Vec<u128>,
    n: usize,
    least: Option<u128>,
    greatest: Option<u128>,
    empty: bool,
    w: u128,
    found: bool,
    values: &[u128],
    made: RoaringBitmap,
    in_made: bool,
)
    requires
        b.wf(),
        call_ensures(RoaringBitmap::to_values, (b,), out),
        call_ensures(RoaringBitmap::cardinality, (b,), n),
        call_ensures(RoaringBitmap::min, (b,), least),
        call_ensures(RoaringBitmap::max, (b,), greatest),
        call_ensures(RoaringBitmap::is_empty, (b,), empty),
        call_ensures(RoaringBitmap::contains, (b, w), found),
        call_ensures(RoaringBitmap::from_values, (values,), made),
        call_ensures(RoaringBitmap::contains, (&made, w), in_made),
    ensures
        found <==> exists|i: int| 0 <= i < out@.len() && #[trigger] out@[i] == w,
        forall|i: int, j: int| 0 <= i < j < out@.len() ==> #[trigger] out@[i] < #[trigger] out@[j],
        n == out@.len(),
        empty <==> out@.len() == 0,
        least is None <==> out@.len() == 0,
        greatest is None <==> out@.len() == 0,
        least matches Some(m) ==> out@[0] == m,
        greatest matches Some(m) ==> out@.last() == m,
        in_made <==> exists|i: int| 0 <= i < values@.len() && #[trigger] values@[i] == w,
{
    if out@.len() == 0 {
        assert(b@ =~= Set::<u128>::empty()) by {
            assert forall|v: u128| !b@.contains(v) by {
                assert(!out@.contains(v));
            }
        }
    } else {
        assert(out@.contains(out@[0]));
        assert(out@.contains(out@.last()));
        assert(b@.contains(out@[0]) && b@.contains(out@.last()));
        if let Some(m) = least {
            assert(out@.contains(m));
            let j = choose|j: int| 0 <= j < out@.len() && out@[j] == m;
            assert(out@[0] <= out@[j]);
        }
        if let Some(m) = greatest {
            assert(out@.contains(m));
            let j = choose|j: int| 0 <= j < out@.len() && out@[j] == m;
            assert(out@[j] <= out@.last());
        }
    }
    assert(found == out@.contains(w));
    assert(in_made == values@.contains(w));
}

} // verus!
