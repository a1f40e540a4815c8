//! Sorting positions by an order on what they stand for.

use vstd::prelude::*;
use vstd::seq_lib::group_to_multiset_ensures;

verus! {

/// A strict weak order on the positions `0 .. size`.
pub trait Ranking {
    /// Number of positions.
    spec fn size(&self) -> nat;

    /// Position `a` comes before position `b`.
    spec fn before(&self, a: int, b: int) -> bool;

    /// Coming not after is transitive.
    proof fn lemma_not_after(&self, a: int, b: int, c: int)
        requires
            !self.before(b, a),
            !self.before(c, b),
        ensures
            !self.before(c, a),
    ;

    /// Two positions do not come before each other.
    proof fn lemma_one_way(&self, a: int, b: int)
        ensures
            !(self.before(a, b) && self.before(b, a)),
    ;

    /// Whether position `a` comes before position `b`.
    fn is_before(&self, a: usize, b: usize) -> (yes: bool)
        requires
            a < self.size(),
            b < self.size(),
        ensures
            yes == self.before(a as int, b as int),
    ;
}

/// No later position comes before an earlier one.
pub open spec fn in_order<R: Ranking>(r: &R, s: Seq<usize>) -> bool {
    forall|i: int, j: int| 0 <= i < j < s.len() ==> !r.before(#[trigger] s[j] as int, #[trigger] s[i] as int)
}

/// All positions are in range.
pub open spec fn in_range<R: Ranking>(r: &R, s: Seq<usize>) -> bool {
    forall|i: int| 0 <= i < s.len() ==> (#[trigger] s[i]) < r.size()
}

/// `s` lists the positions `0 .. n`, each once.
pub open spec fn is_permutation(s: Seq<usize>, n: nat) -> bool {
    &&& s.len() == n
    &&& s.no_duplicates()
    &&& forall|i: int| 0 <= i < s.len() ==> (#[trigger] s[i]) < n
    &&& forall|x: usize| x < n ==> #[trigger] s.contains(x)
}

fn merge<R: Ranking>(r: &R, a: &Vec<usize>, b: &Vec<usize>) -> (out: Vec<usize>)
    requires
        in_range(r, a@),
        in_range(r, b@),
        in_order(r, a@),
        in_order(r, b@),
    ensures
        in_range(r, out@),
        in_order(r, out@),
        out@.to_multiset() == a@.to_multiset().add(b@.to_multiset()),
{
    let mut out: Vec<usize> = Vec::new();
    let mut i: usize = 0;
    let mut j: usize = 0;
    proof {
        assert(a@.take(0) =~= Seq::<usize>::empty());
        assert(b@.take(0) =~= Seq::<usize>::empty());
        Seq::<usize>::empty().to_multiset_ensures();
        assert(out@.to_multiset() =~= a@.take(0).to_multiset().add(b@.take(0).to_multiset()));
    }
    while i < a.len() || j < b.len()
        invariant
            i <= a@.len(),
            j <= b@.len(),
            in_range(r, a@),
            in_range(r, b@),
            in_order(r, a@),
            in_order(r, b@),
            in_range(r, out@),
            in_order(r, out@),
            forall|p: int, q: int|
                0 <= p < out@.len() && i <= q < a@.len() ==> !r.before(
                    #[trigger] a@[q] as int,
                    #[trigger] out@[p] as int,
                ),
            forall|p: int, q: int|
                0 <= p < out@.len() && j <= q < b@.len() ==> !r.before(
                    #[trigger] b@[q] as int,
                    #[trigger] out@[p] as int,
                ),
            out@.to_multiset() == a@.take(i as int).to_multiset().add(b@.take(j as int).to_multiset()),
        decreases a@.len() - i + b@.len() - j,
    {
        broadcast use group_to_multiset_ensures;

        let ghost before = out@;
        let take_a: bool = i < a.len() && (j >= b.len() || !r.is_before(b[j], a[i]));
        if take_a {
            let x: usize = a[i];
            out.push(x);
            proof {
                assert(a@.take(i + 1) =~= a@.take(i as int).push(x));
                assert(out@ =~= before.push(x));
                assert(out@.to_multiset() =~= a@.take(i + 1).to_multiset().add(b@.take(j as int).to_multiset()));
                assert forall|p: int, q: int| 0 <= p < out@.len() && j <= q < b@.len() implies !r.before(
                    #[trigger] b@[q] as int,
                    #[trigger] out@[p] as int,
                ) by {
                    if p == before.len() {
                        if q > j {
                            assert(!r.before(b@[q] as int, b@[j as int] as int));
                            r.lemma_not_after(x as int, b@[j as int] as int, b@[q] as int);
                        }
                    }
                }
                assert forall|p: int, q: int| 0 <= p < out@.len() && i + 1 <= q < a@.len() implies !r.before(
                    #[trigger] a@[q] as int,
                    #[trigger] out@[p] as int,
                ) by {
                    if p == before.len() {
                        assert(!r.before(a@[q] as int, a@[i as int] as int));
                    }
                }
            }
            i = i + 1;
        } else {
            let x: usize = b[j];
            out.push(x);
            proof {
                assert(b@.take(j + 1) =~= b@.take(j as int).push(x));
                assert(out@ =~= before.push(x));
                assert(out@.to_multiset() =~= a@.take(i as int).to_multiset().add(b@.take(j + 1).to_multiset()));
                assert forall|p: int, q: int| 0 <= p < out@.len() && i <= q < a@.len() implies !r.before(
                    #[trigger] a@[q] as int,
                    #[trigger] out@[p] as int,
                ) by {
                    if p == before.len() {
                        r.lemma_one_way(b@[j as int] as int, a@[i as int] as int);
                        if q > i {
                            assert(!r.before(a@[q] as int, a@[i as int] as int));
                            r.lemma_not_after(x as int, a@[i as int] as int, a@[q] as int);
                        }
                    }
                }
                assert forall|p: int, q: int| 0 <= p < out@.len() && j + 1 <= q < b@.len() implies !r.before(
                    #[trigger] b@[q] as int,
                    #[trigger] out@[p] as int,
                ) by {
                    if p == before.len() {
                        assert(!r.before(b@[q] as int, b@[j as int] as int));
                    }
                }
            }
            j = j + 1;
        }
    }
    proof {
        assert(a@.take(i as int) =~= a@);
        assert(b@.take(j as int) =~= b@);
    }
    out
}

fn merge_sort<R: Ranking>(r: &R, from: usize, to: usize) -> (out: Vec<usize>)
    requires
        from <= to <= r.size(),
    ensures
        in_range(r, out@),
        in_order(r, out@),
        out@.to_multiset() == positions(from as int, to as int).to_multiset(),
    decreases to - from,
{
    let mut out: Vec<usize> = Vec::new();
    if from == to {
        proof {
            assert(positions(from as int, to as int) =~= out@);
        }
        return out;
    }
    if to - from == 1 {
        out.push(from);
        proof {
            assert(positions(from as int, to as int) =~= out@);
        }
        return out;
    }
    let mid: usize = from + (to - from) / 2;
    let a = merge_sort(r, from, mid);
    let b = merge_sort(r, mid, to);
    proof {
        let (x, y) = (positions(from as int, mid as int), positions(mid as int, to as int));
        vstd::seq_lib::lemma_multiset_commutative(x, y);
        assert(x + y =~= positions(from as int, to as int));
    }
    merge(r, &a, &b)
}

/// The positions `from .. to`, ascending.
pub open spec fn positions(from: int, to: int) -> Seq<usize> {
    Seq::new((to - from) as nat, |i: int| (from + i) as usize)
}

/// The positions `0 .. n` in order, `n` being the size of `r`.
pub fn sorted_positions<R: Ranking>(r: &R, n: usize) -> (out: Vec<usize>)
    requires
        n == r.size(),
    ensures
        is_permutation(out@, n as nat),
        in_order(r, out@),
{
    let out = merge_sort(r, 0, n);
    proof {
        let p = positions(0, n as int);
        p.to_multiset_ensures();
        out@.to_multiset_ensures();
        p.lemma_multiset_has_no_duplicates();
        out@.lemma_multiset_has_no_duplicates_conv();
        assert forall|x: usize| x < n implies #[trigger] out@.contains(x) by {
            assert(p[x as int] == x);
            assert(p.to_multiset().count(x) > 0);
        }
    }
    out
}

/// A permutation lists every position once, and nothing else.
pub proof fn law_permutations(s: Seq<usize>, n: nat)
    ensures
        is_permutation(s, n) ==> s.len() == n && s.no_duplicates() && (forall|x: usize|
            #[trigger] s.contains(x) <==> x < n),
{
    if is_permutation(s, n) {
        assert forall|x: usize| #[trigger] s.contains(x) <==> x < n by {
            if s.contains(x) {
                let i = choose|i: int| 0 <= i < s.len() && s[i] == x;
                assert(s[i] < n);
            }
        }
    }
}

} // verus!
