//! Facts about sequences shared by the other modules.

use vstd::prelude::*;

verus! {

/// Strictly increasing values.
pub open spec fn increasing(s: Seq<u16>) -> bool {
    forall|i: int, j: int| 0 <= i < j < s.len() ==> s[i] < s[j]
}

pub proof fn lemma_push_contains<A>(s: Seq<A>, a: A, x: A)
    ensures
        s.push(a).contains(x) <==> s.contains(x) || x == a,
{
    let t = s.push(a);
    if s.contains(x) {
        let i = choose|i: int| 0 <= i < s.len() && s[i] == x;
        assert(t[i] == x);
    }
    if x == a {
        assert(t[s.len() as int] == x);
    }
    if t.contains(x) {
        let i = choose|i: int| 0 <= i < t.len() && t[i] == x;
        if i < s.len() {
            assert(s[i] == x);
        }
    }
}

/// Appending a value above all the others keeps a sequence increasing.
pub proof fn lemma_push_increasing(s: Seq<u16>, v: u16)
    requires
        increasing(s),
        forall|u: u16| #[trigger] s.contains(u) ==> u < v,
    ensures
        increasing(s.push(v)),
{
    let t = s.push(v);
    assert forall|i: int, j: int| 0 <= i < j < t.len() implies t[i] < t[j] by {
        assert(s.contains(s[i]));
    }
}

/// `out` lists, in increasing order, the values of `list` that `keep` holds.
pub open spec fn filtered(out: Seq<u16>, list: Seq<u16>, keep: Set<u16>) -> bool {
    &&& increasing(out)
    &&& forall|v: u16| #[trigger] out.contains(v) <==> list.contains(v) && keep.contains(v)
}

/// One more value of an increasing list.
pub proof fn lemma_filtered_step(out: Seq<u16>, list: Seq<u16>, i: int, keep: Set<u16>)
    requires
        0 <= i < list.len(),
        increasing(list),
        filtered(out, list.take(i), keep),
    ensures
        keep.contains(list[i]) ==> filtered(out.push(list[i]), list.take(i + 1), keep),
        !keep.contains(list[i]) ==> filtered(out, list.take(i + 1), keep),
{
    let v = list[i];
    assert(list.take(i + 1) =~= list.take(i).push(v));
    assert forall|u: u16| list.take(i).contains(u) implies u < v by {}
    assert forall|u: u16|
        list.take(i + 1).contains(u) == (list.take(i).contains(u) || u == v) by {
        lemma_push_contains(list.take(i), v, u);
    }
    if keep.contains(v) {
        assert forall|u: u16| #[trigger] out.contains(u) implies u < v by {}
        lemma_push_increasing(out, v);
        assert forall|u: u16| #[trigger]
            out.push(v).contains(u) <==> list.take(i + 1).contains(u) && keep.contains(u) by {
            lemma_push_contains(out, v, u);
        }
    }
}

/// `out` lists, in increasing order, the first `i` values of `a` and the first
/// `j` of `b`, all of them below those that remain.
pub open spec fn merged(out: Seq<u16>, a: Seq<u16>, i: int, b: Seq<u16>, j: int) -> bool {
    &&& increasing(out)
    &&& forall|v: u16| #[trigger] out.contains(v) <==> a.take(i).contains(v) || b.take(j).contains(v)
    &&& i < a.len() ==> forall|v: u16| #[trigger] out.contains(v) ==> v < a[i]
    &&& j < b.len() ==> forall|v: u16| #[trigger] out.contains(v) ==> v < b[j]
}

/// The smaller head of two increasing lists comes next; equal heads come once.
pub proof fn lemma_merged_step(out: Seq<u16>, a: Seq<u16>, i: int, b: Seq<u16>, j: int)
    requires
        0 <= i <= a.len(),
        0 <= j <= b.len(),
        i < a.len() || j < b.len(),
        increasing(a),
        increasing(b),
        merged(out, a, i, b, j),
    ensures
        ({
            let take_a = i < a.len() && (j >= b.len() || a[i] <= b[j]);
            let take_b = j < b.len() && (i >= a.len() || b[j] <= a[i]);
            let v = if take_a {
                a[i]
            } else {
                b[j]
            };
            merged(
                out.push(v),
                a,
                if take_a {
                    i + 1
                } else {
                    i
                },
                b,
                if take_b {
                    j + 1
                } else {
                    j
                },
            )
        }),
{
    let take_a = i < a.len() && (j >= b.len() || a[i] <= b[j]);
    let take_b = j < b.len() && (i >= a.len() || b[j] <= a[i]);
    let v = if take_a {
        a[i]
    } else {
        b[j]
    };
    let ni = if take_a {
        i + 1
    } else {
        i
    };
    let nj = if take_b {
        j + 1
    } else {
        j
    };
    lemma_push_increasing(out, v);
    if take_a {
        assert(a.take(i + 1) =~= a.take(i).push(a[i]));
    }
    if take_b {
        assert(b.take(j + 1) =~= b.take(j).push(b[j]));
    }
    assert forall|u: u16| #[trigger]
        out.push(v).contains(u) <==> a.take(ni).contains(u) || b.take(nj).contains(u) by {
        lemma_push_contains(out, v, u);
        if take_a {
            lemma_push_contains(a.take(i), a[i], u);
        }
        if take_b {
            lemma_push_contains(b.take(j), b[j], u);
        }
    }
    assert forall|u: u16| #[trigger] out.push(v).contains(u) implies u <= v by {
        lemma_push_contains(out, v, u);
    }
}

/// Increasing values grow at every step, from the first to the last.
pub proof fn law_increasing(s: Seq<u16>)
    ensures
        increasing(s) <==> forall|i: int, j: int| 0 <= i < j < s.len() ==> #[trigger] s[i] < #[trigger] s[j],
{
}

} // verus!
