//! Lexicographic order of byte strings.

use vstd::prelude::*;

verus! {

/// `a` comes before `b`.
pub open spec fn lex_lt(a: Seq<u8>, b: Seq<u8>) -> bool
    decreases a.len(),
{
    if b.len() == 0 {
        false
    } else if a.len() == 0 {
        true
    } else if a[0] != b[0] {
        a[0] < b[0]
    } else {
        lex_lt(a.subrange(1, a.len() as int), b.subrange(1, b.len() as int))
    }
}

/// `a` comes before `b` or equals it.
pub open spec fn lex_le(a: Seq<u8>, b: Seq<u8>) -> bool {
    lex_lt(a, b) || a == b
}

/// `p` is a prefix of `s`.
pub open spec fn is_prefix(p: Seq<u8>, s: Seq<u8>) -> bool {
    p.len() <= s.len() && s.subrange(0, p.len() as int) == p
}

pub proof fn lemma_lex_irreflexive(a: Seq<u8>)
    ensures
        !lex_lt(a, a),
    decreases a.len(),
{
    if a.len() > 0 {
        lemma_lex_irreflexive(a.subrange(1, a.len() as int));
    }
}

pub proof fn lemma_lex_transitive(a: Seq<u8>, b: Seq<u8>, c: Seq<u8>)
    requires
        lex_lt(a, b),
        lex_lt(b, c),
    ensures
        lex_lt(a, c),
    decreases a.len(),
{
    if a.len() > 0 && a[0] == b[0] && b[0] == c[0] {
        lemma_lex_transitive(
            a.subrange(1, a.len() as int),
            b.subrange(1, b.len() as int),
            c.subrange(1, c.len() as int),
        );
    }
}

/// Any two byte strings are comparable.
pub proof fn lemma_lex_total(a: Seq<u8>, b: Seq<u8>)
    ensures
        lex_lt(a, b) || lex_lt(b, a) || a == b,
        !(lex_lt(a, b) && lex_lt(b, a)),
    decreases a.len(),
{
    if a.len() == 0 && b.len() == 0 {
        assert(a =~= b);
    } else if a.len() > 0 && b.len() > 0 && a[0] == b[0] {
        let (x, y) = (a.subrange(1, a.len() as int), b.subrange(1, b.len() as int));
        lemma_lex_total(x, y);
        if x == y {
            assert(a =~= seq![a[0]] + x);
            assert(b =~= seq![b[0]] + y);
        }
    }
}

/// Where two strings first differ decides.
pub proof fn lemma_lex_at(a: Seq<u8>, b: Seq<u8>, k: int)
    requires
        0 <= k <= a.len(),
        k <= b.len(),
        forall|j: int| 0 <= j < k ==> a[j] == b[j],
    ensures
        k == a.len() && k < b.len() ==> lex_lt(a, b),
        k == b.len() ==> !lex_lt(a, b),
        k < a.len() && k < b.len() && a[k] != b[k] ==> lex_lt(a, b) == (a[k] < b[k]),
        lex_lt(a, b) == lex_lt(a.subrange(k, a.len() as int), b.subrange(k, b.len() as int)),
    decreases k,
{
    if k > 0 {
        let (x, y) = (a.subrange(1, a.len() as int), b.subrange(1, b.len() as int));
        assert forall|j: int| 0 <= j < k - 1 implies x[j] == y[j] by {
            assert(a[j + 1] == b[j + 1]);
        }
        lemma_lex_at(x, y, k - 1);
        assert(x.subrange(k - 1, x.len() as int) =~= a.subrange(k, a.len() as int));
        assert(y.subrange(k - 1, y.len() as int) =~= b.subrange(k, b.len() as int));
    } else {
        assert(a.subrange(0, a.len() as int) =~= a);
        assert(b.subrange(0, b.len() as int) =~= b);
    }
}

/// The order of the dictionary: at the first byte in which they differ the smaller one
/// comes first, and what ends there comes before what goes on.
pub proof fn law_dictionary_order(a: Seq<u8>, b: Seq<u8>)
    ensures
        lex_lt(a, b) <==> exists|k: int|
            #![trigger a.take(k)]
            0 <= k <= a.len() && k < b.len() && a.take(k) == b.take(k) && (k == a.len() || a[k] < b[k]),
    decreases a.len(),
{
    if exists|k: int|
        #![trigger a.take(k)]
        0 <= k <= a.len() && k < b.len() && a.take(k) == b.take(k) && (k == a.len() || a[k] < b[k]) {
        let k = choose|k: int|
            #![trigger a.take(k)]
            0 <= k <= a.len() && k < b.len() && a.take(k) == b.take(k) && (k == a.len() || a[k] < b[k]);
        assert forall|j: int| 0 <= j < k implies a[j] == b[j] by {
            assert(a.take(k)[j] == b.take(k)[j]);
        }
        lemma_lex_at(a, b, k);
    }
    if lex_lt(a, b) {
        if a.len() == 0 || a[0] != b[0] {
            assert(a.take(0) =~= b.take(0));
        } else {
            let (x, y) = (a.subrange(1, a.len() as int), b.subrange(1, b.len() as int));
            law_dictionary_order(x, y);
            let k = choose|k: int|
                #![trigger x.take(k)]
                0 <= k <= x.len() && k < y.len() && x.take(k) == y.take(k) && (k == x.len() || x[k] < y[k]);
            assert(a.take(k + 1) =~= seq![a[0]] + x.take(k));
            assert(b.take(k + 1) =~= seq![b[0]] + y.take(k));
        }
    }
}

/// Whether `a` comes before `b`.
pub fn lex_less(a: &[u8], b: &[u8]) -> (less: bool)
    ensures
        less == lex_lt(a@, b@),
{
    let mut k: usize = 0;
    while k < a.len() && k < b.len() && a[k] == b[k]
        invariant
            k <= a@.len(),
            k <= b@.len(),
            forall|j: int| 0 <= j < k ==> a@[j] == b@[j],
        decreases a@.len() - k,
    {
        k = k + 1;
    }
    proof {
        lemma_lex_at(a@, b@, k as int);
    }
    if k == b.len() {
        false
    } else if k == a.len() {
        true
    } else {
        a[k] < b[k]
    }
}

/// Whether `a` comes before `b` or equals it.
pub fn lex_less_eq(a: &[u8], b: &[u8]) -> (yes: bool)
    ensures
        yes == lex_le(a@, b@),
{
    proof {
        lemma_lex_total(a@, b@);
        lemma_lex_irreflexive(a@);
    }
    !lex_less(b, a)
}

/// A prefix comes before what it is a proper prefix of.
pub proof fn lemma_prefix_le(p: Seq<u8>, s: Seq<u8>)
    requires
        is_prefix(p, s),
    ensures
        lex_le(p, s),
{
    assert forall|j: int| 0 <= j < p.len() implies p[j] == s[j] by {
        assert(s.subrange(0, p.len() as int)[j] == s[j]);
    }
    lemma_lex_at(p, s, p.len() as int);
    if p.len() == s.len() {
        assert(p =~= s);
    }
}

/// Coming not after is coming before or being equal, so that of any two byte strings
/// exactly one comes before the other or they are equal. A prefix is the beginning of a
/// string.
pub proof fn law_order_and_prefixes(a: Seq<u8>, b: Seq<u8>)
    ensures
        lex_le(a, b) <==> a == b || lex_lt(a, b),
        lex_le(a, b) <==> !lex_lt(b, a),
        is_prefix(a, b) <==> a.len() <= b.len() && b.take(a.len() as int) == a,
{
    lemma_lex_total(a, b);
    lemma_lex_irreflexive(a);
    if a.len() <= b.len() {
        assert(b.take(a.len() as int) =~= b.subrange(0, a.len() as int));
    }
}

/// Comparing byte strings: the first byte in which they differ decides, and where there is
/// none the shorter one comes first; of two different strings exactly one comes first.
pub proof fn law_comparisons(a: &[u8], b: &[u8], less: bool, greater: bool, less_eq: bool)
    requires
        call_ensures(lex_less, (a, b), less),
        call_ensures(lex_less, (b, a), greater),
        call_ensures(lex_less_eq, (a, b), less_eq),
    ensures
        less <==> exists|k: int|
            #![trigger a@.take(k)]
            0 <= k <= a@.len() && k < b@.len() && a@.take(k) == b@.take(k) && (k == a@.len() || a@[k] < b@[k]),
        less_eq == !greater,
        a@ != b@ ==> less == !greater,
        a@ == b@ ==> !less && !greater,
{
    law_dictionary_order(a@, b@);
    lemma_lex_total(a@, b@);
}

} // verus!
