//! Bounds of key ranges.

use vstd::prelude::*;

use crate::bytes::copy_bytes;
use crate::lex::{is_prefix, lemma_lex_at, lemma_lex_irreflexive, lemma_lex_total, lemma_prefix_le, lex_le, lex_lt};

verus! {

/// The smallest key greater than `key`: `key` with a zero byte behind it.
pub fn successor_key(key: &[u8]) -> (next: Vec<u8>)
    ensures
        next@ == key@.push(0),
{
    let mut next: Vec<u8> = copy_bytes(key);
    next.push(0);
    next
}

/// The successor of a key is greater, and no key lies between.
pub proof fn law_successor_is_next(key: Seq<u8>, other: Seq<u8>)
    ensures
        lex_lt(key, key.push(0)),
        lex_lt(key, other) <==> lex_le(key.push(0), other),
{
    let next = key.push(0);
    lemma_lex_at(key, next, key.len() as int);
    lemma_lex_total(next, other);
    lemma_lex_irreflexive(other);
    if lex_lt(key, other) && lex_lt(other, next) {
        let k = lemma_common(other, next);
        lemma_lex_at(other, next, k);
        if k < key.len() {
            assert forall|j: int| 0 <= j < k implies key[j] == other[j] by {
                assert(next[j] == other[j]);
            }
            lemma_lex_at(key, other, k);
        } else {
            assert(k == key.len());
            assert forall|j: int| 0 <= j < k implies key[j] == other[j] by {
                assert(next[j] == other[j]);
            }
            lemma_lex_at(key, other, k);
        }
    }
    if lex_le(next, other) && !lex_lt(key, other) {
        crate::lex::lemma_lex_total(key, other);
        if lex_lt(next, other) {
            crate::lex::lemma_lex_transitive(key, next, other);
        }
    }
}

/// Length of the common prefix of two strings.
proof fn lemma_common(a: Seq<u8>, b: Seq<u8>) -> (k: int)
    ensures
        0 <= k <= a.len(),
        k <= b.len(),
        forall|j: int| 0 <= j < k ==> a[j] == b[j],
        k < a.len() && k < b.len() ==> a[k] != b[k],
    decreases a.len(),
{
    if a.len() == 0 || b.len() == 0 || a[0] != b[0] {
        0
    } else {
        let (x, y) = (a.subrange(1, a.len() as int), b.subrange(1, b.len() as int));
        let k = lemma_common(x, y);
        assert forall|j: int| 0 <= j < k + 1 implies a[j] == b[j] by {
            if j > 0 {
                assert(x[j - 1] == y[j - 1]);
            }
        }
        k + 1
    }
}

/// `prefix` without its trailing `0xff` bytes has this length.
pub open spec fn stem_len(prefix: Seq<u8>) -> nat
    decreases prefix.len(),
{
    if prefix.len() == 0 {
        0
    } else if prefix.last() == 0xff {
        stem_len(prefix.drop_last())
    } else {
        prefix.len()
    }
}

/// The smallest byte string above every string that starts with `prefix`; none
/// where there is no such string.
pub open spec fn upper_bound(prefix: Seq<u8>) -> Option<Seq<u8>> {
    let n = stem_len(prefix);
    if n == 0 {
        None
    } else {
        Some(prefix.take(n - 1).push((prefix[n - 1] + 1) as u8))
    }
}

proof fn lemma_stem(prefix: Seq<u8>)
    ensures
        stem_len(prefix) <= prefix.len(),
        stem_len(prefix) > 0 ==> prefix[stem_len(prefix) - 1] < 0xff,
        forall|j: int| stem_len(prefix) <= j < prefix.len() ==> prefix[j] == 0xff,
    decreases prefix.len(),
{
    if prefix.len() > 0 && prefix.last() == 0xff {
        lemma_stem(prefix.drop_last());
        assert forall|j: int| stem_len(prefix) <= j < prefix.len() implies prefix[j] == 0xff by {
            if j < prefix.len() - 1 {
                assert(prefix.drop_last()[j] == prefix[j]);
            }
        }
    }
}

/// The exclusive upper bound of the keys that start with `prefix`; none where the
/// range is open.
pub fn prefix_upper_bound(prefix: &[u8]) -> (bound: Option<Vec<u8>>)
    ensures
        bound is Some <==> upper_bound(prefix@) is Some,
        bound is Some ==> bound->0@ == upper_bound(prefix@)->0,
{
    let mut n: usize = prefix.len();
    proof {
        assert(prefix@.take(n as int) =~= prefix@);
    }
    while n > 0 && prefix[n - 1] == 0xff
        invariant
            n <= prefix@.len(),
            stem_len(prefix@) == stem_len(prefix@.take(n as int)),
        decreases n,
    {
        proof {
            assert(prefix@.take(n as int).drop_last() =~= prefix@.take(n - 1));
        }
        n = n - 1;
    }
    if n == 0 {
        return None;
    }
    let mut out: Vec<u8> = Vec::with_capacity(n);
    let mut i: usize = 0;
    while i < n - 1
        invariant
            i < n <= prefix@.len(),
            out@ =~= prefix@.take(i as int),
        decreases n - i,
    {
        out.push(prefix[i]);
        i = i + 1;
    }
    out.push(prefix[n - 1] + 1);
    Some(out)
}

/// The keys that start with `prefix` are those from `prefix` on and below its
/// upper bound.
pub proof fn law_prefix_is_a_range(prefix: Seq<u8>, key: Seq<u8>)
    ensures
        is_prefix(prefix, key) <==> lex_le(prefix, key) && (upper_bound(prefix) matches Some(b) ==> lex_lt(key, b)),
{
    lemma_stem(prefix);
    let n = stem_len(prefix) as int;
    if is_prefix(prefix, key) {
        lemma_prefix_le(prefix, key);
        if n > 0 {
            let b = upper_bound(prefix)->0;
            assert forall|j: int| 0 <= j < n - 1 implies key[j] == b[j] by {
                assert(key.subrange(0, prefix.len() as int)[j] == key[j]);
            }
            assert(key.subrange(0, prefix.len() as int)[n - 1] == key[n - 1]);
            lemma_lex_at(key, b, n - 1);
        }
    }
    if lex_le(prefix, key) && (upper_bound(prefix) matches Some(b) ==> lex_lt(key, b)) {
        if prefix != key {
            let k = lemma_common(prefix, key);
            lemma_lex_at(prefix, key, k);
            if k < prefix.len() {
                assert(k < key.len() && prefix[k] < key[k]);
                assert(k < n);
                let b = upper_bound(prefix)->0;
                if k < n - 1 {
                    assert forall|j: int| 0 <= j < k implies key[j] == b[j] by {
                        assert(prefix[j] == key[j]);
                    }
                    lemma_lex_at(key, b, k);
                } else {
                    assert forall|j: int| 0 <= j < k implies key[j] == b[j] by {
                        assert(prefix[j] == key[j]);
                    }
                    lemma_lex_at(key, b, k);
                    if key[k] == b[k] {
                        assert forall|j: int| 0 <= j < b.len() implies key[j] == b[j] by {
                            if j < k {
                                assert(prefix[j] == key[j]);
                            }
                        }
                        lemma_lex_at(key, b, b.len() as int);
                    }
                }
            } else {
                assert(key.subrange(0, prefix.len() as int) =~= prefix);
            }
        } else {
            assert(key.subrange(0, prefix.len() as int) =~= prefix);
        }
    }
}

/// A scan of a prefix: the keys from the prefix on and below its bound, or all from it on
/// where it has none, are exactly those that start with it.
pub proof fn law_prefix_scans(prefix: &[u8], bound: Option<Vec<u8>>, key: Seq<u8>)
    requires
        call_ensures(prefix_upper_bound, (prefix,), bound),
    ensures
        prefix@.len() <= key.len() && key.take(prefix@.len() as int) == prefix@ <==> (prefix@ == key || lex_lt(
            prefix@,
            key,
        )) && (bound matches Some(b) ==> lex_lt(key, b@)),
{
    law_prefix_is_a_range(prefix@, key);
    crate::lex::law_order_and_prefixes(prefix@, key);
}

/// The successor of a key comes directly behind it: no key lies between.
pub proof fn law_successors(key: &[u8], next: Vec<u8>, other: Seq<u8>)
    requires
        call_ensures(successor_key, (key,), next),
    ensures
        lex_lt(key@, next@),
        lex_lt(key@, other) <==> next@ == other || lex_lt(next@, other),
{
    law_successor_is_next(key@, other);
}

} // verus!
