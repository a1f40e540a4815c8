//! Open addressing with linear probing, as a property of the slot sequence.

use vstd::prelude::*;

use super::layout::{Slot, STATE_EMPTY, STATE_OCCUPIED, STATE_TOMBSTONE};

verus! {

/// Position `n` steps after `start` in a ring of `cap` slots.
pub open spec fn ring(cap: int, start: int, n: int) -> int {
    if start + n < cap {
        start + n
    } else {
        start + n - cap
    }
}

/// Number of steps from `start` to `i` in a ring of `cap` slots.
pub open spec fn ring_steps(cap: int, start: int, i: int) -> int {
    if start <= i {
        i - start
    } else {
        i + cap - start
    }
}

/// Rotation to the left.
pub open spec fn rotl(x: u64, n: u64) -> u64 {
    (x << n) | (x >> ((64 - n) as u64))
}

/// The hash of a key: its two halves mixed by a rotation and a multiplication.
pub open spec fn key_hash(key: u128) -> u64 {
    let lo = (key % 0x1_0000_0000_0000_0000) as u64;
    let hi = (key / 0x1_0000_0000_0000_0000) as u64;
    let sum = (lo + rotl(hi, 17)) % 0x1_0000_0000_0000_0000;
    let product = (sum * 0x9e3779b97f4a7c15) % 0x1_0000_0000_0000_0000;
    ((product + (hi ^ rotl(lo, 51))) % 0x1_0000_0000_0000_0000) as u64
}

/// First slot that a key may occupy.
pub open spec fn home(key: u128, cap: int) -> int {
    key_hash(key) as int % cap
}

/// The slot `n` steps into the probe sequence of `key`.
pub open spec fn probed(t: Seq<Slot>, key: u128, n: int) -> Slot {
    t[ring(t.len() as int, home(key, t.len() as int), n)]
}

/// The slot holds an entry for `key`.
pub open spec fn holds(s: Slot, key: u128) -> bool {
    s.state == STATE_OCCUPIED && s.key == key
}

/// The slot may take a new entry.
pub open spec fn vacant(s: Slot) -> bool {
    s.state == STATE_EMPTY || s.state == STATE_TOMBSTONE
}

/// Probing for `key` goes past the first `n` slots of its sequence.
pub open spec fn passes(t: Seq<Slot>, key: u128, n: int) -> bool {
    forall|m: int|
        0 <= m < n ==> (#[trigger] probed(t, key, m)).state != STATE_EMPTY && !holds(probed(t, key, m), key)
}

/// Probing for `key` ends at step `n`, on an entry for it.
pub open spec fn hits(t: Seq<Slot>, key: u128, n: int) -> bool {
    0 <= n < t.len() && passes(t, key, n) && holds(probed(t, key, n), key)
}

/// Probing for `key` ends on slot `i`, which holds it.
pub open spec fn found_at(t: Seq<Slot>, key: u128, i: int) -> bool {
    0 <= i < t.len() && hits(t, key, ring_steps(t.len() as int, home(key, t.len() as int), i))
}

/// The slot that probing for `key` finds.
pub open spec fn lookup(t: Seq<Slot>, key: u128) -> Option<int> {
    if exists|i: int| found_at(t, key, i) {
        Some(choose|i: int| found_at(t, key, i))
    } else {
        None
    }
}

/// Where a new entry for `key` goes: the first vacant slot of its sequence, or
/// its first slot in a table without vacancies.
pub open spec fn insertion_at(t: Seq<Slot>, key: u128, i: int) -> bool {
    let cap = t.len() as int;
    let steps = ring_steps(cap, home(key, cap), i);
    &&& 0 <= i < cap
    &&& if vacant(t[i]) {
        forall|m: int| 0 <= m < steps ==> !vacant(#[trigger] probed(t, key, m))
    } else {
        i == home(key, cap) && forall|j: int| 0 <= j < cap ==> !vacant(#[trigger] t[j])
    }
}

/// A new entry for `key` goes into a tombstone slot.
pub open spec fn reuses(t: Seq<Slot>, key: u128) -> bool {
    lookup(t, key) is None && exists|i: int| #[trigger] insertion_at(t, key, i) && t[i].state == STATE_TOMBSTONE
}

/// Every entry is where probing for its key finds it.
pub open spec fn table_wf(t: Seq<Slot>) -> bool {
    &&& t.len() > 0
    &&& forall|i: int|
        0 <= i < t.len() && (#[trigger] t[i]).state == STATE_OCCUPIED ==> found_at(t, t[i].key, i)
    &&& forall|i: int| 0 <= i < t.len() ==> (#[trigger] t[i]).state <= STATE_TOMBSTONE
}

/// The entries of a table by key.
pub open spec fn entries(t: Seq<Slot>) -> Map<u128, Slot> {
    Map::new(|k: u128| lookup(t, k) is Some, |k: u128| t[lookup(t, k)->0])
}

pub proof fn lemma_home(key: u128, cap: int)
    requires
        cap > 0,
    ensures
        0 <= home(key, cap) < cap,
{
    vstd::arithmetic::div_mod::lemma_mod_bound(key_hash(key) as int, cap);
}

/// Steps and positions are inverse to each other.
pub proof fn lemma_ring(cap: int, start: int, i: int)
    requires
        0 <= start < cap,
        0 <= i < cap,
    ensures
        0 <= ring_steps(cap, start, i) < cap,
        ring(cap, start, ring_steps(cap, start, i)) == i,
        ring_steps(cap, start, ring(cap, start, i)) == i,
        0 <= ring(cap, start, i) < cap,
{
}

/// A probe ends on one slot only.
pub proof fn lemma_found_unique(t: Seq<Slot>, key: u128, i: int, j: int)
    requires
        found_at(t, key, i),
        found_at(t, key, j),
    ensures
        i == j,
{
    let cap = t.len() as int;
    lemma_home(key, cap);
    lemma_ring(cap, home(key, cap), i);
    lemma_ring(cap, home(key, cap), j);
    let (a, b) = (ring_steps(cap, home(key, cap), i), ring_steps(cap, home(key, cap), j));
    if a < b {
        assert(!holds(probed(t, key, a), key));
    } else if b < a {
        assert(!holds(probed(t, key, b), key));
    }
}

/// The slot found is what `lookup` gives.
pub proof fn lemma_lookup(t: Seq<Slot>, key: u128, i: int)
    requires
        found_at(t, key, i),
    ensures
        lookup(t, key) == Some(i),
        holds(t[i], key),
{
    let j = choose|j: int| found_at(t, key, j);
    lemma_found_unique(t, key, i, j);
    lemma_home(key, t.len() as int);
    lemma_ring(t.len() as int, home(key, t.len() as int), i);
}

/// A key that probing does not find has no entry.
pub proof fn lemma_absent(t: Seq<Slot>, key: u128)
    requires
        table_wf(t),
        lookup(t, key) is None,
    ensures
        forall|i: int| 0 <= i < t.len() ==> !holds(#[trigger] t[i], key),
{
    assert forall|i: int| 0 <= i < t.len() implies !holds(#[trigger] t[i], key) by {
        if holds(t[i], key) {
            assert(found_at(t, key, i));
        }
    }
}

/// Changing one slot, not to empty, leaves what probing finds for other keys.
proof fn lemma_other_key(t: Seq<Slot>, i: int, s: Slot, k: u128, j: int)
    requires
        0 <= i < t.len(),
        0 <= j < t.len(),
        s.state != STATE_EMPTY,
        !holds(t[i], k),
        !holds(s, k),
        found_at(t, k, j),
    ensures
        found_at(t.update(i, s), k, j),
{
    let u = t.update(i, s);
    let cap = t.len() as int;
    lemma_home(k, cap);
    lemma_ring(cap, home(k, cap), j);
    let n = ring_steps(cap, home(k, cap), j);
    assert forall|m: int| 0 <= m < n implies (#[trigger] probed(u, k, m)).state != STATE_EMPTY && !holds(
        probed(u, k, m),
        k,
    ) by {
        lemma_ring(cap, home(k, cap), m);
        assert(probed(t, k, m).state != STATE_EMPTY && !holds(probed(t, k, m), k));
    }
}

/// The same backwards, where the slot was not empty before.
proof fn lemma_other_key_back(t: Seq<Slot>, i: int, s: Slot, k: u128, j: int)
    requires
        0 <= i < t.len(),
        0 <= j < t.len(),
        table_wf(t),
        !holds(t[i], k),
        !holds(s, k),
        found_at(t.update(i, s), k, j),
    ensures
        found_at(t, k, j),
{
    let u = t.update(i, s);
    let cap = t.len() as int;
    lemma_lookup(u, k, j);
    assert(j != i);
    assert(t[j] == u[j]);
    assert(t[j].key == k);
}

/// An entry put in its insertion slot is found there, and no other entry moves.
pub proof fn lemma_insert(t: Seq<Slot>, i: int, s: Slot)
    requires
        table_wf(t),
        lookup(t, s.key) is None,
        insertion_at(t, s.key, i),
        vacant(t[i]),
        s.state == STATE_OCCUPIED,
    ensures
        table_wf(t.update(i, s)),
        entries(t.update(i, s)) == entries(t).insert(s.key, s),
{
    let u = t.update(i, s);
    let key = s.key;
    let cap = t.len() as int;
    lemma_absent(t, key);
    lemma_home(key, cap);
    lemma_ring(cap, home(key, cap), i);
    let steps = ring_steps(cap, home(key, cap), i);
    assert(found_at(u, key, i)) by {
        assert forall|m: int| 0 <= m < steps implies (#[trigger] probed(u, key, m)).state != STATE_EMPTY && !holds(
            probed(u, key, m),
            key,
        ) by {
            lemma_ring(cap, home(key, cap), m);
            assert(!vacant(probed(t, key, m)));
        }
    }
    assert forall|j: int| 0 <= j < u.len() && (#[trigger] u[j]).state == STATE_OCCUPIED implies found_at(
        u,
        u[j].key,
        j,
    ) by {
        if j != i {
            assert(t[j] == u[j]);
            assert(found_at(t, t[j].key, j));
            assert(!holds(t[j], key));
            lemma_other_key(t, i, s, t[j].key, j);
        }
    }
    assert forall|k: u128| #[trigger] entries(u).dom().contains(k) == entries(t).insert(key, s).dom().contains(k) by {
        lemma_entry_update(t, i, s, k);
    }
    assert forall|k: u128| entries(u).dom().contains(k) implies #[trigger] entries(u)[k] == entries(t).insert(
        key,
        s,
    )[k] by {
        lemma_entry_update(t, i, s, k);
    }
    assert(entries(u) =~= entries(t).insert(key, s));
}

/// What one key maps to after an insertion.
proof fn lemma_entry_update(t: Seq<Slot>, i: int, s: Slot, k: u128)
    requires
        table_wf(t),
        0 <= i < t.len(),
        s.state == STATE_OCCUPIED,
        vacant(t[i]) || holds(t[i], s.key),
        found_at(t.update(i, s), s.key, i),
    ensures
        k == s.key ==> lookup(t.update(i, s), k) == Some(i),
        k != s.key ==> lookup(t.update(i, s), k) == lookup(t, k),
        k != s.key && lookup(t, k) is Some ==> t.update(i, s)[lookup(t, k)->0] == t[lookup(t, k)->0],
{
    let u = t.update(i, s);
    if k == s.key {
        lemma_lookup(u, k, i);
    } else {
        if lookup(t, k) is Some {
            let j = choose|j: int| found_at(t, k, j);
            lemma_lookup(t, k, j);
            lemma_other_key(t, i, s, k, j);
            lemma_lookup(u, k, j);
        } else if exists|j: int| found_at(u, k, j) {
            let j = choose|j: int| found_at(u, k, j);
            lemma_other_key_back(t, i, s, k, j);
            lemma_lookup(t, k, j);
        }
    }
}

/// Replacing an entry for the same key in place.
pub proof fn lemma_replace(t: Seq<Slot>, i: int, s: Slot)
    requires
        table_wf(t),
        found_at(t, s.key, i),
        s.state == STATE_OCCUPIED,
    ensures
        table_wf(t.update(i, s)),
        entries(t.update(i, s)) == entries(t).insert(s.key, s),
{
    let u = t.update(i, s);
    let key = s.key;
    let cap = t.len() as int;
    lemma_lookup(t, key, i);
    lemma_home(key, cap);
    lemma_ring(cap, home(key, cap), i);
    let steps = ring_steps(cap, home(key, cap), i);
    assert(found_at(u, key, i)) by {
        assert forall|m: int| 0 <= m < steps implies (#[trigger] probed(u, key, m)).state != STATE_EMPTY && !holds(
            probed(u, key, m),
            key,
        ) by {
            lemma_ring(cap, home(key, cap), m);
            assert(probed(t, key, m).state != STATE_EMPTY && !holds(probed(t, key, m), key));
        }
    }
    assert forall|j: int| 0 <= j < u.len() && (#[trigger] u[j]).state == STATE_OCCUPIED implies found_at(
        u,
        u[j].key,
        j,
    ) by {
        if j != i {
            assert(t[j] == u[j]);
            assert(found_at(t, t[j].key, j));
            if t[j].key == key {
                lemma_found_unique(t, key, i, j);
            }
            lemma_other_key(t, i, s, t[j].key, j);
        }
    }
    assert forall|k: u128| #[trigger] entries(u).dom().contains(k) == entries(t).insert(key, s).dom().contains(k) by {
        lemma_entry_update(t, i, s, k);
    }
    assert forall|k: u128| entries(u).dom().contains(k) implies #[trigger] entries(u)[k] == entries(t).insert(
        key,
        s,
    )[k] by {
        lemma_entry_update(t, i, s, k);
    }
    assert(entries(u) =~= entries(t).insert(key, s));
}

/// Turning an entry into a tombstone removes it and nothing else.
pub proof fn lemma_remove(t: Seq<Slot>, key: u128, i: int, s: Slot)
    requires
        table_wf(t),
        found_at(t, key, i),
        s.state == STATE_TOMBSTONE,
    ensures
        table_wf(t.update(i, s)),
        entries(t.update(i, s)) == entries(t).remove(key),
{
    let u = t.update(i, s);
    lemma_lookup(t, key, i);
    assert forall|j: int| 0 <= j < u.len() && (#[trigger] u[j]).state == STATE_OCCUPIED implies found_at(
        u,
        u[j].key,
        j,
    ) by {
        assert(t[j] == u[j]);
        assert(found_at(t, t[j].key, j));
        if t[j].key == key {
            lemma_found_unique(t, key, i, j);
        }
        lemma_other_key(t, i, s, t[j].key, j);
    }
    assert forall|k: u128|
        lookup(u, k) == (if k == key {
            None::<int>
        } else {
            lookup(t, k)
        }) && (k != key && lookup(t, k) is Some ==> u[lookup(t, k)->0] == t[lookup(t, k)->0]) by {
        if k == key {
            if exists|j: int| found_at(u, k, j) {
                let j = choose|j: int| found_at(u, k, j);
                lemma_lookup(u, k, j);
                assert(t[j] == u[j]);
                assert(found_at(t, key, j));
                lemma_found_unique(t, key, i, j);
            }
        } else if lookup(t, k) is Some {
            let j = choose|j: int| found_at(t, k, j);
            lemma_lookup(t, k, j);
            lemma_other_key(t, i, s, k, j);
            lemma_lookup(u, k, j);
        } else if exists|j: int| found_at(u, k, j) {
            let j = choose|j: int| found_at(u, k, j);
            lemma_other_key_back(t, i, s, k, j);
            lemma_lookup(t, k, j);
        }
    }
    assert(entries(u) =~= entries(t).remove(key));
}

/// A table of empty slots has no entries.
pub proof fn lemma_empty(t: Seq<Slot>)
    requires
        t.len() > 0,
        forall|i: int| 0 <= i < t.len() ==> (#[trigger] t[i]).state == STATE_EMPTY,
    ensures
        table_wf(t),
        entries(t) == Map::<u128, Slot>::empty(),
        tally(t, live()) == 0,
        tally(t, live_cards()) == 0,
        tally(t, tombstones()) == 0,
{
    assert forall|k: u128| lookup(t, k) is None by {
        if exists|j: int| found_at(t, k, j) {
            let j = choose|j: int| found_at(t, k, j);
            lemma_lookup(t, k, j);
        }
    }
    assert(entries(t) =~= Map::<u128, Slot>::empty());
    lemma_tally_zero(t, live());
    lemma_tally_zero(t, live_cards());
    lemma_tally_zero(t, tombstones());
}

/// The sum of `f` over the slots.
pub open spec fn tally<T>(t: Seq<T>, f: spec_fn(T) -> nat) -> nat
    decreases t.len(),
{
    if t.len() == 0 {
        0
    } else {
        tally(t.drop_last(), f) + f(t.last())
    }
}

/// One for a slot with an entry.
pub open spec fn live() -> spec_fn(Slot) -> nat {
    |s: Slot|
        if s.state == STATE_OCCUPIED {
            1nat
        } else {
            0nat
        }
}

/// One for a tombstone slot.
pub open spec fn tombstones() -> spec_fn(Slot) -> nat {
    |s: Slot|
        if s.state == STATE_TOMBSTONE {
            1nat
        } else {
            0nat
        }
}

/// The recorded cardinality of a slot's entry.
pub open spec fn live_cards() -> spec_fn(Slot) -> nat {
    |s: Slot|
        if s.state == STATE_OCCUPIED {
            s.card as nat
        } else {
            0nat
        }
}

/// A new entry goes to one vacant slot only.
pub proof fn lemma_insertion_unique(t: Seq<Slot>, key: u128, i: int)
    requires
        insertion_at(t, key, i),
        vacant(t[i]),
        lookup(t, key) is None,
    ensures
        reuses(t, key) == (t[i].state == STATE_TOMBSTONE),
{
    if reuses(t, key) {
        let j = choose|j: int| #[trigger] insertion_at(t, key, j) && t[j].state == STATE_TOMBSTONE;
        let cap = t.len() as int;
        lemma_home(key, cap);
        lemma_ring(cap, home(key, cap), i);
        lemma_ring(cap, home(key, cap), j);
        let (a, b) = (ring_steps(cap, home(key, cap), i), ring_steps(cap, home(key, cap), j));
        if a < b {
            assert(!vacant(probed(t, key, a)));
        } else if b < a {
            assert(!vacant(probed(t, key, b)));
        }
    }
}

/// Once an entry is a tombstone, the next entry for its key goes into a tombstone:
/// no slot on the way to it is empty.
pub proof fn lemma_removed_is_reused(t: Seq<Slot>, key: u128, i: int, s: Slot)
    requires
        table_wf(t),
        found_at(t, key, i),
        s.state == STATE_TOMBSTONE,
    ensures
        reuses(t.update(i, s), key),
{
    let u = t.update(i, s);
    let cap = t.len() as int;
    let start = home(key, cap);
    lemma_home(key, cap);
    lemma_ring(cap, start, i);
    lemma_remove(t, key, i, s);
    assert(!entries(u).dom().contains(key));
    let n = ring_steps(cap, start, i);
    assert(probed(u, key, n).state == STATE_TOMBSTONE);
    lemma_first_tombstone(u, key, 0, n);
    let m = choose|m: int|
        0 <= m <= n && (#[trigger] probed(u, key, m)).state == STATE_TOMBSTONE && forall|x: int|
            0 <= x < m ==> (#[trigger] probed(u, key, x)).state != STATE_TOMBSTONE;
    lemma_ring(cap, start, m);
    let j = ring(cap, start, m);
    assert forall|x: int| 0 <= x < m implies !vacant(#[trigger] probed(u, key, x)) by {
        lemma_ring(cap, start, x);
        assert(ring(cap, start, x) != i);
        assert(probed(u, key, x) == probed(t, key, x));
    }
    assert(insertion_at(u, key, j));
}

/// Some slot of a probe sequence is the first tombstone, where there is one.
proof fn lemma_first_tombstone(t: Seq<Slot>, key: u128, from: int, to: int)
    requires
        0 <= from <= to,
        probed(t, key, to).state == STATE_TOMBSTONE,
        forall|x: int| 0 <= x < from ==> (#[trigger] probed(t, key, x)).state != STATE_TOMBSTONE,
    ensures
        exists|m: int|
            0 <= m <= to && (#[trigger] probed(t, key, m)).state == STATE_TOMBSTONE && forall|x: int|
                0 <= x < m ==> (#[trigger] probed(t, key, x)).state != STATE_TOMBSTONE,
    decreases to - from,
{
    if probed(t, key, from).state != STATE_TOMBSTONE {
        lemma_first_tombstone(t, key, from + 1, to);
    }
}

pub proof fn lemma_tally_update<T>(t: Seq<T>, i: int, s: T, f: spec_fn(T) -> nat)
    requires
        0 <= i < t.len(),
    ensures
        tally(t.update(i, s), f) + f(t[i]) == tally(t, f) + f(s),
    decreases t.len(),
{
    let u = t.update(i, s);
    if i == t.len() - 1 {
        assert(u.drop_last() =~= t.drop_last());
    } else {
        lemma_tally_update(t.drop_last(), i, s, f);
        assert(u.drop_last() =~= t.drop_last().update(i, s));
    }
}

pub proof fn lemma_tally_zero<T>(t: Seq<T>, f: spec_fn(T) -> nat)
    requires
        forall|i: int| 0 <= i < t.len() ==> f(#[trigger] t[i]) == 0,
    ensures
        tally(t, f) == 0,
    decreases t.len(),
{
    if t.len() > 0 {
        assert forall|i: int| 0 <= i < t.drop_last().len() implies f(#[trigger] t.drop_last()[i]) == 0 by {
            assert(t.drop_last()[i] == t[i]);
        }
        lemma_tally_zero(t.drop_last(), f);
    }
}

/// Any one slot counts towards the sum.
pub proof fn lemma_tally_ge<T>(t: Seq<T>, i: int, f: spec_fn(T) -> nat)
    requires
        0 <= i < t.len(),
    ensures
        f(t[i]) <= tally(t, f),
    decreases t.len(),
{
    if i < t.len() - 1 {
        lemma_tally_ge(t.drop_last(), i, f);
    }
}

/// A table in which every slot has an entry has as many as slots.
pub proof fn lemma_full(t: Seq<Slot>)
    requires
        forall|i: int| 0 <= i < t.len() ==> (#[trigger] t[i]).state == STATE_OCCUPIED,
    ensures
        tally(t, live()) == t.len(),
    decreases t.len(),
{
    if t.len() > 0 {
        assert forall|i: int| 0 <= i < t.drop_last().len() implies (#[trigger] t.drop_last()[i]).state
            == STATE_OCCUPIED by {
            assert(t.drop_last()[i] == t[i]);
        }
        lemma_full(t.drop_last());
    }
}

/// There are at most as many entries as slots.
pub proof fn lemma_live_bound(t: Seq<Slot>)
    ensures
        tally(t, live()) <= t.len(),
    decreases t.len(),
{
    if t.len() > 0 {
        lemma_live_bound(t.drop_last());
    }
}

/// The second components, to be summed.
pub open spec fn seconds() -> spec_fn((u128, nat)) -> nat {
    |e: (u128, nat)| e.1
}

/// `list` holds each key that has an entry once, with its recorded cardinality.
pub open spec fn lists_cards(t: Seq<Slot>, list: Seq<(u128, nat)>) -> bool {
    &&& forall|i: int, j: int| 0 <= i < j < list.len() ==> (#[trigger] list[i]).0 != (#[trigger] list[j]).0
    &&& forall|k: u128| #[trigger]
        entries(t).dom().contains(k) <==> exists|i: int| 0 <= i < list.len() && (#[trigger] list[i]).0 == k
    &&& forall|i: int| 0 <= i < list.len() ==> (#[trigger] list[i]).1 == entries(t)[list[i].0].card
}

/// The tallies of a table are those of any list of its entries.
pub proof fn lemma_listed_tally(t: Seq<Slot>, list: Seq<(u128, nat)>)
    requires
        table_wf(t),
        lists_cards(t, list),
    ensures
        tally(t, live()) == list.len(),
        tally(t, live_cards()) == tally(list, seconds()),
    decreases list.len(),
{
    if list.len() == 0 {
        assert forall|i: int| 0 <= i < t.len() implies (#[trigger] t[i]).state != STATE_OCCUPIED by {
            if t[i].state == STATE_OCCUPIED {
                assert(found_at(t, t[i].key, i));
                assert(entries(t).dom().contains(t[i].key));
            }
        }
        lemma_tally_zero(t, live());
        lemma_tally_zero(t, live_cards());
    } else {
        let front = list.drop_last();
        let key = list.last().0;
        assert(list[list.len() - 1].0 == key);
        assert(entries(t).dom().contains(key));
        let i = choose|i: int| found_at(t, key, i);
        lemma_lookup(t, key, i);
        let gone = Slot { state: STATE_TOMBSTONE, ..t[i] };
        lemma_remove(t, key, i, gone);
        lemma_tally_update(t, i, gone, live());
        lemma_tally_update(t, i, gone, live_cards());
        let u = t.update(i, gone);
        assert forall|k: u128| #[trigger]
            entries(u).dom().contains(k) <==> exists|i: int| 0 <= i < front.len() && (#[trigger] front[i]).0 == k by {
            if entries(u).dom().contains(k) {
                assert(entries(t).dom().contains(k));
                let i = choose|i: int| 0 <= i < list.len() && (#[trigger] list[i]).0 == k;
                assert(front[i].0 == k);
            }
            if exists|i: int| 0 <= i < front.len() && (#[trigger] front[i]).0 == k {
                let i = choose|i: int| 0 <= i < front.len() && (#[trigger] front[i]).0 == k;
                assert(list[i].0 == k);
                assert(list[list.len() - 1].0 != k);
                assert(entries(t).dom().contains(k));
            }
        }
        assert forall|i: int| 0 <= i < front.len() implies (#[trigger] front[i]).1 == entries(u)[front[i].0].card by {
            assert(list[i] == front[i]);
            assert(list[i].0 != list[list.len() - 1].0);
        }
        assert(forall|i: int, j: int|
            0 <= i < j < front.len() ==> (#[trigger] front[i]).0 != (#[trigger] front[j]).0) by {
            assert(forall|i: int| 0 <= i < front.len() ==> #[trigger] front[i] == list[i]);
        }
        lemma_listed_tally(u, front);
    }
}

/// The hash of a key in terms of its two halves, and the slot that it starts from.
pub proof fn law_hash_of_a_table_key(key: u128, lo: u64, hi: u64, cap: int)
    requires
        key == hi * 0x1_0000_0000_0000_0000 + lo,
        cap > 0,
    ensures
        key_hash(key) == ((lo + ((hi << 17u64) | (hi >> 47u64))) * 0x9e37_79b9_7f4a_7c15 + (hi ^ ((lo << 51u64) | (lo
            >> 13u64)))) % 0x1_0000_0000_0000_0000,
        home(key, cap) == key_hash(key) as int % cap,
{
    let m = 0x1_0000_0000_0000_0000int;
    let k = 0x9e37_79b9_7f4a_7c15int;
    let a = lo + ((hi << 17u64) | (hi >> 47u64));
    let c = (hi ^ ((lo << 51u64) | (lo >> 13u64))) as int;
    assert(key / 0x1_0000_0000_0000_0000 == hi && key % 0x1_0000_0000_0000_0000 == lo);
    assert(rotl(hi, 17) == (hi << 17u64) | (hi >> 47u64));
    assert(rotl(lo, 51) == (lo << 51u64) | (lo >> 13u64));
    vstd::arithmetic::div_mod::lemma_mul_mod_noop_left(a, k, m);
    vstd::arithmetic::div_mod::lemma_add_mod_noop(a * k, c, m);
    vstd::arithmetic::div_mod::lemma_small_mod(c as nat, m as nat);
    vstd::arithmetic::div_mod::lemma_mod_bound((a * k) % m + c, m);
}

/// Probing starts at the first slot of a key, takes the slots one after another round the
/// table, and ends at an empty slot or at the entry of the key; only that one is found.
pub proof fn law_found_slots(t: Seq<Slot>, key: u128, i: int)
    requires
        lookup(t, key) == Some(i),
    ensures
        0 <= i < t.len(),
        t[i].state == 1 && t[i].key == key,
        forall|j: int|
            (key_hash(key) as int % t.len() as int) <= j < i ==> (#[trigger] t[j]).state != 0 && !(t[j].state == 1
                && t[j].key == key),
{
    assert(found_at(t, key, i));
    let start = home(key, t.len() as int);
    assert(ring(t.len() as int, start, ring_steps(t.len() as int, start, i)) == i);
    assert forall|j: int| start <= j < i implies (#[trigger] t[j]).state != 0 && !(t[j].state == 1 && t[j].key == key) by {
        assert(probed(t, key, j - start) == t[j]);
    }
}

} // verus!
