//! Round-robin order over named groups.

use vstd::prelude::*;

use crate::bytes::bytes_eq;
use crate::lex::{lemma_lex_irreflexive, lemma_lex_total, lemma_lex_transitive, lex_less, lex_lt};
use crate::sorting::{in_order, is_permutation, sorted_positions, Ranking};

verus! {

/// The byte strings of `names`.
pub open spec fn name_bytes(names: Seq<Vec<u8>>) -> Seq<Seq<u8>> {
    Seq::new(names.len(), |i: int| names[i]@)
}

/// How many of the first `k` names are `x`.
pub open spec fn occurrences(names: Seq<Seq<u8>>, k: int, x: Seq<u8>) -> nat
    decreases k,
{
    if k <= 0 {
        0
    } else {
        occurrences(names, k - 1, x) + if names[k - 1] == x {
            1nat
        } else {
            0nat
        }
    }
}

/// The round of an item: how many items of the same name stand before it.
pub open spec fn round_of(names: Seq<Seq<u8>>, i: int) -> nat {
    occurrences(names, i, names[i])
}

/// Item `a` has its turn before item `b`: in an earlier round, or in the same one
/// under the smaller name.
pub open spec fn turn_before(names: Seq<Seq<u8>>, a: int, b: int) -> bool {
    ||| round_of(names, a) < round_of(names, b)
    ||| round_of(names, a) == round_of(names, b) && lex_lt(names[a], names[b])
}

pub proof fn lemma_occurrences_bound(names: Seq<Seq<u8>>, k: int, x: Seq<u8>)
    ensures
        occurrences(names, k, x) <= if k <= 0 {
            0
        } else {
            k
        },
    decreases k,
{
    if k > 0 {
        lemma_occurrences_bound(names, k - 1, x);
    }
}

/// A stretch without the name adds nothing.
proof fn lemma_occurrences_flat(names: Seq<Seq<u8>>, from: int, to: int, x: Seq<u8>)
    requires
        0 <= from <= to,
        forall|j: int| from <= j < to ==> #[trigger] names[j] != x,
    ensures
        occurrences(names, from, x) == occurrences(names, to, x),
    decreases to - from,
{
    if from < to {
        lemma_occurrences_flat(names, from, to - 1, x);
    }
}

/// Counts grow with the stretch.
pub proof fn lemma_occurrences_mono(names: Seq<Seq<u8>>, from: int, to: int, x: Seq<u8>)
    requires
        0 <= from <= to,
    ensures
        occurrences(names, from, x) <= occurrences(names, to, x),
    decreases to - from,
{
    if from < to {
        lemma_occurrences_mono(names, from, to - 1, x);
    }
}

/// Two items of one name have different rounds, the earlier one the smaller.
pub proof fn lemma_rounds_differ(names: Seq<Seq<u8>>, i: int, j: int)
    requires
        0 <= i < j < names.len(),
        names[i] == names[j],
    ensures
        round_of(names, i) < round_of(names, j),
{
    lemma_occurrences_mono(names, i + 1, j, names[j]);
}

struct ByName<'a> {
    names: &'a Vec<Vec<u8>>,
}

impl<'a> Ranking for ByName<'a> {
    closed spec fn size(&self) -> nat {
        self.names@.len()
    }

    closed spec fn before(&self, a: int, b: int) -> bool {
        let names = name_bytes(self.names@);
        lex_lt(names[a], names[b]) || names[a] == names[b] && a < b
    }

    proof fn lemma_not_after(&self, a: int, b: int, c: int) {
        let names = name_bytes(self.names@);
        lemma_lex_total(names[a], names[b]);
        lemma_lex_total(names[b], names[c]);
        lemma_lex_total(names[a], names[c]);
        if lex_lt(names[c], names[a]) && lex_lt(names[a], names[b]) {
            lemma_lex_transitive(names[c], names[a], names[b]);
        }
        if lex_lt(names[b], names[c]) && lex_lt(names[c], names[a]) {
            lemma_lex_transitive(names[b], names[c], names[a]);
        }
        if lex_lt(names[a], names[b]) && lex_lt(names[b], names[c]) {
            lemma_lex_transitive(names[a], names[b], names[c]);
        }
        lemma_lex_irreflexive(names[a]);
        lemma_lex_irreflexive(names[b]);
    }

    proof fn lemma_one_way(&self, a: int, b: int) {
        let names = name_bytes(self.names@);
        lemma_lex_total(names[a], names[b]);
        lemma_lex_irreflexive(names[a]);
    }

    fn is_before(&self, a: usize, b: usize) -> bool {
        let (x, y) = (self.names[a].as_slice(), self.names[b].as_slice());
        lex_less(x, y) || bytes_eq(x, y) && a < b
    }
}

/// In the order by name and place, the neighbour before an item of the same name
/// is the item of that name nearest before it.
proof fn lemma_neighbour(by: &ByName, s: Seq<usize>, p: int)
    requires
        is_permutation(s, by.names@.len()),
        in_order(by, s),
        0 < p < s.len(),
        by.names@[s[p] as int]@ == by.names@[s[p - 1] as int]@,
    ensures
        s[p - 1] < s[p],
        round_of(name_bytes(by.names@), s[p] as int) == round_of(name_bytes(by.names@), s[p - 1] as int) + 1,
{
    let names = name_bytes(by.names@);
    let (i, j) = (s[p - 1] as int, s[p] as int);
    let x = names[j];
    assert(!by.before(j, i));
    lemma_lex_irreflexive(x);
    assert(s[p - 1] != s[p]);
    assert forall|k: int| i + 1 <= k < j implies #[trigger] names[k] != x by {
        if names[k] == x {
            assert(s.contains(k as usize));
            let q = choose|q: int| 0 <= q < s.len() && s[q] == k as usize;
            if q < p - 1 {
                assert(!by.before(s[p - 1] as int, s[q] as int));
            } else if q > p {
                assert(!by.before(s[q] as int, s[p] as int));
            }
        }
    }
    lemma_occurrences_flat(names, i + 1, j, x);
}

/// In the order by name and place, an item whose neighbour before has another
/// name is the first of its name.
proof fn lemma_first(by: &ByName, s: Seq<usize>, p: int)
    requires
        is_permutation(s, by.names@.len()),
        in_order(by, s),
        0 <= p < s.len(),
        p > 0 ==> by.names@[s[p] as int]@ != by.names@[s[p - 1] as int]@,
    ensures
        round_of(name_bytes(by.names@), s[p] as int) == 0,
{
    let names = name_bytes(by.names@);
    let j = s[p] as int;
    let x = names[j];
    lemma_lex_irreflexive(x);
    assert forall|k: int| 0 <= k < j implies #[trigger] names[k] != x by {
        if names[k] == x {
            assert(s.contains(k as usize));
            let q = choose|q: int| 0 <= q < s.len() && s[q] == k as usize;
            if q > p {
                assert(!by.before(s[q] as int, s[p] as int));
            } else if q < p {
                let y = names[s[p - 1] as int];
                assert(!by.before(s[p] as int, s[p - 1] as int));
                if q < p - 1 {
                    assert(!by.before(s[p - 1] as int, s[q] as int));
                }
                lemma_lex_total(x, y);
            }
        }
    }
    lemma_occurrences_flat(names, 0, j, x);
}

/// The round of every item.
pub fn rounds(names: &Vec<Vec<u8>>) -> (out: Vec<usize>)
    ensures
        out@.len() == names@.len(),
        forall|i: int| 0 <= i < out@.len() ==> #[trigger] out@[i] == round_of(name_bytes(names@), i),
{
    let n: usize = names.len();
    let by = ByName { names };
    let order = sorted_positions(&by, n);
    let mut out: Vec<usize> = Vec::with_capacity(n);
    let mut i: usize = 0;
    while i < n
        invariant
            i <= n,
            out@.len() == i,
        decreases n - i,
    {
        out.push(0);
        i = i + 1;
    }
    let ghost bytes = name_bytes(names@);
    let mut p: usize = 0;
    while p < n
        invariant
            p <= n == out@.len() == names@.len(),
            by.names == names,
            bytes == name_bytes(names@),
            is_permutation(order@, n as nat),
            in_order(&by, order@),
            forall|q: int| 0 <= q < p ==> out@[#[trigger] order@[q] as int] == round_of(bytes, order@[q] as int),
        decreases n - p,
    {
        let at: usize = order[p];
        let follows: bool = p > 0 && bytes_eq(names[at].as_slice(), names[order[p - 1]].as_slice());
        let round: usize = if follows {
            proof {
                lemma_neighbour(&by, order@, p as int);
                lemma_occurrences_bound(bytes, at as int, bytes[at as int]);
                assert(out@[order@[p - 1] as int] == round_of(bytes, order@[p - 1] as int));
            }
            out[order[p - 1]] + 1
        } else {
            proof {
                lemma_first(&by, order@, p as int);
            }
            0
        };
        proof {
            assert forall|q: int| 0 <= q < p implies #[trigger] order@[q] != at by {
                assert(order@[p as int] == at);
            }
        }
        out.set(at, round);
        p = p + 1;
    }
    proof {
        assert forall|i: int| 0 <= i < out@.len() implies #[trigger] out@[i] == round_of(bytes, i) by {
            assert(order@.contains(i as usize));
            let q = choose|q: int| 0 <= q < order@.len() && order@[q] == i as usize;
            assert(out@[order@[q] as int] == round_of(bytes, order@[q] as int));
        }
    }
    out
}

struct ByTurn<'a> {
    names: &'a Vec<Vec<u8>>,
    rounds: &'a Vec<usize>,
}

impl<'a> Ranking for ByTurn<'a> {
    closed spec fn size(&self) -> nat {
        if self.names@.len() <= self.rounds@.len() {
            self.names@.len()
        } else {
            self.rounds@.len()
        }
    }

    closed spec fn before(&self, a: int, b: int) -> bool {
        let names = name_bytes(self.names@);
        ||| self.rounds@[a] < self.rounds@[b]
        ||| self.rounds@[a] == self.rounds@[b] && lex_lt(names[a], names[b])
    }

    proof fn lemma_not_after(&self, a: int, b: int, c: int) {
        let names = name_bytes(self.names@);
        lemma_lex_total(names[a], names[b]);
        lemma_lex_total(names[b], names[c]);
        lemma_lex_total(names[a], names[c]);
        if lex_lt(names[c], names[a]) && lex_lt(names[a], names[b]) {
            lemma_lex_transitive(names[c], names[a], names[b]);
        }
        if lex_lt(names[a], names[b]) && lex_lt(names[b], names[c]) {
            lemma_lex_transitive(names[a], names[b], names[c]);
        }
        lemma_lex_irreflexive(names[a]);
    }

    proof fn lemma_one_way(&self, a: int, b: int) {
        let names = name_bytes(self.names@);
        lemma_lex_total(names[a], names[b]);
    }

    fn is_before(&self, a: usize, b: usize) -> bool {
        let (x, y) = (self.rounds[a], self.rounds[b]);
        x < y || x == y && lex_less(self.names[a].as_slice(), self.names[b].as_slice())
    }
}

/// `order` lists the items of `names` by turn.
pub open spec fn in_turn(order: Seq<usize>, names: Seq<Seq<u8>>) -> bool {
    &&& is_permutation(order, names.len())
    &&& forall|p: int, q: int|
        0 <= p < q < order.len() ==> turn_before(names, #[trigger] order[p] as int, #[trigger] order[q] as int)
}

/// The items by turn: one of each name, in the order of the names, then the next
/// of each name, until none is left.
pub fn round_robin(names: &Vec<Vec<u8>>) -> (order: Vec<usize>)
    ensures
        in_turn(order@, name_bytes(names@)),
{
    let n: usize = names.len();
    let rounds = rounds(names);
    let by = ByTurn { names, rounds: &rounds };
    let order = sorted_positions(&by, n);
    proof {
        let bytes = name_bytes(names@);
        assert forall|p: int, q: int| 0 <= p < q < order@.len() implies turn_before(
            bytes,
            #[trigger] order@[p] as int,
            #[trigger] order@[q] as int,
        ) by {
            let (a, b) = (order@[p] as int, order@[q] as int);
            assert(!by.before(b, a));
            assert(order@[p] != order@[q]);
            lemma_lex_total(bytes[a], bytes[b]);
            assert(rounds@[a] == round_of(bytes, a));
            assert(rounds@[b] == round_of(bytes, b));
            if bytes[a] == bytes[b] {
                if a < b {
                    lemma_rounds_differ(bytes, a, b);
                } else {
                    lemma_rounds_differ(bytes, b, a);
                }
            }
        }
    }
    order
}

/// However long the backlog of one name, the items of the others do not wait for
/// it: an item has its turn before every item of a later round.
pub proof fn law_backlog_delays_no_other_name(order: Seq<usize>, names: Seq<Seq<u8>>, p: int, q: int)
    requires
        in_turn(order, names),
        0 <= p < order.len(),
        0 <= q < order.len(),
        round_of(names, order[p] as int) < round_of(names, order[q] as int),
    ensures
        p < q,
{
    if q < p {
        assert(turn_before(names, order[q] as int, order[p] as int));
    }
}

/// Items of one name keep their order.
pub proof fn law_one_name_stays_in_order(order: Seq<usize>, names: Seq<Seq<u8>>, p: int, q: int)
    requires
        in_turn(order, names),
        0 <= p < order.len(),
        0 <= q < order.len(),
        names[order[p] as int] == names[order[q] as int],
        order[p] < order[q],
    ensures
        p < q,
{
    lemma_rounds_differ(names, order[p] as int, order[q] as int);
    law_backlog_delays_no_other_name(order, names, p, q);
}

/// Number of the items of that name.
pub open spec fn items_named(names: Seq<Seq<u8>>, x: Seq<u8>) -> nat {
    names.filter(|n: Seq<u8>| n == x).len()
}

/// The count of a name is the number of items of that name.
pub proof fn lemma_occurrences_count(names: Seq<Seq<u8>>, k: int, x: Seq<u8>)
    requires
        0 <= k <= names.len(),
    ensures
        occurrences(names, k, x) == items_named(names.take(k), x),
    decreases k,
{
    reveal(Seq::filter);
    if k > 0 {
        lemma_occurrences_count(names, k - 1, x);
        assert(names.take(k).drop_last() =~= names.take(k - 1));
        assert(names.take(k).last() == names[k - 1]);
    }
}

/// Turns go round: every item has one, and of two items that one has its turn first
/// which has fewer items of its own name before it; where they have as many, the one
/// with the smaller name.
pub proof fn law_turns_go_round(order: Seq<usize>, names: Seq<Seq<u8>>, p: int, q: int)
    requires
        in_turn(order, names),
        0 <= p < order.len(),
        0 <= q < order.len(),
        p != q,
    ensures
        order.len() == names.len(),
        order[p] < names.len() && order[q] < names.len() && order[p] != order[q],
        ({
            let (a, b) = (order[p] as int, order[q] as int);
            let before_a = items_named(names.take(a), names[a]);
            let before_b = items_named(names.take(b), names[b]);
            p < q <==> before_a < before_b || (before_a == before_b && lex_lt(names[a], names[b]))
        }),
{
    let (a, b) = (order[p] as int, order[q] as int);
    lemma_occurrences_count(names, a, names[a]);
    lemma_occurrences_count(names, b, names[b]);
    lemma_lex_total(names[a], names[b]);
    if p < q {
        assert(turn_before(names, order[p] as int, order[q] as int));
    } else {
        assert(turn_before(names, order[q] as int, order[p] as int));
    }
}

/// The byte strings of a list are those of its names, all of them and in their order.
pub proof fn law_name_bytes(names: Seq<Vec<u8>>, i: int)
    ensures
        name_bytes(names).len() == names.len(),
        0 <= i < names.len() ==> name_bytes(names)[i] == names[i]@,
{
}

/// Taking turns: every item is taken once; of two items that which has fewer of its own name
/// before it is taken first, and of two with as many that of the lesser name.
pub proof fn law_round_robin(names: &Vec<Vec<u8>>, order: Vec<usize>, p: int, q: int)
    requires
        call_ensures(round_robin, (names,), order),
        0 <= p < order@.len(),
        0 <= q < order@.len(),
        p != q,
    ensures
        order@.len() == names@.len(),
        order@[p] < names@.len() && order@[p] != order@[q],
        ({
            let (a, b) = (order@[p] as int, order@[q] as int);
            let before_a = items_named(name_bytes(names@).take(a), names@[a]@);
            let before_b = items_named(name_bytes(names@).take(b), names@[b]@);
            p < q <==> before_a < before_b || (before_a == before_b && lex_lt(names@[a]@, names@[b]@))
        }),
{
    law_turns_go_round(order@, name_bytes(names@), p, q);
    law_name_bytes(names@, order@[p] as int);
    law_name_bytes(names@, order@[q] as int);
}

} // verus!
