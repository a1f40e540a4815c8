//! The decisions of the background worker that drains the vector-index queue.
//!
//! A pass plans its work from the queue, keeps a bounded number of embedding
//! calls in flight, counts how they end, and says whether to wait before the next
//! pass. The calls themselves are made by the caller.

use vstd::prelude::*;
use vstd::utf8::encode_utf8;

use super::rounds::{
    in_turn, law_one_name_stays_in_order, law_turns_go_round, lemma_occurrences_count, name_bytes, occurrences, round_robin,
};
use crate::lex::lex_lt;
use crate::bytes::copy_bytes;
use crate::seqs::lemma_push_contains;
use crate::text::{contains_text, texts};

verus! {

/// Tuning of the background worker.
#[derive(Debug, Clone, Copy, PartialEq, Eq, Structural)]
pub struct VectorIndexConfig {
    /// Seconds to wait after a pass with a failure.
    pub retry_wait_secs: u64,
    /// Embedding attempts per queue entry; an entry that has had as many is
    /// skipped and left for manual removal.
    pub max_retries: u32,
    /// Embedding calls in flight at once.
    pub concurrency: usize,
}

impl Default for VectorIndexConfig {
    fn default() -> (config: Self)
        ensures
            config == (VectorIndexConfig { retry_wait_secs: 2, max_retries: 5, concurrency: 4 }),
    {
        VectorIndexConfig { retry_wait_secs: 2, max_retries: 5, concurrency: 4 }
    }
}

/// What a queue entry asks for.
#[derive(Debug, Clone, Copy, PartialEq, Eq, Structural)]
pub enum QueueEntryKind {
    /// Embed the text and write its vectors.
    Embed,
    /// Remove the vectors; the document or its text is gone.
    Clear,
}

/// An entry of the vector-index queue; there is one at most per document.
#[derive(Debug, Clone)]
pub struct QueueEntry {
    pub namespace: String,
    pub doc_id_bytes: Vec<u8>,
    pub kind: QueueEntryKind,
    pub text: String,
    /// Failed attempts so far.
    pub retry_count: u32,
}

/// What is asked for of a document.
pub enum Request {
    /// The vectors of this text.
    Embed(Seq<char>),
    /// No vectors.
    Clear,
}

impl QueueEntry {
    /// What the entry asks for.
    pub open spec fn request(&self) -> Request {
        match self.kind {
            QueueEntryKind::Embed => Request::Embed(self.text@),
            QueueEntryKind::Clear => Request::Clear,
        }
    }

    /// Whether two entries of a document ask for the same.
    pub fn asks_the_same(&self, other: &QueueEntry) -> (same: bool)
        ensures
            same == (self.request() == other.request()),
    {
        match (self.kind, other.kind) {
            (QueueEntryKind::Embed, QueueEntryKind::Embed) => self.text == other.text,
            (QueueEntryKind::Clear, QueueEntryKind::Clear) => true,
            _ => false,
        }
    }

    /// All but the attempt count.
    pub open spec fn same_request(&self, other: &QueueEntry) -> bool {
        &&& self.namespace == other.namespace
        &&& self.doc_id_bytes@ == other.doc_id_bytes@
        &&& self.kind == other.kind
        &&& self.text == other.text
    }

    /// An entry that asks for a text to be embedded.
    pub fn embed(namespace: &String, key: &[u8], text: &String) -> (e: QueueEntry)
        ensures
            e.namespace == *namespace,
            e.doc_id_bytes@ == key@,
            e.kind == QueueEntryKind::Embed,
            e.text == *text,
            e.retry_count == 0,
    {
        QueueEntry {
            namespace: namespace.clone(),
            doc_id_bytes: copy_bytes(key),
            kind: QueueEntryKind::Embed,
            text: text.clone(),
            retry_count: 0,
        }
    }

    /// An entry that asks for the vectors to be removed.
    pub fn clear(namespace: &String, key: &[u8]) -> (e: QueueEntry)
        ensures
            e.namespace == *namespace,
            e.doc_id_bytes@ == key@,
            e.kind == QueueEntryKind::Clear,
            e.text@.len() == 0,
            e.retry_count == 0,
    {
        QueueEntry {
            namespace: namespace.clone(),
            doc_id_bytes: copy_bytes(key),
            kind: QueueEntryKind::Clear,
            text: String::new(),
            retry_count: 0,
        }
    }

    /// Gives the entry all its attempts back; what it asks for stays.
    pub fn reset(&mut self)
        ensures
            final(self).same_request(old(self)),
            final(self).retry_count == 0,
    {
        self.retry_count = 0;
    }

    /// Counts a failed attempt; `true` where it was the last one.
    pub fn record_failure(&mut self, max_retries: u32) -> (exhausted: bool)
        requires
            old(self).retry_count < max_retries,
        ensures
            final(self).same_request(old(self)),
            final(self).retry_count == old(self).retry_count + 1,
            exhausted <==> final(self).retry_count >= max_retries,
    {
        let (count, exhausted) = next_attempt(self.retry_count, max_retries);
        self.retry_count = count;
        exhausted
    }
}

/// The entry that a failed attempt is counted on: the entry of the document then, or
/// the one that was worked on where there is none any more.
pub open spec fn counted_on(worked: QueueEntry, current: Option<QueueEntry>) -> QueueEntry {
    match current {
        Some(e) => e,
        None => worked,
    }
}

/// The entry to store once a call for `worked` has failed, and whether that was its
/// last attempt, given the entry of the document then. Nothing is stored where that
/// entry asks for something newer or has no attempt left; one that was removed by hand
/// is stored again.
pub fn after_failure(worked: &QueueEntry, current: Option<QueueEntry>, max_retries: u32) -> (r: Option<(QueueEntry, bool)>)
    ensures
        ({
            let e = counted_on(*worked, current);
            &&& r is Some <==> e.request() == worked.request() && e.retry_count < max_retries
            &&& r matches Some((stored, exhausted)) ==> {
                &&& stored.same_request(&e)
                &&& stored.retry_count == e.retry_count + 1
                &&& exhausted <==> stored.retry_count >= max_retries
            }
        }),
{
    let mut entry: QueueEntry = match current {
        Some(e) => e,
        None => QueueEntry {
            namespace: worked.namespace.clone(),
            doc_id_bytes: copy_bytes(worked.doc_id_bytes.as_slice()),
            kind: worked.kind,
            text: worked.text.clone(),
            retry_count: worked.retry_count,
        },
    };
    if !entry.asks_the_same(worked) || entry.retry_count >= max_retries {
        return None;
    }
    let exhausted: bool = entry.record_failure(max_retries);
    Some((entry, exhausted))
}

/// Positions of the entries whose namespace is not among those that there are, in
/// queue order. They are discarded before a pass: to embed them would bring back the
/// vectors of a namespace that was destroyed.
pub fn gone_entries(entries: &[QueueEntry], namespaces: &[String]) -> (at: Vec<usize>)
    ensures
        forall|i: int, j: int| 0 <= i < j < at@.len() ==> #[trigger] at@[i] < #[trigger] at@[j],
        forall|k: int| 0 <= k < at@.len() ==> (#[trigger] at@[k]) < entries@.len(),
        forall|i: usize|
            i < entries@.len() ==> (#[trigger] at@.contains(i) <==> !texts(namespaces@).contains(
                entries@[i as int].namespace@,
            )),
{
    let mut at: Vec<usize> = Vec::new();
    let mut i: usize = 0;
    while i < entries.len()
        invariant
            i <= entries@.len(),
            forall|a: int, b: int| 0 <= a < b < at@.len() ==> #[trigger] at@[a] < #[trigger] at@[b],
            forall|k: int| 0 <= k < at@.len() ==> (#[trigger] at@[k]) < i,
            forall|k: usize|
                k < i ==> (#[trigger] at@.contains(k) <==> !texts(namespaces@).contains(entries@[k as int].namespace@)),
        decreases entries@.len() - i,
    {
        let ghost before = at@;
        if !contains_text(namespaces, &entries[i].namespace) {
            at.push(i);
        }
        proof {
            assert forall|k: usize| k < i + 1 implies (#[trigger] at@.contains(k) <==> !texts(namespaces@).contains(
                entries@[k as int].namespace@,
            )) by {
                lemma_push_contains(before, i, k);
                if before.contains(i) {
                    let p = choose|p: int| 0 <= p < before.len() && before[p] == i;
                    assert(before[p] < i);
                }
            }
        }
        i = i + 1;
    }
    at
}

/// Bytes of the namespace of each entry.
pub open spec fn queue_names(entries: Seq<QueueEntry>) -> Seq<Seq<u8>> {
    Seq::new(entries.len(), |i: int| encode_utf8(entries[i].namespace@))
}

/// The first `n` positions whose entries have attempts left, in queue order.
pub open spec fn actionable(entries: Seq<QueueEntry>, max_retries: u32, n: int) -> Seq<usize>
    decreases n,
{
    if n <= 0 {
        seq![]
    } else if entries[n - 1].retry_count < max_retries {
        actionable(entries, max_retries, n - 1).push((n - 1) as usize)
    } else {
        actionable(entries, max_retries, n - 1)
    }
}

/// The namespaces of the entries with attempts left, in queue order.
pub open spec fn actionable_names(entries: Seq<QueueEntry>, max_retries: u32) -> Seq<Seq<u8>> {
    let at = actionable(entries, max_retries, entries.len() as int);
    Seq::new(at.len(), |k: int| queue_names(entries)[at[k] as int])
}

/// The work of one pass.
pub struct PassPlan {
    /// Entries that have used up their attempts.
    pub exhausted: usize,
    /// Positions of the entries to work on, in the order of work.
    pub work: Vec<usize>,
}

/// `plan` works on every entry with attempts left, once, round-robin over the
/// namespaces, and counts the others.
pub open spec fn is_plan(plan: PassPlan, entries: Seq<QueueEntry>, max_retries: u32) -> bool {
    let at = actionable(entries, max_retries, entries.len() as int);
    &&& plan.exhausted + plan.work@.len() == entries.len()
    &&& exists|order: Seq<usize>|
        {
            &&& #[trigger] in_turn(order, actionable_names(entries, max_retries))
            &&& plan.work@ == Seq::new(order.len(), |p: int| at[order[p] as int])
        }
}

proof fn lemma_actionable(entries: Seq<QueueEntry>, max_retries: u32, n: int)
    requires
        0 <= n <= entries.len(),
        entries.len() <= usize::MAX,
    ensures
        ({
            let at = actionable(entries, max_retries, n);
            &&& at.len() <= n
            &&& forall|k: int| 0 <= k < at.len() ==> (#[trigger] at[k]) < n && entries[at[k] as int].retry_count < max_retries
            &&& forall|j: int, k: int| 0 <= j < k < at.len() ==> (#[trigger] at[j]) < #[trigger] at[k]
            &&& forall|i: usize| i < n && entries[i as int].retry_count < max_retries ==> #[trigger] at.contains(i)
        }),
    decreases n,
{
    if n > 0 {
        lemma_actionable(entries, max_retries, n - 1);
        let before = actionable(entries, max_retries, n - 1);
        let at = actionable(entries, max_retries, n);
        assert forall|i: usize| i < n && entries[i as int].retry_count < max_retries implies #[trigger] at.contains(i) by {
            if i < n - 1 {
                assert(before.contains(i));
                let k = choose|k: int| 0 <= k < before.len() && before[k] == i;
                assert(at[k] == i);
            } else {
                assert(at[at.len() - 1] == i);
            }
        }
    }
}

/// Plans one pass over the queue.
pub fn plan_pass(entries: &[QueueEntry], max_retries: u32) -> (plan: PassPlan)
    ensures
        is_plan(plan, entries@, max_retries),
{
    let mut at: Vec<usize> = Vec::new();
    let mut names: Vec<Vec<u8>> = Vec::new();
    let mut exhausted: usize = 0;
    let mut i: usize = 0;
    while i < entries.len()
        invariant
            i <= entries.len(),
            at@ == actionable(entries@, max_retries, i as int),
            exhausted + at@.len() == i,
            names@.len() == at@.len(),
            forall|k: int| 0 <= k < at@.len() ==> (#[trigger] at@[k]) < i,
            forall|k: int| 0 <= k < names@.len() ==> (#[trigger] names@[k])@ == queue_names(entries@)[at@[k] as int],
        decreases entries@.len() - i,
    {
        if entries[i].retry_count < max_retries {
            at.push(i);
            names.push(copy_bytes(entries[i].namespace.as_str().as_bytes()));
        } else {
            exhausted = exhausted + 1;
        }
        i = i + 1;
    }
    let order = round_robin(&names);
    proof {
        assert(name_bytes(names@) =~= actionable_names(entries@, max_retries));
    }
    let mut work: Vec<usize> = Vec::with_capacity(order.len());
    let mut p: usize = 0;
    while p < order.len()
        invariant
            p <= order@.len(),
            in_turn(order@, name_bytes(names@)),
            names@.len() == at@.len(),
            work@.len() == p,
            forall|k: int| 0 <= k < p ==> #[trigger] work@[k] == at@[order@[k] as int],
        decreases order@.len() - p,
    {
        work.push(at[order[p]]);
        p = p + 1;
    }
    let plan = PassPlan { exhausted, work };
    proof {
        assert(plan.work@ =~= Seq::new(order@.len(), |p: int| at@[order@[p] as int]));
        assert(in_turn(order@, actionable_names(entries@, max_retries)));
    }
    plan
}

/// A pass works on exactly the entries with attempts left, each once.
pub proof fn law_plan_is_complete(plan: PassPlan, entries: Seq<QueueEntry>, max_retries: u32)
    requires
        is_plan(plan, entries, max_retries),
        entries.len() <= usize::MAX,
    ensures
        plan.work@.no_duplicates(),
        forall|i: usize|
            #[trigger] plan.work@.contains(i) <==> i < entries.len() && entries[i as int].retry_count < max_retries,
{
    let at = actionable(entries, max_retries, entries.len() as int);
    let names = actionable_names(entries, max_retries);
    lemma_actionable(entries, max_retries, entries.len() as int);
    let order = choose|order: Seq<usize>|
        {
            &&& #[trigger] in_turn(order, names)
            &&& plan.work@ == Seq::new(order.len(), |p: int| at[order[p] as int])
        };
    let work = plan.work@;
    assert forall|p: int, q: int| 0 <= p < work.len() && 0 <= q < work.len() && p != q implies work[p] != work[q] by {
        assert(order[p] != order[q]);
        let (a, b) = (order[p] as int, order[q] as int);
        if a < b {
            assert(at[a] < at[b]);
        } else {
            assert(at[b] < at[a]);
        }
    }
    assert forall|i: usize| #[trigger] work.contains(i) <==> i < entries.len() && entries[i as int].retry_count
        < max_retries by {
        if work.contains(i) {
            let p = choose|p: int| 0 <= p < work.len() && work[p] == i;
            assert(at[order[p] as int] == i);
        }
        if i < entries.len() && entries[i as int].retry_count < max_retries {
            assert(at.contains(i));
            let k = choose|k: int| 0 <= k < at.len() && at[k] == i;
            assert(order.contains(k as usize));
            let p = choose|p: int| 0 <= p < order.len() && order[p] == k as usize;
            assert(work[p] == i);
        }
    }
}

/// Entries of one namespace are worked on in queue order.
pub proof fn law_namespace_keeps_queue_order(
    plan: PassPlan,
    entries: Seq<QueueEntry>,
    max_retries: u32,
    p: int,
    q: int,
)
    requires
        is_plan(plan, entries, max_retries),
        entries.len() <= usize::MAX,
        0 <= p < plan.work@.len(),
        0 <= q < plan.work@.len(),
        plan.work@[p] < plan.work@[q],
        entries[plan.work@[p] as int].namespace@ == entries[plan.work@[q] as int].namespace@,
    ensures
        p < q,
{
    let at = actionable(entries, max_retries, entries.len() as int);
    let names = actionable_names(entries, max_retries);
    lemma_actionable(entries, max_retries, entries.len() as int);
    let order = choose|order: Seq<usize>|
        {
            &&& #[trigger] in_turn(order, names)
            &&& plan.work@ == Seq::new(order.len(), |p: int| at[order[p] as int])
        };
    let (a, b) = (order[p] as int, order[q] as int);
    if b < a {
        assert(at[b] < at[a]);
    }
    law_one_name_stays_in_order(order, names, p, q);
}

/// How one embedding call ended.
#[derive(Debug, Clone, Copy, PartialEq, Eq, Structural)]
pub enum CallOutcome {
    /// The vectors were written and the entry removed.
    Indexed,
    /// The call failed; the entry stays, with one attempt more.
    Failed,
    /// The call was lost without an answer; the entry stays as it is.
    Lost,
}

/// A pass over the work of a plan.
pub struct Pass {
    total: usize,
    limit: usize,
    next: usize,
    indexed: usize,
    failed: usize,
}

impl Pass {
    /// Number of entries to work on.
    pub closed spec fn total(&self) -> nat {
        self.total as nat
    }

    /// Most calls in flight at once.
    pub closed spec fn limit(&self) -> nat {
        self.limit as nat
    }

    /// Entries whose call was started.
    pub closed spec fn started(&self) -> nat {
        self.next as nat
    }

    /// Calls that wrote their vectors.
    pub closed spec fn indexed(&self) -> nat {
        self.indexed as nat
    }

    /// Calls that did not.
    pub closed spec fn failed(&self) -> nat {
        self.failed as nat
    }

    /// Calls started and not yet ended.
    pub open spec fn in_flight(&self) -> int {
        self.started() - self.indexed() - self.failed()
    }

    /// No more calls in flight than allowed, and fewer only where no entry waits.
    pub open spec fn wf(&self) -> bool {
        &&& self.started() <= self.total() <= usize::MAX
        &&& 0 <= self.in_flight() <= self.limit()
        &&& self.limit() >= 1
        &&& self.in_flight() < self.limit() ==> self.started() == self.total()
    }

    /// Starts a pass over `total` entries: the calls of the first entries, as many
    /// as may be in flight, are to be started. At least one may.
    pub fn begin(total: usize, concurrency: usize) -> (pass: Pass)
        ensures
            pass.wf(),
            pass.total() == total,
            pass.limit() == if concurrency == 0 {
                1
            } else {
                concurrency as nat
            },
            pass.started() == if total < pass.limit() {
                total as nat
            } else {
                pass.limit()
            },
            pass.indexed() == 0,
            pass.failed() == 0,
    {
        let limit: usize = if concurrency == 0 {
            1
        } else {
            concurrency
        };
        let next: usize = if total < limit {
            total
        } else {
            limit
        };
        Pass { total, limit, next, indexed: 0, failed: 0 }
    }

    /// Number of calls started so far: the entries below it.
    pub fn started_count(&self) -> (n: usize)
        ensures
            n == self.started(),
    {
        self.next
    }

    /// Counts a call that ended, and names the entry whose call takes its place.
    pub fn settle(&mut self, outcome: CallOutcome) -> (next: Option<usize>)
        requires
            old(self).wf(),
            old(self).in_flight() > 0,
        ensures
            final(self).wf(),
            final(self).total() == old(self).total(),
            final(self).limit() == old(self).limit(),
            next is Some <==> old(self).started() < old(self).total(),
            next is Some ==> next->0 == old(self).started(),
            final(self).started() == old(self).started() + if next is Some {
                1int
            } else {
                0
            },
            final(self).indexed() == old(self).indexed() + if outcome is Indexed {
                1int
            } else {
                0
            },
            final(self).failed() == old(self).failed() + if outcome is Indexed {
                0int
            } else {
                1
            },
    {
        match outcome {
            CallOutcome::Indexed => {
                self.indexed = self.indexed + 1;
            },
            _ => {
                self.failed = self.failed + 1;
            },
        }
        if self.next < self.total {
            let at: usize = self.next;
            self.next = self.next + 1;
            Some(at)
        } else {
            None
        }
    }

    /// Whether every call has ended.
    pub fn is_over(&self) -> (over: bool)
        requires
            self.wf(),
        ensures
            over <==> self.in_flight() == 0,
    {
        self.indexed + self.failed == self.next
    }

    /// Entries that have not been worked on.
    pub fn remaining(&self) -> (n: usize)
        requires
            self.wf(),
        ensures
            n == self.total() - self.indexed() - self.failed(),
    {
        self.total - (self.indexed + self.failed)
    }

    /// How many calls wrote their vectors.
    pub fn indexed_count(&self) -> (n: usize)
        ensures
            n == self.indexed(),
    {
        self.indexed
    }

    /// How many calls did not.
    pub fn failed_count(&self) -> (n: usize)
        ensures
            n == self.failed(),
    {
        self.failed
    }

    /// Seconds to wait before the queue is scanned again; none after a pass
    /// without a failure.
    pub fn wait_after(&self, config: &VectorIndexConfig) -> (secs: Option<u64>)
        ensures
            secs == if self.failed() > 0 {
                Some(config.retry_wait_secs)
            } else {
                None
            },
    {
        if self.failed > 0 {
            Some(config.retry_wait_secs)
        } else {
            None
        }
    }
}

/// A pass whose calls have all ended has worked on every entry of its plan.
pub proof fn law_pass_leaves_nothing(pass: Pass)
    requires
        pass.wf(),
        pass.in_flight() == 0,
    ensures
        pass.indexed() + pass.failed() == pass.total(),
{
}

/// What the scan of the queue leads to.
pub enum ScanDecision {
    /// Nothing to do until the next wake-up.
    Idle,
    /// A pass over this plan.
    Run(PassPlan),
}

/// Decides on the scanned queue; `None` stands for a scan that failed.
pub fn after_scan(queue: Option<&[QueueEntry]>, max_retries: u32) -> (d: ScanDecision)
    ensures
        d is Idle <==> queue is None || forall|i: int|
            0 <= i < queue->0@.len() ==> (#[trigger] queue->0@[i]).retry_count >= max_retries,
        d is Run ==> is_plan(d->Run_0, queue->0@, max_retries),
{
    match queue {
        None => ScanDecision::Idle,
        Some(entries) => {
            let plan = plan_pass(entries, max_retries);
            let n: usize = entries.len();
            proof {
                assert(n == entries@.len());
                law_plan_is_complete(plan, entries@, max_retries);
            }
            if plan.work.len() == 0 {
                proof {
                    assert forall|i: int| 0 <= i < entries@.len() implies (#[trigger] entries@[i]).retry_count
                        >= max_retries by {
                        assert(!plan.work@.contains(i as usize));
                    }
                }
                ScanDecision::Idle
            } else {
                proof {
                    assert(plan.work@.contains(plan.work@[0]));
                }
                ScanDecision::Run(plan)
            }
        },
    }
}

/// The attempt count to store for an entry whose call failed, and whether the
/// entry has now used up its attempts.
pub fn next_attempt(retry_count: u32, max_retries: u32) -> (r: (u32, bool))
    requires
        retry_count < max_retries,
    ensures
        r.0 == retry_count + 1,
        r.1 <==> r.0 >= max_retries,
{
    let count: u32 = retry_count + 1;
    (count, count >= max_retries)
}

/// A pass whose calls all succeed drains the queue: of the entries that it leaves,
/// none has attempts left, so the next scan finds nothing to do.
pub proof fn law_successful_pass_drains(
    plan: PassPlan,
    entries: Seq<QueueEntry>,
    max_retries: u32,
    left: Seq<usize>,
)
    requires
        is_plan(plan, entries, max_retries),
        entries.len() <= usize::MAX,
        forall|k: int| 0 <= k < left.len() ==> (#[trigger] left[k]) < entries.len() && !plan.work@.contains(left[k]),
    ensures
        forall|k: int| 0 <= k < left.len() ==> entries[(#[trigger] left[k]) as int].retry_count >= max_retries,
{
    law_plan_is_complete(plan, entries, max_retries);
    assert forall|k: int| 0 <= k < left.len() implies entries[(#[trigger] left[k]) as int].retry_count
        >= max_retries by {
        assert(!plan.work@.contains(left[k]));
    }
}

/// Number of failed attempts after which an entry is left alone.
pub proof fn law_attempts_are_bounded(retry_count: u32, max_retries: u32, failures: nat)
    requires
        retry_count <= max_retries,
        failures == max_retries - retry_count,
    ensures
        attempts_after(retry_count, max_retries, failures) == max_retries,
    decreases failures,
{
    if failures > 0 {
        law_attempts_are_bounded((retry_count + 1) as u32, max_retries, (failures - 1) as nat);
    }
}

/// The attempt count of an entry after more failures; an entry whose attempts are
/// used up is not tried again.
pub open spec fn attempts_after(retry_count: u32, max_retries: u32, failures: nat) -> int
    decreases failures,
{
    if failures == 0 || retry_count >= max_retries {
        retry_count as int
    } else {
        attempts_after((retry_count + 1) as u32, max_retries, (failures - 1) as nat)
    }
}

/// Number of the entries that have attempts left and are of the namespace with these
/// bytes.
pub open spec fn waiting(entries: Seq<QueueEntry>, max_retries: u32, name: Seq<u8>) -> nat {
    entries.filter(|e: QueueEntry| e.retry_count < max_retries && encode_utf8(e.namespace@) == name).len()
}

/// Number of entries before entry `i` that have attempts left and are of its namespace.
pub open spec fn turns_before(entries: Seq<QueueEntry>, max_retries: u32, i: int) -> nat {
    waiting(entries.take(i), max_retries, encode_utf8(entries[i].namespace@))
}

proof fn lemma_actionable_prefix(entries: Seq<QueueEntry>, max_retries: u32, n: int, m: int)
    requires
        0 <= n <= m <= entries.len(),
    ensures
        ({
            let (short, long) = (actionable(entries, max_retries, n), actionable(entries, max_retries, m));
            short.len() <= long.len() && long.take(short.len() as int) == short
        }),
    decreases m - n,
{
    let (short, long) = (actionable(entries, max_retries, n), actionable(entries, max_retries, m));
    if n < m {
        lemma_actionable_prefix(entries, max_retries, n, m - 1);
        let mid = actionable(entries, max_retries, m - 1);
        assert(long.take(short.len() as int) =~= mid.take(short.len() as int));
    } else {
        assert(long.take(long.len() as int) =~= long);
    }
}

/// The turn of an entry is counted over the entries with attempts left.
proof fn lemma_turns(entries: Seq<QueueEntry>, max_retries: u32, n: int, x: Seq<u8>)
    requires
        0 <= n <= entries.len(),
        entries.len() <= usize::MAX,
    ensures
        waiting(entries.take(n), max_retries, x) == occurrences(
            actionable_names(entries, max_retries),
            actionable(entries, max_retries, n).len() as int,
            x,
        ),
        entries.take(n).filter(|e: QueueEntry| e.retry_count < max_retries).len() == actionable(
            entries,
            max_retries,
            n,
        ).len(),
        entries.take(n).filter(|e: QueueEntry| e.retry_count >= max_retries).len() + actionable(
            entries,
            max_retries,
            n,
        ).len() == n,
    decreases n,
{
    reveal(Seq::filter);
    if n > 0 {
        lemma_turns(entries, max_retries, n - 1, x);
        assert(entries.take(n).drop_last() =~= entries.take(n - 1));
        assert(entries.take(n).last() == entries[n - 1]);
        let before = actionable(entries, max_retries, n - 1);
        let now = actionable(entries, max_retries, n);
        let full = actionable(entries, max_retries, entries.len() as int);
        lemma_actionable_prefix(entries, max_retries, n, entries.len() as int);
        if entries[n - 1].retry_count < max_retries {
            let k = before.len() as int;
            assert(now[k] == n - 1);
            assert(full.take(now.len() as int)[k] == now[k]);
            assert(full[k] == now[k]);
            assert(actionable_names(entries, max_retries)[k] == encode_utf8(entries[n - 1].namespace@));
        }
    }
}

/// A pass goes round the namespaces: of two entries that one is worked on first which
/// has fewer entries of its own namespace before it in the queue, those without attempts
/// left not counted; where they have as many, the one of the smaller namespace. So no
/// backlog of one namespace delays another, and the entries of one keep their order.
pub proof fn law_pass_goes_round_the_namespaces(
    plan: PassPlan,
    entries: Seq<QueueEntry>,
    max_retries: u32,
    p: int,
    q: int,
)
    requires
        is_plan(plan, entries, max_retries),
        entries.len() <= usize::MAX,
        0 <= p < plan.work@.len(),
        0 <= q < plan.work@.len(),
        p != q,
    ensures
        ({
            let (i, j) = (plan.work@[p] as int, plan.work@[q] as int);
            let (a, b) = (turns_before(entries, max_retries, i), turns_before(entries, max_retries, j));
            p < q <==> a < b || (a == b && lex_lt(
                encode_utf8(entries[i].namespace@),
                encode_utf8(entries[j].namespace@),
            ))
        }),
{
    let n = entries.len() as int;
    let at = actionable(entries, max_retries, n);
    let names = actionable_names(entries, max_retries);
    lemma_actionable(entries, max_retries, n);
    let order = choose|order: Seq<usize>|
        {
            &&& #[trigger] in_turn(order, names)
            &&& plan.work@ == Seq::new(order.len(), |p: int| at[order[p] as int])
        };
    law_turns_go_round(order, names, p, q);
    let (a, b) = (order[p] as int, order[q] as int);
    lemma_position(entries, max_retries, a);
    lemma_position(entries, max_retries, b);
    let (i, j) = (at[a] as int, at[b] as int);
    lemma_turns(entries, max_retries, i, names[a]);
    lemma_turns(entries, max_retries, j, names[b]);
    lemma_occurrences_count(names, a, names[a]);
    lemma_occurrences_count(names, b, names[b]);
    assert(names[a] == encode_utf8(entries[i].namespace@));
    assert(names[b] == encode_utf8(entries[j].namespace@));
}

/// The entries with attempts left before the one at place `k` are those on the places
/// before it.
proof fn lemma_position(entries: Seq<QueueEntry>, max_retries: u32, k: int)
    requires
        entries.len() <= usize::MAX,
        0 <= k < actionable(entries, max_retries, entries.len() as int).len(),
    ensures
        actionable(
            entries,
            max_retries,
            actionable(entries, max_retries, entries.len() as int)[k] as int,
        ).len() == k,
{
    let n = entries.len() as int;
    let at = actionable(entries, max_retries, n);
    lemma_actionable(entries, max_retries, n);
    let i = at[k] as int;
    let before = actionable(entries, max_retries, i);
    lemma_actionable_prefix(entries, max_retries, i, n);
    lemma_actionable_prefix(entries, max_retries, i + 1, n);
    lemma_actionable(entries, max_retries, i);
    let upto = actionable(entries, max_retries, i + 1);
    assert(upto == before.push(i as usize));
    assert(at.take(upto.len() as int)[before.len() as int] == i as usize);
    let m = before.len() as int;
    assert(at[m] == at[k]);
    if m < k {
        assert(at[m] < at[k]);
    } else if k < m {
        assert(at[k] < at[m]);
    }
}

/// The exhausted entries of a plan are those without attempts left, all others are
/// worked on.
pub proof fn law_plan_counts_the_exhausted(plan: PassPlan, entries: Seq<QueueEntry>, max_retries: u32)
    requires
        is_plan(plan, entries, max_retries),
        entries.len() <= usize::MAX,
    ensures
        plan.exhausted == entries.filter(|e: QueueEntry| e.retry_count >= max_retries).len(),
        plan.work@.len() == entries.filter(|e: QueueEntry| e.retry_count < max_retries).len(),
{
    let n = entries.len() as int;
    lemma_turns(entries, max_retries, n, Seq::empty());
    assert(entries.take(n) =~= entries);
}

/// Entries ask for the same exactly where both ask for no vectors, or both for those of
/// the same text.
pub proof fn law_requests(a: QueueEntry, b: QueueEntry)
    ensures
        a.request() == b.request() <==> a.kind == b.kind && (a.kind == QueueEntryKind::Embed ==> a.text@ == b.text@),
        a.request() is Clear <==> a.kind == QueueEntryKind::Clear,
        a.kind == QueueEntryKind::Embed ==> a.request() == Request::Embed(a.text@),
{
}

/// A failed attempt is counted on the newest entry of the document, on the one that was
/// worked on where there is none.
pub proof fn law_failures_count_on_the_newest_entry(worked: QueueEntry, current: QueueEntry)
    ensures
        counted_on(worked, Some(current)) == current,
        counted_on(worked, None) == worked,
{
}

/// The names of the queue are those of its entries, all of them and in their order.
pub proof fn law_queue_names(entries: Seq<QueueEntry>, i: int)
    ensures
        queue_names(entries).len() == entries.len(),
        0 <= i < entries.len() ==> queue_names(entries)[i] == encode_utf8(entries[i].namespace@),
{
}

/// Entries with the same request have the same namespace, document, kind and text.
pub proof fn law_same_requests(a: QueueEntry, b: QueueEntry)
    ensures
        a.same_request(&b) <==> a.namespace == b.namespace && a.doc_id_bytes@ == b.doc_id_bytes@ && a.kind == b.kind
            && a.text == b.text,
{
}

/// Planning a pass: exactly the entries with attempts left are worked on, each once, and
/// the others are counted. Of two entries the one with fewer entries of its own namespace
/// before it comes first, those without attempts not counted; where they have as many, the
/// one of the smaller namespace.
pub proof fn law_plan_pass(entries: &[QueueEntry], max_retries: u32, plan: PassPlan, p: int, q: int)
    requires
        call_ensures(plan_pass, (entries, max_retries), plan),
    ensures
        plan.work@.no_duplicates(),
        forall|i: usize|
            #[trigger] plan.work@.contains(i) <==> i < entries@.len() && entries@[i as int].retry_count < max_retries,
        plan.exhausted == entries@.filter(|e: QueueEntry| e.retry_count >= max_retries).len(),
        0 <= p < plan.work@.len() && 0 <= q < plan.work@.len() && p != q ==> ({
            let (i, j) = (plan.work@[p] as int, plan.work@[q] as int);
            let (a, b) = (turns_before(entries@, max_retries, i), turns_before(entries@, max_retries, j));
            p < q <==> a < b || (a == b && lex_lt(
                encode_utf8(entries@[i].namespace@),
                encode_utf8(entries@[j].namespace@),
            ))
        }),
{
    assert(entries.len() <= usize::MAX);
    law_plan_is_complete(plan, entries@, max_retries);
    law_plan_counts_the_exhausted(plan, entries@, max_retries);
    if 0 <= p < plan.work@.len() && 0 <= q < plan.work@.len() && p != q {
        law_pass_goes_round_the_namespaces(plan, entries@, max_retries, p, q);
    }
}

/// After a scan there is a pass exactly where some entry has an attempt left, and it is
/// over all such entries.
pub proof fn law_after_scan(queue: &[QueueEntry], max_retries: u32, d: ScanDecision, failed: ScanDecision)
    requires
        call_ensures(after_scan, (Some(queue), max_retries), d),
        call_ensures(after_scan, (None::<&[QueueEntry]>, max_retries), failed),
    ensures
        failed is Idle,
        d is Run <==> exists|i: int| 0 <= i < queue@.len() && (#[trigger] queue@[i]).retry_count < max_retries,
        d matches ScanDecision::Run(plan) ==> forall|i: usize|
            #[trigger] plan.work@.contains(i) <==> i < queue@.len() && queue@[i as int].retry_count < max_retries,
{
    assert(queue.len() <= usize::MAX);
    if let ScanDecision::Run(plan) = d {
        law_plan_is_complete(plan, queue@, max_retries);
    }
}

/// A failed attempt is stored with one failure more on the newest entry of the document,
/// or on the one that was worked on where there is none any more; an entry that asks for
/// something else, or has no attempt left, is left alone.
pub proof fn law_after_failure(
    worked: &QueueEntry,
    current: QueueEntry,
    max_retries: u32,
    r: Option<(QueueEntry, bool)>,
    gone: Option<(QueueEntry, bool)>,
)
    requires
        call_ensures(after_failure, (worked, Some(current), max_retries), r),
        call_ensures(after_failure, (worked, None::<QueueEntry>, max_retries), gone),
    ensures
        r is Some <==> current.kind == worked.kind && (current.kind == QueueEntryKind::Embed ==> current.text@
            == worked.text@) && current.retry_count < max_retries,
        r matches Some((e, exhausted)) ==> e.namespace == current.namespace && e.doc_id_bytes@ == current.doc_id_bytes@
            && e.kind == current.kind && e.text == current.text && e.retry_count == current.retry_count + 1 && (exhausted
            <==> current.retry_count + 1 >= max_retries),
        gone is Some <==> worked.retry_count < max_retries,
        gone matches Some((e, exhausted)) ==> e.namespace == worked.namespace && e.doc_id_bytes@ == worked.doc_id_bytes@
            && e.kind == worked.kind && e.text == worked.text && e.retry_count == worked.retry_count + 1 && (exhausted
            <==> worked.retry_count + 1 >= max_retries),
{
    law_requests(current, *worked);
}

/// Entries are discarded exactly where their namespace is not among those that there are.
pub proof fn law_gone_entries(entries: &[QueueEntry], namespaces: &[String], at: Vec<usize>)
    requires
        call_ensures(gone_entries, (entries, namespaces), at),
    ensures
        at@.no_duplicates(),
        forall|i: usize| #[trigger]
            at@.contains(i) ==> i < entries@.len() && forall|k: int|
                0 <= k < namespaces@.len() ==> (#[trigger] namespaces@[k])@ != entries@[i as int].namespace@,
        forall|i: usize|
            i < entries@.len() && (forall|k: int|
                0 <= k < namespaces@.len() ==> (#[trigger] namespaces@[k])@ != entries@[i as int].namespace@)
                ==> #[trigger] at@.contains(i),
{
    let names = texts(namespaces@);
    assert(at@.no_duplicates()) by {
        assert forall|i: int, j: int| 0 <= i < at@.len() && 0 <= j < at@.len() && i != j implies at@[i] != at@[j] by {
            if i < j {
                assert(at@[i] < at@[j]);
            } else {
                assert(at@[j] < at@[i]);
            }
        }
    }
    assert forall|i: usize| #[trigger] at@.contains(i) implies i < entries@.len() && forall|k: int|
        0 <= k < namespaces@.len() ==> (#[trigger] namespaces@[k])@ != entries@[i as int].namespace@ by {
        let p = choose|p: int| 0 <= p < at@.len() && at@[p] == i;
        assert(at@[p] < entries@.len());
        assert forall|k: int| 0 <= k < namespaces@.len() implies (#[trigger] namespaces@[k])@
            != entries@[i as int].namespace@ by {
            assert(names[k] == namespaces@[k]@);
            assert(names.contains(names[k]));
        }
    }
    assert forall|i: usize|
        i < entries@.len() && (forall|k: int|
            0 <= k < namespaces@.len() ==> (#[trigger] namespaces@[k])@ != entries@[i as int].namespace@)
            implies #[trigger] at@.contains(i) by {
        if names.contains(entries@[i as int].namespace@) {
            let k = choose|k: int| 0 <= k < names.len() && names[k] == entries@[i as int].namespace@;
            assert(namespaces@[k]@ == entries@[i as int].namespace@);
        }
    }
}

/// A failed attempt counts one, and an entry is exhausted once it has had as many as it
/// may have. After a pass there is a wait exactly where a call of it did not succeed.
pub proof fn law_attempts_and_waits(
    retry_count: u32,
    max_retries: u32,
    r: (u32, bool),
    pass: &Pass,
    config: &VectorIndexConfig,
    secs: Option<u64>,
)
    requires
        retry_count < max_retries,
        call_ensures(next_attempt, (retry_count, max_retries), r),
        call_ensures(Pass::wait_after, (pass, config), secs),
    ensures
        r.0 == retry_count + 1,
        r.1 <==> retry_count + 1 == max_retries,
        secs is Some <==> pass.failed() > 0,
        secs is Some ==> secs->0 == config.retry_wait_secs,
{
}

/// A pass starts as many calls as may be in flight at once, one at least, or as there are
/// entries; each call that ends is counted once, as indexed or not, and the next entry
/// takes its place as long as one waits.
pub proof fn law_passes(total: usize, concurrency: usize, begun: Pass, pass: &mut Pass, outcome: CallOutcome, next: Option<usize>)
    requires
        call_ensures(Pass::begin, (total, concurrency), begun),
        old(pass).wf(),
        old(pass).in_flight() > 0,
        call_ensures(Pass::settle, (pass, outcome), next),
    ensures
        begun.total() == total && begun.indexed() == 0 && begun.failed() == 0,
        total <= concurrency ==> begun.started() == total || concurrency == 0,
        total > concurrency > 0 ==> begun.started() == concurrency,
        concurrency == 0 && total > 0 ==> begun.started() == 1,
        final(pass).indexed() + final(pass).failed() == old(pass).indexed() + old(pass).failed() + 1,
        outcome is Indexed <==> final(pass).indexed() == old(pass).indexed() + 1,
        next is Some <==> old(pass).started() < old(pass).total(),
        next matches Some(i) ==> i == old(pass).started() && final(pass).started() == i + 1,
        next is None ==> final(pass).started() == old(pass).started(),
        final(pass).total() == old(pass).total(),
{
}

/// Entries of the queue: a new one holds what it was made of and has not failed; resetting
/// one keeps its request, and a failure counts one more. Two entries ask the same exactly
/// where both clear, or both embed the same text.
pub proof fn law_entries(
    namespace: &String,
    key: &[u8],
    text: &String,
    e: QueueEntry,
    c: QueueEntry,
    a: &QueueEntry,
    b: &QueueEntry,
    same: bool,
)
    requires
        call_ensures(QueueEntry::embed, (namespace, key, text), e),
        call_ensures(QueueEntry::clear, (namespace, key), c),
        call_ensures(QueueEntry::asks_the_same, (a, b), same),
    ensures
        e.namespace@ == namespace@ && e.doc_id_bytes@ == key@ && e.text@ == text@ && e.retry_count == 0,
        e.kind == QueueEntryKind::Embed && c.kind == QueueEntryKind::Clear,
        c.namespace@ == namespace@ && c.doc_id_bytes@ == key@ && c.text@.len() == 0 && c.retry_count == 0,
        same <==> a.kind == b.kind && (a.kind == QueueEntryKind::Embed ==> a.text@ == b.text@),
{
    law_requests(*a, *b);
}

/// Failures and resets of an entry.
pub proof fn law_failures_and_resets(e: &mut QueueEntry, max_retries: u32, exhausted: bool, d: &mut QueueEntry)
    requires
        old(e).retry_count < max_retries,
        call_ensures(QueueEntry::record_failure, (e, max_retries), exhausted),
        call_ensures(QueueEntry::reset, (d,), ()),
    ensures
        final(e).retry_count == old(e).retry_count + 1,
        exhausted <==> old(e).retry_count + 1 == max_retries,
        final(d).retry_count == 0,
        final(e).namespace == old(e).namespace && final(e).doc_id_bytes@ == old(e).doc_id_bytes@ && final(e).kind
            == old(e).kind && final(e).text == old(e).text,
        final(d).namespace == old(d).namespace && final(d).doc_id_bytes@ == old(d).doc_id_bytes@ && final(d).kind
            == old(d).kind && final(d).text == old(d).text,
{
    law_same_requests(*final(e), *old(e));
    law_same_requests(*final(d), *old(d));
}

} // verus!
