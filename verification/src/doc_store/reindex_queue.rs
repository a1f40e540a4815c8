//! What a reindex does to the queue.

use vstd::prelude::*;

use super::reindex::{exhausted_at, item_views, lemma_with_text, with_text, EmbedPlan, ValueTextView};
use super::vec_index_worker::{QueueEntry, Request};
use crate::bytes::copy_bytes;

verus! {

/// One write to the queue, for a document of one namespace.
#[derive(Debug, Clone)]
pub enum QueueOp {
    /// Remove the entry of the document with this key.
    Remove(Vec<u8>),
    /// Enqueue a text of the document with this key, in place of any other entry of it.
    Enqueue(Vec<u8>, String),
}

/// Model of a [`QueueOp`].
pub enum QueueOpView {
    Remove(Seq<u8>),
    Enqueue(Seq<u8>, Seq<char>),
}

impl View for QueueOp {
    type V = QueueOpView;

    open spec fn view(&self) -> QueueOpView {
        match self {
            QueueOp::Remove(key) => QueueOpView::Remove(key@),
            QueueOp::Enqueue(key, text) => QueueOpView::Enqueue(key@, text@),
        }
    }
}

/// Models of a list of writes.
pub open spec fn op_views(ops: Seq<QueueOp>) -> Seq<QueueOpView> {
    Seq::new(ops.len(), |i: int| ops[i]@)
}

/// What the queue holds of a document.
pub struct Queued {
    pub request: Request,
    pub retry_count: nat,
}

/// The queue by namespace and key.
pub type Queue = Map<(Seq<char>, Seq<u8>), Queued>;

/// What an entry adds to the queue.
pub open spec fn queued(e: QueueEntry) -> Queued {
    Queued { request: e.request(), retry_count: e.retry_count as nat }
}

/// `entries` lists the queue, each document once.
pub open spec fn lists_queue(queue: Queue, entries: Seq<QueueEntry>) -> bool {
    &&& forall|i: int|
        0 <= i < entries.len() ==> #[trigger] queue.contains_pair(
            (entries[i].namespace@, entries[i].doc_id_bytes@),
            queued(entries[i]),
        )
    &&& forall|n: Seq<char>, k: Seq<u8>| #[trigger]
        queue.dom().contains((n, k)) ==> exists|i: int|
            0 <= i < entries.len() && (#[trigger] entries[i]).namespace@ == n && entries[i].doc_id_bytes@ == k
}

/// The effect of one write.
pub open spec fn after_queue_op(queue: Queue, namespace: Seq<char>, op: QueueOpView) -> Queue {
    match op {
        QueueOpView::Remove(key) => queue.remove((namespace, key)),
        QueueOpView::Enqueue(key, text) => queue.insert(
            (namespace, key),
            Queued { request: Request::Embed(text), retry_count: 0 },
        ),
    }
}

/// The effect of a list of writes.
pub open spec fn after_queue_ops(queue: Queue, namespace: Seq<char>, ops: Seq<QueueOpView>) -> Queue
    decreases ops.len(),
{
    if ops.len() == 0 {
        queue
    } else {
        after_queue_op(after_queue_ops(queue, namespace, ops.drop_last()), namespace, ops.last())
    }
}

/// Removing the entries at these positions.
pub open spec fn removals(entries: Seq<QueueEntry>, at: Seq<usize>) -> Seq<QueueOpView> {
    Seq::new(at.len(), |i: int| QueueOpView::Remove(entries[at[i] as int].doc_id_bytes@))
}

/// Enqueuing these texts of the documents with these keys.
pub open spec fn enqueues(keys: Seq<Seq<u8>>, items: Seq<(int, Seq<char>)>) -> Seq<QueueOpView> {
    Seq::new(items.len(), |i: int| QueueOpView::Enqueue(keys[items[i].0], items[i].1))
}

/// Bytes of a list of keys.
pub open spec fn key_views(keys: Seq<Vec<u8>>) -> Seq<Seq<u8>> {
    Seq::new(keys.len(), |i: int| keys[i]@)
}

/// The writes of a reindex: the exhausted entries go first, then every planned text is
/// enqueued under the key of its value.
pub fn reindex_ops(entries: &[QueueEntry], exhausted: &[usize], keys: &[Vec<u8>], plan: &EmbedPlan) -> (ops: Vec<QueueOp>)
    requires
        forall|i: int| 0 <= i < exhausted@.len() ==> (#[trigger] exhausted@[i]) < entries@.len(),
        forall|i: int| 0 <= i < plan.enqueue@.len() ==> (#[trigger] plan.enqueue@[i]).position < keys@.len(),
    ensures
        op_views(ops@) == removals(entries@, exhausted@) + enqueues(key_views(keys@), item_views(plan.enqueue@)),
{
    let mut ops: Vec<QueueOp> = Vec::new();
    let mut i: usize = 0;
    while i < exhausted.len()
        invariant
            i <= exhausted@.len(),
            ops@.len() == i,
            forall|k: int| 0 <= k < exhausted@.len() ==> (#[trigger] exhausted@[k]) < entries@.len(),
            forall|k: int| 0 <= k < i ==> (#[trigger] ops@[k])@ == removals(entries@, exhausted@)[k],
        decreases exhausted@.len() - i,
    {
        ops.push(QueueOp::Remove(copy_bytes(entries[exhausted[i]].doc_id_bytes.as_slice())));
        i = i + 1;
    }
    let ghost items = item_views(plan.enqueue@);
    let ghost n = exhausted@.len();
    let mut j: usize = 0;
    while j < plan.enqueue.len()
        invariant
            j <= plan.enqueue@.len(),
            n == exhausted@.len(),
            ops@.len() == n + j,
            items == item_views(plan.enqueue@),
            forall|k: int| 0 <= k < plan.enqueue@.len() ==> (#[trigger] plan.enqueue@[k]).position < keys@.len(),
            forall|k: int| 0 <= k < n ==> (#[trigger] ops@[k])@ == removals(entries@, exhausted@)[k],
            forall|k: int| n <= k < n + j ==> (#[trigger] ops@[k])@ == enqueues(key_views(keys@), items)[k - n],
        decreases plan.enqueue@.len() - j,
    {
        let item = &plan.enqueue[j];
        ops.push(QueueOp::Enqueue(copy_bytes(keys[item.position].as_slice()), item.text.clone()));
        j = j + 1;
    }
    proof {
        assert(op_views(ops@) =~= removals(entries@, exhausted@) + enqueues(key_views(keys@), items));
    }
    ops
}

proof fn lemma_ops_in_turn(queue: Queue, namespace: Seq<char>, first: Seq<QueueOpView>, second: Seq<QueueOpView>)
    ensures
        after_queue_ops(queue, namespace, first + second) == after_queue_ops(
            after_queue_ops(queue, namespace, first),
            namespace,
            second,
        ),
    decreases second.len(),
{
    if second.len() == 0 {
        assert(first + second =~= first);
    } else {
        assert((first + second).drop_last() =~= first + second.drop_last());
        lemma_ops_in_turn(queue, namespace, first, second.drop_last());
    }
}

/// Whether removals name a key.
pub open spec fn removes(entries: Seq<QueueEntry>, at: Seq<usize>, key: Seq<u8>) -> bool {
    exists|i: int| 0 <= i < at.len() && entries[#[trigger] at[i] as int].doc_id_bytes@ == key
}

/// The named entries are gone, and the others are as they were.
proof fn lemma_removals(queue: Queue, namespace: Seq<char>, entries: Seq<QueueEntry>, at: Seq<usize>, n: Seq<char>, k: Seq<u8>)
    ensures
        ({
            let after = after_queue_ops(queue, namespace, removals(entries, at));
            &&& after.dom().contains((n, k)) <==> queue.dom().contains((n, k)) && !(n == namespace && removes(
                entries,
                at,
                k,
            ))
            &&& after.dom().contains((n, k)) ==> after[(n, k)] == queue[(n, k)]
        }),
    decreases at.len(),
{
    let ops = removals(entries, at);
    if at.len() > 0 {
        let front = at.drop_last();
        lemma_removals(queue, namespace, entries, front, n, k);
        assert(ops.drop_last() =~= removals(entries, front));
        assert(removes(entries, at, k) <==> removes(entries, front, k) || entries[at.last() as int].doc_id_bytes@ == k) by {
            if removes(entries, front, k) {
                let i = choose|i: int| 0 <= i < front.len() && entries[#[trigger] front[i] as int].doc_id_bytes@ == k;
                assert(entries[at[i] as int].doc_id_bytes@ == k);
            }
            if removes(entries, at, k) {
                let i = choose|i: int| 0 <= i < at.len() && entries[#[trigger] at[i] as int].doc_id_bytes@ == k;
                if i < front.len() {
                    assert(entries[front[i] as int].doc_id_bytes@ == k);
                }
            }
            assert(at[at.len() - 1] == at.last());
        }
    }
}

/// Every item is in the queue, and what no item is about is as it was.
proof fn lemma_enqueues(
    queue: Queue,
    namespace: Seq<char>,
    keys: Seq<Seq<u8>>,
    items: Seq<(int, Seq<char>)>,
    n: Seq<char>,
    k: Seq<u8>,
)
    requires
        keys.no_duplicates(),
        forall|i: int| 0 <= i < items.len() ==> 0 <= (#[trigger] items[i]).0 < keys.len(),
        forall|i: int, j: int| 0 <= i < j < items.len() ==> (#[trigger] items[i]).0 < (#[trigger] items[j]).0,
    ensures
        ({
            let after = after_queue_ops(queue, namespace, enqueues(keys, items));
            &&& (n != namespace || forall|i: int| 0 <= i < items.len() ==> keys[(#[trigger] items[i]).0] != k) ==> {
                &&& after.dom().contains((n, k)) <==> queue.dom().contains((n, k))
                &&& after[(n, k)] == queue[(n, k)]
            }
            &&& forall|i: int|
                0 <= i < items.len() ==> after.contains_pair(
                    (namespace, keys[(#[trigger] items[i]).0]),
                    Queued { request: Request::Embed(items[i].1), retry_count: 0 },
                )
        }),
    decreases items.len(),
{
    let ops = enqueues(keys, items);
    if items.len() > 0 {
        let front = items.drop_last();
        assert(forall|i: int| 0 <= i < front.len() ==> #[trigger] front[i] == items[i]);
        lemma_enqueues(queue, namespace, keys, front, n, k);
        assert(ops.drop_last() =~= enqueues(keys, front));
        let before = after_queue_ops(queue, namespace, enqueues(keys, front));
        let after = after_queue_ops(queue, namespace, ops);
        assert forall|i: int| 0 <= i < items.len() implies after.contains_pair(
            (namespace, keys[(#[trigger] items[i]).0]),
            Queued { request: Request::Embed(items[i].1), retry_count: 0 },
        ) by {
            if i < front.len() {
                assert(items[i].0 < items[items.len() - 1].0);
                assert(keys[items[i].0] != keys[items.last().0]);
                assert(before.contains_pair(
                    (namespace, keys[front[i].0]),
                    Queued { request: Request::Embed(front[i].1), retry_count: 0 },
                ));
            }
        }
        if n != namespace || forall|i: int| 0 <= i < items.len() ==> keys[(#[trigger] items[i]).0] != k {
            assert(items[items.len() - 1] == items.last());
        }
    }
}

proof fn lemma_exhausted(entries: Seq<QueueEntry>, namespace: Seq<char>, max_retries: u32, n: int, i: int)
    requires
        0 <= n <= entries.len() <= usize::MAX,
        0 <= i < n,
    ensures
        exhausted_at(entries, namespace, max_retries, n).contains(i as usize) <==> entries[i].namespace@ == namespace
            && entries[i].retry_count >= max_retries,
        forall|p: usize| #[trigger]
            exhausted_at(entries, namespace, max_retries, n).contains(p) ==> p < n && entries[p as int].namespace@
                == namespace && entries[p as int].retry_count >= max_retries,
    decreases n,
{
    let all = exhausted_at(entries, namespace, max_retries, n);
    let front = exhausted_at(entries, namespace, max_retries, n - 1);
    if n > 1 {
        lemma_exhausted(entries, namespace, max_retries, n - 1, if i < n - 1 { i } else { 0 });
    }
    assert forall|p: usize| #[trigger] all.contains(p) <==> front.contains(p) || (p == n - 1 && all.len() > front.len()) by {
        if front.contains(p) {
            let a = choose|a: int| 0 <= a < front.len() && front[a] == p;
            assert(all[a] == p);
        }
        if all.contains(p) {
            let a = choose|a: int| 0 <= a < all.len() && all[a] == p;
            if a < front.len() {
                assert(front[a] == p);
            }
        }
        if all.len() > front.len() {
            assert(all[front.len() as int] == (n - 1) as usize);
        }
    }
    if n == 1 {
        assert(front.len() == 0);
    }
}

proof fn lemma_with_text_order(values: Seq<ValueTextView>)
    ensures
        forall|i: int|
            0 <= i < with_text(values).len() ==> 0 <= (#[trigger] with_text(values)[i]).0 < values.len()
                && values[with_text(values)[i].0] == ValueTextView::Text(with_text(values)[i].1),
        forall|i: int, j: int|
            0 <= i < j < with_text(values).len() ==> (#[trigger] with_text(values)[i]).0 < (
            #[trigger] with_text(values)[j]).0,
    decreases values.len(),
{
    if values.len() > 0 {
        let front = values.drop_last();
        lemma_with_text_order(front);
        let (all, before) = (with_text(values), with_text(front));
        assert(forall|i: int| 0 <= i < before.len() ==> #[trigger] all[i] == before[i]);
    }
}

/// What the queue holds once a reindex is carried out: one entry with all its attempts
/// for every value with a text, and nothing of the exhausted entries of the namespace;
/// the other entries of the namespace, and those of other namespaces, are as they were.
pub proof fn law_queue_after_reindex(
    queue: Queue,
    entries: Seq<QueueEntry>,
    namespace: Seq<char>,
    max_retries: u32,
    keys: Seq<Seq<u8>>,
    values: Seq<ValueTextView>,
)
    requires
        lists_queue(queue, entries),
        entries.len() <= usize::MAX,
        keys.len() == values.len(),
        keys.no_duplicates(),
    ensures
        ({
            let exhausted = exhausted_at(entries, namespace, max_retries, entries.len() as int);
            let after = after_queue_ops(
                queue,
                namespace,
                removals(entries, exhausted) + enqueues(keys, with_text(values)),
            );
            &&& forall|i: int|
                0 <= i < values.len() && (#[trigger] values[i] is Text) ==> after.contains_pair(
                    (namespace, keys[i]),
                    Queued { request: Request::Embed(values[i]->Text_0), retry_count: 0 },
                )
            &&& forall|k: Seq<u8>|
                (forall|i: int| 0 <= i < values.len() && (#[trigger] values[i] is Text) ==> keys[i] != k) ==> {
                    &&& #[trigger] after.dom().contains((namespace, k)) <==> queue.dom().contains((namespace, k))
                        && queue[(namespace, k)].retry_count < max_retries
                    &&& after.dom().contains((namespace, k)) ==> after[(namespace, k)] == queue[(namespace, k)]
                }
            &&& forall|n: Seq<char>, k: Seq<u8>|
                n != namespace ==> {
                    &&& #[trigger] after.dom().contains((n, k)) <==> queue.dom().contains((n, k))
                    &&& after.dom().contains((n, k)) ==> after[(n, k)] == queue[(n, k)]
                }
        }),
{
    let exhausted = exhausted_at(entries, namespace, max_retries, entries.len() as int);
    let items = with_text(values);
    let mid = after_queue_ops(queue, namespace, removals(entries, exhausted));
    let after = after_queue_ops(queue, namespace, removals(entries, exhausted) + enqueues(keys, items));
    lemma_ops_in_turn(queue, namespace, removals(entries, exhausted), enqueues(keys, items));
    lemma_with_text_order(values);
    assert forall|i: int| 0 <= i < values.len() && (#[trigger] values[i] is Text) implies after.contains_pair(
        (namespace, keys[i]),
        Queued { request: Request::Embed(values[i]->Text_0), retry_count: 0 },
    ) by {
        lemma_with_text(values, i);
        let p = choose|p: int| 0 <= p < items.len() && items[p] == (i, values[i]->Text_0);
        lemma_enqueues(mid, namespace, keys, items, namespace, keys[i]);
        assert(items[p].0 == i);
    }
    assert forall|k: Seq<u8>|
        (forall|i: int| 0 <= i < values.len() && (#[trigger] values[i] is Text) ==> keys[i] != k) implies {
        &&& #[trigger] after.dom().contains((namespace, k)) <==> queue.dom().contains((namespace, k))
            && queue[(namespace, k)].retry_count < max_retries
        &&& after.dom().contains((namespace, k)) ==> after[(namespace, k)] == queue[(namespace, k)]
    } by {
        assert forall|p: int| 0 <= p < items.len() implies keys[(#[trigger] items[p]).0] != k by {
            assert(values[items[p].0] is Text);
        }
        lemma_enqueues(mid, namespace, keys, items, namespace, k);
        lemma_removals(queue, namespace, entries, exhausted, namespace, k);
        if queue.dom().contains((namespace, k)) {
            lemma_exhausted_removed(queue, entries, namespace, max_retries, k);
        }
    }
    assert forall|n: Seq<char>, k: Seq<u8>| n != namespace implies {
        &&& #[trigger] after.dom().contains((n, k)) <==> queue.dom().contains((n, k))
        &&& after.dom().contains((n, k)) ==> after[(n, k)] == queue[(n, k)]
    } by {
        lemma_enqueues(mid, namespace, keys, items, n, k);
        lemma_removals(queue, namespace, entries, exhausted, n, k);
    }
}

/// The entries that a reindex removes are those without attempts left.
proof fn lemma_exhausted_removed(queue: Queue, entries: Seq<QueueEntry>, namespace: Seq<char>, max_retries: u32, k: Seq<u8>)
    requires
        lists_queue(queue, entries),
        entries.len() <= usize::MAX,
        queue.dom().contains((namespace, k)),
    ensures
        removes(entries, exhausted_at(entries, namespace, max_retries, entries.len() as int), k)
            <==> queue[(namespace, k)].retry_count >= max_retries,
{
    let n = entries.len() as int;
    let exhausted = exhausted_at(entries, namespace, max_retries, n);
    let i = choose|i: int|
        0 <= i < entries.len() && (#[trigger] entries[i]).namespace@ == namespace && entries[i].doc_id_bytes@ == k;
    assert(queue.contains_pair((entries[i].namespace@, entries[i].doc_id_bytes@), queued(entries[i])));
    lemma_exhausted(entries, namespace, max_retries, n, i);
    if entries[i].retry_count >= max_retries {
        let a = choose|a: int| 0 <= a < exhausted.len() && exhausted[a] == i as usize;
        assert(entries[exhausted[a] as int].doc_id_bytes@ == k);
    }
    if removes(entries, exhausted, k) {
        let a = choose|a: int| 0 <= a < exhausted.len() && entries[#[trigger] exhausted[a] as int].doc_id_bytes@ == k;
        let p = exhausted[a];
        assert(exhausted.contains(p));
        assert(queue.contains_pair((entries[p as int].namespace@, entries[p as int].doc_id_bytes@), queued(entries[p as int])));
    }
}

/// The models of writes keep everything of them, all of a list and in its order.
pub proof fn law_write_models(ops: Seq<QueueOp>, keys: Seq<Vec<u8>>, i: int)
    ensures
        op_views(ops).len() == ops.len(),
        0 <= i < ops.len() ==> (ops[i] matches QueueOp::Remove(k) ==> op_views(ops)[i] == QueueOpView::Remove(k@)),
        0 <= i < ops.len() ==> (ops[i] matches QueueOp::Enqueue(k, t) ==> op_views(ops)[i] == QueueOpView::Enqueue(k@, t@)),
        key_views(keys).len() == keys.len(),
        0 <= i < keys.len() ==> key_views(keys)[i] == keys[i]@,
{
}

/// The writes of a reindex: one removal for each exhausted entry, of its document, and
/// then one text for each planned item, under the key of its value and in order.
pub proof fn law_writes_of_a_reindex(
    entries: Seq<QueueEntry>,
    at: Seq<usize>,
    keys: Seq<Seq<u8>>,
    items: Seq<(int, Seq<char>)>,
    i: int,
)
    ensures
        removals(entries, at).len() == at.len(),
        enqueues(keys, items).len() == items.len(),
        0 <= i < at.len() ==> removals(entries, at)[i] == QueueOpView::Remove(entries[at[i] as int].doc_id_bytes@),
        0 <= i < items.len() ==> enqueues(keys, items)[i] == QueueOpView::Enqueue(keys[items[i].0], items[i].1),
{
}

/// A write to the queue changes the entry of its document and no other: a removal leaves
/// none, and a text replaces whatever was there, with all attempts.
pub proof fn law_queue_writes(queue: Queue, namespace: Seq<char>, key: Seq<u8>, text: Seq<char>)
    ensures
        after_queue_op(queue, namespace, QueueOpView::Remove(key)) == queue.remove((namespace, key)),
        after_queue_op(queue, namespace, QueueOpView::Enqueue(key, text)) == queue.insert(
            (namespace, key),
            Queued { request: Request::Embed(text), retry_count: 0 },
        ),
{
}

/// What an entry adds to the queue is its request and its failed attempts.
pub proof fn law_queued_entries(e: QueueEntry)
    ensures
        queued(e).request == e.request(),
        queued(e).retry_count == e.retry_count,
{
}

/// The queue writes of a reindex: one for each exhausted entry, which removes it, and then
/// one for each planned text, which enqueues that text under the key of its value.
pub proof fn law_reindex_ops(
    entries: &[QueueEntry],
    exhausted: &[usize],
    keys: &[Vec<u8>],
    plan: &EmbedPlan,
    ops: Vec<QueueOp>,
    i: int,
)
    requires
        forall|i: int| 0 <= i < exhausted@.len() ==> (#[trigger] exhausted@[i]) < entries@.len(),
        forall|i: int| 0 <= i < plan.enqueue@.len() ==> (#[trigger] plan.enqueue@[i]).position < keys@.len(),
        call_ensures(reindex_ops, (entries, exhausted, keys, plan), ops),
    ensures
        ops@.len() == exhausted@.len() + plan.enqueue@.len(),
        0 <= i < exhausted@.len() ==> (ops@[i] matches QueueOp::Remove(k) && k@
            == entries@[exhausted@[i] as int].doc_id_bytes@),
        0 <= i < plan.enqueue@.len() ==> (ops@[exhausted@.len() + i] matches QueueOp::Enqueue(k, t) && k@
            == keys@[plan.enqueue@[i].position as int]@ && t@ == plan.enqueue@[i].text@),
{
    let items = item_views(plan.enqueue@);
    let names = key_views(keys@);
    let models = removals(entries@, exhausted@) + enqueues(names, items);
    law_write_models(ops@, keys@, i);
    law_write_models(ops@, keys@, exhausted@.len() + i);
    law_writes_of_a_reindex(entries@, exhausted@, names, items, i);
    assert(op_views(ops@) == models);
    assert(models.len() == ops@.len());
    if 0 <= i < exhausted@.len() {
        assert(ops@[i]@ == models[i]);
    }
    if 0 <= i < plan.enqueue@.len() {
        law_write_models(ops@, keys@, plan.enqueue@[i].position as int);
        assert(ops@[exhausted@.len() + i]@ == models[exhausted@.len() + i]);
    }
}

} // verus!
