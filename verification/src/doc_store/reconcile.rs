//! Reconciliation of the vector index with the stored documents, and the
//! companion namespaces that hold the vectors.

use vstd::prelude::*;
use vstd::set_lib::lemma_subset_equality;

use super::reindex::{
    document_text, document_text_of, item_views, kv_text, kv_text_of, law_texts_are_listed_in_order, namespace_entries, queued_at,
    text_views, with_text, EmbedItem, ValueText, ValueTextView,
};
use super::vec_index_worker::QueueEntry;
use super::vector_upkeep::needs_enqueue;
use crate::text::texts;

verus! {

/// Number of entries of `namespace` in the queue.
pub fn pending_for(entries: &[QueueEntry], namespace: &String) -> (n: usize)
    ensures
        n == queued_at(entries@, namespace@, entries@.len() as int).len(),
{
    namespace_entries(entries, namespace).len()
}

/// Whether a namespace can be passed over without looking at its documents: it has
/// no entry in the queue, and as many entries of either half of the vector index
/// as documents. The number of documents is unknown where counting them failed.
pub fn nothing_to_reconcile(pending: usize, key_count: Option<usize>, meta_count: usize, dense_count: usize) -> (yes: bool)
    ensures
        yes <==> pending == 0 && (key_count matches Some(n) && meta_count >= n && dense_count >= n),
{
    if pending != 0 {
        return false;
    }
    match key_count {
        Some(n) => meta_count >= n && dense_count >= n,
        None => false,
    }
}

/// Passing over is right: both halves of the vector index hold documents only, so
/// where neither holds fewer entries than there are documents, every document is
/// indexed in both.
pub proof fn law_passing_over_misses_nothing(keys: Set<Seq<u8>>, meta: Set<Seq<u8>>, dense: Set<Seq<u8>>)
    requires
        keys.finite(),
        meta.subset_of(keys),
        dense.subset_of(keys),
        meta.len() >= keys.len(),
        dense.len() >= keys.len(),
    ensures
        meta == keys,
        dense == keys,
{
    vstd::set_lib::lemma_len_subset(meta, keys);
    vstd::set_lib::lemma_len_subset(dense, keys);
    lemma_subset_equality(meta, keys);
    lemma_subset_equality(dense, keys);
}

/// The texts of the values that are neither queued nor indexed; the others offer none.
pub open spec fn unserved(values: Seq<ValueTextView>, queued: Seq<bool>, indexed: Seq<bool>) -> Seq<ValueTextView> {
    Seq::new(
        values.len(),
        |i: int|
            if !queued[i] && !indexed[i] {
                values[i]
            } else {
                ValueTextView::Empty
            },
    )
}

/// What a reconciliation enqueues: the values with a text that are neither queued
/// nor indexed, in order.
pub fn plan_reconcile(values: &[ValueText], queued: &[bool], indexed: &[bool]) -> (items: Vec<EmbedItem>)
    requires
        queued@.len() == values@.len(),
        indexed@.len() == values@.len(),
    ensures
        item_views(items@) == with_text(unserved(text_views(values@), queued@, indexed@)),
{
    let ghost views = unserved(text_views(values@), queued@, indexed@);
    let mut items: Vec<EmbedItem> = Vec::new();
    let mut i: usize = 0;
    proof {
        assert(views.take(0) =~= Seq::<ValueTextView>::empty());
        assert(item_views(items@) =~= Seq::<(int, Seq<char>)>::empty());
    }
    while i < values.len()
        invariant
            i <= values@.len() == queued@.len() == indexed@.len(),
            views == unserved(text_views(values@), queued@, indexed@),
            item_views(items@) == with_text(views.take(i as int)),
        decreases values@.len() - i,
    {
        proof {
            assert(views.take(i + 1).drop_last() =~= views.take(i as int));
            assert(views.take(i + 1).last() == views[i as int]);
            assert(text_views(values@)[i as int] == values@[i as int]@);
        }
        let ghost before = item_views(items@);
        if needs_enqueue(queued[i], indexed[i]) {
            if let ValueText::Text(text) = &values[i] {
                items.push(EmbedItem { position: i, text: text.clone() });
                proof {
                    assert(item_views(items@) =~= before.push((i as int, text@)));
                }
            }
        }
        i = i + 1;
    }
    proof {
        assert(views.take(i as int) =~= views);
    }
    items
}

/// What a reconciliation of a document store enqueues.
pub fn reconcile_doc_namespace(values: &[Vec<u8>], names: &[String], queued: &[bool], indexed: &[bool]) -> (items: Vec<
    EmbedItem,
>)
    requires
        queued@.len() == values@.len(),
        indexed@.len() == values@.len(),
    ensures
        item_views(items@) == with_text(
            unserved(
                Seq::new(values@.len(), |i: int| document_text_of(values@[i]@, texts(names@))),
                queued@,
                indexed@,
            ),
        ),
{
    let mut found: Vec<ValueText> = Vec::new();
    let mut i: usize = 0;
    while i < values.len()
        invariant
            i <= values@.len(),
            found@.len() == i,
            forall|k: int| 0 <= k < i ==> (#[trigger] found@[k])@ == document_text_of(values@[k]@, texts(names@)),
        decreases values@.len() - i,
    {
        found.push(document_text(values[i].as_slice(), names));
        i = i + 1;
    }
    proof {
        assert(text_views(found@) =~= Seq::new(
            values@.len(),
            |i: int| document_text_of(values@[i]@, texts(names@)),
        ));
    }
    plan_reconcile(found.as_slice(), queued, indexed)
}

/// What a reconciliation of a key-value store enqueues.
pub fn reconcile_kv_namespace(values: &[Vec<u8>], queued: &[bool], indexed: &[bool]) -> (items: Vec<EmbedItem>)
    requires
        queued@.len() == values@.len(),
        indexed@.len() == values@.len(),
    ensures
        item_views(items@) == with_text(
            unserved(Seq::new(values@.len(), |i: int| kv_text_of(values@[i]@)), queued@, indexed@),
        ),
{
    let mut found: Vec<ValueText> = Vec::new();
    let mut i: usize = 0;
    while i < values.len()
        invariant
            i <= values@.len(),
            found@.len() == i,
            forall|k: int| 0 <= k < i ==> (#[trigger] found@[k])@ == kv_text_of(values@[k]@),
        decreases values@.len() - i,
    {
        found.push(kv_text(values[i].as_slice()));
        i = i + 1;
    }
    proof {
        assert(text_views(found@) =~= Seq::new(values@.len(), |i: int| kv_text_of(values@[i]@)));
    }
    plan_reconcile(found.as_slice(), queued, indexed)
}

proof fn lemma_no_text(values: Seq<ValueTextView>)
    requires
        forall|i: int| 0 <= i < values.len() ==> !(#[trigger] values[i] is Text),
    ensures
        with_text(values).len() == 0,
    decreases values.len(),
{
    if values.len() > 0 {
        let front = values.drop_last();
        assert forall|i: int| 0 <= i < front.len() implies !(#[trigger] front[i] is Text) by {
            assert(!(values[i] is Text));
        }
        assert(!(values[values.len() - 1] is Text));
        lemma_no_text(front);
    }
}

/// A second reconciliation, run before the worker has done anything, enqueues
/// nothing: what the first one enqueued is queued.
pub proof fn law_reconciliation_is_idempotent(
    values: Seq<ValueTextView>,
    queued: Seq<bool>,
    indexed: Seq<bool>,
    later: Seq<bool>,
)
    requires
        queued.len() == values.len(),
        indexed.len() == values.len(),
        later.len() == values.len(),
        forall|i: int|
            0 <= i < values.len() ==> (#[trigger] later[i] <==> queued[i] || unserved(values, queued, indexed)[i] is Text),
    ensures
        with_text(unserved(values, later, indexed)).len() == 0,
{
    let second = unserved(values, later, indexed);
    assert forall|i: int| 0 <= i < second.len() implies !(#[trigger] second[i] is Text) by {
        if !later[i] {
            assert(!queued[i]);
        }
    }
    lemma_no_text(second);
}

/// What a reconciliation of all namespaces did.
#[derive(Debug, Clone, Copy, PartialEq, Eq, Structural)]
pub struct ReconcileOutcome {
    /// Documents enqueued.
    pub reenqueued: usize,
    /// Namespaces that failed.
    pub failed: usize,
}

/// Sum of the numbers that are there.
pub open spec fn sum_of(results: Seq<Option<usize>>) -> nat
    decreases results.len(),
{
    if results.len() == 0 {
        0
    } else {
        sum_of(results.drop_last()) + match results.last() {
            Some(n) => n as nat,
            None => 0,
        }
    }
}

/// How many are missing.
pub open spec fn missing_of(results: Seq<Option<usize>>) -> nat
    decreases results.len(),
{
    if results.len() == 0 {
        0
    } else {
        missing_of(results.drop_last()) + if results.last() is None {
            1nat
        } else {
            0nat
        }
    }
}

proof fn lemma_sum_mono(results: Seq<Option<usize>>, k: int)
    requires
        0 <= k <= results.len(),
    ensures
        sum_of(results.take(k)) <= sum_of(results),
    decreases results.len() - k,
{
    if k < results.len() {
        lemma_sum_mono(results, k + 1);
        assert(results.take(k + 1).drop_last() =~= results.take(k));
    } else {
        assert(results.take(k) =~= results);
    }
}

/// Adds up what the namespaces enqueued; one that failed, given as `None`, is
/// counted and stops nothing.
pub fn reconcile_outcome(results: &[Option<usize>]) -> (o: ReconcileOutcome)
    requires
        sum_of(results@) <= usize::MAX,
    ensures
        o.reenqueued == sum_of(results@),
        o.failed == missing_of(results@),
{
    let mut reenqueued: usize = 0;
    let mut failed: usize = 0;
    let mut i: usize = 0;
    proof {
        assert(results@.take(0) =~= Seq::<Option<usize>>::empty());
    }
    while i < results.len()
        invariant
            i <= results@.len(),
            sum_of(results@) <= usize::MAX,
            reenqueued == sum_of(results@.take(i as int)),
            failed == missing_of(results@.take(i as int)),
            failed <= i,
        decreases results@.len() - i,
    {
        proof {
            assert(results@.take(i + 1).drop_last() =~= results@.take(i as int));
            assert(results@.take(i + 1).last() == results@[i as int]);
            lemma_sum_mono(results@, i + 1);
        }
        match results[i] {
            Some(n) => {
                reenqueued = reenqueued + n;
            },
            None => {
                failed = failed + 1;
            },
        }
        i = i + 1;
    }
    proof {
        assert(results@.take(i as int) =~= results@);
    }
    ReconcileOutcome { reenqueued, failed }
}

fn with_suffix(namespace: &String, suffix: &str) -> (name: String)
    ensures
        name@ == namespace@ + suffix@,
{
    let mut name: String = namespace.clone();
    name.append(suffix);
    name
}

/// The namespace of the sparse vectors of `namespace`.
pub fn sparse_vectors_ns(namespace: &String) -> (name: String)
    ensures
        name@ == namespace@ + "_sparse_vector"@,
{
    with_suffix(namespace, "_sparse_vector")
}

/// The namespace of what is recorded of the sparse vectors of `namespace`.
pub fn sparse_vectors_meta_ns(namespace: &String) -> (name: String)
    ensures
        name@ == namespace@ + "_sparse_vector_meta"@,
{
    with_suffix(namespace, "_sparse_vector_meta")
}

/// The namespace of the dense vectors of `namespace`.
pub fn dense_vectors_ns(namespace: &String) -> (name: String)
    ensures
        name@ == namespace@ + "_dense_vector"@,
{
    with_suffix(namespace, "_dense_vector")
}

/// The namespaces that go with a store: its own first, then its companions.
pub open spec fn store_names(namespace: Seq<char>) -> Seq<Seq<char>> {
    seq![
        namespace,
        namespace + "_sparse_vector"@,
        namespace + "_sparse_vector_meta"@,
        namespace + "_dense_vector"@,
    ]
}

/// The namespaces that go with a store: its own first, then its companions.
pub fn store_namespaces(namespace: &String) -> (names: Vec<String>)
    ensures
        texts(names@) == store_names(namespace@),
{
    let mut names: Vec<String> = Vec::new();
    names.push(namespace.clone());
    names.push(sparse_vectors_ns(namespace));
    names.push(sparse_vectors_meta_ns(namespace));
    names.push(dense_vectors_ns(namespace));
    proof {
        assert(texts(names@) =~= store_names(namespace@));
    }
    names
}

/// The directory of a namespace.
pub fn namespace_dir(name: &String) -> (dir: String)
    ensures
        dir@ == "ns_"@ + name@,
{
    let mut dir: String = "ns_".to_owned();
    dir.append(name.as_str());
    dir
}

/// The four namespaces of a store are different.
pub proof fn law_store_names_differ(namespace: Seq<char>, i: int, j: int)
    requires
        0 <= i < j < 4,
    ensures
        store_names(namespace)[i] != store_names(namespace)[j],
{
    reveal_strlit("_sparse_vector");
    reveal_strlit("_sparse_vector_meta");
    reveal_strlit("_dense_vector");
    let names = store_names(namespace);
    assert(names[0].len() == namespace.len());
    assert(names[1].len() == namespace.len() + 14);
    assert(names[2].len() == namespace.len() + 19);
    assert(names[3].len() == namespace.len() + 13);
}

/// A reconciliation enqueues a value exactly where it has a text and is neither queued nor
/// indexed, with that text and in order.
pub proof fn law_reconciliation_enqueues_the_unserved(
    values: Seq<ValueTextView>,
    queued: Seq<bool>,
    indexed: Seq<bool>,
    p: int,
    text: Seq<char>,
)
    requires
        queued.len() == values.len(),
        indexed.len() == values.len(),
    ensures
        with_text(unserved(values, queued, indexed)).contains((p, text)) <==> 0 <= p < values.len() && values[p]
            == ValueTextView::Text(text) && !queued[p] && !indexed[p],
        forall|j: int, k: int|
            0 <= j < k < with_text(unserved(values, queued, indexed)).len() ==> (#[trigger] with_text(
                unserved(values, queued, indexed),
            )[j]).0 < (#[trigger] with_text(unserved(values, queued, indexed))[k]).0,
{
    let rest = unserved(values, queued, indexed);
    let items = with_text(rest);
    law_texts_are_listed_in_order(rest);
    if items.contains((p, text)) {
        let k = choose|k: int| 0 <= k < items.len() && items[k] == (p, text);
        assert(rest[items[k].0] == ValueTextView::Text(items[k].1));
    }
    if 0 <= p < values.len() && values[p] == ValueTextView::Text(text) && !queued[p] && !indexed[p] {
        assert(rest[p] is Text);
    }
}

/// What a reconciliation did adds up over the namespaces: one more that went well adds
/// what it enqueued, and one more that failed adds one failure and nothing else.
pub proof fn law_outcomes_add_up(results: Seq<Option<usize>>, n: usize)
    ensures
        sum_of(Seq::<Option<usize>>::empty()) == 0,
        missing_of(Seq::<Option<usize>>::empty()) == 0,
        sum_of(results.push(Some(n))) == sum_of(results) + n,
        sum_of(results.push(None)) == sum_of(results),
        missing_of(results.push(Some(n))) == missing_of(results),
        missing_of(results.push(None)) == missing_of(results) + 1,
{
    assert(results.push(Some(n)).drop_last() =~= results);
    assert(results.push(None).drop_last() =~= results);
}

/// A store has its own namespace and three companions, named after it.
pub proof fn law_companions_of_a_store(namespace: Seq<char>)
    ensures
        store_names(namespace).len() == 4,
        store_names(namespace)[0] == namespace,
        store_names(namespace)[1] == namespace + "_sparse_vector"@,
        store_names(namespace)[2] == namespace + "_sparse_vector_meta"@,
        store_names(namespace)[3] == namespace + "_dense_vector"@,
{
}

/// A reconciliation enqueues a value exactly where it has a text and is neither queued nor
/// indexed, with that text.
pub proof fn law_plan_reconcile(values: &[ValueText], queued: &[bool], indexed: &[bool], items: Vec<EmbedItem>, p: int)
    requires
        queued@.len() == values@.len(),
        indexed@.len() == values@.len(),
        call_ensures(plan_reconcile, (values, queued, indexed), items),
        0 <= p < values@.len(),
    ensures
        (exists|k: int| 0 <= k < items@.len() && (#[trigger] items@[k]).position == p) <==> values@[p] is Text && !queued@[p]
            && !indexed@[p],
        forall|k: int|
            0 <= k < items@.len() && (#[trigger] items@[k]).position == p ==> items@[k].text@ == values@[p]->Text_0@,
        forall|j: int, k: int|
            0 <= j < k < items@.len() ==> (#[trigger] items@[j]).position < (#[trigger] items@[k]).position,
{
    let views = text_views(values@);
    assert(views[p] == values@[p]@);
    lemma_reconciled(items@, views, queued@, indexed@, p);
}

proof fn lemma_reconciled(
    items: Seq<EmbedItem>,
    values: Seq<ValueTextView>,
    queued: Seq<bool>,
    indexed: Seq<bool>,
    p: int,
)
    requires
        queued.len() == values.len(),
        indexed.len() == values.len(),
        item_views(items) == with_text(unserved(values, queued, indexed)),
        0 <= p < values.len(),
    ensures
        (exists|k: int| 0 <= k < items.len() && (#[trigger] items[k]).position == p) <==> values[p] is Text && !queued[p]
            && !indexed[p],
        forall|k: int|
            0 <= k < items.len() && (#[trigger] items[k]).position == p ==> ValueTextView::Text(items[k].text@)
                == values[p],
        forall|j: int, k: int|
            0 <= j < k < items.len() ==> (#[trigger] items[j]).position < (#[trigger] items[k]).position,
{
    let list = item_views(items);
    assert(list.len() == items.len());
    if values[p] is Text {
        law_reconciliation_enqueues_the_unserved(values, queued, indexed, p, values[p]->Text_0);
        if !queued[p] && !indexed[p] {
            let k = choose|k: int| 0 <= k < list.len() && list[k] == (p, values[p]->Text_0);
            assert(items[k].position == p);
        }
    }
    assert forall|k: int| 0 <= k < items.len() && (#[trigger] items[k]).position == p implies ValueTextView::Text(
        items[k].text@,
    ) == values[p] && !queued[p] && !indexed[p] by {
        assert(list[k] == (p, items[k].text@));
        assert(list.contains(list[k]));
        law_reconciliation_enqueues_the_unserved(values, queued, indexed, p, items[k].text@);
    }
    law_reconciliation_enqueues_the_unserved(values, queued, indexed, p, Seq::empty());
    assert forall|j: int, k: int| 0 <= j < k < items.len() implies (#[trigger] items[j]).position < (
    #[trigger] items[k]).position by {
        assert(list[j].0 < list[k].0);
    }
}

/// The same of the stored bytes: a document is enqueued where it has an embedding text, a
/// value of a key-value store where it is a text.
pub proof fn law_reconciled_namespaces(
    values: &[Vec<u8>],
    names: &[String],
    queued: &[bool],
    indexed: &[bool],
    docs: Vec<EmbedItem>,
    kvs: Vec<EmbedItem>,
    p: int,
)
    requires
        queued@.len() == values@.len(),
        indexed@.len() == values@.len(),
        call_ensures(reconcile_doc_namespace, (values, names, queued, indexed), docs),
        call_ensures(reconcile_kv_namespace, (values, queued, indexed), kvs),
        0 <= p < values@.len(),
    ensures
        (exists|k: int| 0 <= k < docs@.len() && (#[trigger] docs@[k]).position == p) <==> document_text_of(
            values@[p]@,
            texts(names@),
        ) is Text && !queued@[p] && !indexed@[p],
        forall|k: int|
            0 <= k < docs@.len() && (#[trigger] docs@[k]).position == p ==> ValueTextView::Text(docs@[k].text@)
                == document_text_of(values@[p]@, texts(names@)),
        (exists|k: int| 0 <= k < kvs@.len() && (#[trigger] kvs@[k]).position == p) <==> kv_text_of(values@[p]@) is Text
            && !queued@[p] && !indexed@[p],
        forall|k: int|
            0 <= k < kvs@.len() && (#[trigger] kvs@[k]).position == p ==> ValueTextView::Text(kvs@[k].text@) == kv_text_of(
                values@[p]@,
            ),
{
    lemma_reconciled(
        docs@,
        Seq::new(values@.len(), |i: int| document_text_of(values@[i]@, texts(names@))),
        queued@,
        indexed@,
        p,
    );
    lemma_reconciled(kvs@, Seq::new(values@.len(), |i: int| kv_text_of(values@[i]@)), queued@, indexed@, p);
}

/// A namespace is passed over exactly where nothing of it is queued, its documents could
/// be counted, and neither half of the vector index has fewer entries than documents.
pub proof fn law_passing_over(pending: usize, keys: usize, meta: usize, dense: usize, yes: bool, unknown: bool)
    requires
        call_ensures(nothing_to_reconcile, (pending, Some(keys), meta, dense), yes),
        call_ensures(nothing_to_reconcile, (pending, None::<usize>, meta, dense), unknown),
    ensures
        yes <==> pending == 0 && meta >= keys && dense >= keys,
        !unknown,
{
}

/// The pending entries of a namespace are all of its entries in the queue.
pub proof fn law_pending_for(entries: &[QueueEntry], namespace: &String, n: usize)
    requires
        call_ensures(pending_for, (entries, namespace), n),
    ensures
        n == entries@.filter(|e: QueueEntry| e.namespace@ == namespace@).len(),
{
    assert(entries.len() <= usize::MAX);
    lemma_pending(entries@, namespace@, entries@.len() as int, namespace);
    assert(entries@.take(entries@.len() as int) =~= entries@);
}

proof fn lemma_pending(entries: Seq<QueueEntry>, name: Seq<char>, n: int, namespace: &String)
    requires
        name == namespace@,
        0 <= n <= entries.len(),
    ensures
        queued_at(entries, name, n).len() == entries.take(n).filter(
            |e: QueueEntry| e.namespace@ == namespace@,
        ).len(),
    decreases n,
{
    reveal(Seq::filter);
    if n > 0 {
        lemma_pending(entries, name, n - 1, namespace);
        assert(entries.take(n).drop_last() =~= entries.take(n - 1));
        assert(entries.take(n).last() == entries[n - 1]);
    }
}

/// The companions of a store are named after it, and all of them go with it.
pub proof fn law_names_of_companions(
    namespace: &String,
    sparse: String,
    meta: String,
    dense: String,
    all: Vec<String>,
    dir: String,
)
    requires
        call_ensures(sparse_vectors_ns, (namespace,), sparse),
        call_ensures(sparse_vectors_meta_ns, (namespace,), meta),
        call_ensures(dense_vectors_ns, (namespace,), dense),
        call_ensures(store_namespaces, (namespace,), all),
        call_ensures(namespace_dir, (namespace,), dir),
    ensures
        sparse@ == namespace@ + "_sparse_vector"@,
        meta@ == namespace@ + "_sparse_vector_meta"@,
        dense@ == namespace@ + "_dense_vector"@,
        all@.len() == 4,
        all@[0]@ == namespace@ && all@[1]@ == sparse@ && all@[2]@ == meta@ && all@[3]@ == dense@,
        dir@ == "ns_"@ + namespace@,
{
    let names = texts(all@);
    law_companions_of_a_store(namespace@);
    assert(names.len() == all@.len());
    assert(names[0] == all@[0]@ && names[1] == all@[1]@ && names[2] == all@[2]@ && names[3] == all@[3]@);
}

/// The outcome of a reconciliation of namespaces: what one more re-enqueued is added, and
/// one more that failed is counted.
pub proof fn law_outcome(
    results: &[Option<usize>],
    more: &[Option<usize>],
    r: Option<usize>,
    o: ReconcileOutcome,
    p: ReconcileOutcome,
)
    requires
        more@ == results@.push(r),
        call_ensures(reconcile_outcome, (results,), o),
        call_ensures(reconcile_outcome, (more,), p),
    ensures
        r matches Some(n) ==> p.reenqueued == o.reenqueued + n && p.failed == o.failed,
        r is None ==> p.reenqueued == o.reenqueued && p.failed == o.failed + 1,
        results@.len() == 0 ==> o.reenqueued == 0 && o.failed == 0,
{
    law_outcomes_add_up(
        results@,
        match r {
            Some(n) => n,
            None => 0,
        },
    );
    if results@.len() == 0 {
        assert(results@ =~= Seq::empty());
    }
}

} // verus!
