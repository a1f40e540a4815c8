//! Reindexing the vectors of a namespace: who may start it, what is enqueued, and
//! what is recorded.

use vstd::prelude::*;
use vstd::utf8::{decode_utf8, valid_utf8};

use super::error::{DocStoreError, RowError};
use super::json::{build_embedding_text, embedding_text, field_views, parse_document, parsed_document, DocumentField};
use super::schema::{DocStoreSchema, KvStoreSchema};
use super::types::{ReindexStats, VecReindexProgress, VectorReindexOutcome};
use super::vec_index_worker::QueueEntry;
use crate::seqs::lemma_push_contains;
use crate::text::{texts, utf8_text};

verus! {

/// A reindex is recorded as still running.
pub open spec fn is_running(record: Option<VecReindexProgress>) -> bool {
    record is Some && record->0.status@ == "running"@
}

/// Whether a reindex is recorded as still running.
pub fn reindex_running(record: &Option<VecReindexProgress>) -> (yes: bool)
    ensures
        yes == is_running(*record),
{
    match record {
        Some(r) => r.status == "running".to_owned(),
        None => false,
    }
}

/// Checks that a reindex may be asked for: semantic search is on, and no reindex
/// of a created namespace is running.
fn check_reindex(
    namespace: &String,
    semantic: bool,
    ns_id: Option<u32>,
    record: &Option<VecReindexProgress>,
) -> (r: Result<(), DocStoreError>)
    ensures
        r is Ok <==> semantic && !(ns_id is Some && is_running(*record)),
        !semantic <==> (r matches Err(DocStoreError::SemanticSearchNotEnabled { .. })),
        semantic && ns_id is Some && is_running(*record) <==> (r matches Err(DocStoreError::VecReindexInProgress { .. })),
        r matches Err(DocStoreError::SemanticSearchNotEnabled { namespace: n }) ==> n@ == namespace@,
        r matches Err(DocStoreError::VecReindexInProgress { namespace: n }) ==> n@ == namespace@,
{
    if !semantic {
        return Err(DocStoreError::SemanticSearchNotEnabled { namespace: namespace.clone() });
    }
    if ns_id.is_some() && reindex_running(record) {
        return Err(DocStoreError::VecReindexInProgress { namespace: namespace.clone() });
    }
    Ok(())
}

/// Admits a reindex and gives the number of the namespace: semantic search is on,
/// the namespace was created, and no reindex is running.
fn admit_reindex(
    namespace: &String,
    semantic: bool,
    ns_id: Option<u32>,
    record: &Option<VecReindexProgress>,
) -> (r: Result<u32, DocStoreError>)
    ensures
        r is Ok <==> semantic && ns_id is Some && !is_running(*record),
        r is Ok ==> r->Ok_0 == ns_id->0,
        !semantic <==> (r matches Err(DocStoreError::SemanticSearchNotEnabled { .. })),
        semantic && ns_id is None <==> (r matches Err(DocStoreError::MissingNsId { .. })),
        semantic && ns_id is Some && is_running(*record) <==> (r matches Err(DocStoreError::VecReindexInProgress { .. })),
        r matches Err(DocStoreError::SemanticSearchNotEnabled { namespace: n }) ==> n@ == namespace@,
        r matches Err(DocStoreError::MissingNsId { namespace: n }) ==> n@ == namespace@,
        r matches Err(DocStoreError::VecReindexInProgress { namespace: n }) ==> n@ == namespace@,
{
    if !semantic {
        return Err(DocStoreError::SemanticSearchNotEnabled { namespace: namespace.clone() });
    }
    let id: u32 = match ns_id {
        Some(id) => id,
        None => {
            return Err(DocStoreError::MissingNsId { namespace: namespace.clone() });
        },
    };
    if reindex_running(record) {
        return Err(DocStoreError::VecReindexInProgress { namespace: namespace.clone() });
    }
    Ok(id)
}

impl DocStoreSchema {
    /// Checks that a reindex of the namespace may be asked for.
    pub fn check_index_all_preconditions(&self, record: &Option<VecReindexProgress>) -> (r: Result<(), DocStoreError>)
        ensures
            r is Ok <==> self.semantic() && !(self.ns_id is Some && is_running(*record)),
            !self.semantic() <==> (r matches Err(DocStoreError::SemanticSearchNotEnabled { .. })),
            self.semantic() && self.ns_id is Some && is_running(*record) <==> (r matches Err(
                DocStoreError::VecReindexInProgress { .. },
            )),
            r matches Err(DocStoreError::SemanticSearchNotEnabled { namespace }) ==> namespace@ == self.namespace@,
            r matches Err(DocStoreError::VecReindexInProgress { namespace }) ==> namespace@ == self.namespace@,
    {
        check_reindex(&self.namespace, self.is_semantic_search_enabled(), self.ns_id, record)
    }

    /// Admits a reindex of the namespace and gives its number.
    pub fn begin_index_all(&self, record: &Option<VecReindexProgress>) -> (r: Result<u32, DocStoreError>)
        ensures
            r is Ok <==> self.semantic() && self.ns_id is Some && !is_running(*record),
            r is Ok ==> r->Ok_0 == self.ns_id->0,
            !self.semantic() <==> (r matches Err(DocStoreError::SemanticSearchNotEnabled { .. })),
            self.semantic() && self.ns_id is None <==> (r matches Err(DocStoreError::MissingNsId { .. })),
            self.semantic() && self.ns_id is Some && is_running(*record) <==> (r matches Err(
                DocStoreError::VecReindexInProgress { .. },
            )),
            r matches Err(DocStoreError::SemanticSearchNotEnabled { namespace }) ==> namespace@ == self.namespace@,
            r matches Err(DocStoreError::MissingNsId { namespace }) ==> namespace@ == self.namespace@,
            r matches Err(DocStoreError::VecReindexInProgress { namespace }) ==> namespace@ == self.namespace@,
    {
        admit_reindex(&self.namespace, self.is_semantic_search_enabled(), self.ns_id, record)
    }
}

impl KvStoreSchema {
    /// Checks that a reindex of the namespace may be asked for.
    pub fn check_kv_index_all_preconditions(&self, record: &Option<VecReindexProgress>) -> (r: Result<
        (),
        DocStoreError,
    >)
        ensures
            r is Ok <==> self.semantic() && !(self.ns_id is Some && is_running(*record)),
            !self.semantic() <==> (r matches Err(DocStoreError::SemanticSearchNotEnabled { .. })),
            self.semantic() && self.ns_id is Some && is_running(*record) <==> (r matches Err(
                DocStoreError::VecReindexInProgress { .. },
            )),
            r matches Err(DocStoreError::SemanticSearchNotEnabled { namespace }) ==> namespace@ == self.namespace@,
            r matches Err(DocStoreError::VecReindexInProgress { namespace }) ==> namespace@ == self.namespace@,
    {
        check_reindex(&self.namespace, self.is_semantic_search_enabled(), self.ns_id, record)
    }

    /// Admits a reindex of the namespace and gives its number.
    pub fn begin_kv_index_all(&self, record: &Option<VecReindexProgress>) -> (r: Result<u32, DocStoreError>)
        ensures
            r is Ok <==> self.semantic() && self.ns_id is Some && !is_running(*record),
            r is Ok ==> r->Ok_0 == self.ns_id->0,
            !self.semantic() <==> (r matches Err(DocStoreError::SemanticSearchNotEnabled { .. })),
            self.semantic() && self.ns_id is None <==> (r matches Err(DocStoreError::MissingNsId { .. })),
            self.semantic() && self.ns_id is Some && is_running(*record) <==> (r matches Err(
                DocStoreError::VecReindexInProgress { .. },
            )),
            r matches Err(DocStoreError::SemanticSearchNotEnabled { namespace }) ==> namespace@ == self.namespace@,
            r matches Err(DocStoreError::MissingNsId { namespace }) ==> namespace@ == self.namespace@,
            r matches Err(DocStoreError::VecReindexInProgress { namespace }) ==> namespace@ == self.namespace@,
    {
        admit_reindex(&self.namespace, self.is_semantic_search_enabled(), self.ns_id, record)
    }
}

/// The first `n` positions whose entries belong to `namespace` and have used up
/// their attempts.
pub open spec fn exhausted_at(entries: Seq<QueueEntry>, namespace: Seq<char>, max_retries: u32, n: int) -> Seq<usize>
    decreases n,
{
    if n <= 0 {
        seq![]
    } else if entries[n - 1].namespace@ == namespace && entries[n - 1].retry_count >= max_retries {
        exhausted_at(entries, namespace, max_retries, n - 1).push((n - 1) as usize)
    } else {
        exhausted_at(entries, namespace, max_retries, n - 1)
    }
}

/// Positions of the entries of `namespace` that have used up their attempts: those
/// that a reindex removes and a retry resets.
pub fn exhausted_entries(entries: &[QueueEntry], namespace: &String, max_retries: u32) -> (at: Vec<usize>)
    ensures
        at@ == exhausted_at(entries@, namespace@, max_retries, entries@.len() as int),
        forall|k: int| 0 <= k < at@.len() ==> (#[trigger] at@[k]) < entries@.len(),
{
    let mut at: Vec<usize> = Vec::new();
    let mut i: usize = 0;
    while i < entries.len()
        invariant
            i <= entries.len(),
            at@ == exhausted_at(entries@, namespace@, max_retries, i as int),
            forall|k: int| 0 <= k < at@.len() ==> (#[trigger] at@[k]) < i,
        decreases entries@.len() - i,
    {
        if entries[i].namespace == *namespace && entries[i].retry_count >= max_retries {
            at.push(i);
        }
        i = i + 1;
    }
    at
}

/// The first `n` positions whose entries belong to `namespace`.
pub open spec fn queued_at(entries: Seq<QueueEntry>, namespace: Seq<char>, n: int) -> Seq<usize>
    decreases n,
{
    if n <= 0 {
        seq![]
    } else if entries[n - 1].namespace@ == namespace {
        queued_at(entries, namespace, n - 1).push((n - 1) as usize)
    } else {
        queued_at(entries, namespace, n - 1)
    }
}

/// Positions of the entries of `namespace`: those that go with it.
pub fn namespace_entries(entries: &[QueueEntry], namespace: &String) -> (at: Vec<usize>)
    ensures
        at@ == queued_at(entries@, namespace@, entries@.len() as int),
{
    let mut at: Vec<usize> = Vec::new();
    let mut i: usize = 0;
    while i < entries.len()
        invariant
            i <= entries.len(),
            at@ == queued_at(entries@, namespace@, i as int),
        decreases entries@.len() - i,
    {
        if entries[i].namespace == *namespace {
            at.push(i);
        }
        i = i + 1;
    }
    at
}

/// The text that a stored value offers for embedding.
#[derive(Debug, Clone)]
pub enum ValueText {
    /// The value is no document, and why.
    Unreadable(String),
    /// A value without a text.
    Empty,
    /// A text.
    Text(String),
}

/// Model of a [`ValueText`].
pub enum ValueTextView {
    Unreadable(Seq<char>),
    Empty,
    Text(Seq<char>),
}

impl View for ValueText {
    type V = ValueTextView;

    open spec fn view(&self) -> ValueTextView {
        match *self {
            ValueText::Unreadable(m) => ValueTextView::Unreadable(m@),
            ValueText::Empty => ValueTextView::Empty,
            ValueText::Text(s) => ValueTextView::Text(s@),
        }
    }
}

/// A text, or its absence.
pub open spec fn some_text(text: Seq<char>) -> ValueTextView {
    if text.len() == 0 {
        ValueTextView::Empty
    } else {
        ValueTextView::Text(text)
    }
}

/// The text of a document with these fields, or why it has none to be known.
pub fn fields_text(fields: &Result<Vec<DocumentField>, String>, names: &[String]) -> (t: ValueText)
    ensures
        t@ == match fields {
            Ok(f) => some_text(embedding_text(field_views(f@), texts(names@))),
            Err(message) => ValueTextView::Unreadable(message@),
        },
{
    match fields {
        Err(message) => ValueText::Unreadable(message.clone()),
        Ok(f) => {
            let text = build_embedding_text(f.as_slice(), names);
            if text.as_str().is_empty() {
                ValueText::Empty
            } else {
                ValueText::Text(text)
            }
        },
    }
}

/// The text of stored bytes under these embedding fields.
pub open spec fn document_text_of(value: Seq<u8>, names: Seq<Seq<char>>) -> ValueTextView {
    match parsed_document(value) {
        Ok(fields) => some_text(embedding_text(fields, names)),
        Err(message) => ValueTextView::Unreadable(message),
    }
}

/// The text of a stored document.
pub fn document_text(value: &[u8], names: &[String]) -> (t: ValueText)
    ensures
        t@ == document_text_of(value@, texts(names@)),
{
    let fields = parse_document(value);
    fields_text(&fields, names)
}

/// The text of a stored value of a key-value store: the value itself; one that is
/// not UTF-8 counts as empty.
pub open spec fn kv_text_of(value: Seq<u8>) -> ValueTextView {
    if valid_utf8(value) {
        some_text(decode_utf8(value))
    } else {
        ValueTextView::Empty
    }
}

/// The text of a stored value of a key-value store.
pub fn kv_text(value: &[u8]) -> (t: ValueText)
    ensures
        t@ == kv_text_of(value@),
{
    match utf8_text(value) {
        Some(text) => {
            if text.as_str().is_empty() {
                ValueText::Empty
            } else {
                ValueText::Text(text)
            }
        },
        None => ValueText::Empty,
    }
}

/// A value to enqueue.
#[derive(Debug, Clone)]
pub struct EmbedItem {
    /// Position of the value.
    pub position: usize,
    /// Its text.
    pub text: String,
}

/// What to enqueue of a list of values.
pub struct EmbedPlan {
    pub enqueue: Vec<EmbedItem>,
    /// Values without a text.
    pub skipped_empty_text: usize,
}

/// Positions and texts of a list of items.
pub open spec fn item_views(items: Seq<EmbedItem>) -> Seq<(int, Seq<char>)> {
    Seq::new(items.len(), |k: int| (items[k].position as int, items[k].text@))
}

/// Positions and texts of the values with a text.
pub open spec fn with_text(values: Seq<ValueTextView>) -> Seq<(int, Seq<char>)>
    decreases values.len(),
{
    if values.len() == 0 {
        seq![]
    } else {
        let before = with_text(values.drop_last());
        match values.last() {
            ValueTextView::Text(t) => before.push((values.len() - 1, t)),
            _ => before,
        }
    }
}

/// Number of values without a text; one that cannot be read is not among them.
pub open spec fn without_text_count(values: Seq<ValueTextView>) -> nat
    decreases values.len(),
{
    if values.len() == 0 {
        0
    } else {
        without_text_count(values.drop_last()) + if values.last() is Empty {
            1nat
        } else {
            0nat
        }
    }
}

/// `plan` enqueues every value with a text, in order, and counts those without.
pub open spec fn is_embed_plan(plan: EmbedPlan, values: Seq<ValueTextView>) -> bool {
    &&& item_views(plan.enqueue@) == with_text(values)
    &&& plan.skipped_empty_text == without_text_count(values)
}

/// Models of a list of texts.
pub open spec fn text_views(values: Seq<ValueText>) -> Seq<ValueTextView> {
    Seq::new(values.len(), |i: int| values[i]@)
}

/// What to enqueue of a list of values with these texts.
pub fn plan_embeds(values: &[ValueText]) -> (plan: EmbedPlan)
    ensures
        is_embed_plan(plan, text_views(values@)),
        forall|k: int| 0 <= k < plan.enqueue@.len() ==> (#[trigger] plan.enqueue@[k]).position < values@.len(),
{
    let ghost views = text_views(values@);
    let mut enqueue: Vec<EmbedItem> = Vec::new();
    let mut skipped: usize = 0;
    let mut i: usize = 0;
    proof {
        assert(views.take(0) =~= Seq::<ValueTextView>::empty());
        assert(item_views(enqueue@) =~= Seq::<(int, Seq<char>)>::empty());
    }
    while i < values.len()
        invariant
            i <= values@.len(),
            views == text_views(values@),
            item_views(enqueue@) == with_text(views.take(i as int)),
            skipped == without_text_count(views.take(i as int)),
            skipped <= i,
            forall|k: int| 0 <= k < enqueue@.len() ==> (#[trigger] enqueue@[k]).position < i,
        decreases values@.len() - i,
    {
        proof {
            assert(views.take(i + 1).drop_last() =~= views.take(i as int));
            assert(views.take(i + 1).last() == values@[i as int]@);
        }
        let ghost before = item_views(enqueue@);
        match &values[i] {
            ValueText::Unreadable(_) => {},
            ValueText::Empty => {
                skipped = skipped + 1;
            },
            ValueText::Text(text) => {
                enqueue.push(EmbedItem { position: i, text: text.clone() });
                proof {
                    assert(item_views(enqueue@) =~= before.push((i as int, text@)));
                }
            },
        }
        i = i + 1;
    }
    proof {
        assert(views.take(i as int) =~= views);
    }
    EmbedPlan { enqueue, skipped_empty_text: skipped }
}

/// What a reindex of a document store enqueues: every document with a text, in
/// order. Documents that are no JSON are passed over.
pub fn plan_index_all(values: &[Vec<u8>], names: &[String]) -> (plan: EmbedPlan)
    ensures
        is_embed_plan(plan, Seq::new(values@.len(), |i: int| document_text_of(values@[i]@, texts(names@)))),
        forall|k: int| 0 <= k < plan.enqueue@.len() ==> (#[trigger] plan.enqueue@[k]).position < values@.len(),
{
    let mut found: Vec<ValueText> = Vec::new();
    let mut i: usize = 0;
    while i < values.len()
        invariant
            i <= values@.len(),
            found@.len() == i,
            forall|k: int| 0 <= k < i ==> (#[trigger] found@[k])@ == document_text_of(values@[k]@, texts(names@)),
        decreases values@.len() - i,
    {
        found.push(document_text(values[i].as_slice(), names));
        i = i + 1;
    }
    proof {
        assert(text_views(found@) =~= Seq::new(
            values@.len(),
            |i: int| document_text_of(values@[i]@, texts(names@)),
        ));
    }
    plan_embeds(found.as_slice())
}

/// What a reindex of a key-value store enqueues: every value that is a text, in order.
pub fn plan_kv_index_all(values: &[Vec<u8>]) -> (plan: EmbedPlan)
    ensures
        is_embed_plan(plan, Seq::new(values@.len(), |i: int| kv_text_of(values@[i]@))),
        forall|k: int| 0 <= k < plan.enqueue@.len() ==> (#[trigger] plan.enqueue@[k]).position < values@.len(),
{
    let mut found: Vec<ValueText> = Vec::new();
    let mut i: usize = 0;
    while i < values.len()
        invariant
            i <= values@.len(),
            found@.len() == i,
            forall|k: int| 0 <= k < i ==> (#[trigger] found@[k])@ == kv_text_of(values@[k]@),
        decreases values@.len() - i,
    {
        found.push(kv_text(values[i].as_slice()));
        i = i + 1;
    }
    proof {
        assert(text_views(found@) =~= Seq::new(values@.len(), |i: int| kv_text_of(values@[i]@)));
    }
    plan_embeds(found.as_slice())
}

/// The record of a reindex that has just been admitted.
pub fn started_record(started_at_ms: u64) -> (r: VecReindexProgress)
    ensures
        is_running(Some(r)),
        r.started_at_ms == started_at_ms,
        r.completed_at_ms is None,
        r.total_enqueued == 0,
        r.exhausted_cleared == 0,
        r.error is None,
{
    VecReindexProgress {
        status: "running".to_owned(),
        started_at_ms,
        completed_at_ms: None,
        total_enqueued: 0,
        exhausted_cleared: 0,
        error: None,
    }
}

/// What a reindex answers and records once its entries are written, or were not:
/// the record stays running until the worker is through, and a failed one says
/// when and why.
pub fn finish_index_all(
    committed: Result<(), String>,
    started_at_ms: u64,
    now_ms: u64,
    enqueued: usize,
    exhausted_cleared: usize,
) -> (r: (VecReindexProgress, Option<ReindexStats>))
    ensures
        r.0.started_at_ms == started_at_ms,
        r.0.exhausted_cleared == exhausted_cleared,
        committed is Ok ==> is_running(Some(r.0)) && r.0.completed_at_ms is None && r.0.total_enqueued == enqueued
            && r.0.error is None && r.1 == Some(ReindexStats { exhausted_cleared, enqueued }),
        committed is Err ==> r.0.status@ == "failed"@ && r.0.completed_at_ms == Some(now_ms) && r.0.total_enqueued == 0
            && r.0.error == Some(committed->Err_0) && r.1 is None,
{
    match committed {
        Ok(_) => (
            VecReindexProgress {
                status: "running".to_owned(),
                started_at_ms,
                completed_at_ms: None,
                total_enqueued: enqueued,
                exhausted_cleared,
                error: None,
            },
            Some(ReindexStats { exhausted_cleared, enqueued }),
        ),
        Err(e) => (
            VecReindexProgress {
                status: "failed".to_owned(),
                started_at_ms,
                completed_at_ms: Some(now_ms),
                total_enqueued: 0,
                exhausted_cleared,
                error: Some(e),
            },
            None,
        ),
    }
}

/// Decides on a request to reindex one document, given the text of its value;
/// `None` stands for a value that is not there.
pub fn reindex_outcome(value: &Option<ValueText>) -> (r: Result<VectorReindexOutcome, DocStoreError>)
    ensures
        value is None ==> r == Ok::<VectorReindexOutcome, DocStoreError>(VectorReindexOutcome::NotFound),
        value is Some && value->0@ is Unreadable <==> r is Err,
        r is Err ==> r->Err_0.tells(RowError::InvalidId(value->0@->Unreadable_0)),
        value is Some && value->0@ is Empty ==> r == Ok::<VectorReindexOutcome, DocStoreError>(
            VectorReindexOutcome::SkippedEmptyText,
        ),
        value is Some && value->0@ is Text ==> r == Ok::<VectorReindexOutcome, DocStoreError>(
            VectorReindexOutcome::Enqueued,
        ),
{
    match value {
        None => Ok(VectorReindexOutcome::NotFound),
        Some(ValueText::Unreadable(message)) => Err(DocStoreError::InvalidId(message.clone())),
        Some(ValueText::Empty) => Ok(VectorReindexOutcome::SkippedEmptyText),
        Some(ValueText::Text(_)) => Ok(VectorReindexOutcome::Enqueued),
    }
}

/// A value with a text is among them.
pub proof fn lemma_with_text(values: Seq<ValueTextView>, p: int)
    requires
        0 <= p < values.len(),
        values[p] is Text,
    ensures
        with_text(values).contains((p, values[p]->Text_0)),
    decreases values.len(),
{
    if p < values.len() - 1 {
        let front = values.drop_last();
        lemma_with_text(front, p);
        let (w, v) = (with_text(values), with_text(front));
        let k = choose|k: int| 0 <= k < v.len() && v[k] == (p, values[p]->Text_0);
        assert(w[k] == v[k]);
    } else {
        let w = with_text(values);
        assert(w[w.len() - 1] == (p, values[p]->Text_0));
    }
}

proof fn lemma_counts(values: Seq<ValueTextView>)
    ensures
        with_text(values).len() + without_text_count(values) <= values.len(),
        (forall|i: int| 0 <= i < values.len() ==> !(#[trigger] values[i] is Unreadable)) ==> with_text(values).len()
            + without_text_count(values) == values.len(),
    decreases values.len(),
{
    if values.len() > 0 {
        let front = values.drop_last();
        lemma_counts(front);
        if forall|i: int| 0 <= i < values.len() ==> !(#[trigger] values[i] is Unreadable) {
            assert forall|i: int| 0 <= i < front.len() implies !(#[trigger] front[i] is Unreadable) by {
                assert(!(values[i] is Unreadable));
            }
            assert(!(values[values.len() - 1] is Unreadable));
        }
    }
}

/// A reindex forgets no value: each one with a text is enqueued, and where all can
/// be read, every value is enqueued or counted as skipped.
pub proof fn law_reindex_is_complete(plan: EmbedPlan, values: Seq<ValueTextView>)
    requires
        is_embed_plan(plan, values),
    ensures
        forall|p: int|
            0 <= p < values.len() && values[p] is Text ==> item_views(plan.enqueue@).contains(
                (p, (#[trigger] values[p])->Text_0),
            ),
        (forall|i: int| 0 <= i < values.len() ==> !(#[trigger] values[i] is Unreadable)) ==> plan.enqueue@.len()
            + plan.skipped_empty_text == values.len(),
{
    assert forall|p: int| 0 <= p < values.len() && values[p] is Text implies item_views(plan.enqueue@).contains(
        (p, (#[trigger] values[p])->Text_0),
    ) by {
        lemma_with_text(values, p);
    }
    lemma_counts(values);
    assert(item_views(plan.enqueue@).len() == plan.enqueue@.len());
}

/// The exhausted entries of a namespace are its entries without attempts left, and no
/// others, in queue order.
pub proof fn law_exhausted_entries(entries: Seq<QueueEntry>, namespace: Seq<char>, max_retries: u32, n: int)
    requires
        0 <= n <= entries.len() <= usize::MAX,
    ensures
        forall|j: int, k: int|
            0 <= j < k < exhausted_at(entries, namespace, max_retries, n).len() ==> #[trigger] exhausted_at(
                entries,
                namespace,
                max_retries,
                n,
            )[j] < #[trigger] exhausted_at(entries, namespace, max_retries, n)[k],
        forall|i: usize| #[trigger]
            exhausted_at(entries, namespace, max_retries, n).contains(i) <==> i < n && entries[i as int].namespace@
                == namespace && entries[i as int].retry_count >= max_retries,
    decreases n,
{
    if n > 0 {
        law_exhausted_entries(entries, namespace, max_retries, n - 1);
        let before = exhausted_at(entries, namespace, max_retries, n - 1);
        let all = exhausted_at(entries, namespace, max_retries, n);
        assert forall|k: int| 0 <= k < before.len() implies (#[trigger] before[k]) < n - 1 by {
            assert(before.contains(before[k]));
        }
        assert forall|i: usize| #[trigger] all.contains(i) <==> i < n && entries[i as int].namespace@ == namespace
            && entries[i as int].retry_count >= max_retries by {
            if all.len() > before.len() {
                lemma_push_contains(before, (n - 1) as usize, i);
            }
            assert(before.contains(i) <==> i < n - 1 && entries[i as int].namespace@ == namespace && entries[i as int].retry_count
                >= max_retries);
        }
    }
}

/// The entries of a namespace are all of its entries, and no others, in queue order.
pub proof fn law_namespace_entries(entries: Seq<QueueEntry>, namespace: Seq<char>, n: int)
    requires
        0 <= n <= entries.len() <= usize::MAX,
    ensures
        forall|j: int, k: int|
            0 <= j < k < queued_at(entries, namespace, n).len() ==> #[trigger] queued_at(entries, namespace, n)[j]
                < #[trigger] queued_at(entries, namespace, n)[k],
        forall|i: usize| #[trigger]
            queued_at(entries, namespace, n).contains(i) <==> i < n && entries[i as int].namespace@ == namespace,
        queued_at(entries, namespace, n).len() == entries.take(n).filter(
            |e: QueueEntry| e.namespace@ == namespace,
        ).len(),
    decreases n,
{
    reveal(Seq::filter);
    if n > 0 {
        law_namespace_entries(entries, namespace, n - 1);
        let before = queued_at(entries, namespace, n - 1);
        let all = queued_at(entries, namespace, n);
        assert(entries.take(n).drop_last() =~= entries.take(n - 1));
        assert(entries.take(n).last() == entries[n - 1]);
        assert forall|k: int| 0 <= k < before.len() implies (#[trigger] before[k]) < n - 1 by {
            assert(before.contains(before[k]));
        }
        assert forall|i: usize| #[trigger] all.contains(i) <==> i < n && entries[i as int].namespace@ == namespace by {
            if all.len() > before.len() {
                lemma_push_contains(before, (n - 1) as usize, i);
            }
            assert(before.contains(i) <==> i < n - 1 && entries[i as int].namespace@ == namespace);
        }
    }
}

/// The values with a text, and no others, are listed, each with its position and its
/// very text, in order; those without a text are counted.
pub proof fn law_texts_are_listed_in_order(values: Seq<ValueTextView>)
    ensures
        forall|k: int|
            0 <= k < with_text(values).len() ==> 0 <= (#[trigger] with_text(values)[k]).0 < values.len()
                && values[with_text(values)[k].0] == ValueTextView::Text(with_text(values)[k].1),
        forall|j: int, k: int|
            0 <= j < k < with_text(values).len() ==> (#[trigger] with_text(values)[j]).0 < (
            #[trigger] with_text(values)[k]).0,
        forall|p: int|
            0 <= p < values.len() && values[p] is Text ==> with_text(values).contains(
                (p, (#[trigger] values[p])->Text_0),
            ),
        with_text(values).len() == values.filter(|v: ValueTextView| v is Text).len(),
        without_text_count(values) == values.filter(|v: ValueTextView| v is Empty).len(),
    decreases values.len(),
{
    reveal(Seq::filter);
    if values.len() > 0 {
        let front = values.drop_last();
        law_texts_are_listed_in_order(front);
        let (all, before) = (with_text(values), with_text(front));
        assert(forall|k: int| 0 <= k < before.len() ==> #[trigger] all[k] == before[k]);
        assert forall|p: int| 0 <= p < values.len() && values[p] is Text implies all.contains(
            (p, (#[trigger] values[p])->Text_0),
        ) by {
            lemma_with_text(values, p);
        }
    }
}

/// A plan enqueues every value with a text, each once and with that text, in order, and
/// nothing else; it counts the values without a text as skipped.
pub proof fn law_plan_enqueues_the_texts(plan: EmbedPlan, values: Seq<ValueTextView>)
    requires
        is_embed_plan(plan, values),
    ensures
        forall|k: int|
            0 <= k < plan.enqueue@.len() ==> (#[trigger] plan.enqueue@[k]).position < values.len()
                && values[plan.enqueue@[k].position as int] == ValueTextView::Text(plan.enqueue@[k].text@),
        forall|j: int, k: int|
            0 <= j < k < plan.enqueue@.len() ==> (#[trigger] plan.enqueue@[j]).position < (
            #[trigger] plan.enqueue@[k]).position,
        forall|p: int|
            0 <= p < values.len() && (#[trigger] values[p] is Text) ==> exists|k: int|
                0 <= k < plan.enqueue@.len() && (#[trigger] plan.enqueue@[k]).position == p,
        plan.enqueue@.len() == values.filter(|v: ValueTextView| v is Text).len(),
        plan.skipped_empty_text == values.filter(|v: ValueTextView| v is Empty).len(),
{
    law_texts_are_listed_in_order(values);
    let items = item_views(plan.enqueue@);
    assert(items.len() == plan.enqueue@.len());
    assert forall|k: int| 0 <= k < plan.enqueue@.len() implies (#[trigger] plan.enqueue@[k]).position < values.len()
        && values[plan.enqueue@[k].position as int] == ValueTextView::Text(plan.enqueue@[k].text@) by {
        assert(items[k] == (plan.enqueue@[k].position as int, plan.enqueue@[k].text@));
    }
    assert forall|j: int, k: int| 0 <= j < k < plan.enqueue@.len() implies (#[trigger] plan.enqueue@[j]).position < (
    #[trigger] plan.enqueue@[k]).position by {
        assert(items[j].0 < items[k].0);
    }
    assert forall|p: int| 0 <= p < values.len() && (#[trigger] values[p] is Text) implies exists|k: int|
        0 <= k < plan.enqueue@.len() && (#[trigger] plan.enqueue@[k]).position == p by {
        assert(items.contains((p, values[p]->Text_0)));
        let k = choose|k: int| 0 <= k < items.len() && items[k] == (p, values[p]->Text_0);
        assert(plan.enqueue@[k].position == p);
    }
}

/// The text of a stored document: where the bytes are no JSON the parser's reason;
/// otherwise the embedding text of its fields, unless that is empty.
pub proof fn law_text_of_a_document(value: Seq<u8>, names: Seq<Seq<char>>)
    ensures
        parsed_document(value) matches Err(m) ==> document_text_of(value, names) == ValueTextView::Unreadable(m),
        parsed_document(value) matches Ok(f) ==> !(document_text_of(value, names) is Unreadable) && (
        document_text_of(value, names) is Empty <==> embedding_text(f, names).len() == 0),
        parsed_document(value) matches Ok(f) ==> (embedding_text(f, names).len() > 0 ==> document_text_of(value, names)
            == ValueTextView::Text(embedding_text(f, names))),
{
}

/// The text of a stored value is the value itself, where it is UTF-8 and not empty; there
/// is none otherwise.
pub proof fn law_text_of_a_value(value: Seq<u8>)
    ensures
        kv_text_of(value) is Text <==> valid_utf8(value) && decode_utf8(value).len() > 0,
        kv_text_of(value) is Text ==> kv_text_of(value) == ValueTextView::Text(decode_utf8(value)),
        !(kv_text_of(value) is Text) ==> kv_text_of(value) is Empty,
{
}

/// Models of texts and of lists of them keep everything of them.
pub proof fn law_text_models(t: ValueText, values: Seq<ValueText>, i: int)
    ensures
        t matches ValueText::Text(s) ==> t@ == ValueTextView::Text(s@),
        t matches ValueText::Unreadable(m) ==> t@ == ValueTextView::Unreadable(m@),
        t is Empty ==> t@ is Empty,
        text_views(values).len() == values.len(),
        0 <= i < values.len() ==> text_views(values)[i] == values[i]@,
{
}

/// A reindex is running exactly where its record has the status `running`.
pub proof fn law_running(record: VecReindexProgress)
    ensures
        is_running(Some(record)) <==> record.status@ == seq!['r', 'u', 'n', 'n', 'i', 'n', 'g'],
        !is_running(None),
{
    reveal_strlit("running");
    assert("running"@ =~= seq!['r', 'u', 'n', 'n', 'i', 'n', 'g']);
}

/// The models of items are their positions and texts, all of a list and in its order.
pub proof fn law_item_models(items: Seq<EmbedItem>, i: int)
    ensures
        item_views(items).len() == items.len(),
        0 <= i < items.len() ==> item_views(items)[i] == (items[i].position as int, items[i].text@),
{
}

/// The exhausted entries of a namespace: all of its entries without attempts left, and
/// nothing else.
pub proof fn law_exhausted(entries: &[QueueEntry], namespace: &String, max_retries: u32, at: Vec<usize>)
    requires
        call_ensures(exhausted_entries, (entries, namespace, max_retries), at),
    ensures
        forall|j: int, k: int| 0 <= j < k < at@.len() ==> #[trigger] at@[j] < #[trigger] at@[k],
        forall|i: usize| #[trigger]
            at@.contains(i) <==> i < entries@.len() && entries@[i as int].namespace@ == namespace@
                && entries@[i as int].retry_count >= max_retries,
{
    assert(entries.len() <= usize::MAX);
    law_exhausted_entries(entries@, namespace@, max_retries, entries@.len() as int);
}

/// The entries of a namespace: all of them, and nothing else.
pub proof fn law_entries_of_a_namespace(entries: &[QueueEntry], namespace: &String, at: Vec<usize>)
    requires
        call_ensures(namespace_entries, (entries, namespace), at),
    ensures
        forall|j: int, k: int| 0 <= j < k < at@.len() ==> #[trigger] at@[j] < #[trigger] at@[k],
        forall|i: usize| #[trigger]
            at@.contains(i) <==> i < entries@.len() && entries@[i as int].namespace@ == namespace@,
{
    assert(entries.len() <= usize::MAX);
    law_namespace_entries(entries@, namespace@, entries@.len() as int);
}

/// Planning what to enqueue of values: every one with a text, once, with that text and in
/// order, and no other; those without a text are counted.
pub proof fn law_plan_embeds(values: &[ValueText], plan: EmbedPlan)
    requires
        call_ensures(plan_embeds, (values,), plan),
    ensures
        forall|k: int|
            0 <= k < plan.enqueue@.len() ==> (#[trigger] plan.enqueue@[k]).position < values@.len()
                && values@[plan.enqueue@[k].position as int] is Text
                && values@[plan.enqueue@[k].position as int]->Text_0@ == plan.enqueue@[k].text@,
        forall|j: int, k: int|
            0 <= j < k < plan.enqueue@.len() ==> (#[trigger] plan.enqueue@[j]).position < (
            #[trigger] plan.enqueue@[k]).position,
        forall|p: int|
            0 <= p < values@.len() && (#[trigger] values@[p] is Text) ==> exists|k: int|
                0 <= k < plan.enqueue@.len() && (#[trigger] plan.enqueue@[k]).position == p,
        plan.skipped_empty_text == text_views(values@).filter(|v: ValueTextView| v is Empty).len(),
{
    let views = text_views(values@);
    law_plan_enqueues_the_texts(plan, views);
    assert forall|k: int| 0 <= k < plan.enqueue@.len() implies (#[trigger] plan.enqueue@[k]).position < values@.len()
        && values@[plan.enqueue@[k].position as int] is Text && values@[plan.enqueue@[k].position as int]->Text_0@
        == plan.enqueue@[k].text@ by {
        let p = plan.enqueue@[k].position as int;
        assert(views[p] == values@[p]@);
    }
    assert forall|p: int| 0 <= p < values@.len() && (#[trigger] values@[p] is Text) implies exists|k: int|
        0 <= k < plan.enqueue@.len() && (#[trigger] plan.enqueue@[k]).position == p by {
        assert(views[p] is Text);
    }
}

/// Planning a reindex: every document with an embedding text is enqueued, once, with that
/// text and in order; so is every value of a key-value store that is a text.
pub proof fn law_plans_of_reindexes(values: &[Vec<u8>], names: &[String], docs: EmbedPlan, kvs: EmbedPlan, p: int)
    requires
        call_ensures(plan_index_all, (values, names), docs),
        call_ensures(plan_kv_index_all, (values,), kvs),
        0 <= p < values@.len(),
    ensures
        (exists|k: int| 0 <= k < docs.enqueue@.len() && (#[trigger] docs.enqueue@[k]).position == p) <==> (
        parsed_document(values@[p]@) is Ok && embedding_text(parsed_document(values@[p]@)->Ok_0, texts(names@)).len() > 0),
        forall|k: int|
            0 <= k < docs.enqueue@.len() && (#[trigger] docs.enqueue@[k]).position == p ==> docs.enqueue@[k].text@
                == embedding_text(parsed_document(values@[p]@)->Ok_0, texts(names@)),
        (exists|k: int| 0 <= k < kvs.enqueue@.len() && (#[trigger] kvs.enqueue@[k]).position == p) <==> (valid_utf8(
            values@[p]@,
        ) && decode_utf8(values@[p]@).len() > 0),
        forall|k: int|
            0 <= k < kvs.enqueue@.len() && (#[trigger] kvs.enqueue@[k]).position == p ==> kvs.enqueue@[k].text@
                == decode_utf8(values@[p]@),
{
    let dv = Seq::new(values@.len(), |i: int| document_text_of(values@[i]@, texts(names@)));
    let kv = Seq::new(values@.len(), |i: int| kv_text_of(values@[i]@));
    law_plan_enqueues_the_texts(docs, dv);
    law_plan_enqueues_the_texts(kvs, kv);
    law_text_of_a_document(values@[p]@, texts(names@));
    law_text_of_a_value(values@[p]@);
    assert(dv[p] is Text <==> (parsed_document(values@[p]@) is Ok && embedding_text(
        parsed_document(values@[p]@)->Ok_0,
        texts(names@),
    ).len() > 0));
    assert(kv[p] is Text <==> (valid_utf8(values@[p]@) && decode_utf8(values@[p]@).len() > 0));
}

/// The text of a document with known fields is their embedding text, unless it is empty;
/// of one that could not be read the reason is kept.
pub proof fn law_texts_of_values(
    fields: Vec<DocumentField>,
    message: String,
    names: &[String],
    t: ValueText,
    u: ValueText,
    value: &[u8],
    v: ValueText,
)
    requires
        call_ensures(fields_text, (&Ok::<Vec<DocumentField>, String>(fields), names), t),
        call_ensures(fields_text, (&Err::<Vec<DocumentField>, String>(message), names), u),
        call_ensures(kv_text, (value,), v),
    ensures
        t is Text <==> embedding_text(field_views(fields@), texts(names@)).len() > 0,
        t matches ValueText::Text(x) ==> x@ == embedding_text(field_views(fields@), texts(names@)),
        !(t is Unreadable),
        u matches ValueText::Unreadable(m) && m@ == message@,
        v is Text <==> valid_utf8(value@) && decode_utf8(value@).len() > 0,
        v matches ValueText::Text(x) ==> x@ == decode_utf8(value@),
        !(v is Unreadable),
{
    law_text_of_a_value(value@);
}

/// The answer to a request to reindex one document: whether it is there, can be read and
/// has a text.
pub proof fn law_reindex_of_one(t: ValueText, r: Result<VectorReindexOutcome, DocStoreError>, none: Result<VectorReindexOutcome, DocStoreError>)
    requires
        call_ensures(reindex_outcome, (&Some(t),), r),
        call_ensures(reindex_outcome, (&None::<ValueText>,), none),
    ensures
        none == Ok::<VectorReindexOutcome, DocStoreError>(VectorReindexOutcome::NotFound),
        t is Text ==> r == Ok::<VectorReindexOutcome, DocStoreError>(VectorReindexOutcome::Enqueued),
        t is Empty ==> r == Ok::<VectorReindexOutcome, DocStoreError>(VectorReindexOutcome::SkippedEmptyText),
        t matches ValueText::Unreadable(m) ==> r is Err && r->Err_0 is InvalidId && r->Err_0->InvalidId_0@ == m@,
{
}

/// A reindex is begun exactly where semantic search is on, the namespace was created and
/// none is recorded as running; and the record that it leaves says that it is running, so
/// that no second one is begun.
pub proof fn law_one_reindex_at_a_time(
    doc: &DocStoreSchema,
    kv: &KvStoreSchema,
    record: Option<VecReindexProgress>,
    r: Result<u32, DocStoreError>,
    s: Result<u32, DocStoreError>,
    now: u64,
    started: VecReindexProgress,
    again: Result<u32, DocStoreError>,
)
    requires
        call_ensures(DocStoreSchema::begin_index_all, (doc, &record), r),
        call_ensures(KvStoreSchema::begin_kv_index_all, (kv, &record), s),
        call_ensures(started_record, (now,), started),
        call_ensures(DocStoreSchema::begin_index_all, (doc, &Some(started)), again),
    ensures
        r is Ok <==> doc.semantic_search_enabled && doc.embedding_fields@.len() > 0 && doc.ns_id is Some && !(record is Some
            && record->0.status@ == "running"@),
        r matches Ok(id) ==> doc.ns_id == Some(id),
        s is Ok <==> kv.semantic() && kv.ns_id is Some && !(record is Some && record->0.status@ == "running"@),
        again is Err,
        started.started_at_ms == now,
{
}

/// The end of a reindex: where its entries were written, the record stays running and the
/// answer has both counts; where they were not, the record says so, when and why, and
/// there is no answer.
pub proof fn law_end_of_a_reindex(
    e: String,
    started: u64,
    now: u64,
    enqueued: usize,
    cleared: usize,
    ok: (VecReindexProgress, Option<ReindexStats>),
    bad: (VecReindexProgress, Option<ReindexStats>),
)
    requires
        call_ensures(finish_index_all, (Ok::<(), String>(()), started, now, enqueued, cleared), ok),
        call_ensures(finish_index_all, (Err::<(), String>(e), started, now, enqueued, cleared), bad),
    ensures
        ok.0.status@ == "running"@ && ok.0.completed_at_ms is None && ok.0.error is None && ok.0.total_enqueued == enqueued
            && ok.0.exhausted_cleared == cleared && ok.0.started_at_ms == started,
        ok.1 matches Some(stats) && stats.enqueued == enqueued && stats.exhausted_cleared == cleared,
        bad.0.status@ == "failed"@ && bad.0.completed_at_ms == Some(now) && bad.0.error == Some(e) && bad.0.started_at_ms
            == started,
        bad.1 is None,
{
}

/// A reindex is admitted exactly where semantic search is on and none is running; of a
/// namespace that was never created none is running.
pub proof fn law_admitted_reindexes(
    doc: &DocStoreSchema,
    kv: &KvStoreSchema,
    record: VecReindexProgress,
    running: bool,
    a: Result<(), DocStoreError>,
    b: Result<(), DocStoreError>,
    c: Result<(), DocStoreError>,
)
    requires
        call_ensures(reindex_running, (&Some(record),), running),
        call_ensures(DocStoreSchema::check_index_all_preconditions, (doc, &Some(record)), a),
        call_ensures(KvStoreSchema::check_kv_index_all_preconditions, (kv, &Some(record)), b),
        call_ensures(DocStoreSchema::check_index_all_preconditions, (doc, &None), c),
    ensures
        running <==> record.status@ == "running"@,
        a is Ok <==> doc.semantic_search_enabled && doc.embedding_fields@.len() > 0 && !(doc.ns_id is Some && running),
        b is Ok <==> kv.semantic_search_enabled && kv.value_type is Str && !(kv.ns_id is Some && running),
        c is Ok <==> doc.semantic_search_enabled && doc.embedding_fields@.len() > 0,
        a is Err && doc.semantic_search_enabled && doc.embedding_fields@.len() > 0 ==> a->Err_0 is VecReindexInProgress,
        b is Err && kv.semantic_search_enabled && kv.value_type is Str ==> b->Err_0 is VecReindexInProgress,
{
}

} // verus!
