//! Which single writes keep the vector index in step with a document, and in
//! which order.
//!
//! A document, its queue entry and its vectors are written one by one, and a
//! crash can fall between any two writes. The laws of this module say what holds
//! after every prefix of a plan.

use vstd::prelude::*;

use super::vec_index_worker::{QueueEntry, QueueEntryKind, Request};

verus! {

/// One write.
#[derive(Debug, Clone)]
pub enum StoreOp {
    /// Write the document through the log.
    PutDocument,
    /// Write the document past the log.
    PutDocumentNoWal,
    /// Delete the document.
    DeleteDocument,
    /// Enqueue the text for embedding, in place of any other entry of the document.
    EnqueueEmbed(String),
    /// Put a clear entry into the queue, then delete the vectors.
    ClearVectors,
    /// The same where the document has a queue entry or vectors; wakes the worker.
    ClearVectorsIfAny,
    /// Remove the queue entry.
    RemoveQueueEntry,
    /// Delete the vectors.
    DeleteVectors,
    /// Write the vectors of the text.
    UpsertVectors(String),
    /// Wake the worker.
    WakeWorker,
}

/// What is stored for one document.
pub struct DocState {
    pub document: bool,
    /// What its queue entry asks for.
    pub queue: Option<Request>,
    /// The text that its vectors are of.
    pub vectors: Option<Seq<char>>,
}

/// The effect of one write.
pub open spec fn after_op(s: DocState, op: StoreOp) -> DocState {
    match op {
        StoreOp::PutDocument => DocState { document: true, ..s },
        StoreOp::PutDocumentNoWal => DocState { document: true, ..s },
        StoreOp::DeleteDocument => DocState { document: false, ..s },
        StoreOp::EnqueueEmbed(text) => DocState { queue: Some(Request::Embed(text@)), ..s },
        StoreOp::ClearVectors => DocState { queue: Some(Request::Clear), vectors: None, ..s },
        StoreOp::ClearVectorsIfAny => if s.queue is Some || s.vectors is Some {
            DocState { queue: Some(Request::Clear), vectors: None, ..s }
        } else {
            s
        },
        StoreOp::RemoveQueueEntry => DocState { queue: None, ..s },
        StoreOp::DeleteVectors => DocState { vectors: None, ..s },
        StoreOp::UpsertVectors(text) => DocState { vectors: Some(text@), ..s },
        StoreOp::WakeWorker => s,
    }
}

/// The effect of the first `n` writes of a plan.
pub open spec fn after_ops(s: DocState, ops: Seq<StoreOp>, n: int) -> DocState
    decreases n,
{
    if n <= 0 {
        s
    } else {
        after_op(after_ops(s, ops, n - 1), ops[n - 1])
    }
}

/// The effect of a whole plan.
pub open spec fn after_plan(s: DocState, ops: Seq<StoreOp>) -> DocState {
    after_ops(s, ops, ops.len() as int)
}

/// `ops` are the writes of an upsert.
pub open spec fn is_put_plan(ops: Seq<StoreOp>, skip_wal: bool, upkeep: bool, text: Seq<char>) -> bool {
    &&& ops.len() >= 1
    &&& ops[0] == if skip_wal {
        StoreOp::PutDocumentNoWal
    } else {
        StoreOp::PutDocument
    }
    &&& !upkeep ==> ops.len() == 1
    &&& upkeep && text.len() > 0 ==> ops.len() == 3 && (ops[1] matches StoreOp::EnqueueEmbed(t) && t@ == text) && ops[2]
        == StoreOp::WakeWorker
    &&& upkeep && text.len() == 0 ==> ops.len() == 2 && ops[1] == StoreOp::ClearVectorsIfAny
}

/// The writes of an upsert: the document first, then, where a worker keeps the
/// vector index of the namespace, the entry for its text; where there is no text
/// any more, whatever is left of the old one is cleared.
pub fn put_plan(skip_wal: bool, worker: bool, semantic: bool, text: &String) -> (ops: Vec<StoreOp>)
    ensures
        is_put_plan(ops@, skip_wal, worker && semantic, text@),
{
    let mut ops: Vec<StoreOp> = Vec::new();
    if skip_wal {
        ops.push(StoreOp::PutDocumentNoWal);
    } else {
        ops.push(StoreOp::PutDocument);
    }
    if worker && semantic {
        if !text.as_str().is_empty() {
            ops.push(StoreOp::EnqueueEmbed(text.clone()));
            ops.push(StoreOp::WakeWorker);
        } else {
            ops.push(StoreOp::ClearVectorsIfAny);
        }
    }
    ops
}

/// The writes of a delete.
pub open spec fn delete_ops(worker: bool, semantic: bool) -> Seq<StoreOp> {
    if semantic && worker {
        seq![StoreOp::ClearVectors, StoreOp::WakeWorker, StoreOp::DeleteDocument]
    } else if semantic {
        seq![StoreOp::RemoveQueueEntry, StoreOp::DeleteVectors, StoreOp::DeleteDocument]
    } else {
        seq![StoreOp::DeleteDocument]
    }
}

/// The writes of a delete: what is derived from the document goes first. Beside a
/// worker a clear entry stays behind, so that an embedding call under way does not
/// bring the vectors back.
pub fn delete_plan(worker: bool, semantic: bool) -> (ops: Vec<StoreOp>)
    ensures
        ops@ == delete_ops(worker, semantic),
{
    let mut ops: Vec<StoreOp> = Vec::new();
    if semantic {
        if worker {
            ops.push(StoreOp::ClearVectors);
            ops.push(StoreOp::WakeWorker);
        } else {
            ops.push(StoreOp::RemoveQueueEntry);
            ops.push(StoreOp::DeleteVectors);
        }
    }
    ops.push(StoreOp::DeleteDocument);
    proof {
        assert(ops@ =~= delete_ops(worker, semantic));
    }
    ops
}

/// The request of the entry, if there is one.
pub open spec fn request_of(entry: Option<QueueEntry>) -> Option<Request> {
    match entry {
        Some(e) => Some(e.request()),
        None => None,
    }
}

/// The writes that end the work on an entry, given the entry of the document then.
pub open spec fn finish_ops(worked: QueueEntry, current: Option<QueueEntry>) -> Seq<StoreOp> {
    match request_of(current) {
        Some(Request::Clear) => seq![StoreOp::DeleteVectors, StoreOp::RemoveQueueEntry],
        Some(newest) => if newest == worked.request() {
            seq![StoreOp::UpsertVectors(worked.text), StoreOp::RemoveQueueEntry]
        } else {
            seq![]
        },
        None => match worked.kind {
            QueueEntryKind::Embed => seq![StoreOp::UpsertVectors(worked.text)],
            QueueEntryKind::Clear => seq![StoreOp::DeleteVectors],
        },
    }
}

/// The writes that end the work on an entry: the vectors, then the queue entry.
///
/// The document may have been written or deleted meanwhile. Where it was cleared, the
/// vectors go instead. Where it has a newer text, nothing is written, and the entry
/// for that text stays to be worked on. An entry that was removed by hand is worked on
/// to its end, and there is none to remove.
pub fn finish_plan(worked: &QueueEntry, current: Option<&QueueEntry>) -> (ops: Vec<StoreOp>)
    ensures
        ops@ == finish_ops(
            *worked,
            match current {
                Some(e) => Some(*e),
                None => None,
            },
        ),
{
    let mut ops: Vec<StoreOp> = Vec::new();
    match current {
        Some(entry) => match entry.kind {
            QueueEntryKind::Clear => {
                ops.push(StoreOp::DeleteVectors);
                ops.push(StoreOp::RemoveQueueEntry);
            },
            QueueEntryKind::Embed => {
                if entry.asks_the_same(worked) {
                    ops.push(StoreOp::UpsertVectors(worked.text.clone()));
                    ops.push(StoreOp::RemoveQueueEntry);
                }
            },
        },
        None => match worked.kind {
            QueueEntryKind::Embed => {
                ops.push(StoreOp::UpsertVectors(worked.text.clone()));
            },
            QueueEntryKind::Clear => {
                ops.push(StoreOp::DeleteVectors);
            },
        },
    }
    proof {
        assert(ops@ =~= finish_ops(
            *worked,
            match current {
                Some(e) => Some(*e),
                None => None,
            },
        ));
    }
    ops
}

/// Nothing is derived from a document that is not there.
pub open spec fn no_orphan(s: DocState) -> bool {
    s.vectors is Some || (s.queue matches Some(Request::Embed(_))) ==> s.document
}

/// An upsert with a text leaves the document and an entry for it.
pub proof fn law_put_enqueues(s: DocState, ops: Seq<StoreOp>, skip_wal: bool, text: Seq<char>)
    requires
        is_put_plan(ops, skip_wal, true, text),
        text.len() > 0,
    ensures
        after_plan(s, ops) == (DocState { document: true, queue: Some(Request::Embed(text)), vectors: s.vectors }),
{
    reveal_with_fuel(after_ops, 4);
}

/// An upsert without a text leaves neither vectors of the old text nor a call for
/// it, and writes no queue entry for a document that had nothing.
pub proof fn law_put_without_text_clears(s: DocState, ops: Seq<StoreOp>, skip_wal: bool)
    requires
        is_put_plan(ops, skip_wal, true, Seq::empty()),
    ensures
        after_plan(s, ops).document,
        after_plan(s, ops).vectors is None,
        !(after_plan(s, ops).queue matches Some(Request::Embed(_))),
        s.queue is None && s.vectors is None ==> after_plan(s, ops).queue is None,
{
    reveal_with_fuel(after_ops, 3);
}

/// After every prefix of a delete nothing is derived from a document that is not
/// there, and after the whole of it the document and its vectors are gone.
pub proof fn law_delete_leaves_no_orphan(s: DocState, worker: bool, n: int)
    requires
        no_orphan(s),
        0 <= n <= delete_ops(worker, true).len(),
    ensures
        no_orphan(after_ops(s, delete_ops(worker, true), n)),
        !after_plan(s, delete_ops(worker, true)).document,
        after_plan(s, delete_ops(worker, true)).vectors is None,
        !worker ==> after_plan(s, delete_ops(worker, true)).queue is None,
{
    reveal_with_fuel(after_ops, 4);
}

/// A document that was deleted beside a worker has no vectors and no queue entry
/// once the work on any entry of it has ended.
pub proof fn law_delete_during_embed(s: DocState, worked: QueueEntry, current: Option<QueueEntry>)
    requires
        request_of(current) == after_plan(s, delete_ops(true, true)).queue,
    ensures
        after_plan(after_plan(s, delete_ops(true, true)), finish_ops(worked, current)) == (DocState {
            document: false,
            queue: None,
            vectors: None,
        }),
{
    reveal_with_fuel(after_ops, 4);
}

/// What a request asks for holds.
pub open spec fn is_met(s: DocState, request: Request) -> bool {
    match request {
        Request::Embed(text) => s.vectors == Some(text),
        Request::Clear => s.vectors is None,
    }
}

/// The end of the work on an entry loses no request: whatever the entry of the
/// document asks for then, after every prefix of the writes it is still in the queue
/// or what it asks for holds. The entry may be the one that was worked on, or one
/// that replaced it.
pub proof fn law_finish_loses_nothing(s: DocState, worked: QueueEntry, current: QueueEntry, n: int)
    requires
        s.queue == Some(current.request()),
        0 <= n <= finish_ops(worked, Some(current)).len(),
    ensures
        ({
            let after = after_ops(s, finish_ops(worked, Some(current)), n);
            after.queue == s.queue || is_met(after, current.request())
        }),
        ({
            let after = after_plan(s, finish_ops(worked, Some(current)));
            after.queue is None <==> current.request() == Request::Clear || current.request() == worked.request()
        }),
{
    reveal_with_fuel(after_ops, 3);
}

/// The end of the work on an entry leaves no orphan behind, after every prefix of the
/// writes. A delete beside a worker leaves a clear entry; so a document without an entry
/// was not deleted while it was worked on.
pub proof fn law_finish_leaves_no_orphan(s: DocState, worked: QueueEntry, current: Option<QueueEntry>, n: int)
    requires
        no_orphan(s),
        s.queue == request_of(current),
        current is None ==> s.document,
        0 <= n <= finish_ops(worked, current).len(),
    ensures
        no_orphan(after_ops(s, finish_ops(worked, current), n)),
{
    reveal_with_fuel(after_ops, 3);
}

/// An entry that was removed by hand while it was worked on is not lost: what it asks
/// for holds in the end.
pub proof fn law_removed_entry_is_met(s: DocState, worked: QueueEntry)
    requires
        s.queue is None,
    ensures
        is_met(after_plan(s, finish_ops(worked, None)), worked.request()),
        after_plan(s, finish_ops(worked, None)).queue is None,
{
    reveal_with_fuel(after_ops, 2);
}

/// A document that is written again while an entry of it is worked on keeps its new
/// entry; the work on that one ends with the vectors of the new text.
pub proof fn law_newest_text_is_embedded(
    s: DocState,
    ops: Seq<StoreOp>,
    skip_wal: bool,
    worked: QueueEntry,
    newest: QueueEntry,
)
    requires
        newest.kind == QueueEntryKind::Embed,
        newest.text@.len() > 0,
        is_put_plan(ops, skip_wal, true, newest.text@),
        worked.request() != newest.request(),
    ensures
        ({
            let written = after_plan(s, ops);
            let left = after_plan(written, finish_ops(worked, Some(newest)));
            &&& written.queue == Some(newest.request())
            &&& left == written
            &&& after_plan(left, finish_ops(newest, Some(newest))) == (DocState {
                document: true,
                queue: None,
                vectors: Some(newest.text@),
            })
        }),
{
    reveal_with_fuel(after_ops, 4);
}

/// A document with neither vectors nor an entry.
pub open spec fn is_missing(s: DocState) -> bool {
    s.document && s.queue is None && s.vectors is None
}

/// Whether a document is to be enqueued by a reconciliation: it is neither queued
/// nor indexed.
pub fn needs_enqueue(queued: bool, indexed: bool) -> (yes: bool)
    ensures
        yes <==> !queued && !indexed,
{
    !queued && !indexed
}

/// A crash in the middle of the first upsert of a document leaves nothing stored,
/// a document that a reconciliation enqueues, or a document with its entry.
pub proof fn law_reconciliation_closes_the_gap(ops: Seq<StoreOp>, skip_wal: bool, text: Seq<char>, n: int)
    requires
        is_put_plan(ops, skip_wal, true, text),
        text.len() > 0,
        0 <= n <= ops.len(),
    ensures
        ({
            let none = DocState { document: false, queue: None, vectors: None };
            let s = after_ops(none, ops, n);
            s == none || is_missing(s) || s.queue == Some(Request::Embed(text))
        }),
{
    reveal_with_fuel(after_ops, 4);
}

/// Each write changes what it names and nothing else.
pub proof fn law_writes_change_what_they_name(s: DocState, op: StoreOp)
    ensures
        after_op(s, op).document == if op is PutDocument || op is PutDocumentNoWal {
            true
        } else if op is DeleteDocument {
            false
        } else {
            s.document
        },
        op matches StoreOp::EnqueueEmbed(t) ==> after_op(s, op).queue == Some(Request::Embed(t@)),
        op is ClearVectors ==> after_op(s, op).queue == Some(Request::Clear) && after_op(s, op).vectors is None,
        op is ClearVectorsIfAny && (s.queue is Some || s.vectors is Some) ==> after_op(s, op).queue == Some(
            Request::Clear,
        ) && after_op(s, op).vectors is None,
        op is ClearVectorsIfAny && s.queue is None && s.vectors is None ==> after_op(s, op) == s,
        op is RemoveQueueEntry ==> after_op(s, op).queue is None && after_op(s, op).vectors == s.vectors,
        op is DeleteVectors ==> after_op(s, op).vectors is None && after_op(s, op).queue == s.queue,
        op matches StoreOp::UpsertVectors(t) ==> after_op(s, op).vectors == Some(t@) && after_op(s, op).queue == s.queue,
        op is EnqueueEmbed ==> after_op(s, op).vectors == s.vectors,
        op is PutDocument || op is PutDocumentNoWal || op is DeleteDocument || op is WakeWorker ==> after_op(s, op).queue
            == s.queue && after_op(s, op).vectors == s.vectors,
{
}

/// A plan does its writes one after the other: one more write has its effect on what the
/// writes before it left.
pub proof fn law_plans_do_their_writes_in_order(s: DocState, ops: Seq<StoreOp>, op: StoreOp)
    ensures
        after_plan(s, Seq::<StoreOp>::empty()) == s,
        after_plan(s, ops.push(op)) == after_op(after_plan(s, ops), op),
{
    lemma_same_prefix(s, ops.push(op), ops, ops.len() as int);
}

proof fn lemma_same_prefix(s: DocState, a: Seq<StoreOp>, b: Seq<StoreOp>, n: int)
    requires
        0 <= n <= a.len(),
        n <= b.len(),
        forall|i: int| 0 <= i < n ==> a[i] == b[i],
    ensures
        after_ops(s, a, n) == after_ops(s, b, n),
    decreases n,
{
    if n > 0 {
        lemma_same_prefix(s, a, b, n - 1);
    }
}

/// Whatever the settings, a delete deletes the document, and that is its last write:
/// after the whole plan the document is gone. It writes no document, no text and no
/// vectors. With semantic search the vectors are gone too, and with a worker as well a
/// clear entry is left for it; without a worker no entry is left. Without semantic search
/// nothing else is touched.
pub proof fn law_delete_deletes_the_document(s: DocState, worker: bool, semantic: bool)
    ensures
        !after_plan(s, delete_ops(worker, semantic)).document,
        delete_ops(worker, semantic).len() > 0,
        delete_ops(worker, semantic).last() == StoreOp::DeleteDocument,
        forall|i: int|
            0 <= i < delete_ops(worker, semantic).len() - 1 ==> !(#[trigger] delete_ops(worker, semantic)[i]
                is DeleteDocument),
        forall|i: int|
            0 <= i < delete_ops(worker, semantic).len() ==> {
                let op = #[trigger] delete_ops(worker, semantic)[i];
                !(op is PutDocument) && !(op is PutDocumentNoWal) && !(op is EnqueueEmbed) && !(op is UpsertVectors)
            },
        semantic ==> after_plan(s, delete_ops(worker, semantic)).vectors is None,
        semantic && worker ==> after_plan(s, delete_ops(worker, semantic)).queue == Some(Request::Clear),
        semantic && worker ==> delete_ops(worker, semantic).contains(StoreOp::WakeWorker),
        semantic && !worker ==> after_plan(s, delete_ops(worker, semantic)).queue is None,
        !semantic ==> after_plan(s, delete_ops(worker, semantic)).queue == s.queue && after_plan(
            s,
            delete_ops(worker, semantic),
        ).vectors == s.vectors,
{
    reveal_with_fuel(after_ops, 4);
    if semantic && worker {
        assert(delete_ops(worker, semantic)[1] == StoreOp::WakeWorker);
    }
}

/// An upsert writes the document, first and once, through the log unless it is to be
/// skipped. Where the vector index is kept up, a text is enqueued, that very text, and
/// the worker is woken; where there is no text any more, what is left of the old one is
/// cleared. Where it is not kept up, nothing else is written.
pub proof fn law_put_writes_the_document(s: DocState, ops: Seq<StoreOp>, skip_wal: bool, upkeep: bool, text: Seq<char>)
    requires
        is_put_plan(ops, skip_wal, upkeep, text),
    ensures
        after_plan(s, ops).document,
        ops.len() > 0,
        skip_wal ==> ops[0] is PutDocumentNoWal,
        !skip_wal ==> ops[0] is PutDocument,
        forall|i: int|
            1 <= i < ops.len() ==> !(#[trigger] ops[i] is PutDocument) && !(ops[i] is PutDocumentNoWal) && !(ops[i]
                is DeleteDocument),
        upkeep && text.len() > 0 ==> after_plan(s, ops).queue == Some(Request::Embed(text)) && after_plan(s, ops).vectors
            == s.vectors && ops.last() is WakeWorker,
        upkeep && text.len() == 0 && (s.queue is Some || s.vectors is Some) ==> after_plan(s, ops).queue == Some(
            Request::Clear,
        ) && after_plan(s, ops).vectors is None,
        upkeep && text.len() == 0 && s.queue is None && s.vectors is None ==> after_plan(s, ops).queue is None
            && after_plan(s, ops).vectors is None,
        !upkeep ==> after_plan(s, ops).queue == s.queue && after_plan(s, ops).vectors == s.vectors,
{
    reveal_with_fuel(after_ops, 4);
}

/// The end of the work on an entry, over the kinds and texts of the two entries. The
/// vectors of the text that was worked on are written where the document still asks for
/// that text, or has no entry any more; they are deleted where it asks for none, or had
/// asked for none and has no entry any more. The entry is removed where what it asks for
/// was done. A newer text is left alone.
pub proof fn law_finish_does_what_is_asked_for(s: DocState, worked: QueueEntry, current: QueueEntry)
    ensures
        current.kind == QueueEntryKind::Clear ==> after_plan(s, finish_ops(worked, Some(current))) == (DocState {
            queue: None,
            vectors: None,
            ..s
        }),
        current.kind == QueueEntryKind::Embed && worked.kind == QueueEntryKind::Embed && current.text@ == worked.text@
            ==> after_plan(s, finish_ops(worked, Some(current))) == (DocState {
            queue: None,
            vectors: Some(worked.text@),
            ..s
        }),
        current.kind == QueueEntryKind::Embed && (worked.kind == QueueEntryKind::Clear || current.text@ != worked.text@)
            ==> finish_ops(worked, Some(current)).len() == 0,
        worked.kind == QueueEntryKind::Embed ==> after_plan(s, finish_ops(worked, None)) == (DocState {
            vectors: Some(worked.text@),
            ..s
        }),
        worked.kind == QueueEntryKind::Clear ==> after_plan(s, finish_ops(worked, None)) == (DocState { vectors: None, ..s }),
        forall|c: Option<QueueEntry>, i: int|
            0 <= i < finish_ops(worked, c).len() ==> {
                let op = #[trigger] finish_ops(worked, c)[i];
                (op is UpsertVectors || op is DeleteVectors || op is RemoveQueueEntry) && (op is RemoveQueueEntry ==> i
                    > 0)
            },
{
    reveal_with_fuel(after_ops, 3);
}

/// Deleting a document deletes it, whatever the settings, and as its last write; it writes
/// no document, text or vectors. With semantic search no vectors are left, and beside a
/// worker a clear entry is.
pub proof fn law_delete_plan(worker: bool, semantic: bool, ops: Vec<StoreOp>, s: DocState)
    requires
        call_ensures(delete_plan, (worker, semantic), ops),
    ensures
        !after_plan(s, ops@).document,
        ops@.len() > 0,
        ops@.last() is DeleteDocument,
        forall|i: int|
            0 <= i < ops@.len() ==> !(#[trigger] ops@[i] is PutDocument) && !(ops@[i] is PutDocumentNoWal) && !(ops@[i]
                is EnqueueEmbed) && !(ops@[i] is UpsertVectors),
        semantic ==> after_plan(s, ops@).vectors is None,
        semantic && worker ==> after_plan(s, ops@).queue == Some(Request::Clear) && ops@.contains(StoreOp::WakeWorker),
        semantic && !worker ==> after_plan(s, ops@).queue is None,
        !semantic ==> ops@.len() == 1,
{
    law_delete_deletes_the_document(s, worker, semantic);
}

/// Writing a document writes it, first and once, and past the log only where that is
/// asked for. A text is enqueued where both a worker and semantic search are there, that
/// very text, and the worker is woken; without a text what is left of an old one is
/// cleared; where either is missing nothing else is written.
pub proof fn law_put_plan(skip_wal: bool, worker: bool, semantic: bool, text: &String, ops: Vec<StoreOp>, s: DocState)
    requires
        call_ensures(put_plan, (skip_wal, worker, semantic, text), ops),
    ensures
        after_plan(s, ops@).document,
        ops@.len() > 0,
        if skip_wal {
            ops@[0] is PutDocumentNoWal
        } else {
            ops@[0] is PutDocument
        },
        forall|i: int|
            1 <= i < ops@.len() ==> !(#[trigger] ops@[i] is PutDocument) && !(ops@[i] is PutDocumentNoWal) && !(ops@[i]
                is DeleteDocument),
        worker && semantic && text@.len() > 0 ==> after_plan(s, ops@).queue == Some(Request::Embed(text@)) && after_plan(
            s,
            ops@,
        ).vectors == s.vectors && ops@.last() is WakeWorker,
        worker && semantic && text@.len() == 0 ==> after_plan(s, ops@).vectors is None && !(after_plan(s, ops@).queue
            matches Some(Request::Embed(_))),
        !(worker && semantic) ==> ops@.len() == 1,
{
    law_put_writes_the_document(s, ops@, skip_wal, worker && semantic, text@);
}

/// Ending the work on an entry: a text that is still asked for has its vectors written and
/// its entry removed; a document that was cleared loses vectors and entry; a newer text is
/// left alone; an entry that is gone is worked on to its end.
pub proof fn law_finish_plan(
    worked: &QueueEntry,
    current: &QueueEntry,
    ops: Vec<StoreOp>,
    gone: Vec<StoreOp>,
    s: DocState,
)
    requires
        call_ensures(finish_plan, (worked, Some(current)), ops),
        call_ensures(finish_plan, (worked, None::<&QueueEntry>), gone),
    ensures
        current.kind == QueueEntryKind::Clear ==> after_plan(s, ops@) == (DocState { queue: None, vectors: None, ..s }),
        current.kind == QueueEntryKind::Embed && worked.kind == QueueEntryKind::Embed && current.text@ == worked.text@
            ==> after_plan(s, ops@) == (DocState { queue: None, vectors: Some(worked.text@), ..s }),
        current.kind == QueueEntryKind::Embed && (worked.kind == QueueEntryKind::Clear || current.text@ != worked.text@)
            ==> ops@.len() == 0,
        worked.kind == QueueEntryKind::Embed ==> after_plan(s, gone@) == (DocState { vectors: Some(worked.text@), ..s }),
        worked.kind == QueueEntryKind::Clear ==> after_plan(s, gone@) == (DocState { vectors: None, ..s }),
        ops@.len() > 0 ==> !(ops@[0] is RemoveQueueEntry),
{
    law_finish_does_what_is_asked_for(s, *worked, *current);
}

/// A document is enqueued by a reconciliation exactly where it is neither queued nor
/// indexed.
pub proof fn law_needs_enqueue(queued: bool, indexed: bool, yes: bool)
    requires
        call_ensures(needs_enqueue, (queued, indexed), yes),
    ensures
        queued || indexed ==> !yes,
        !queued && !indexed ==> yes,
{
}

} // verus!
