//! Pages of range scans and index queries.

use vstd::prelude::*;

use super::error::{DocStoreError, RowError};
use super::json::{parse_document, parsed_document, parsed_json};
use super::schema::{DocStoreSchema, KeyType, KvStoreSchema};
use super::types::{decode_error, DocId};
use crate::numbers::{decimal, decimal_digits};
use crate::semantic_search::fusion::{
    law_absent_fields_keep_their_value, law_accepted_parameters, RankingOverride, RankingParams,
};

verus! {

/// Where a page starts: where the page before ended, or at the start of the range.
pub fn scan_start(cursor: Option<Vec<u8>>, start: Vec<u8>) -> (from: Vec<u8>)
    ensures
        from == if cursor is Some {
            cursor->0
        } else {
            start
        },
{
    match cursor {
        Some(c) => c,
        None => start,
    }
}

/// A registered field.
#[derive(Debug, Clone)]
pub struct FieldMeta {
    pub field_id: u32,
    pub field_name: String,
}

/// The name of the first registered field with that number; the number in decimal
/// where there is none.
pub open spec fn field_name_of(fields: Seq<FieldMeta>, id: u32) -> Seq<char>
    decreases fields.len(),
{
    if fields.len() == 0 {
        decimal_digits(id as nat)
    } else if fields[0].field_id == id {
        fields[0].field_name@
    } else {
        field_name_of(fields.subrange(1, fields.len() as int), id)
    }
}

fn field_name(fields: &[FieldMeta], id: u32) -> (name: String)
    ensures
        name@ == field_name_of(fields@, id),
{
    let mut i: usize = 0;
    proof {
        assert(fields@.subrange(0, fields@.len() as int) =~= fields@);
    }
    while i < fields.len()
        invariant
            i <= fields@.len(),
            field_name_of(fields@, id) == field_name_of(fields@.subrange(i as int, fields@.len() as int), id),
        decreases fields@.len() - i,
    {
        proof {
            let rest = fields@.subrange(i as int, fields@.len() as int);
            assert(rest.subrange(1, rest.len() as int) =~= fields@.subrange(i + 1, fields@.len() as int));
        }
        if fields[i].field_id == id {
            return fields[i].field_name.clone();
        }
        i = i + 1;
    }
    decimal(id as u64)
}

/// The names of the fields whose index was incomplete when a query used it.
pub fn degraded_field_names(fields: &[FieldMeta], degraded: &[u32]) -> (names: Vec<String>)
    ensures
        names@.len() == degraded@.len(),
        forall|i: int| 0 <= i < names@.len() ==> (#[trigger] names@[i])@ == field_name_of(fields@, degraded@[i]),
{
    let mut names: Vec<String> = Vec::with_capacity(degraded.len());
    let mut i: usize = 0;
    while i < degraded.len()
        invariant
            i <= degraded@.len(),
            names@.len() == i,
            forall|k: int| 0 <= k < i ==> (#[trigger] names@[k])@ == field_name_of(fields@, degraded@[k]),
        decreases degraded@.len() - i,
    {
        names.push(field_name(fields, degraded[i]));
        i = i + 1;
    }
    names
}

/// Position of the first field of that name.
pub open spec fn is_first_named(fields: Seq<FieldMeta>, name: Seq<char>, at: int) -> bool {
    &&& 0 <= at < fields.len()
    &&& fields[at].field_name@ == name
    &&& forall|i: int| 0 <= i < at ==> (#[trigger] fields[i]).field_name@ != name
}

/// Some field has that name.
pub open spec fn is_registered(fields: Seq<FieldMeta>, name: Seq<char>) -> bool {
    exists|i: int| 0 <= i < fields.len() && (#[trigger] fields[i]).field_name@ == name
}

/// Numbers of the namespace and of the registered field of that name.
pub fn indexed_field(schema: &DocStoreSchema, fields: &[FieldMeta], name: &String) -> (r: Result<
    (u32, u32),
    DocStoreError,
>)
    ensures
        r is Ok <==> schema.ns_id is Some && is_registered(fields@, name@),
        r is Ok ==> r->Ok_0.0 == schema.ns_id->0 && exists|at: int|
            #[trigger] is_first_named(fields@, name@, at) && r->Ok_0.1 == fields@[at].field_id,
        schema.ns_id is None <==> (r matches Err(DocStoreError::MissingNsId { .. })),
        schema.ns_id is Some && !is_registered(fields@, name@) <==> (r matches Err(DocStoreError::IndexNotFound { .. })),
        r matches Err(DocStoreError::MissingNsId { namespace }) ==> namespace@ == schema.namespace@,
        r matches Err(DocStoreError::IndexNotFound { namespace, field }) ==> namespace@ == schema.namespace@ && field@
            == name@,
{
    let ns_id: u32 = match schema.ns_id {
        Some(id) => id,
        None => {
            return Err(DocStoreError::MissingNsId { namespace: schema.namespace.clone() });
        },
    };
    let mut i: usize = 0;
    while i < fields.len()
        invariant
            i <= fields@.len(),
            schema.ns_id == Some(ns_id),
            forall|k: int| 0 <= k < i ==> (#[trigger] fields@[k]).field_name@ != name@,
        decreases fields@.len() - i,
    {
        if fields[i].field_name == *name {
            proof {
                assert(is_first_named(fields@, name@, i as int));
            }
            return Ok((ns_id, fields[i].field_id));
        }
        i = i + 1;
    }
    Err(DocStoreError::IndexNotFound { namespace: schema.namespace.clone(), field: name.clone() })
}

/// Admits a semantic search of a document store.
pub fn admit_search(configured: bool, schema: &DocStoreSchema) -> (r: Result<(), DocStoreError>)
    ensures
        r is Ok <==> configured && schema.semantic_search_enabled,
        !configured ==> (r matches Err(DocStoreError::EmbeddingFailed(m)) && m@
            == "semantic search not configured on this store"@),
        configured && !schema.semantic_search_enabled ==> (r matches Err(DocStoreError::EmbeddingFailed(m)) && m@
            == "namespace '"@ + schema.namespace@ + "' does not have semantic_search_enabled"@),
{
    if !configured {
        return Err(DocStoreError::EmbeddingFailed("semantic search not configured on this store".to_owned()));
    }
    if !schema.semantic_search_enabled {
        let mut m: String = "namespace '".to_owned();
        m.append(schema.namespace.as_str());
        m.append("' does not have semantic_search_enabled");
        return Err(DocStoreError::EmbeddingFailed(m));
    }
    Ok(())
}

/// Admits a semantic search of a key-value store, and gives the ranking
/// parameters to use: the configured ones with those of the request.
pub fn admit_kv_search(
    configured: &Option<RankingParams>,
    ranking: &RankingOverride,
    schema: &KvStoreSchema,
) -> (r: Result<RankingParams, DocStoreError>)
    ensures
        r is Ok <==> configured is Some && configured->0.overridden(*ranking).verdict() is Ok && schema.semantic(),
        r is Ok ==> r->Ok_0 == configured->0.overridden(*ranking),
        configured is None ==> (r matches Err(DocStoreError::EmbeddingFailed(m)) && m@
            == "semantic search not configured on this store"@),
        configured is Some && configured->0.overridden(*ranking).verdict() is Err ==> (r matches Err(
            DocStoreError::InvalidRanking(e),
        ) && e == configured->0.overridden(*ranking).verdict()->Err_0),
        configured is Some && configured->0.overridden(*ranking).verdict() is Ok && !schema.semantic() ==> (r matches Err(
            DocStoreError::EmbeddingFailed(m),
        ) && m@ == "KV namespace '"@ + schema.namespace@ + "' does not have semantic_search_enabled"@),
{
    let params: RankingParams = match configured {
        Some(p) => *p,
        None => {
            return Err(DocStoreError::EmbeddingFailed("semantic search not configured on this store".to_owned()));
        },
    };
    let params: RankingParams = match params.with_override(ranking) {
        Ok(p) => p,
        Err(e) => {
            return Err(DocStoreError::InvalidRanking(e));
        },
    };
    if !schema.is_semantic_search_enabled() {
        let mut m: String = "KV namespace '".to_owned();
        m.append(schema.namespace.as_str());
        m.append("' does not have semantic_search_enabled");
        return Err(DocStoreError::EmbeddingFailed(m));
    }
    Ok(params)
}

/// A row of a result page.
#[derive(Debug, Clone, Copy)]
pub struct ResolvedRow {
    /// Position of the key in the query's result.
    pub position: usize,
    pub id: DocId,
}

/// What became of reading the document of a key.
#[derive(Debug, Clone)]
pub enum DocumentRead {
    /// The document is gone.
    Gone,
    /// The stored bytes are no document, and why.
    Unreadable(String),
    Readable,
}

/// Model of a [`DocumentRead`].
pub enum DocumentReadView {
    Gone,
    Unreadable(Seq<char>),
    Readable,
}

impl View for DocumentRead {
    type V = DocumentReadView;

    open spec fn view(&self) -> DocumentReadView {
        match *self {
            DocumentRead::Gone => DocumentReadView::Gone,
            DocumentRead::Unreadable(m) => DocumentReadView::Unreadable(m@),
            DocumentRead::Readable => DocumentReadView::Readable,
        }
    }
}

/// Models of a list of reads.
pub open spec fn read_views(reads: Seq<DocumentRead>) -> Seq<DocumentReadView> {
    Seq::new(reads.len(), |i: int| reads[i]@)
}

/// What reading these stored bytes gives.
pub open spec fn read_of(value: Option<Vec<u8>>) -> DocumentReadView {
    match value {
        None => DocumentReadView::Gone,
        Some(bytes) => match parsed_document(bytes@) {
            Ok(_) => DocumentReadView::Readable,
            Err(message) => DocumentReadView::Unreadable(message),
        },
    }
}

/// The error of a row: a key whose document is gone is not looked at; otherwise the
/// key comes before the document.
pub open spec fn row_error(key: Seq<u8>, read: DocumentReadView, key_type: KeyType) -> Option<RowError> {
    if read is Gone {
        None
    } else if decode_error(key, key_type) is Some {
        decode_error(key, key_type)
    } else {
        match read {
            DocumentReadView::Unreadable(message) => Some(RowError::InvalidId(message)),
            _ => None,
        }
    }
}

/// Row `at` is the first with an error.
pub open spec fn first_bad(keys: Seq<Vec<u8>>, reads: Seq<DocumentReadView>, key_type: KeyType, at: int) -> bool {
    &&& 0 <= at < keys.len()
    &&& row_error(keys[at]@, reads[at], key_type) is Some
    &&& forall|i: int| 0 <= i < at ==> row_error((#[trigger] keys[i])@, reads[i], key_type) is None
}

/// The positions, in order, of the first `n` documents that are there.
pub open spec fn present_at(reads: Seq<DocumentReadView>, n: int) -> Seq<usize>
    decreases n,
{
    if n <= 0 {
        seq![]
    } else if reads[n - 1] is Gone {
        present_at(reads, n - 1)
    } else {
        present_at(reads, n - 1).push((n - 1) as usize)
    }
}

/// `rows` are the rows at these positions.
pub open spec fn are_rows(rows: Seq<ResolvedRow>, keys: Seq<Vec<u8>>, at: Seq<usize>, key_type: KeyType) -> bool {
    &&& rows.len() == at.len()
    &&& forall|i: int|
        0 <= i < at.len() ==> (#[trigger] rows[i]).position == at[i] && rows[i].id.of_type(key_type)
            && rows[i].id.wf() && rows[i].id.bytes() == keys[at[i] as int]@
}

/// `r` is the page of these keys and reads: a row for each document that is there, in
/// order, or the error of the first row that has one.
pub open spec fn is_page(
    r: Result<Vec<ResolvedRow>, DocStoreError>,
    keys: Seq<Vec<u8>>,
    reads: Seq<DocumentReadView>,
    key_type: KeyType,
) -> bool {
    match r {
        Ok(rows) => {
            &&& forall|i: int| 0 <= i < keys.len() ==> row_error((#[trigger] keys[i])@, reads[i], key_type) is None
            &&& are_rows(rows@, keys, present_at(reads, keys.len() as int), key_type)
        },
        Err(e) => exists|at: int|
            #[trigger] first_bad(keys, reads, key_type, at) && e.tells(row_error(keys[at]@, reads[at], key_type)->0),
    }
}

/// Resolves the keys of a scan or an index query to rows, in order, given what became
/// of reading their documents.
pub fn resolve_rows(keys: &[Vec<u8>], reads: &[DocumentRead], key_type: KeyType) -> (r: Result<
    Vec<ResolvedRow>,
    DocStoreError,
>)
    requires
        keys@.len() == reads@.len(),
    ensures
        is_page(r, keys@, read_views(reads@), key_type),
{
    let ghost views = read_views(reads@);
    let mut out: Vec<ResolvedRow> = Vec::new();
    let mut i: usize = 0;
    while i < keys.len()
        invariant
            i <= keys@.len() == reads@.len(),
            views == read_views(reads@),
            forall|k: int| 0 <= k < i ==> row_error((#[trigger] keys@[k])@, views[k], key_type) is None,
            are_rows(out@, keys@, present_at(views, i as int), key_type),
        decreases keys@.len() - i,
    {
        let ghost before = present_at(views, i as int);
        match &reads[i] {
            DocumentRead::Gone => {},
            read => {
                let id: DocId = match DocId::from_bytes(keys[i].as_slice(), key_type) {
                    Ok(id) => id,
                    Err(e) => {
                        assert(first_bad(keys@, views, key_type, i as int));
                        return Err(e);
                    },
                };
                if let DocumentRead::Unreadable(message) = read {
                    assert(first_bad(keys@, views, key_type, i as int));
                    return Err(DocStoreError::InvalidId(message.clone()));
                }
                out.push(ResolvedRow { position: i, id });
            },
        }
        i = i + 1;
    }
    Ok(out)
}

/// Resolves the keys of a scan or an index query and their stored documents to rows,
/// in order. Keys whose document is gone are left out; the first other row whose key
/// is no key of this type, or whose document cannot be read, gives its error.
pub fn resolve_documents(keys: &[Vec<u8>], values: &[Option<Vec<u8>>], key_type: KeyType) -> (r: Result<
    Vec<ResolvedRow>,
    DocStoreError,
>)
    requires
        keys@.len() == values@.len(),
    ensures
        is_page(r, keys@, Seq::new(values@.len(), |i: int| read_of(values@[i])), key_type),
{
    let mut reads: Vec<DocumentRead> = Vec::new();
    let mut i: usize = 0;
    while i < values.len()
        invariant
            i <= values@.len(),
            reads@.len() == i,
            forall|k: int| 0 <= k < i ==> (#[trigger] reads@[k])@ == read_of(values@[k]),
        decreases values@.len() - i,
    {
        let read: DocumentRead = match &values[i] {
            None => DocumentRead::Gone,
            Some(bytes) => match parse_document(bytes.as_slice()) {
                Ok(_) => DocumentRead::Readable,
                Err(message) => DocumentRead::Unreadable(message),
            },
        };
        reads.push(read);
        i = i + 1;
    }
    proof {
        assert(read_views(reads@) =~= Seq::new(values@.len(), |i: int| read_of(values@[i])));
    }
    resolve_rows(keys, reads.as_slice(), key_type)
}

proof fn lemma_present(reads: Seq<DocumentReadView>, n: int)
    requires
        0 <= n <= reads.len(),
        n <= usize::MAX,
    ensures
        forall|k: int|
            0 <= k < present_at(reads, n).len() ==> (#[trigger] present_at(reads, n)[k]) < n && !(reads[present_at(
                reads,
                n,
            )[k] as int] is Gone),
        forall|k: int, l: int|
            0 <= k < l < present_at(reads, n).len() ==> #[trigger] present_at(reads, n)[k] < #[trigger] present_at(
                reads,
                n,
            )[l],
        forall|i: int| 0 <= i < n && !(reads[i] is Gone) ==> #[trigger] present_at(reads, n).contains(i as usize),
        present_at(reads, n).len() == reads.take(n).filter(|r: DocumentReadView| !(r is Gone)).len(),
    decreases n,
{
    let there = |r: DocumentReadView| !(r is Gone);
    reveal(Seq::filter);
    if n > 0 {
        lemma_present(reads, n - 1);
        let (before, all) = (present_at(reads, n - 1), present_at(reads, n));
        assert(reads.take(n).drop_last() =~= reads.take(n - 1));
        assert forall|i: int| 0 <= i < n && !(reads[i] is Gone) implies #[trigger] all.contains(i as usize) by {
            if i < n - 1 {
                assert(before.contains(i as usize));
                let k = choose|k: int| 0 <= k < before.len() && before[k] == i as usize;
                assert(all[k] == i as usize);
            } else {
                assert(all[all.len() - 1] == i as usize);
            }
        }
    }
}

/// A page without an error has a row for every key whose document is there, and for no
/// other, in the order of the keys: as many rows as documents, each with the identifier
/// that is stored under its key.
pub proof fn law_page_has_a_row_for_every_document(
    rows: Vec<ResolvedRow>,
    keys: Seq<Vec<u8>>,
    reads: Seq<DocumentReadView>,
    key_type: KeyType,
)
    requires
        keys.len() == reads.len() <= usize::MAX,
        is_page(Ok(rows), keys, reads, key_type),
    ensures
        forall|i: int|
            0 <= i < keys.len() ==> (!(#[trigger] reads[i] is Gone) <==> exists|j: int|
                0 <= j < rows@.len() && (#[trigger] rows@[j]).position == i),
        forall|i: int, j: int|
            0 <= i < j < rows@.len() ==> (#[trigger] rows@[i]).position < (#[trigger] rows@[j]).position,
        forall|j: int|
            0 <= j < rows@.len() ==> (#[trigger] rows@[j]).position < keys.len() && rows@[j].id.bytes()
                == keys[rows@[j].position as int]@ && rows@[j].id.of_type(key_type),
        rows@.len() == reads.filter(|r: DocumentReadView| !(r is Gone)).len(),
        (forall|i: int| 0 <= i < reads.len() ==> !(#[trigger] reads[i] is Gone)) ==> rows@.len() == keys.len(),
{
    let n = keys.len() as int;
    let at = present_at(reads, n);
    lemma_present(reads, n);
    assert(reads.take(n) =~= reads);
    assert forall|i: int| 0 <= i < keys.len() implies (!(#[trigger] reads[i] is Gone) <==> exists|j: int|
        0 <= j < rows@.len() && (#[trigger] rows@[j]).position == i) by {
        if !(reads[i] is Gone) {
            assert(at.contains(i as usize));
            let j = choose|j: int| 0 <= j < at.len() && at[j] == i as usize;
            assert(rows@[j].position == i);
        }
        if exists|j: int| 0 <= j < rows@.len() && (#[trigger] rows@[j]).position == i {
            let j = choose|j: int| 0 <= j < rows@.len() && (#[trigger] rows@[j]).position == i;
            assert(at[j] == i);
        }
    }
    assert forall|i: int, j: int| 0 <= i < j < rows@.len() implies (#[trigger] rows@[i]).position < (
    #[trigger] rows@[j]).position by {
        assert(at[i] < at[j]);
    }
    assert forall|j: int| 0 <= j < rows@.len() implies (#[trigger] rows@[j]).position < keys.len() && rows@[j].id.bytes()
        == keys[rows@[j].position as int]@ && rows@[j].id.of_type(key_type) by {
        assert(at[j] < n);
    }
    if forall|i: int| 0 <= i < reads.len() ==> !(#[trigger] reads[i] is Gone) {
        lemma_all_there(reads);
    }
}

proof fn lemma_all_there(reads: Seq<DocumentReadView>)
    requires
        forall|i: int| 0 <= i < reads.len() ==> !(#[trigger] reads[i] is Gone),
    ensures
        reads.filter(|r: DocumentReadView| !(r is Gone)).len() == reads.len(),
    decreases reads.len(),
{
    reveal(Seq::filter);
    if reads.len() > 0 {
        let front = reads.drop_last();
        assert forall|i: int| 0 <= i < front.len() implies !(#[trigger] front[i] is Gone) by {
            assert(front[i] == reads[i]);
        }
        assert(!(reads[reads.len() - 1] is Gone));
        lemma_all_there(front);
    }
}

/// A page fails exactly where the document of some key is there and the key is no key of
/// the type or the document cannot be read. The first such row decides; its key is
/// complained about before its document, whose error is the parser's message.
pub proof fn law_page_fails_at_its_first_bad_row(
    r: Result<Vec<ResolvedRow>, DocStoreError>,
    keys: Seq<Vec<u8>>,
    reads: Seq<DocumentReadView>,
    key_type: KeyType,
)
    requires
        keys.len() == reads.len(),
        is_page(r, keys, reads, key_type),
    ensures
        r is Err <==> exists|i: int|
            0 <= i < keys.len() && !(#[trigger] reads[i] is Gone) && (decode_error(keys[i]@, key_type) is Some || reads[i]
                is Unreadable),
        r matches Err(e) ==> exists|i: int|
            0 <= i < keys.len() && !(#[trigger] reads[i] is Gone) && (decode_error(keys[i]@, key_type) is Some || reads[i]
                is Unreadable) && (forall|j: int|
                0 <= j < i && !(#[trigger] reads[j] is Gone) ==> decode_error(keys[j]@, key_type) is None && reads[j]
                    is Readable) && if decode_error(keys[i]@, key_type) is Some {
                e.tells(decode_error(keys[i]@, key_type)->0)
            } else {
                e matches DocStoreError::InvalidId(m) && m@ == reads[i]->Unreadable_0
            },
{
    match r {
        Ok(rows) => {
            assert forall|i: int| 0 <= i < keys.len() && !(#[trigger] reads[i] is Gone) implies decode_error(
                keys[i]@,
                key_type,
            ) is None && !(reads[i] is Unreadable) by {
                assert(row_error(keys[i]@, reads[i], key_type) is None);
            }
        },
        Err(e) => {
            let at = choose|at: int|
                #[trigger] first_bad(keys, reads, key_type, at) && e.tells(
                    row_error(keys[at]@, reads[at], key_type)->0,
                );
            assert(!(reads[at] is Gone));
            assert forall|j: int| 0 <= j < at && !(#[trigger] reads[j] is Gone) implies decode_error(keys[j]@, key_type)
                is None && reads[j] is Readable by {
                assert(row_error(keys[j]@, reads[j], key_type) is None);
            }
        },
    }
}

/// A document is there exactly where there are bytes, and it is readable exactly where
/// they are JSON.
pub proof fn law_reads(value: Option<Vec<u8>>)
    ensures
        read_of(value) is Gone <==> value is None,
        value matches Some(bytes) ==> (read_of(value) is Readable <==> parsed_json(bytes@) is Ok) && (parsed_json(
            bytes@,
        ) matches Err(m) ==> read_of(value) == DocumentReadView::Unreadable(m)),
{
}

/// A degraded field goes by the name of the first registered field with its number, and
/// by the number in decimal where none has it.
pub proof fn law_degraded_names(fields: Seq<FieldMeta>, id: u32)
    ensures
        forall|i: int|
            0 <= i < fields.len() && (#[trigger] fields[i]).field_id == id && (forall|j: int|
                0 <= j < i ==> (#[trigger] fields[j]).field_id != id) ==> field_name_of(fields, id)
                == fields[i].field_name@,
        (forall|i: int| 0 <= i < fields.len() ==> (#[trigger] fields[i]).field_id != id) ==> field_name_of(fields, id)
            == decimal_digits(id as nat),
    decreases fields.len(),
{
    if fields.len() > 0 && fields[0].field_id != id {
        let rest = fields.subrange(1, fields.len() as int);
        law_degraded_names(rest, id);
        assert forall|i: int|
            0 <= i < fields.len() && (#[trigger] fields[i]).field_id == id && (forall|j: int|
                0 <= j < i ==> (#[trigger] fields[j]).field_id != id) implies field_name_of(fields, id)
            == fields[i].field_name@ by {
            assert(rest[i - 1] == fields[i]);
            assert forall|j: int| 0 <= j < i - 1 implies (#[trigger] rest[j]).field_id != id by {
                assert(rest[j] == fields[j + 1]);
            }
        }
        if forall|i: int| 0 <= i < fields.len() ==> (#[trigger] fields[i]).field_id != id {
            assert forall|i: int| 0 <= i < rest.len() implies (#[trigger] rest[i]).field_id != id by {
                assert(rest[i] == fields[i + 1]);
            }
        }
    }
}

/// The models of reads keep everything of them, all of a list and in its order.
pub proof fn law_read_models(reads: Seq<DocumentRead>, i: int)
    ensures
        read_views(reads).len() == reads.len(),
        0 <= i < reads.len() ==> (reads[i] is Gone <==> read_views(reads)[i] is Gone),
        0 <= i < reads.len() ==> (reads[i] is Readable <==> read_views(reads)[i] is Readable),
        0 <= i < reads.len() ==> (reads[i] matches DocumentRead::Unreadable(m) ==> read_views(reads)[i]
            == DocumentReadView::Unreadable(m@)),
{
}

/// A field is registered where one of the fields has its name; the first of them counts.
pub proof fn law_registered_fields(fields: Seq<FieldMeta>, name: Seq<char>, at: int)
    ensures
        is_registered(fields, name) <==> exists|i: int| 0 <= i < fields.len() && (#[trigger] fields[i]).field_name@ == name,
        is_first_named(fields, name, at) <==> 0 <= at < fields.len() && fields[at].field_name@ == name && forall|i: int|
            0 <= i < at ==> (#[trigger] fields[i]).field_name@ != name,
{
}

/// A scan page or a query page: where it comes without an error, every key whose value is
/// there has one row, with the identifier stored under the key, in the order of the keys,
/// and all those values are JSON; with no value missing there are as many rows as keys.
/// It fails exactly where some key with a value is no key of the type, or has a value that
/// is no JSON.
pub proof fn law_resolve_documents(
    keys: &[Vec<u8>],
    values: &[Option<Vec<u8>>],
    key_type: KeyType,
    r: Result<Vec<ResolvedRow>, DocStoreError>,
)
    requires
        keys@.len() == values@.len(),
        call_ensures(resolve_documents, (keys, values, key_type), r),
    ensures
        r is Err <==> exists|i: int|
            0 <= i < keys@.len() && (#[trigger] values@[i]) is Some && (decode_error(keys@[i]@, key_type) is Some
                || parsed_json(values@[i]->0@) is Err),
        r matches Ok(rows) ==> {
            &&& forall|i: int|
                0 <= i < keys@.len() ==> ((#[trigger] values@[i]) is Some <==> exists|j: int|
                    0 <= j < rows@.len() && (#[trigger] rows@[j]).position == i)
            &&& forall|i: int, j: int|
                0 <= i < j < rows@.len() ==> (#[trigger] rows@[i]).position < (#[trigger] rows@[j]).position
            &&& forall|j: int|
                0 <= j < rows@.len() ==> (#[trigger] rows@[j]).position < keys@.len() && rows@[j].id.bytes()
                    == keys@[rows@[j].position as int]@ && rows@[j].id.of_type(key_type)
            &&& (forall|i: int| 0 <= i < values@.len() ==> (#[trigger] values@[i]) is Some) ==> rows@.len() == keys@.len()
        },
{
    let reads = Seq::new(values@.len(), |i: int| read_of(values@[i]));
    assert(keys.len() <= usize::MAX);
    assert forall|i: int| 0 <= i < values@.len() implies (reads[i] is Gone <==> (#[trigger] values@[i]) is None) && (
    values@[i] is Some ==> (reads[i] is Unreadable <==> parsed_json(values@[i]->0@) is Err)) by {
        law_reads(values@[i]);
    }
    law_page_fails_at_its_first_bad_row(r, keys@, reads, key_type);
    if r is Err {
        let i = choose|i: int|
            0 <= i < keys@.len() && !(#[trigger] reads[i] is Gone) && (decode_error(keys@[i]@, key_type) is Some || reads[i]
                is Unreadable);
        assert(values@[i] is Some);
    }
    if exists|i: int|
        0 <= i < keys@.len() && (#[trigger] values@[i]) is Some && (decode_error(keys@[i]@, key_type) is Some
            || parsed_json(values@[i]->0@) is Err) {
        let i = choose|i: int|
            0 <= i < keys@.len() && (#[trigger] values@[i]) is Some && (decode_error(keys@[i]@, key_type) is Some
                || parsed_json(values@[i]->0@) is Err);
        assert(!(reads[i] is Gone));
    }
    if let Ok(rows) = r {
        law_page_has_a_row_for_every_document(rows, keys@, reads, key_type);
        assert forall|i: int| 0 <= i < keys@.len() implies ((#[trigger] values@[i]) is Some <==> exists|j: int|
            0 <= j < rows@.len() && (#[trigger] rows@[j]).position == i) by {
            assert(!(reads[i] is Gone) <==> values@[i] is Some);
        }
        if forall|i: int| 0 <= i < values@.len() ==> (#[trigger] values@[i]) is Some {
            assert forall|i: int| 0 <= i < reads.len() implies !(#[trigger] reads[i] is Gone) by {
                assert(values@[i] is Some);
            }
        }
    }
}

/// The rows of a page, given the reads: the same of a function that takes them.
pub proof fn law_resolve_rows(
    keys: &[Vec<u8>],
    reads: &[DocumentRead],
    key_type: KeyType,
    r: Result<Vec<ResolvedRow>, DocStoreError>,
)
    requires
        keys@.len() == reads@.len(),
        call_ensures(resolve_rows, (keys, reads, key_type), r),
    ensures
        r is Err <==> exists|i: int|
            0 <= i < keys@.len() && !(#[trigger] reads@[i] is Gone) && (decode_error(keys@[i]@, key_type) is Some
                || reads@[i] is Unreadable),
        r matches Ok(rows) ==> {
            &&& forall|i: int|
                0 <= i < keys@.len() ==> (!(#[trigger] reads@[i] is Gone) <==> exists|j: int|
                    0 <= j < rows@.len() && (#[trigger] rows@[j]).position == i)
            &&& forall|i: int, j: int|
                0 <= i < j < rows@.len() ==> (#[trigger] rows@[i]).position < (#[trigger] rows@[j]).position
            &&& forall|j: int|
                0 <= j < rows@.len() ==> (#[trigger] rows@[j]).position < keys@.len() && rows@[j].id.bytes()
                    == keys@[rows@[j].position as int]@ && rows@[j].id.of_type(key_type)
            &&& rows@.len() == reads@.filter(|d: DocumentRead| !(d is Gone)).len()
            &&& (forall|i: int| 0 <= i < reads@.len() ==> !(#[trigger] reads@[i] is Gone)) ==> rows@.len() == keys@.len()
        },
{
    let views = read_views(reads@);
    assert(keys.len() <= usize::MAX);
    assert forall|i: int| 0 <= i < reads@.len() implies (views[i] is Gone <==> #[trigger] reads@[i] is Gone) && (views[i]
        is Unreadable <==> reads@[i] is Unreadable) by {
        law_read_models(reads@, i);
    }
    law_page_fails_at_its_first_bad_row(r, keys@, views, key_type);
    if r is Err {
        let i = choose|i: int|
            0 <= i < keys@.len() && !(#[trigger] views[i] is Gone) && (decode_error(keys@[i]@, key_type) is Some || views[i]
                is Unreadable);
        assert(!(reads@[i] is Gone));
    }
    if exists|i: int|
        0 <= i < keys@.len() && !(#[trigger] reads@[i] is Gone) && (decode_error(keys@[i]@, key_type) is Some || reads@[i]
            is Unreadable) {
        let i = choose|i: int|
            0 <= i < keys@.len() && !(#[trigger] reads@[i] is Gone) && (decode_error(keys@[i]@, key_type) is Some
                || reads@[i] is Unreadable);
        assert(!(views[i] is Gone));
    }
    if let Ok(rows) = r {
        law_page_has_a_row_for_every_document(rows, keys@, views, key_type);
        lemma_documents_there(reads@);
        assert forall|i: int| 0 <= i < keys@.len() implies (!(#[trigger] reads@[i] is Gone) <==> exists|j: int|
            0 <= j < rows@.len() && (#[trigger] rows@[j]).position == i) by {
            assert(!(views[i] is Gone) <==> !(reads@[i] is Gone));
        }
        if forall|i: int| 0 <= i < reads@.len() ==> !(#[trigger] reads@[i] is Gone) {
            assert forall|i: int| 0 <= i < views.len() implies !(#[trigger] views[i] is Gone) by {
                assert(!(reads@[i] is Gone));
            }
        }
    }
}

/// A page that is asked for with a cursor starts there, and the first page at the start of
/// the range.
pub proof fn law_scan_start(cursor: Vec<u8>, start: Vec<u8>, with: Vec<u8>, without: Vec<u8>)
    requires
        call_ensures(scan_start, (Some(cursor), start), with),
        call_ensures(scan_start, (None::<Vec<u8>>, start), without),
    ensures
        with@ == cursor@,
        without@ == start@,
{
}

/// Every degraded field has a name in the answer, in its place.
pub proof fn law_degraded_field_names(fields: &[FieldMeta], degraded: &[u32], names: Vec<String>, i: int, k: int)
    requires
        call_ensures(degraded_field_names, (fields, degraded), names),
        0 <= i < degraded@.len(),
    ensures
        names@.len() == degraded@.len(),
        0 <= k < fields@.len() && fields@[k].field_id == degraded@[i] && (forall|j: int|
            0 <= j < k ==> (#[trigger] fields@[j]).field_id != degraded@[i]) ==> names@[i]@ == fields@[k].field_name@,
        (forall|j: int| 0 <= j < fields@.len() ==> (#[trigger] fields@[j]).field_id != degraded@[i]) ==> names@[i]@
            == decimal_digits(degraded@[i] as nat),
{
    law_degraded_names(fields@, degraded@[i]);
    assert(names@[i]@ == field_name_of(fields@, degraded@[i]));
}

/// A search of a document store is admitted exactly where search is configured and the
/// namespace has it switched on; one of a key-value store where the asked-for ranking can
/// be worked with as well, and then with the configured parameters but for those asked for.
pub proof fn law_admitted_searches(
    configured: bool,
    doc: &DocStoreSchema,
    r: Result<(), DocStoreError>,
    params: RankingParams,
    ask: &RankingOverride,
    kv: &KvStoreSchema,
    s: Result<RankingParams, DocStoreError>,
    t: Result<RankingParams, DocStoreError>,
)
    requires
        call_ensures(admit_search, (configured, doc), r),
        call_ensures(admit_kv_search, (&Some(params), ask, kv), s),
        call_ensures(admit_kv_search, (&None::<RankingParams>, ask, kv), t),
    ensures
        r is Ok <==> configured && doc.semantic_search_enabled,
        r is Err ==> r->Err_0 is EmbeddingFailed,
        t is Err,
        s matches Ok(p) ==> {
            &&& kv.semantic_search_enabled
            &&& ask.mode is None ==> p.mode == params.mode
            &&& ask.rrf_k is None ==> p.rrf_k == params.rrf_k
            &&& ask.sparse_weight is None ==> p.sparse_weight == params.sparse_weight
            &&& ask.mode matches Some(m) ==> p.mode == m
            &&& ask.rrf_k matches Some(k) ==> p.rrf_k == k
            &&& ask.sparse_weight matches Some(w) ==> p.sparse_weight == w
            &&& 0 < p.rrf_k < 0x7f80_0000
            &&& p.sparse_weight <= 0x3f80_0000 || p.sparse_weight == 0x8000_0000
        },
        s is Err && kv.semantic_search_enabled && kv.value_type is Str ==> s->Err_0 is InvalidRanking,
{
    law_absent_fields_keep_their_value(params, *ask);
    law_accepted_parameters(params.overridden(*ask));
}

/// As many documents are there as their models say.
proof fn lemma_documents_there(reads: Seq<DocumentRead>)
    ensures
        reads.filter(|d: DocumentRead| !(d is Gone)).len() == read_views(reads).filter(
            |r: DocumentReadView| !(r is Gone),
        ).len(),
    decreases reads.len(),
{
    reveal(Seq::filter);
    if reads.len() > 0 {
        lemma_documents_there(reads.drop_last());
        assert(read_views(reads).drop_last() =~= read_views(reads.drop_last()));
        law_read_models(reads, reads.len() - 1);
    }
}

/// The namespace and field of a query: the first registered field of that name, where the
/// namespace was created and the field is registered, and an error otherwise.
pub proof fn law_indexed_field(
    schema: &DocStoreSchema,
    fields: &[FieldMeta],
    name: &String,
    r: Result<(u32, u32), DocStoreError>,
    at: int,
)
    requires
        call_ensures(indexed_field, (schema, fields, name), r),
    ensures
        schema.ns_id is None ==> r is Err && r->Err_0 is MissingNsId,
        (forall|i: int| 0 <= i < fields@.len() ==> (#[trigger] fields@[i]).field_name@ != name@) ==> r is Err,
        schema.ns_id is Some && 0 <= at < fields@.len() && fields@[at].field_name@ == name@ && (forall|i: int|
            0 <= i < at ==> (#[trigger] fields@[i]).field_name@ != name@) ==> r == Ok::<(u32, u32), DocStoreError>(
            (schema.ns_id->0, fields@[at].field_id),
        ),
{
    if schema.ns_id is Some && 0 <= at < fields@.len() && fields@[at].field_name@ == name@ && (forall|i: int|
        0 <= i < at ==> (#[trigger] fields@[i]).field_name@ != name@) {
        assert(is_registered(fields@, name@));
        let first = choose|a: int|
            #[trigger] is_first_named(fields@, name@, a) && r->Ok_0.1 == fields@[a].field_id;
        assert(is_first_named(fields@, name@, first));
        assert(first == at) by {
            if first < at {
                assert(fields@[first].field_name@ != name@);
            }
            if at < first {
                assert(fields@[at].field_name@ != name@);
            }
        }
    }
}

} // verus!
