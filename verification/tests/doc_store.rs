//! Schemas, documents, builds and the upkeep of the vector index.

use minnal_db::doc_store::activation::{activation_plan, ActivationStep};
use minnal_db::doc_store::amendment::SchemaAmendment;
use minnal_db::doc_store::error::{DocStoreError, SchemaError};
use minnal_db::doc_store::index_build::{pending_builds, BuildPhase, BuildStatus, Rebuild, REBUILD_PAGE_SIZE};
use minnal_db::doc_store::json::{
    build_embedding_text, extract_field, json_extractor, named_store_type, peek_store_type, DocumentField, FieldValue, StoreType,
};
use minnal_db::doc_store::reconcile::{
    dense_vectors_ns, namespace_dir, nothing_to_reconcile, pending_for, plan_reconcile, reconcile_doc_namespace,
    reconcile_kv_namespace, reconcile_outcome, sparse_vectors_meta_ns, sparse_vectors_ns, store_namespaces, ReconcileOutcome,
};
use minnal_db::doc_store::reindex::{
    document_text, exhausted_entries, fields_text, finish_index_all, kv_text, namespace_entries, plan_embeds, plan_index_all,
    plan_kv_index_all, reindex_outcome, started_record, ValueText,
};
use minnal_db::doc_store::reindex_queue::{reindex_ops, QueueOp};
use minnal_db::doc_store::schema::{
    build_in_progress, index_type_to_attr_type, resume_point, to_ivt, AttributeDef, AttributeType, DocStoreSchema, IndexSpec, IndexType,
    IndexValue, IndexValueType, KeyType, KvKeyType, KvStoreSchema, KvValueType, MAX_INDICES,
};
use minnal_db::doc_store::types::{DiskBuildProgress, ReindexStats, VectorReindexOutcome};
use minnal_db::doc_store::vec_index_worker::{QueueEntry, QueueEntryKind};
use minnal_db::doc_store::vector_upkeep::{delete_plan, finish_plan, needs_enqueue, put_plan, StoreOp};

fn text(s: &str) -> String {
    s.to_string()
}

fn spec(field: &str, index_type: IndexType) -> IndexSpec {
    IndexSpec { field: text(field), index_type }
}

fn make_schema(namespace: &str, indices: Vec<IndexSpec>) -> DocStoreSchema {
    DocStoreSchema {
        namespace: text(namespace),
        ns_id: Some(3),
        key_type: KeyType::U64,
        attributes: vec![],
        indices,
        semantic_search_enabled: false,
        embedding_fields: vec![],
    }
}

fn make_kv_schema(namespace: &str) -> KvStoreSchema {
    KvStoreSchema {
        namespace: text(namespace),
        ns_id: Some(4),
        key_type: KvKeyType::Str,
        value_type: KvValueType::Str,
        semantic_search_enabled: true,
    }
}

fn progress(status: &str, last_key_hex: Option<&str>) -> Option<DiskBuildProgress> {
    Some(DiskBuildProgress {
        status: text(status),
        total: 10,
        indexed: 4,
        last_key_hex: last_key_hex.map(text),
        error: None,
    })
}

fn entry(namespace: &str, doc: u8, retry_count: u32) -> QueueEntry {
    QueueEntry {
        namespace: text(namespace),
        doc_id_bytes: vec![doc],
        kind: QueueEntryKind::Embed,
        text: text("t"),
        retry_count,
    }
}

// ── Schemas ─────────────────────────────────────────────────────────────

fn add(name: &str, attr_type: AttributeType) -> SchemaAmendment {
    SchemaAmendment::AddAttribute { name: text(name), attr_type, description: None }
}

fn remove(name: &str) -> SchemaAmendment {
    SchemaAmendment::RemoveAttribute { name: text(name) }
}

fn update(name: &str, attr_type: AttributeType, description: &str) -> SchemaAmendment {
    SchemaAmendment::UpdateAttribute { name: text(name), attr_type, description: Some(text(description)) }
}

#[test]
fn test_amend_add_and_remove_attribute() {
    let mut schema = make_schema("ns", vec![]);
    schema.amend(add("email", AttributeType::Str)).unwrap();
    assert_eq!(schema.attributes.len(), 1);
    assert_eq!(schema.attributes[0].name, "email");
    schema.amend(remove("email")).unwrap();
    assert!(schema.attributes.is_empty());
}

#[test]
fn test_amend_cannot_remove_indexed_attribute() {
    let mut schema = make_schema("ns", vec![spec("status", IndexType::Str)]);
    let err = schema.amend(remove("status")).unwrap_err();
    assert!(matches!(err, DocStoreError::AttributeIsIndexed { .. }), "expected AttributeIsIndexed, got {err:?}");
    assert!(matches!(
        schema.amend(update("status", AttributeType::Int, "d")),
        Err(DocStoreError::AttributeIsIndexed { namespace, field }) if namespace == "ns" && field == "status"
    ));
    assert_eq!(schema.indices.len(), 1);
}

#[test]
fn amendments_change_one_attribute() {
    let mut schema = make_schema("ns", vec![spec("status", IndexType::Str)]);
    for name in ["a", "b", "c"] {
        schema.amend(add(name, AttributeType::Str)).unwrap();
    }
    schema.amend(update("b", AttributeType::Int, "a number")).unwrap();
    let names: Vec<&str> = schema.attributes.iter().map(|a| a.name.as_str()).collect();
    assert_eq!(names, ["a", "b", "c"]);
    assert_eq!(schema.attributes[1].attr_type, AttributeType::Int);
    assert_eq!(schema.attributes[1].description.as_deref(), Some("a number"));
    assert_eq!(schema.attributes[0].attr_type, AttributeType::Str);
    for name in ["b", "status"] {
        assert!(matches!(
            schema.amend(add(name, AttributeType::Bool)),
            Err(DocStoreError::Schema(SchemaError::DuplicateFieldName { name: n })) if n == name
        ));
    }
    schema.amend(update("missing", AttributeType::Int, "d")).unwrap();
    schema.amend(remove("missing")).unwrap();
    assert_eq!(schema.attributes.len(), 3);
    assert!(schema.validate().is_ok());
}

#[test]
fn test_import_schema_invalid_namespace_rejected() {
    for bad_ns in &["", "has space", "has/slash", "has.dot"] {
        let mut schema = make_schema("placeholder", vec![]);
        schema.namespace = bad_ns.to_string();
        let err = schema.validate().unwrap_err();
        assert!(matches!(err, SchemaError::InvalidNamespace), "expected InvalidNamespace for '{bad_ns}', got {err:?}");
        let err = make_kv_schema(bad_ns).validate().unwrap_err();
        assert!(matches!(err, SchemaError::InvalidNamespace));
    }
}

#[test]
fn test_import_schema_too_many_indices_rejected() {
    let indices = (0..=MAX_INDICES)
        .map(|i| IndexSpec { field: format!("f{i}"), index_type: IndexType::Int })
        .collect();
    let err = make_schema("too_many", indices).validate().unwrap_err();
    assert!(matches!(err, SchemaError::TooManyIndices { count, max } if count == MAX_INDICES + 1 && max == MAX_INDICES));
}

#[test]
fn test_import_schema_duplicate_index_field_rejected() {
    let indices = vec![spec("status", IndexType::Str), spec("status", IndexType::Str)];
    let err = make_schema("dup_field", indices).validate().unwrap_err();
    assert!(matches!(err, SchemaError::DuplicateFieldName { name } if name == "status"));
}

#[test]
fn test_create_with_field_in_both_attributes_and_indices_is_rejected() {
    let mut schema = make_schema("stale_export", vec![spec("agency", IndexType::Str)]);
    schema.attributes.push(AttributeDef { name: text("agency"), attr_type: AttributeType::Str, description: None });
    let err = schema.validate().unwrap_err();
    assert!(matches!(err, SchemaError::DuplicateFieldName { name } if name == "agency"));
}

#[test]
fn test_add_index_removes_field_from_attributes() {
    let mut schema = make_schema("agency_ns", vec![]);
    schema.attributes.push(AttributeDef { name: text("agency"), attr_type: AttributeType::Str, description: None });
    assert!(schema.validate().is_ok());
    schema.add_index(spec("agency", IndexType::Str), &None).unwrap();
    assert!(schema.attributes.iter().all(|a| a.name != "agency"), "agency must not remain in attributes after indexing");
    assert!(schema.indices.iter().any(|i| i.field == "agency"), "agency must be in indices");
    assert!(schema.validate().is_ok());
}

#[test]
fn schemas_with_plain_names_and_single_fields_are_accepted() {
    let schema = make_schema("Docs-2_b", vec![spec("a", IndexType::Int), spec("b", IndexType::Bool)]);
    assert!(schema.validate().is_ok());
    assert!(make_kv_schema("sem_kv").validate().is_ok());
    let mut twice = make_schema("ns", vec![]);
    for _ in 0..2 {
        twice.attributes.push(AttributeDef { name: text("x"), attr_type: AttributeType::Int, description: None });
    }
    assert!(matches!(twice.validate(), Err(SchemaError::DuplicateFieldName { name }) if name == "x"));
}

#[test]
fn adding_an_index_takes_the_field_from_the_attributes() {
    let mut schema = make_schema("ns", vec![]);
    schema.attributes = vec![
        AttributeDef { name: text("email"), attr_type: AttributeType::Str, description: None },
        AttributeDef { name: text("age"), attr_type: AttributeType::Int, description: None },
    ];
    assert_eq!(schema.add_index(spec("email", IndexType::Str), &None).unwrap(), 3);
    assert_eq!(schema.attributes.len(), 1);
    assert_eq!(schema.attributes[0].name, "age");
    assert_eq!(schema.indices.len(), 1);
    assert_eq!(schema.indices[0].field, "email");
}

#[test]
fn refused_indices() {
    let mut schema = make_schema("ns", vec![spec("status", IndexType::Str)]);
    assert!(matches!(
        schema.add_index(spec("status", IndexType::Int), &None),
        Err(DocStoreError::IndexAlreadyExists { namespace, field }) if namespace == "ns" && field == "status"
    ));
    assert!(matches!(
        schema.add_index(spec("age", IndexType::Int), &progress("in_progress", None)),
        Err(DocStoreError::IndexBuildInProgress { namespace, field }) if namespace == "ns" && field == "age"
    ));
    assert!(schema.add_index(spec("age", IndexType::Int), &progress("complete", None)).is_ok());
    for i in 2..MAX_INDICES {
        schema.add_index(spec(&format!("f{i}"), IndexType::Bool), &None).unwrap();
    }
    assert!(matches!(
        schema.add_index(spec("one more", IndexType::Bool), &None),
        Err(DocStoreError::Schema(SchemaError::TooManyIndices { count, max })) if count == MAX_INDICES + 1 && max == MAX_INDICES
    ));
    schema.ns_id = None;
    assert!(matches!(
        schema.add_index(spec("x", IndexType::Bool), &None),
        Err(DocStoreError::MissingNsId { namespace }) if namespace == "ns"
    ));
    assert_eq!(schema.indices.len(), MAX_INDICES);
}

#[test]
fn a_dropped_index_becomes_an_attribute_and_comes_back() {
    let mut schema = make_schema("ns", vec![spec("status", IndexType::Str), spec("age", IndexType::Int)]);
    assert_eq!(schema.drop_index(&text("status")).unwrap(), 3);
    assert_eq!(schema.indices.len(), 1);
    assert_eq!(schema.attributes.len(), 1);
    assert_eq!(schema.attributes[0].name, "status");
    assert_eq!(schema.attributes[0].attr_type, AttributeType::Str);
    assert_eq!(
        schema.attributes[0].description.as_deref(),
        Some("previously indexed; field data is still present in stored documents")
    );
    assert!(matches!(
        schema.drop_index(&text("status")),
        Err(DocStoreError::IndexNotFound { namespace, field }) if namespace == "ns" && field == "status"
    ));
    schema.add_index(spec("status", IndexType::Str), &None).unwrap();
    assert!(schema.attributes.is_empty());
    assert_eq!(schema.indices[1].field, "status");
    schema.ns_id = None;
    assert!(matches!(schema.drop_index(&text("age")), Err(DocStoreError::MissingNsId { .. })));
}

#[test]
fn dropping_all_indices_returns_them() {
    let mut schema = make_schema("ns", vec![spec("a", IndexType::Bool), spec("b", IndexType::Int)]);
    let dropped = schema.drop_all_attribute_indices().unwrap();
    let fields: Vec<&str> = dropped.iter().map(|s| s.field.as_str()).collect();
    assert_eq!(fields, ["a", "b"]);
    assert_eq!(dropped[1].index_type, IndexType::Int);
    assert!(schema.indices.is_empty());
    let names: Vec<&str> = schema.attributes.iter().map(|a| a.name.as_str()).collect();
    assert_eq!(names, ["a", "b"]);
    assert!(schema.drop_all_attribute_indices().unwrap().is_empty());
    let mut unnamed = make_schema("ns", vec![spec("a", IndexType::Bool)]);
    unnamed.ns_id = None;
    assert!(matches!(unnamed.drop_all_attribute_indices(), Err(DocStoreError::MissingNsId { .. })));
}

#[test]
fn removing_the_last_embedding_field_switches_semantic_search_off() {
    let mut schema = make_schema("ns", vec![spec("status", IndexType::Str)]);
    schema.attributes = vec![
        AttributeDef { name: text("title"), attr_type: AttributeType::Str, description: None },
        AttributeDef { name: text("body"), attr_type: AttributeType::Str, description: None },
    ];
    schema.semantic_search_enabled = true;
    schema.embedding_fields = vec![text("title"), text("body")];
    assert!(schema.is_semantic_search_enabled());
    assert!(!schema.remove_attribute(&text("title")).unwrap());
    assert!(schema.is_semantic_search_enabled());
    assert_eq!(schema.embedding_fields, ["body"]);
    assert!(matches!(
        schema.remove_attribute(&text("status")),
        Err(DocStoreError::AttributeIsIndexed { namespace, field }) if namespace == "ns" && field == "status"
    ));
    assert!(schema.remove_attribute(&text("body")).unwrap());
    assert!(!schema.semantic_search_enabled);
    assert!(schema.attributes.is_empty() && schema.embedding_fields.is_empty());
}

#[test]
fn disabling_semantic_search() {
    let mut schema = make_schema("ns", vec![]);
    assert!(matches!(
        schema.disable_semantic_search(),
        Err(DocStoreError::SemanticSearchNotEnabled { namespace }) if namespace == "ns"
    ));
    schema.semantic_search_enabled = true;
    assert!(!schema.is_semantic_search_enabled(), "there is no field to embed");
    schema.embedding_fields = vec![text("title")];
    schema.disable_semantic_search().unwrap();
    assert!(!schema.semantic_search_enabled && schema.embedding_fields.is_empty());
}

#[test]
fn key_value_stores_embed_texts_only() {
    let mut kv = make_kv_schema("kv");
    assert!(kv.is_semantic_search_enabled());
    kv.value_type = KvValueType::Int;
    assert!(!kv.is_semantic_search_enabled());
}

#[test]
fn types_of_indices() {
    assert_eq!(index_type_to_attr_type(IndexType::Int), AttributeType::Int);
    assert_eq!(index_type_to_attr_type(IndexType::Bool), AttributeType::Bool);
    assert_eq!(to_ivt(IndexType::Str), IndexValueType::Str);
    assert_eq!(to_ivt(IndexType::Bool), IndexValueType::Bool);
}

// ── Builds ──────────────────────────────────────────────────────────────

#[test]
fn interrupted_builds_resume_where_they_stopped() {
    assert!(build_in_progress(&progress("in_progress", None)));
    assert!(!build_in_progress(&progress("failed", None)));
    assert!(!build_in_progress(&None));
    assert_eq!(resume_point(&progress("in_progress", Some("0a0b"))), Some(vec![10, 11]));
    assert_eq!(resume_point(&progress("in_progress", None)), None);
    assert_eq!(resume_point(&progress("in_progress", Some("zz"))), None);
    assert_eq!(resume_point(&progress("complete", Some("0a0b"))), None);
}

#[test]
fn a_resumed_build_counts_everything_and_writes_the_rest() {
    let keys: Vec<Vec<u8>> = (1u8..=5).map(|i| vec![i]).collect();
    let mut b = Rebuild::begin(Some(vec![2]));
    b.count_page(&keys[..3], Some(vec![4]));
    assert_eq!((b.phase, b.total, b.indexed), (BuildPhase::Counting, 3, 2));
    assert_eq!(b.cursor, Some(vec![4]));
    b.count_page(&keys[3..], None);
    assert_eq!((b.phase, b.total, b.indexed), (BuildPhase::Writing, 5, 2));
    assert_eq!(b.cursor, Some(vec![2, 0]), "behind the last processed key");
    let record = b.record(BuildStatus::Running, None);
    assert_eq!((record.status.as_str(), record.total, record.indexed), ("in_progress", 5, 2));
    assert_eq!(resume_point(&Some(record)), Some(vec![2]), "nothing was written yet");
    for key in &keys[2..] {
        assert!(!b.wrote(key));
        assert_eq!(resume_point(&Some(b.record(BuildStatus::Running, None))).as_ref(), Some(key));
    }
    b.finish_page(3, None);
    assert_eq!((b.phase, b.indexed), (BuildPhase::Complete, 5));
    let record = b.record(BuildStatus::Complete, None);
    assert_eq!((record.status.as_str(), record.last_key_hex.as_deref(), record.error), ("complete", Some("05"), None));
    let record = b.record(BuildStatus::Failed, Some(text("disk full")));
    assert_eq!((record.status.as_str(), record.error.as_deref()), ("failed", Some("disk full")));
    assert_eq!(resume_point(&Some(record)), None, "a failed build is not taken up");
}

#[test]
fn a_fresh_build_starts_at_the_first_key_and_pauses() {
    let mut b = Rebuild::begin(None);
    b.count_page(&[], None);
    assert_eq!(b.cursor, None);
    b.indexed = 998;
    assert!(!b.wrote(b"a"));
    assert!(b.wrote(b"b"), "a pause after a thousand documents");
    b.finish_page(REBUILD_PAGE_SIZE, Some(vec![7]));
    assert_eq!((b.phase, b.cursor.clone()), (BuildPhase::Writing, Some(vec![7])));
    b.finish_page(0, Some(vec![9]));
    assert_eq!(b.phase, BuildPhase::Complete);
}

#[test]
fn pending_builds_of_all_schemas() {
    let mut created = make_schema("a", vec![spec("x", IndexType::Str), spec("y", IndexType::Str), spec("z", IndexType::Str)]);
    created.ns_id = Some(1);
    let mut uncreated = make_schema("b", vec![spec("x", IndexType::Str)]);
    uncreated.ns_id = None;
    let records = vec![
        vec![progress("in_progress", Some("01")), progress("complete", Some("02")), progress("in_progress", None)],
        vec![progress("in_progress", None)],
    ];
    let pending = pending_builds(&[created, uncreated], &records);
    let at: Vec<(usize, usize)> = pending.iter().map(|p| (p.schema, p.index)).collect();
    assert_eq!(at, [(0, 0), (0, 2)]);
    assert_eq!(pending[0].resume_after, Some(vec![1]));
    assert_eq!((pending[1].resume_after.clone(), pending[1].total, pending[1].indexed), (None, 10, 4));
}

// ── Documents ───────────────────────────────────────────────────────────

const DOC: &[u8] = br#"{"title":"A storm","year":1999,"big":1e3,"huge":18446744073709551615,"open":true,"tags":["x"],"none":null}"#;

#[test]
fn index_values_of_stored_documents() {
    let int = |name: &str| json_extractor(DOC, &text(name), IndexType::Int);
    assert!(matches!(int("year"), Some(IndexValue::Int(1999))));
    assert!(int("big").is_none(), "a float is no integer");
    assert!(int("huge").is_none(), "beyond 64 bits with a sign");
    assert!(int("title").is_none());
    assert!(matches!(json_extractor(DOC, &text("open"), IndexType::Bool), Some(IndexValue::Bool(true))));
    assert!(matches!(json_extractor(DOC, &text("title"), IndexType::Str), Some(IndexValue::Str(s)) if s == "A storm"));
    assert!(json_extractor(DOC, &text("tags"), IndexType::Str).is_none());
    assert!(json_extractor(DOC, &text("absent"), IndexType::Str).is_none());
    assert!(json_extractor(b"{broken", &text("title"), IndexType::Str).is_none());
    assert!(json_extractor(b"[1]", &text("title"), IndexType::Str).is_none());
    // The last of two equal names counts.
    assert!(matches!(json_extractor(br#"{"n":1,"n":2}"#, &text("n"), IndexType::Int), Some(IndexValue::Int(2))));
}

fn fields() -> Vec<DocumentField> {
    vec![
        DocumentField { name: text("title"), value: FieldValue::Text(text("A storm")) },
        DocumentField { name: text("year"), value: FieldValue::Number(Some(1999)) },
        DocumentField { name: text("note"), value: FieldValue::Text(String::new()) },
    ]
}

#[test]
fn embedding_texts_have_a_line_per_text_field() {
    let names = [text("note"), text("year"), text("title"), text("absent")];
    assert_eq!(build_embedding_text(&fields(), &names), "note: \ntitle: A storm\n");
    assert_eq!(build_embedding_text(&fields(), &[text("year")]), "");
    assert!(matches!(extract_field(&fields(), &text("year"), IndexType::Int), Some(IndexValue::Int(1999))));
    assert!(matches!(fields_text(&Ok(fields()), &[text("title")]), ValueText::Text(t) if t == "title: A storm\n"));
    assert!(matches!(fields_text(&Ok(fields()), &[text("year")]), ValueText::Empty));
    assert!(matches!(fields_text(&Err(text("no JSON")), &names), ValueText::Unreadable(m) if m == "no JSON"));
}

#[test]
fn absent_fields_and_fields_of_other_types_are_skipped() {
    let doc = br#"{"title": "T", "n": 5, "body": "B"}"#;
    let names = [text("body"), text("n"), text("missing"), text("title")];
    assert!(matches!(document_text(doc, &names), ValueText::Text(t) if t == "body: B\ntitle: T\n"));
}

#[test]
fn texts_of_stored_values() {
    assert!(matches!(document_text(DOC, &[text("title")]), ValueText::Text(t) if t == "title: A storm\n"));
    assert!(matches!(document_text(DOC, &[text("year")]), ValueText::Empty));
    let message = serde_json::from_slice::<serde_json::Value>(b"nonsense").unwrap_err().to_string();
    assert!(matches!(document_text(b"nonsense", &[text("title")]), ValueText::Unreadable(m) if m == message));
    assert!(matches!(kv_text("grüße".as_bytes()), ValueText::Text(t) if t == "grüße"));
    assert!(matches!(kv_text(b""), ValueText::Empty));
    assert!(matches!(kv_text(b"\xff"), ValueText::Empty));
}

// ── Reindex ─────────────────────────────────────────────────────────────

#[test]
fn reindex_admission() {
    let mut schema = make_schema("ns", vec![]);
    assert!(matches!(schema.begin_index_all(&None), Err(DocStoreError::SemanticSearchNotEnabled { namespace }) if namespace == "ns"));
    assert!(matches!(schema.check_index_all_preconditions(&None), Err(DocStoreError::SemanticSearchNotEnabled { .. })));
    schema.semantic_search_enabled = true;
    schema.embedding_fields = vec![text("title")];
    assert_eq!(schema.begin_index_all(&None).unwrap(), 3);
    let running = Some(started_record(5));
    assert!(matches!(schema.begin_index_all(&running), Err(DocStoreError::VecReindexInProgress { namespace }) if namespace == "ns"));
    assert!(matches!(schema.check_index_all_preconditions(&running), Err(DocStoreError::VecReindexInProgress { .. })));
    let failed = Some(finish_index_all(Err(text("disk full")), 5, 9, 7, 2).0);
    assert_eq!(schema.begin_index_all(&failed).unwrap(), 3);
    schema.ns_id = None;
    assert!(matches!(schema.begin_index_all(&running), Err(DocStoreError::MissingNsId { .. })));
    assert!(schema.check_index_all_preconditions(&running).is_ok());
}

#[test]
fn kv_reindex_admission() {
    let mut kv = make_kv_schema("kv");
    assert_eq!(kv.begin_kv_index_all(&None).unwrap(), 4);
    assert!(kv.check_kv_index_all_preconditions(&None).is_ok());
    let running = Some(started_record(5));
    assert!(matches!(kv.begin_kv_index_all(&running), Err(DocStoreError::VecReindexInProgress { namespace }) if namespace == "kv"));
    assert!(matches!(kv.check_kv_index_all_preconditions(&running), Err(DocStoreError::VecReindexInProgress { .. })));
    kv.ns_id = None;
    assert!(matches!(kv.begin_kv_index_all(&None), Err(DocStoreError::MissingNsId { .. })));
    kv.semantic_search_enabled = false;
    assert!(matches!(kv.begin_kv_index_all(&None), Err(DocStoreError::SemanticSearchNotEnabled { .. })));
    assert!(matches!(kv.check_kv_index_all_preconditions(&None), Err(DocStoreError::SemanticSearchNotEnabled { .. })));
}

#[test]
fn reindex_records() {
    let started = started_record(17);
    assert_eq!(started.status, "running");
    assert_eq!((started.started_at_ms, started.completed_at_ms, started.total_enqueued), (17, None, 0));
    let (record, stats) = finish_index_all(Ok(()), 17, 30, 4, 2);
    assert_eq!(stats, Some(ReindexStats { exhausted_cleared: 2, enqueued: 4 }));
    assert_eq!((record.status.as_str(), record.total_enqueued, record.exhausted_cleared), ("running", 4, 2));
    assert_eq!((record.completed_at_ms, record.error), (None, None));
    let (record, stats) = finish_index_all(Err(text("disk full")), 17, 30, 4, 2);
    assert_eq!(stats, None);
    assert_eq!((record.status.as_str(), record.total_enqueued, record.exhausted_cleared), ("failed", 0, 2));
    assert_eq!((record.completed_at_ms, record.error.as_deref()), (Some(30), Some("disk full")));
}

#[test]
fn reindex_plans() {
    let docs = vec![
        br#"{"title":"one"}"#.to_vec(),
        br#"{"other":"two"}"#.to_vec(),
        b"nonsense".to_vec(),
        br#"{"title":"three"}"#.to_vec(),
    ];
    let plan = plan_index_all(&docs, &[text("title")]);
    let items: Vec<(usize, &str)> = plan.enqueue.iter().map(|i| (i.position, i.text.as_str())).collect();
    assert_eq!(items, [(0, "title: one\n"), (3, "title: three\n")]);
    assert_eq!(plan.skipped_empty_text, 1, "a document that is no JSON is passed over");

    let plan = plan_kv_index_all(&[b"one".to_vec(), b"".to_vec(), b"\xff".to_vec()]);
    let items: Vec<(usize, &str)> = plan.enqueue.iter().map(|i| (i.position, i.text.as_str())).collect();
    assert_eq!(items, [(0, "one")]);
    assert_eq!(plan.skipped_empty_text, 2);

    let plan = plan_embeds(&[ValueText::Empty, ValueText::Unreadable(text("x")), ValueText::Text(text("t"))]);
    assert_eq!((plan.enqueue.len(), plan.enqueue[0].position, plan.skipped_empty_text), (1, 2, 1));
}

#[test]
fn queue_entries_of_a_namespace() {
    let queue = vec![entry("a", 0, 5), entry("b", 1, 9), entry("a", 2, 4), entry("a", 3, 6)];
    assert_eq!(exhausted_entries(&queue, &text("a"), 5), vec![0, 3]);
    assert_eq!(namespace_entries(&queue, &text("a")), vec![0, 2, 3]);
    assert_eq!(pending_for(&queue, &text("b")), 1);
    assert_eq!(pending_for(&queue, &text("c")), 0);
}

#[test]
fn reindexing_one_document() {
    assert_eq!(reindex_outcome(&None).unwrap(), VectorReindexOutcome::NotFound);
    assert_eq!(reindex_outcome(&Some(ValueText::Empty)).unwrap(), VectorReindexOutcome::SkippedEmptyText);
    assert_eq!(reindex_outcome(&Some(ValueText::Text(text("t")))).unwrap(), VectorReindexOutcome::Enqueued);
    assert!(matches!(
        reindex_outcome(&Some(ValueText::Unreadable(text("why")))),
        Err(DocStoreError::InvalidId(m)) if m == "why"
    ));
}

// ── Reconciliation ──────────────────────────────────────────────────────

#[test]
fn reconciliation_enqueues_what_is_missing() {
    let docs = vec![
        br#"{"title":"one"}"#.to_vec(),
        br#"{"title":"two"}"#.to_vec(),
        br#"{"title":"three"}"#.to_vec(),
        br#"{"year":4}"#.to_vec(),
    ];
    let items = reconcile_doc_namespace(&docs, &[text("title")], &[false, true, false, false], &[true, false, false, false]);
    let found: Vec<(usize, &str)> = items.iter().map(|i| (i.position, i.text.as_str())).collect();
    assert_eq!(found, [(2, "title: three\n")]);
    // What was enqueued is queued: a second pass finds nothing.
    let again = reconcile_doc_namespace(&docs, &[text("title")], &[false, true, true, false], &[true, false, false, false]);
    assert!(again.is_empty());

    let items = reconcile_kv_namespace(&[b"x".to_vec(), b"".to_vec()], &[false, false], &[false, false]);
    assert_eq!((items.len(), items[0].position, items[0].text.as_str()), (1, 0, "x"));
    let values = [ValueText::Text(text("t")), ValueText::Text(text("u"))];
    let items = plan_reconcile(&values, &[true, false], &[false, false]);
    assert_eq!((items.len(), items[0].position), (1, 1));
    assert!(needs_enqueue(false, false) && !needs_enqueue(true, false) && !needs_enqueue(false, true));
}

#[test]
fn covered_namespaces_are_passed_over() {
    assert!(nothing_to_reconcile(0, Some(3), 3, 3));
    assert!(nothing_to_reconcile(0, Some(0), 0, 0));
    assert!(!nothing_to_reconcile(1, Some(3), 3, 3), "something is queued");
    assert!(!nothing_to_reconcile(0, Some(3), 3, 2), "a dense vector is missing");
    assert!(!nothing_to_reconcile(0, Some(3), 2, 3), "a sparse vector is missing");
    assert!(!nothing_to_reconcile(0, None, 3, 3), "the documents could not be counted");
}

#[test]
fn outcomes_add_up() {
    let o = reconcile_outcome(&[Some(2), None, Some(5), None]);
    assert_eq!(o, ReconcileOutcome { reenqueued: 7, failed: 2 });
    assert_eq!(reconcile_outcome(&[]), ReconcileOutcome { reenqueued: 0, failed: 0 });
}

#[test]
fn companions_of_a_store() {
    let ns = text("docs");
    assert_eq!(sparse_vectors_ns(&ns), "docs_sparse_vector");
    assert_eq!(sparse_vectors_meta_ns(&ns), "docs_sparse_vector_meta");
    assert_eq!(dense_vectors_ns(&ns), "docs_dense_vector");
    assert_eq!(
        store_namespaces(&ns),
        ["docs", "docs_sparse_vector", "docs_sparse_vector_meta", "docs_dense_vector"]
    );
    assert_eq!(namespace_dir(&ns), "ns_docs");
}

#[test]
fn a_reindex_clears_exhausted_entries_and_enqueues_every_text() {
    let entries = vec![entry("sem", 1, 5), entry("other", 1, 5), entry("sem", 2, 4), entry("sem", 3, 0)];
    let exhausted = exhausted_entries(&entries, &text("sem"), 5);
    let keys = vec![vec![2u8], vec![3], vec![4]];
    let values = vec![br#"{"title": "two"}"#.to_vec(), br#"{"n": 1}"#.to_vec(), br#"{"title": "four"}"#.to_vec()];
    let plan = plan_index_all(&values, &[text("title")]);
    let ops = reindex_ops(&entries, &exhausted, &keys, &plan);
    assert!(matches!(
        &ops[..],
        [QueueOp::Remove(a), QueueOp::Enqueue(b, t), QueueOp::Enqueue(c, u)]
            if a == &[1] && b == &[2] && t == "title: two\n" && c == &[4] && u == "title: four\n"
    ));
}

// ── Upkeep ──────────────────────────────────────────────────────────────

#[test]
fn upserts_write_the_document_first() {
    let ops = put_plan(false, true, true, &text("hello"));
    assert!(matches!(&ops[..], [StoreOp::PutDocument, StoreOp::EnqueueEmbed(t), StoreOp::WakeWorker] if t == "hello"));
    let ops = put_plan(true, true, true, &text("hello"));
    assert!(matches!(&ops[..], [StoreOp::PutDocumentNoWal, StoreOp::EnqueueEmbed(_), StoreOp::WakeWorker]));
    assert!(matches!(&put_plan(false, false, true, &text("hello"))[..], [StoreOp::PutDocument]));
    assert!(matches!(&put_plan(false, true, false, &text("hello"))[..], [StoreOp::PutDocument]));
    // A document whose text is gone must stop matching its old text.
    assert!(matches!(&put_plan(false, true, true, &String::new())[..], [StoreOp::PutDocument, StoreOp::ClearVectorsIfAny]));
}

#[test]
fn deletes_remove_what_is_derived_first() {
    assert!(matches!(
        &delete_plan(true, true)[..],
        [StoreOp::ClearVectors, StoreOp::WakeWorker, StoreOp::DeleteDocument]
    ));
    assert!(matches!(
        &delete_plan(false, true)[..],
        [StoreOp::RemoveQueueEntry, StoreOp::DeleteVectors, StoreOp::DeleteDocument]
    ));
    assert!(matches!(&delete_plan(true, false)[..], [StoreOp::DeleteDocument]));
}

#[test]
fn embedding_calls_end_with_their_entry() {
    let worked = QueueEntry::embed(&text("sem"), b"x", &text("old"));
    let again = QueueEntry { retry_count: 2, ..worked.clone() };
    assert!(matches!(
        &finish_plan(&worked, Some(&again))[..],
        [StoreOp::UpsertVectors(t), StoreOp::RemoveQueueEntry] if t == "old"
    ));
    // An entry that was removed by hand is worked on to its end.
    assert!(matches!(&finish_plan(&worked, None)[..], [StoreOp::UpsertVectors(t)] if t == "old"));
    let cleared = QueueEntry::clear(&text("sem"), b"x");
    assert!(matches!(
        &finish_plan(&worked, Some(&cleared))[..],
        [StoreOp::DeleteVectors, StoreOp::RemoveQueueEntry]
    ));
    assert!(matches!(&finish_plan(&cleared, None)[..], [StoreOp::DeleteVectors]));
}

#[test]
fn a_newer_request_outlives_the_work_on_an_older_one() {
    let worked = QueueEntry::embed(&text("sem"), b"x", &text("old"));
    let newest = QueueEntry::embed(&text("sem"), b"x", &text("new"));
    assert!(finish_plan(&worked, Some(&newest)).is_empty());
    // A document that comes back while its clear entry is retired.
    let cleared = QueueEntry::clear(&text("sem"), b"x");
    assert!(finish_plan(&cleared, Some(&newest)).is_empty());
    assert_eq!(finish_plan(&newest, Some(&newest)).len(), 2);
}

// ── Opening ─────────────────────────────────────────────────────────────

#[test]
fn row_numbers_are_installed_before_the_first_index() {
    let mut schema = make_schema("ns", vec![spec("a", IndexType::Bool), spec("b", IndexType::Int)]);
    assert_eq!(
        activation_plan(&schema),
        vec![
            ActivationStep::InstallRowIds,
            ActivationStep::RegisterField(0),
            ActivationStep::ActivateIndex(0),
            ActivationStep::RegisterField(1),
            ActivationStep::ActivateIndex(1),
        ]
    );
    schema.key_type = KeyType::Str;
    schema.indices.truncate(1);
    assert_eq!(activation_plan(&schema), vec![ActivationStep::RegisterField(0), ActivationStep::ActivateIndex(0)]);
}

#[test]
fn schema_files_name_their_kind() {
    assert_eq!(peek_store_type(br#"{"store_type":"doc","namespace":"a"}"#), Some(StoreType::Doc));
    assert_eq!(peek_store_type(br#"{"namespace":"a","store_type":"kv"}"#), Some(StoreType::Kv));
    assert_eq!(peek_store_type(br#"{"store_type":"other"}"#), None);
    assert_eq!(peek_store_type(br#"{"store_type":1}"#), None);
    assert_eq!(peek_store_type(br#"{}"#), None);
    assert_eq!(peek_store_type(b"not json"), None);
    let fields = vec![DocumentField { name: text("store_type"), value: FieldValue::Text(text("kv")) }];
    assert_eq!(named_store_type(&fields), Some(StoreType::Kv));
    assert_eq!(named_store_type(&[]), None);
}
