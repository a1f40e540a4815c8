//! Document identifiers and their stored bytes.

use minnal_db::doc_store::error::{DocStoreError, SchemaError};
use minnal_db::doc_store::json::FieldValue;
use minnal_db::doc_store::key::{StrKey, MAX_STR_KEY_LEN};
use minnal_db::doc_store::query::{
    admit_kv_search, admit_search, degraded_field_names, indexed_field, resolve_documents, resolve_rows, scan_start, DocumentRead,
    FieldMeta,
};
use minnal_db::doc_store::scan::{prefix_upper_bound, successor_key};
use minnal_db::doc_store::schema::{DocStoreSchema, KeyType, KvKeyType, KvStoreSchema, KvValueType};
use minnal_db::doc_store::types::{key_of_row_id, row_id_of_key, DocId};
use minnal_db::semantic_search::fusion::{RankFusion, RankingError, RankingOverride, RankingParams};

#[test]
fn test_doc_id_u64_roundtrip() {
    let id = DocId::U64(12345);
    let bytes = id.to_bytes();
    let restored = DocId::from_bytes(&bytes, KeyType::U64).unwrap();
    assert_eq!(id, restored);
}

#[test]
fn test_doc_id_u128_roundtrip() {
    let id = DocId::U128(u128::MAX / 2);
    let bytes = id.to_bytes();
    let restored = DocId::from_bytes(&bytes, KeyType::U128).unwrap();
    assert_eq!(id, restored);
}

#[test]
fn test_doc_id_uuid_roundtrip() {
    let id = DocId::Uuid(0xdeadbeef_cafebabe_12345678_9abcdef0);
    let bytes = id.to_bytes();
    let restored = DocId::from_bytes(&bytes, KeyType::Uuid).unwrap();
    assert_eq!(id, restored);
}

#[test]
fn test_doc_id_ordering() {
    // big-endian encoding means byte-level ordering == numeric ordering
    let ids: Vec<DocId> = (0u64..5).map(DocId::U64).collect();
    let encoded: Vec<Vec<u8>> = ids.iter().map(|id| id.to_bytes()).collect();
    let sorted = {
        let mut c = encoded.clone();
        c.sort();
        c
    };
    assert_eq!(encoded, sorted);
}

#[test]
fn test_invalid_key_size_rejected() {
    assert!(DocId::from_bytes(&[0u8; 3], KeyType::U64).is_err());
    assert!(DocId::from_bytes(&[0u8; 5], KeyType::U128).is_err());
}

#[test]
fn test_doc_id_str_roundtrip() {
    let id = DocId::Str(StrKey::new("acme-corp-2026").unwrap());
    let bytes = id.to_bytes();
    assert_eq!(bytes, b"acme-corp-2026", "a str key is stored verbatim, not encoded");
    let restored = DocId::from_bytes(&bytes, KeyType::Str).unwrap();
    assert_eq!(id, restored);
}

/// The same property the integer types get from big-endian encoding: the
/// order of the stored key bytes is the order of the IDs, which is what
/// makes range scans over document IDs meaningful.
#[test]
fn test_doc_id_str_ordering_matches_byte_ordering() {
    let ids: Vec<DocId> = ["aa", "acme", "acme-corp", "b", "z"]
        .into_iter()
        .map(|s| DocId::Str(StrKey::new(s).unwrap()))
        .collect();

    let encoded: Vec<Vec<u8>> = ids.iter().map(|id| id.to_bytes()).collect();
    let sorted = {
        let mut c = encoded.clone();
        c.sort();
        c
    };
    assert_eq!(encoded, sorted, "str ids must sort lexicographically by their key bytes");

    // And the `DocId` ordering itself agrees — one that compared the length
    // first would put "z" before "aa".
    let mut by_doc_id = ids.clone();
    by_doc_id.sort();
    assert_eq!(by_doc_id, ids);
}

#[test]
fn test_invalid_str_key_rejected() {
    // Over the cap, empty, and non-UTF-8 all fail to decode rather than
    // producing a truncated or lossy id.
    assert!(DocId::from_bytes(&[b'x'; MAX_STR_KEY_LEN + 1], KeyType::Str).is_err());
    assert!(DocId::from_bytes(&[], KeyType::Str).is_err());
    assert!(DocId::from_bytes(&[0xff, 0xfe], KeyType::Str).is_err());
}

#[test]
fn each_refused_key_has_its_error() {
    assert!(matches!(
        DocId::from_bytes(&[0u8; 3], KeyType::U64),
        Err(DocStoreError::InvalidId(m)) if m == "expected 8 bytes for u64 key, got 3"
    ));
    assert!(matches!(
        DocId::from_bytes(&[0u8; 17], KeyType::Uuid),
        Err(DocStoreError::InvalidId(m)) if m == "expected 16 bytes for UUID key, got 17"
    ));
    assert!(matches!(
        DocId::from_bytes(&[], KeyType::U128),
        Err(DocStoreError::InvalidId(m)) if m == "expected 16 bytes for u128 key, got 0"
    ));
    assert!(matches!(DocId::from_bytes(&[], KeyType::Str), Err(DocStoreError::Schema(SchemaError::EmptyStrKey))));
    assert!(matches!(
        DocId::from_bytes(&[0xff, 0xfe], KeyType::Str),
        Err(DocStoreError::Schema(SchemaError::StrKeyNotUtf8))
    ));
    let over = "k".repeat(MAX_STR_KEY_LEN + 1);
    assert!(matches!(
        StrKey::new(&over),
        Err(SchemaError::StrKeyTooLong { len, max }) if len == MAX_STR_KEY_LEN + 1 && max == MAX_STR_KEY_LEN
    ));
}

#[test]
fn a_key_at_the_cap_and_a_multibyte_key_come_back() {
    let max_key = "k".repeat(MAX_STR_KEY_LEN);
    assert_eq!(StrKey::new(&max_key).unwrap().as_str(), max_key);
    let key = "மின்னல்";
    let id = DocId::Str(StrKey::new(key).unwrap());
    assert_eq!(id.to_bytes(), key.as_bytes());
    match DocId::from_bytes(key.as_bytes(), KeyType::Str).unwrap() {
        DocId::Str(k) => assert_eq!(k.as_str(), key),
        other => panic!("expected a str id, got {other:?}"),
    }
}

#[test]
fn strings_with_zero_bytes_keep_their_order() {
    let texts = ["a", "a\0", "a\0\0", "a\0b", "ab"];
    let mut keys: Vec<StrKey> = texts.iter().rev().map(|t| StrKey::new(t).unwrap()).collect();
    keys.sort();
    let back: Vec<String> = keys.iter().map(|k| k.as_str()).collect();
    assert_eq!(back, texts);
}

#[test]
fn integers_are_stored_big_endian() {
    assert_eq!(DocId::U64(0x0102).to_bytes(), [0, 0, 0, 0, 0, 0, 1, 2]);
    assert_eq!(DocId::U128(1).to_bytes(), 1u128.to_be_bytes());
    assert_eq!(DocId::Uuid(u128::MAX).to_bytes(), [0xff; 16]);
    assert!(DocId::U64(255).to_bytes() < DocId::U64(256).to_bytes());
}

#[test]
fn row_numbers_of_fixed_width_keys() {
    let key = DocId::U64(77).to_bytes();
    assert_eq!(row_id_of_key(&key, KeyType::U64), Some(77));
    assert_eq!(key_of_row_id(77, KeyType::U64), Some(key));
    let key = DocId::Uuid(1 << 100).to_bytes();
    assert_eq!(row_id_of_key(&key, KeyType::Uuid), Some(1 << 100));
    assert_eq!(key_of_row_id(1 << 100, KeyType::Uuid), Some(key));
    assert_eq!(row_id_of_key(b"slug", KeyType::Str), None);
    assert_eq!(key_of_row_id(4, KeyType::Str), None);
    // Only the low eight bytes of a row number make a 64-bit key.
    assert_eq!(key_of_row_id((1 << 64) + 5, KeyType::U64), Some(5u64.to_be_bytes().to_vec()));
}

#[test]
fn successor_is_the_next_key() {
    assert_eq!(successor_key(b"ab"), b"ab\0");
    assert_eq!(successor_key(b""), [0]);
    let next = successor_key(b"ab");
    assert!(b"ab".to_vec() < next && next < b"ab\x00\x00".to_vec());
}

#[test]
fn prefix_bounds() {
    assert_eq!(prefix_upper_bound(b"acme-"), Some(b"acme.".to_vec()));
    assert_eq!(prefix_upper_bound(&[1, 0xff, 0xff]), Some(vec![2]));
    assert_eq!(prefix_upper_bound(&[0xff, 0xff]), None);
    assert_eq!(prefix_upper_bound(b""), None);
    let bound = prefix_upper_bound(b"acme-").unwrap();
    assert!(b"acme-\xff\xff".to_vec() < bound);
}

#[test]
fn pages_start_at_the_cursor() {
    assert_eq!(scan_start(None, vec![1]), vec![1]);
    assert_eq!(scan_start(Some(vec![9]), vec![1]), vec![9]);
}

#[test]
fn pages_decode_their_keys() {
    let keys: Vec<Vec<u8>> = (1u64..4).map(|i| DocId::U64(i).to_bytes()).collect();
    let doc = Some(b"{}".to_vec());
    let rows = resolve_documents(&keys, &[doc.clone(), doc.clone(), doc.clone()], KeyType::U64).unwrap();
    let ids: Vec<DocId> = rows.iter().map(|r| r.id).collect();
    assert_eq!(ids, vec![DocId::U64(1), DocId::U64(2), DocId::U64(3)]);
    let bad = vec![keys[0].clone(), vec![1, 2], vec![]];
    assert!(matches!(
        resolve_documents(&bad, &[doc.clone(), doc.clone(), doc], KeyType::U64),
        Err(DocStoreError::InvalidId(m)) if m == "expected 8 bytes for u64 key, got 2"
    ));
}

#[test]
fn the_first_bad_row_gives_its_error() {
    let keys = vec![DocId::U64(1).to_bytes(), DocId::U64(2).to_bytes(), vec![7]];
    let good = Some(b"[1]".to_vec());
    let bad = Some(b"{".to_vec());
    let message = |bytes: &[u8]| serde_json::from_slice::<serde_json::Value>(bytes).unwrap_err().to_string();
    assert!(matches!(
        resolve_documents(&keys, &[good.clone(), bad.clone(), good.clone()], KeyType::U64),
        Err(DocStoreError::InvalidId(m)) if m == message(b"{")
    ));
    // Within a row the key comes first.
    assert!(matches!(
        resolve_documents(&keys[2..], &[bad], KeyType::U64),
        Err(DocStoreError::InvalidId(m)) if m == "expected 8 bytes for u64 key, got 1"
    ));
    assert_eq!(resolve_documents(&keys, &[good, None, None], KeyType::U64).unwrap().len(), 1);
}

#[test]
fn degraded_fields_have_names() {
    let fields = vec![
        FieldMeta { field_id: 3, field_name: "status".to_string() },
        FieldMeta { field_id: 8, field_name: "age".to_string() },
    ];
    assert_eq!(degraded_field_names(&fields, &[8, 120, 3]), vec!["age", "120", "status"]);
    assert!(degraded_field_names(&fields, &[]).is_empty());
}

fn schema(ns_id: Option<u32>, semantic_search_enabled: bool) -> DocStoreSchema {
    DocStoreSchema {
        namespace: "docs".to_string(),
        ns_id,
        key_type: KeyType::U64,
        attributes: vec![],
        indices: vec![],
        semantic_search_enabled,
        embedding_fields: vec![],
    }
}

#[test]
fn fields_are_found_by_name() {
    let fields = vec![
        FieldMeta { field_id: 3, field_name: "status".to_string() },
        FieldMeta { field_id: 8, field_name: "age".to_string() },
    ];
    assert_eq!(indexed_field(&schema(Some(2), false), &fields, &"age".to_string()).unwrap(), (2, 8));
    assert!(matches!(
        indexed_field(&schema(Some(2), false), &fields, &"x".to_string()),
        Err(DocStoreError::IndexNotFound { namespace, field }) if namespace == "docs" && field == "x"
    ));
    assert!(matches!(
        indexed_field(&schema(None, false), &fields, &"age".to_string()),
        Err(DocStoreError::MissingNsId { namespace }) if namespace == "docs"
    ));
}

#[test]
fn searches_are_admitted() {
    assert!(admit_search(true, &schema(None, true)).is_ok());
    assert!(matches!(
        admit_search(false, &schema(None, true)),
        Err(DocStoreError::EmbeddingFailed(m)) if m == "semantic search not configured on this store"
    ));
    assert!(matches!(
        admit_search(true, &schema(None, false)),
        Err(DocStoreError::EmbeddingFailed(m)) if m == "namespace 'docs' does not have semantic_search_enabled"
    ));
}

#[test]
fn kv_searches_take_the_ranking_of_the_request() {
    let mut kv = KvStoreSchema {
        namespace: "cache".to_string(),
        ns_id: None,
        key_type: KvKeyType::Str,
        value_type: KvValueType::Str,
        semantic_search_enabled: true,
    };
    let base = RankingParams::default();
    let ask = RankingOverride { mode: Some(RankFusion::Rrf), ..Default::default() };
    assert_eq!(admit_kv_search(&Some(base), &ask, &kv).unwrap(), RankingParams { mode: RankFusion::Rrf, ..base });
    let bad = RankingOverride { rrf_k: Some(0), ..Default::default() };
    assert!(matches!(
        admit_kv_search(&Some(base), &bad, &kv),
        Err(DocStoreError::InvalidRanking(RankingError::InvalidRrfK(0)))
    ));
    assert!(matches!(admit_kv_search(&None, &bad, &kv), Err(DocStoreError::EmbeddingFailed(_))));
    kv.semantic_search_enabled = false;
    assert!(matches!(
        admit_kv_search(&Some(base), &ask, &kv),
        Err(DocStoreError::EmbeddingFailed(m)) if m == "KV namespace 'cache' does not have semantic_search_enabled"
    ));
}

#[test]
fn rows_without_a_document_are_left_out() {
    let keys = vec![DocId::U64(1).to_bytes(), vec![9], DocId::U64(3).to_bytes()];
    let reads = [DocumentRead::Readable, DocumentRead::Gone, DocumentRead::Readable];
    let rows = resolve_rows(&keys, &reads, KeyType::U64).unwrap();
    let found: Vec<(usize, DocId)> = rows.iter().map(|r| (r.position, r.id)).collect();
    assert_eq!(found, [(0, DocId::U64(1)), (2, DocId::U64(3))]);
    let reads = [DocumentRead::Readable, DocumentRead::Readable, DocumentRead::Unreadable("x".to_string())];
    assert!(matches!(
        resolve_rows(&keys, &reads, KeyType::U64),
        Err(DocStoreError::InvalidId(m)) if m == "expected 8 bytes for u64 key, got 1"
    ));
    assert!(matches!(resolve_rows(&keys[2..], &reads[2..], KeyType::U64), Err(DocStoreError::InvalidId(m)) if m == "x"));
}

#[test]
fn keys_of_key_value_stores() {
    for n in [0i64, 1, 7, -1, 255, i64::MIN, i64::MAX] {
        assert_eq!(KvKeyType::Int.serialize_key_from_str(&n.to_string()).unwrap(), n.to_be_bytes().to_vec());
    }
    for raw in ["", "x", "1.5", "9223372036854775808", " 7"] {
        assert!(matches!(KvKeyType::Int.serialize_key_from_str(raw), Err(SchemaError::KvKeyTypeMismatch)));
    }
    assert_eq!(KvKeyType::Str.serialize_key_from_str("7").unwrap(), b"7".to_vec());
    assert!(matches!(KvKeyType::Str.serialize_key_from_str(""), Err(SchemaError::EmptyStrKey)));
    // Integers of one sign scan in their order.
    let keys: Vec<Vec<u8>> = [-300i64, -2, -1].iter().map(|n| n.to_be_bytes().to_vec()).collect();
    assert!(keys.windows(2).all(|w| w[0] < w[1]));
    assert!(KvKeyType::Int.serialize_key_from_str("2").unwrap() < KvKeyType::Int.serialize_key_from_str("300").unwrap());
}

#[test]
fn string_identifiers_with_the_same_bytes_are_the_same() {
    let id = DocId::Str(StrKey::new("a-key").unwrap());
    let read = DocId::from_bytes(&id.to_bytes(), KeyType::Str).unwrap();
    assert_eq!(read, id);
    let other = DocId::Str(StrKey::new("a-kez").unwrap());
    assert_ne!(other, id);
    assert_ne!(other.to_bytes(), id.to_bytes());
}

#[test]
fn test_kv_wrong_value_type_rejected() {
    assert!(matches!(KvValueType::Int.check_json(br#""not-int""#), Err(SchemaError::KvValueTypeMismatch { .. })));
    assert!(matches!(KvValueType::Int.check_json(b"1.5"), Err(SchemaError::KvValueTypeMismatch)));
    assert!(KvValueType::Int.check_json(b"-7").is_ok());
}

#[test]
fn values_have_the_type_of_their_store() {
    assert!(KvValueType::Str.check_json(br#""text""#).is_ok());
    assert!(KvValueType::F32.check_json(b"1.5").is_ok());
    assert!(KvValueType::F32.check_json(b"2").is_ok());
    assert!(KvValueType::VecF32.check_json(b"[1.5, 2]").is_ok());
    for json in [&b"7"[..], b"null", b"true", b"{}", b"[]", b"nonsense"] {
        assert!(matches!(KvValueType::Str.check_json(json), Err(SchemaError::KvValueTypeMismatch)));
    }
    assert!(KvValueType::VecF32.check_json(b"1.5").is_err());
    assert!(KvValueType::Int.check_value(&FieldValue::Number(Some(3))).is_ok());
    assert!(KvValueType::Int.check_value(&FieldValue::Number(None)).is_err());
    assert!(KvValueType::F32.check_value(&FieldValue::Text("1".to_string())).is_err());
}
