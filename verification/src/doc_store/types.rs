//! Document identifiers, and the records of builds and reindexes.

use vstd::prelude::*;

use super::error::{DocStoreError, RowError};
use super::key::{key_error, law_same_bytes_same_key, StrKey};
use super::schema::KeyType;
use crate::bytes::{
    be_bytes, be_value, get_be, lemma_be_bytes_push, lemma_be_round_trip, lemma_be_value_bytes, lemma_pow256, pow256, to_be,
};
use crate::lex::{lemma_lex_at, lemma_lex_irreflexive, lex_lt};
use crate::numbers::{decimal, decimal_digits};

verus! {

/// A document identifier, typed to match the key type of the store.
///
/// Integer keys are stored in big-endian byte order and string keys verbatim, so
/// the order of the stored bytes is the order of the identifiers.
#[derive(Debug, Clone, Copy, PartialEq, Eq, PartialOrd, Ord)]
pub enum DocId {
    /// 128-bit UUID as a number.
    Uuid(u128),
    /// Unsigned 64-bit integer.
    U64(u64),
    /// Unsigned 128-bit integer.
    U128(u128),
    /// String key.
    Str(StrKey),
}

/// Bytes of a key of a fixed-width type; `None` where the width varies.
pub open spec fn key_width(key_type: KeyType) -> Option<nat> {
    match key_type {
        KeyType::Uuid => Some(16),
        KeyType::U64 => Some(8),
        KeyType::U128 => Some(16),
        KeyType::Str => None,
    }
}

impl DocId {
    /// The stored bytes.
    pub open spec fn bytes(self) -> Seq<u8> {
        match self {
            DocId::Uuid(v) => be_bytes(v as nat, 16),
            DocId::U64(v) => be_bytes(v as nat, 8),
            DocId::U128(v) => be_bytes(v as nat, 16),
            DocId::Str(k) => k@,
        }
    }

    /// The identifier fits stores of this key type.
    pub open spec fn of_type(self, key_type: KeyType) -> bool {
        match key_type {
            KeyType::Uuid => self is Uuid,
            KeyType::U64 => self is U64,
            KeyType::U128 => self is U128,
            KeyType::Str => self is Str,
        }
    }

    /// A string key is well formed.
    pub open spec fn wf(self) -> bool {
        self matches DocId::Str(k) ==> k.wf()
    }

    /// The order of identifiers of one type.
    pub open spec fn before(self, other: DocId) -> bool {
        match (self, other) {
            (DocId::Uuid(a), DocId::Uuid(b)) => a < b,
            (DocId::U64(a), DocId::U64(b)) => a < b,
            (DocId::U128(a), DocId::U128(b)) => a < b,
            (DocId::Str(a), DocId::Str(b)) => lex_lt(a@, b@),
            _ => false,
        }
    }

    /// The stored bytes: big-endian for the integer types, the UTF-8 bytes for strings.
    pub fn to_bytes(self) -> (bytes: Vec<u8>)
        ensures
            bytes@ == self.bytes(),
            self.wf(),
            forall|key_type: KeyType| #[trigger]
                self.of_type(key_type) ==> decode_error(bytes@, key_type) is None,
    {
        proof {
            if let DocId::Str(k) = self {
                use_type_invariant(&k);
            }
            assert forall|key_type: KeyType| #[trigger] self.of_type(key_type) implies decode_error(
                self.bytes(),
                key_type,
            ) is None by {
                law_id_round_trip(self, self, key_type);
            }
        }
        match self {
            DocId::Uuid(v) => to_be(v, 16),
            DocId::U64(v) => to_be(v as u128, 8),
            DocId::U128(v) => to_be(v, 16),
            DocId::Str(k) => k.as_bytes(),
        }
    }

    /// The identifier with these stored bytes.
    pub fn from_bytes(bytes: &[u8], key_type: KeyType) -> (r: Result<DocId, DocStoreError>)
        ensures
            r is Ok <==> decode_error(bytes@, key_type) is None,
            r is Err ==> r->Err_0.tells(decode_error(bytes@, key_type)->0),
            r is Ok ==> r->Ok_0.of_type(key_type),
            r is Ok ==> r->Ok_0.bytes() == bytes@ && r->Ok_0.wf(),
            forall|id: DocId|
                id.wf() && id.of_type(key_type) && #[trigger] id.bytes() == bytes@ ==> r == Ok::<DocId, DocStoreError>(id),
    {
        let r: Result<DocId, DocStoreError> = DocId::decode(bytes, key_type);
        proof {
            assert forall|id: DocId| id.wf() && id.of_type(key_type) && #[trigger] id.bytes() == bytes@ implies r == Ok::<
                DocId,
                DocStoreError,
            >(id) by {
                law_id_round_trip(id, id, key_type);
                law_id_round_trip(id, r->Ok_0, key_type);
            }
        }
        r
    }

    fn decode(bytes: &[u8], key_type: KeyType) -> (r: Result<DocId, DocStoreError>)
        ensures
            r is Ok <==> decode_error(bytes@, key_type) is None,
            r is Err ==> r->Err_0.tells(decode_error(bytes@, key_type)->0),
            r is Ok ==> r->Ok_0.of_type(key_type),
            r is Ok ==> r->Ok_0.bytes() == bytes@ && r->Ok_0.wf(),
    {
        match key_type {
            KeyType::Str => match StrKey::from_bytes(bytes) {
                Ok(k) => Ok(DocId::Str(k)),
                Err(e) => Err(DocStoreError::Schema(e)),
            },
            KeyType::Uuid => {
                if bytes.len() != 16 {
                    return Err(wrong_width(16, key_type, bytes.len()));
                }
                proof {
                    lemma_be_value_bytes(bytes@);
                }
                Ok(DocId::Uuid(get_be(bytes)))
            },
            KeyType::U64 => {
                if bytes.len() != 8 {
                    return Err(wrong_width(8, key_type, bytes.len()));
                }
                proof {
                    lemma_be_value_bytes(bytes@);
                    lemma_pow256();
                }
                Ok(DocId::U64(get_be(bytes) as u64))
            },
            KeyType::U128 => {
                if bytes.len() != 16 {
                    return Err(wrong_width(16, key_type, bytes.len()));
                }
                proof {
                    lemma_be_value_bytes(bytes@);
                }
                Ok(DocId::U128(get_be(bytes)))
            },
        }
    }
}

/// What a message calls keys of this type.
pub open spec fn key_label(key_type: KeyType) -> Seq<char> {
    match key_type {
        KeyType::Uuid => "UUID"@,
        KeyType::U64 => "u64"@,
        KeyType::U128 => "u128"@,
        KeyType::Str => "string"@,
    }
}

/// The message on key bytes of another width.
pub open spec fn width_message(width: nat, key_type: KeyType, got: nat) -> Seq<char> {
    "expected "@ + decimal_digits(width) + " bytes for "@ + key_label(key_type) + " key, got "@ + decimal_digits(got)
}

/// The error on bytes that are no stored key of this type.
pub open spec fn decode_error(bytes: Seq<u8>, key_type: KeyType) -> Option<RowError> {
    match key_width(key_type) {
        Some(w) => if bytes.len() == w {
            None
        } else {
            Some(RowError::InvalidId(width_message(w, key_type, bytes.len())))
        },
        None => match key_error(bytes) {
            Some(e) => Some(RowError::Schema(e)),
            None => None,
        },
    }
}

fn wrong_width(width: u64, key_type: KeyType, got: usize) -> (e: DocStoreError)
    ensures
        e.tells(RowError::InvalidId(width_message(width as nat, key_type, got as nat))),
{
    let label: &str = match key_type {
        KeyType::Uuid => "UUID",
        KeyType::U64 => "u64",
        KeyType::U128 => "u128",
        KeyType::Str => "string",
    };
    let mut m: String = "expected ".to_owned();
    m.append(decimal(width).as_str());
    m.append(" bytes for ");
    m.append(label);
    m.append(" key, got ");
    m.append(decimal(got as u64).as_str());
    DocStoreError::InvalidId(m)
}

proof fn lemma_lex_push(a: Seq<u8>, b: Seq<u8>, c: u8, d: u8)
    requires
        a.len() == b.len(),
    ensures
        lex_lt(a.push(c), b.push(d)) <==> lex_lt(a, b) || (a == b && c < d),
    decreases a.len(),
{
    let (x, y) = (a.push(c), b.push(d));
    if a.len() == 0 {
        assert(a =~= b);
        lemma_lex_at(x.subrange(1, 1), y.subrange(1, 1), 0);
    } else {
        let (at, bt) = (a.subrange(1, a.len() as int), b.subrange(1, b.len() as int));
        lemma_lex_push(at, bt, c, d);
        assert(x.subrange(1, x.len() as int) =~= at.push(c));
        assert(y.subrange(1, y.len() as int) =~= bt.push(d));
        if a[0] == b[0] && at == bt {
            assert(a =~= seq![a[0]] + at);
            assert(b =~= seq![b[0]] + bt);
        }
    }
}

/// The order of big-endian bytes is the order of the numbers.
pub proof fn lemma_be_order(x: nat, y: nat, n: nat)
    requires
        x < pow256(n),
        y < pow256(n),
    ensures
        lex_lt(be_bytes(x, n), be_bytes(y, n)) <==> x < y,
        be_bytes(x, n) == be_bytes(y, n) ==> x == y,
    decreases n,
{
    lemma_be_round_trip(x, n);
    lemma_be_round_trip(y, n);
    if n == 0 {
        assert(be_bytes(x, n) =~= be_bytes(y, n));
        lemma_lex_irreflexive(be_bytes(x, n));
    } else {
        let m = (n - 1) as nat;
        lemma_be_bytes_push(x, n);
        lemma_be_bytes_push(y, n);
        lemma_be_order(x / 256, y / 256, m);
        lemma_be_round_trip(x / 256, m);
        lemma_be_round_trip(y / 256, m);
        lemma_lex_push(be_bytes(x / 256, m), be_bytes(y / 256, m), (x % 256) as u8, (y % 256) as u8);
    }
}

/// The order of the stored bytes is the order of the identifiers, and identifiers are
/// the same exactly when their bytes are.
pub proof fn law_byte_order_is_id_order(a: DocId, b: DocId, key_type: KeyType)
    requires
        a.wf(),
        b.wf(),
        a.of_type(key_type),
        b.of_type(key_type),
    ensures
        lex_lt(a.bytes(), b.bytes()) <==> a.before(b),
        a == b <==> a.bytes() == b.bytes(),
{
    lemma_pow256();
    match (a, b) {
        (DocId::Uuid(x), DocId::Uuid(y)) => lemma_be_order(x as nat, y as nat, 16),
        (DocId::U64(x), DocId::U64(y)) => lemma_be_order(x as nat, y as nat, 8),
        (DocId::U128(x), DocId::U128(y)) => lemma_be_order(x as nat, y as nat, 16),
        (DocId::Str(x), DocId::Str(y)) => law_same_bytes_same_key(x, y),
        _ => {},
    }
}

/// The stored bytes of an identifier are accepted, and the identifier that is read
/// from them is the same.
pub proof fn law_id_round_trip(id: DocId, read: DocId, key_type: KeyType)
    requires
        id.wf(),
        id.of_type(key_type),
    ensures
        decode_error(id.bytes(), key_type) is None,
        read.wf() && read.of_type(key_type) && read.bytes() == id.bytes() ==> read == id,
{
    lemma_pow256();
    match id {
        DocId::Uuid(v) => lemma_be_round_trip(v as nat, 16),
        DocId::U64(v) => lemma_be_round_trip(v as nat, 8),
        DocId::U128(v) => lemma_be_round_trip(v as nat, 16),
        DocId::Str(k) => law_same_bytes_same_key(k, k),
    }
    if read.wf() && read.of_type(key_type) {
        law_byte_order_is_id_order(read, id, key_type);
    }
}

/// The row number that a fixed-width key stands for; string keys have none of
/// their own, since they do not fit into one.
pub fn row_id_of_key(key: &[u8], key_type: KeyType) -> (row: Option<u128>)
    requires
        key_width(key_type) matches Some(w) ==> key@.len() >= w,
    ensures
        row is Some <==> key_width(key_type) is Some,
        row is Some ==> row->0 == be_value(key@.take(key_width(key_type)->0 as int)),
{
    let width: usize = match key_type {
        KeyType::U64 => 8,
        KeyType::U128 => 16,
        KeyType::Uuid => 16,
        KeyType::Str => {
            return None;
        },
    };
    let head = vstd::slice::slice_subrange(key, 0, width);
    proof {
        assert(head@ =~= key@.take(width as int));
    }
    Some(get_be(head))
}

/// The key of a row number, the inverse of [`row_id_of_key`].
pub fn key_of_row_id(row: u128, key_type: KeyType) -> (key: Option<Vec<u8>>)
    ensures
        key is Some <==> key_width(key_type) is Some,
        key is Some ==> key->0@ == be_bytes(row as nat, key_width(key_type)->0),
{
    match key_type {
        KeyType::U64 => Some(to_be(row, 8)),
        KeyType::U128 => Some(to_be(row, 16)),
        KeyType::Uuid => Some(to_be(row, 16)),
        KeyType::Str => None,
    }
}

/// A key of a fixed-width type comes back from its row number, so no two keys
/// share one.
pub proof fn law_row_id_round_trip(key: Seq<u8>, key_type: KeyType)
    requires
        key_width(key_type) == Some(key.len()),
    ensures
        be_bytes(be_value(key.take(key.len() as int)), key.len()) == key,
{
    assert(key.take(key.len() as int) =~= key);
    lemma_be_value_bytes(key);
}

/// Persistent state of a background index build.
#[derive(Debug, Clone)]
pub struct DiskBuildProgress {
    /// `in_progress`, `complete` or `failed`.
    pub status: String,
    /// Number of documents; 0 until the first scan is over.
    pub total: u64,
    /// Documents processed so far.
    pub indexed: u64,
    /// The last processed key, in hexadecimal; none before the first.
    pub last_key_hex: Option<String>,
    /// What went wrong, where the build failed.
    pub error: Option<String>,
}

/// Persistent record of one reindex of a namespace.
#[derive(Debug, Clone)]
pub struct VecReindexProgress {
    /// `running`, `complete` or `failed`.
    pub status: String,
    /// When the reindex was asked for, in Unix milliseconds.
    pub started_at_ms: u64,
    /// When it ended, in Unix milliseconds.
    pub completed_at_ms: Option<u64>,
    /// Documents enqueued by it.
    pub total_enqueued: usize,
    /// Exhausted queue entries removed before.
    pub exhausted_cleared: usize,
    /// What went wrong, where it failed.
    pub error: Option<String>,
}

/// A snapshot of a background index build.
#[derive(Debug, Clone)]
pub struct IndexBuildProgress {
    /// Number of documents; 0 until the scan begins.
    pub total: u64,
    /// Documents processed so far.
    pub indexed: u64,
    /// The build is over, with or without an error.
    pub done: bool,
    /// What went wrong, where the build failed.
    pub error: Option<String>,
}

/// What became of a request to reindex one document.
#[derive(Debug, Clone, Copy, PartialEq, Eq, Structural)]
pub enum VectorReindexOutcome {
    /// The document was enqueued for embedding.
    Enqueued,
    /// There is no such document.
    NotFound,
    /// The document has no text to embed.
    SkippedEmptyText,
}

/// What a reindex of a namespace did.
#[derive(Debug, Clone, Copy, PartialEq, Eq, Structural)]
pub struct ReindexStats {
    /// Exhausted queue entries removed.
    pub exhausted_cleared: usize,
    /// Documents enqueued.
    pub enqueued: usize,
}

/// The fixed widths of keys: eight bytes for 64-bit integers, sixteen for the others.
/// String keys have none.
pub proof fn law_widths_of_keys()
    ensures
        key_width(KeyType::U64) == Some(8nat),
        key_width(KeyType::U128) == Some(16nat),
        key_width(KeyType::Uuid) == Some(16nat),
        key_width(KeyType::Str) is None,
{
}

/// An identifier fits the stores of its own type, and its stored bytes are those of its
/// number, the highest first, or the string itself.
pub proof fn law_stored_bytes_of_identifiers(v: u128, w: u64, k: StrKey, key_type: KeyType)
    ensures
        DocId::U64(w).bytes() == be_bytes(w as nat, 8),
        DocId::U128(v).bytes() == be_bytes(v as nat, 16),
        DocId::Uuid(v).bytes() == be_bytes(v as nat, 16),
        DocId::Str(k).bytes() == k@,
        DocId::U64(w).of_type(key_type) <==> key_type is U64,
        DocId::U128(v).of_type(key_type) <==> key_type is U128,
        DocId::Uuid(v).of_type(key_type) <==> key_type is Uuid,
        DocId::Str(k).of_type(key_type) <==> key_type is Str,
{
}

/// Key bytes of a fixed-width type are refused exactly where their number is another, and
/// the message says which was expected and how many there were. Those of a string are
/// refused where they are no string key.
pub proof fn law_refused_key_bytes(bytes: Seq<u8>)
    ensures
        decode_error(bytes, KeyType::U64) is None <==> bytes.len() == 8,
        decode_error(bytes, KeyType::U128) is None <==> bytes.len() == 16,
        decode_error(bytes, KeyType::Uuid) is None <==> bytes.len() == 16,
        decode_error(bytes, KeyType::Str) is None <==> key_error(bytes) is None,
        bytes.len() != 8 ==> decode_error(bytes, KeyType::U64) == Some(
            RowError::InvalidId("expected 8 bytes for u64 key, got "@ + decimal_digits(bytes.len())),
        ),
        bytes.len() != 16 ==> decode_error(bytes, KeyType::U128) == Some(
            RowError::InvalidId("expected 16 bytes for u128 key, got "@ + decimal_digits(bytes.len())),
        ),
        bytes.len() != 16 ==> decode_error(bytes, KeyType::Uuid) == Some(
            RowError::InvalidId("expected 16 bytes for UUID key, got "@ + decimal_digits(bytes.len())),
        ),
        key_error(bytes) matches Some(e) ==> decode_error(bytes, KeyType::Str) == Some(RowError::Schema(e)),
{
    reveal_strlit("expected ");
    reveal_strlit(" bytes for ");
    reveal_strlit(" key, got ");
    reveal_strlit("UUID");
    reveal_strlit("u64");
    reveal_strlit("u128");
    reveal_strlit("expected 8 bytes for u64 key, got ");
    reveal_strlit("expected 16 bytes for u128 key, got ");
    reveal_strlit("expected 16 bytes for UUID key, got ");
    reveal_with_fuel(decimal_digits, 3);
    let d = decimal_digits(bytes.len());
    assert(decimal_digits(8) =~= seq!['8']);
    assert(decimal_digits(16) =~= seq!['1', '6']);
    assert("expected "@ + seq!['8'] + " bytes for "@ + "u64"@ + " key, got "@ =~= "expected 8 bytes for u64 key, got "@);
    assert("expected "@ + seq!['1', '6'] + " bytes for "@ + "u128"@ + " key, got "@
        =~= "expected 16 bytes for u128 key, got "@);
    assert("expected "@ + seq!['1', '6'] + " bytes for "@ + "UUID"@ + " key, got "@
        =~= "expected 16 bytes for UUID key, got "@);
}

/// The row number of a fixed-width key is its number, so that keys have the order of
/// their row numbers and different keys have different ones.
pub proof fn law_row_ids_are_injective(a: Seq<u8>, b: Seq<u8>)
    requires
        a.len() == b.len(),
    ensures
        be_value(a) == be_value(b) <==> a == b,
        be_value(a) < be_value(b) <==> lex_lt(a, b),
{
    lemma_be_value_bytes(a);
    lemma_be_value_bytes(b);
    lemma_be_order(be_value(a), be_value(b), a.len());
}

/// Identifiers of one type have the order of their numbers or strings.
pub proof fn law_order_of_identifiers(a: u128, b: u128, c: u64, d: u64, k: StrKey, l: StrKey)
    ensures
        DocId::U64(c).before(DocId::U64(d)) <==> c < d,
        DocId::U128(a).before(DocId::U128(b)) <==> a < b,
        DocId::Uuid(a).before(DocId::Uuid(b)) <==> a < b,
        DocId::Str(k).before(DocId::Str(l)) <==> lex_lt(k@, l@),
{
}

/// Identifiers and their stored bytes: what is written is read back as the same identifier;
/// identifiers of one type are ordered as their bytes, and are the same exactly where their
/// bytes are; and bytes are refused exactly where their number is wrong, or they are no
/// string key.
pub proof fn law_identifiers_and_bytes(
    a: DocId,
    b: DocId,
    key_type: KeyType,
    x: Vec<u8>,
    y: Vec<u8>,
    bytes: &[u8],
    r: Result<DocId, DocStoreError>,
)
    requires
        a.of_type(key_type),
        b.of_type(key_type),
        call_ensures(DocId::to_bytes, (a,), x),
        call_ensures(DocId::to_bytes, (b,), y),
        call_ensures(DocId::from_bytes, (bytes, key_type), r),
    ensures
        bytes@ == x@ ==> r == Ok::<DocId, DocStoreError>(a),
        a == b <==> x@ == y@,
        lex_lt(x@, y@) <==> a.before(b),
        key_type is U64 ==> (r is Ok <==> bytes@.len() == 8),
        key_type is U128 || key_type is Uuid ==> (r is Ok <==> bytes@.len() == 16),
        key_type is Str ==> (r is Ok <==> 1 <= bytes@.len() <= 255 && vstd::utf8::valid_utf8(bytes@)),
        r matches Ok(id) ==> id.of_type(key_type) && id.bytes() == bytes@,
{
    law_byte_order_is_id_order(a, b, key_type);
    law_refused_key_bytes(bytes@);
    super::key::law_accepted_keys(bytes@);
}

/// The row number of a fixed-width key, and the key of that number again; string keys have
/// none.
pub proof fn law_row_numbers_and_keys(key: &[u8], key_type: KeyType, row: Option<u128>, back: Option<Vec<u8>>)
    requires
        key_width(key_type) matches Some(w) ==> key@.len() == w,
        call_ensures(row_id_of_key, (key, key_type), row),
        row is Some ==> call_ensures(key_of_row_id, (row->0, key_type), back),
    ensures
        row is None <==> key_type is Str,
        row is Some ==> back is Some && back->0@ == key@,
{
    if key_width(key_type) is Some {
        law_row_id_round_trip(key@, key_type);
        assert(key@.take(key@.len() as int) =~= key@);
    }
}

} // verus!
