//! What the document store refuses, and why.

use vstd::prelude::*;

use crate::semantic_search::fusion::RankingError;

verus! {

/// A schema or a key that the store cannot work with.
#[derive(Debug, Clone)]
pub enum SchemaError {
    /// A string key without a character.
    EmptyStrKey,
    /// A string key over the cap.
    StrKeyTooLong { len: usize, max: usize },
    /// A string key that is not UTF-8.
    StrKeyNotUtf8,
    /// A namespace whose name is empty or has other characters than letters, digits,
    /// `_` and `-`.
    InvalidNamespace,
    /// A field that is declared more than once.
    DuplicateFieldName { name: String },
    /// A key that is not of the key type of its store.
    KvKeyTypeMismatch,
    /// A value that is not of the value type of its store.
    KvValueTypeMismatch,
    /// More field indices than a namespace may have.
    TooManyIndices { count: usize, max: usize },
}

/// A request that the document store refuses.
#[derive(Debug, Clone)]
pub enum DocStoreError {
    /// Key bytes that are no identifier, or a stored document that cannot be read, in
    /// words.
    InvalidId(String),
    /// A schema error.
    Schema(SchemaError),
    /// A namespace that was never given its number.
    MissingNsId { namespace: String },
    /// No index on that field.
    IndexNotFound { namespace: String, field: String },
    /// An index on that field already.
    IndexAlreadyExists { namespace: String, field: String },
    /// A background build of that index is still running.
    IndexBuildInProgress { namespace: String, field: String },
    /// An attribute that an active index uses.
    AttributeIsIndexed { namespace: String, field: String },
    /// A search or an embedding that cannot be made.
    EmbeddingFailed(String),
    /// Ranking parameters that cannot be worked with.
    InvalidRanking(RankingError),
    /// The namespace has no semantic search.
    SemanticSearchNotEnabled { namespace: String },
    /// A reindex of that namespace is still running.
    VecReindexInProgress { namespace: String },
}

/// Model of the errors of a stored row.
pub enum RowError {
    InvalidId(Seq<char>),
    Schema(SchemaError),
}

impl DocStoreError {
    /// The error says that of a stored row.
    pub open spec fn tells(self, e: RowError) -> bool {
        match e {
            RowError::InvalidId(message) => self matches DocStoreError::InvalidId(m) && m@ == message,
            RowError::Schema(s) => self == DocStoreError::Schema(s),
        }
    }
}

/// An error tells of bad bytes with their very message, and of a bad key with its very
/// reason.
pub proof fn law_told_errors(e: DocStoreError, message: Seq<char>, reason: SchemaError)
    ensures
        e.tells(RowError::InvalidId(message)) <==> e is InvalidId && e->InvalidId_0@ == message,
        e.tells(RowError::Schema(reason)) <==> e == DocStoreError::Schema(reason),
{
}

} // verus!
