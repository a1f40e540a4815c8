//! Schemas of document and key-value namespaces, and what changes them.

use vstd::prelude::*;

use super::error::{DocStoreError, SchemaError};
use super::hex::{hex_to_bytes, is_hex, unhex};
use super::types::DiskBuildProgress;
use crate::text::{chars_of, contains_text, texts};

verus! {

/// Most field indices of one namespace.
pub const MAX_INDICES: usize = 5;

/// Type of the primary key of a document store.
#[derive(Debug, Clone, Copy, PartialEq, Eq, Structural)]
pub enum KeyType {
    Uuid,
    U64,
    U128,
    Str,
}

/// Type of a field index.
#[derive(Debug, Clone, Copy, PartialEq, Eq, Structural)]
pub enum IndexType {
    Bool,
    Int,
    Str,
}

/// Type of a declared attribute.
#[derive(Debug, Clone, Copy, PartialEq, Eq, Structural)]
pub enum AttributeType {
    Bool,
    Int,
    Str,
}

/// Type of the values of a field index in the engine.
#[derive(Debug, Clone, Copy, PartialEq, Eq, Structural)]
pub enum IndexValueType {
    Bool,
    Int,
    Str,
}

/// A value in a field index.
#[derive(Debug, Clone)]
pub enum IndexValue {
    Bool(bool),
    Int(i64),
    Str(String),
}

/// Type of the keys of a key-value store.
#[derive(Debug, Clone, Copy, PartialEq, Eq, Structural)]
pub enum KvKeyType {
    Str,
    Int,
}

/// Type of the values of a key-value store.
#[derive(Debug, Clone, Copy, PartialEq, Eq, Structural)]
pub enum KvValueType {
    Int,
    Str,
    F32,
    VecF32,
}

/// A declared field without an index.
#[derive(Debug, Clone)]
pub struct AttributeDef {
    pub name: String,
    pub attr_type: AttributeType,
    pub description: Option<String>,
}

/// A field index.
#[derive(Debug, Clone)]
pub struct IndexSpec {
    pub field: String,
    pub index_type: IndexType,
}

/// Schema of a document store.
#[derive(Debug, Clone)]
pub struct DocStoreSchema {
    pub namespace: String,
    /// Number of the namespace; none before it was created.
    pub ns_id: Option<u32>,
    pub key_type: KeyType,
    pub attributes: Vec<AttributeDef>,
    pub indices: Vec<IndexSpec>,
    pub semantic_search_enabled: bool,
    /// Fields whose texts are embedded.
    pub embedding_fields: Vec<String>,
}

/// Schema of a key-value store.
#[derive(Debug, Clone)]
pub struct KvStoreSchema {
    pub namespace: String,
    pub ns_id: Option<u32>,
    pub key_type: KvKeyType,
    pub value_type: KvValueType,
    pub semantic_search_enabled: bool,
}

/// The attribute type of a field index's type.
pub open spec fn attr_type_of(t: IndexType) -> AttributeType {
    match t {
        IndexType::Bool => AttributeType::Bool,
        IndexType::Int => AttributeType::Int,
        IndexType::Str => AttributeType::Str,
    }
}

/// The attribute type of a field index's type.
pub fn index_type_to_attr_type(t: IndexType) -> (a: AttributeType)
    ensures
        a == attr_type_of(t),
{
    match t {
        IndexType::Bool => AttributeType::Bool,
        IndexType::Int => AttributeType::Int,
        IndexType::Str => AttributeType::Str,
    }
}

/// The engine's value type of a field index's type.
pub fn to_ivt(t: IndexType) -> (v: IndexValueType)
    ensures
        v == (match t {
            IndexType::Bool => IndexValueType::Bool,
            IndexType::Int => IndexValueType::Int,
            IndexType::Str => IndexValueType::Str,
        }),
{
    match t {
        IndexType::Bool => IndexValueType::Bool,
        IndexType::Int => IndexValueType::Int,
        IndexType::Str => IndexValueType::Str,
    }
}

/// Position of the first index on `field`.
pub open spec fn is_first_index(indices: Seq<IndexSpec>, field: Seq<char>, at: int) -> bool {
    &&& 0 <= at < indices.len()
    &&& indices[at].field@ == field
    &&& forall|i: int| 0 <= i < at ==> (#[trigger] indices[i]).field@ != field
}

/// Some index is on `field`.
pub open spec fn is_indexed(indices: Seq<IndexSpec>, field: Seq<char>) -> bool {
    exists|i: int| 0 <= i < indices.len() && (#[trigger] indices[i]).field@ == field
}

/// Some attribute has that name.
pub open spec fn is_declared(attributes: Seq<AttributeDef>, name: Seq<char>) -> bool {
    exists|i: int| 0 <= i < attributes.len() && (#[trigger] attributes[i]).name@ == name
}

/// The attributes of other names.
pub open spec fn without(attributes: Seq<AttributeDef>, name: Seq<char>) -> Seq<AttributeDef>
    decreases attributes.len(),
{
    if attributes.len() == 0 {
        seq![]
    } else if attributes.last().name@ == name {
        without(attributes.drop_last(), name)
    } else {
        without(attributes.drop_last(), name).push(attributes.last())
    }
}

/// The texts other than `name`.
pub open spec fn without_text(names: Seq<String>, name: Seq<char>) -> Seq<String>
    decreases names.len(),
{
    if names.len() == 0 {
        seq![]
    } else if names.last()@ == name {
        without_text(names.drop_last(), name)
    } else {
        without_text(names.drop_last(), name).push(names.last())
    }
}

/// `d` declares a field that was indexed before.
pub open spec fn demotes(d: AttributeDef, spec: IndexSpec) -> bool {
    &&& d.name@ == spec.field@
    &&& d.attr_type == attr_type_of(spec.index_type)
    &&& d.description is Some
    &&& d.description->0@ == "previously indexed; field data is still present in stored documents"@
}

/// Every field is declared once, as an attribute or as an index, and there are no
/// more indices than allowed.
pub open spec fn declared_once(attributes: Seq<AttributeDef>, indices: Seq<IndexSpec>) -> bool {
    &&& indices.len() <= MAX_INDICES
    &&& forall|i: int, j: int|
        0 <= i < j < indices.len() ==> (#[trigger] indices[i]).field@ != (#[trigger] indices[j]).field@
    &&& forall|i: int, j: int|
        0 <= i < j < attributes.len() ==> (#[trigger] attributes[i]).name@ != (#[trigger] attributes[j]).name@
    &&& forall|i: int, j: int|
        0 <= i < indices.len() && 0 <= j < attributes.len() ==> (#[trigger] indices[i]).field@ != (
        #[trigger] attributes[j]).name@
}

/// A letter, a digit, `_` or `-`.
pub open spec fn is_name_char(c: char) -> bool {
    let u = c as u32;
    ||| 0x30 <= u <= 0x39
    ||| 0x41 <= u <= 0x5a
    ||| 0x61 <= u <= 0x7a
    ||| u == 0x5f
    ||| u == 0x2d
}

/// A name that a namespace can have.
pub open spec fn valid_namespace(name: Seq<char>) -> bool {
    name.len() > 0 && forall|i: int| 0 <= i < name.len() ==> is_name_char(#[trigger] name[i])
}

/// The names of all declared fields, the attributes first.
pub open spec fn field_names(attributes: Seq<AttributeDef>, indices: Seq<IndexSpec>) -> Seq<Seq<char>> {
    Seq::new(attributes.len(), |i: int| attributes[i].name@) + Seq::new(indices.len(), |i: int| indices[i].field@)
}

/// `name` is the first that repeats an earlier one.
pub open spec fn is_first_repeat(names: Seq<Seq<char>>, name: Seq<char>) -> bool {
    exists|i: int|
        0 <= i < names.len() && #[trigger] names[i] == name && names.take(i).contains(name) && names.take(i).no_duplicates()
}

fn is_valid_namespace(name: &String) -> (yes: bool)
    ensures
        yes == valid_namespace(name@),
{
    let chars: Vec<char> = chars_of(name.as_str());
    if chars.len() == 0 {
        return false;
    }
    let mut i: usize = 0;
    while i < chars.len()
        invariant
            i <= chars@.len(),
            chars@ == name@,
            forall|k: int| 0 <= k < i ==> is_name_char(#[trigger] chars@[k]),
        decreases chars@.len() - i,
    {
        let u: u32 = chars[i] as u32;
        let named: bool = (0x30 <= u && u <= 0x39) || (0x41 <= u && u <= 0x5a) || (0x61 <= u && u <= 0x7a) || u == 0x5f
            || u == 0x2d;
        if !named {
            assert(!is_name_char(name@[i as int]));
            return false;
        }
        i = i + 1;
    }
    true
}

/// Fields are declared once exactly where no name repeats another.
proof fn lemma_declared_once(attributes: Seq<AttributeDef>, indices: Seq<IndexSpec>)
    ensures
        declared_once(attributes, indices) <==> indices.len() <= MAX_INDICES && field_names(
            attributes,
            indices,
        ).no_duplicates(),
{
    let names = field_names(attributes, indices);
    let n = attributes.len() as int;
    assert(forall|i: int| 0 <= i < n ==> names[i] == (#[trigger] attributes[i]).name@);
    assert(forall|i: int| 0 <= i < indices.len() ==> names[n + i] == (#[trigger] indices[i]).field@);
    if names.no_duplicates() {
        assert forall|i: int, j: int| 0 <= i < j < indices.len() implies (#[trigger] indices[i]).field@ != (
        #[trigger] indices[j]).field@ by {
            assert(names[n + i] != names[n + j]);
        }
        assert forall|i: int, j: int| 0 <= i < j < attributes.len() implies (#[trigger] attributes[i]).name@ != (
        #[trigger] attributes[j]).name@ by {
            assert(names[i] != names[j]);
        }
        assert forall|i: int, j: int| 0 <= i < indices.len() && 0 <= j < attributes.len() implies (
        #[trigger] indices[i]).field@ != (#[trigger] attributes[j]).name@ by {
            assert(names[n + i] != names[j]);
        }
    }
    if declared_once(attributes, indices) {
        assert forall|i: int, j: int| 0 <= i < names.len() && 0 <= j < names.len() && i != j implies names[i]
            != names[j] by {
            let (a, b) = if i < j {
                (i, j)
            } else {
                (j, i)
            };
            if b < n {
                assert(attributes[a].name@ != attributes[b].name@);
            } else if a >= n {
                assert(indices[a - n].field@ != indices[b - n].field@);
            } else {
                assert(indices[b - n].field@ != attributes[a].name@);
            }
        }
    }
}

/// One name more: the first repeat, or no repeat still.
proof fn lemma_next_name(names: Seq<Seq<char>>, i: int)
    requires
        0 <= i < names.len(),
        names.take(i).no_duplicates(),
    ensures
        names.take(i).contains(names[i]) ==> is_first_repeat(names, names[i]) && !names.no_duplicates(),
        !names.take(i).contains(names[i]) ==> names.take(i + 1).no_duplicates(),
{
    if names.take(i).contains(names[i]) {
        let j = choose|j: int| 0 <= j < i && names.take(i)[j] == names[i];
        assert(names[j] == names[i]);
    } else {
        let t = names.take(i + 1);
        assert forall|a: int, b: int| 0 <= a < t.len() && 0 <= b < t.len() && a != b implies t[a] != t[b] by {
            if a < i && b < i {
                assert(names.take(i)[a] != names.take(i)[b]);
            } else if a < i {
                assert(names.take(i).contains(names.take(i)[a]));
            } else {
                assert(names.take(i).contains(names.take(i)[b]));
            }
        }
    }
}

proof fn lemma_texts_push(list: Seq<String>, text: String)
    ensures
        texts(list.push(text)) == texts(list).push(text@),
{
    assert(texts(list.push(text)) =~= texts(list).push(text@));
}

/// The first field that is declared again, if any.
fn first_repeat(attributes: &Vec<AttributeDef>, indices: &Vec<IndexSpec>) -> (r: Option<String>)
    ensures
        r is None <==> field_names(attributes@, indices@).no_duplicates(),
        r is Some ==> is_first_repeat(field_names(attributes@, indices@), r->0@),
{
    let ghost names = field_names(attributes@, indices@);
    let mut seen: Vec<String> = Vec::new();
    let mut i: usize = 0;
    while i < attributes.len()
        invariant
            i <= attributes@.len(),
            names == field_names(attributes@, indices@),
            texts(seen@) == names.take(i as int),
            names.take(i as int).no_duplicates(),
        decreases attributes@.len() - i,
    {
        proof {
            lemma_next_name(names, i as int);
            assert(names[i as int] == attributes@[i as int].name@);
        }
        if contains_text(seen.as_slice(), &attributes[i].name) {
            return Some(attributes[i].name.clone());
        }
        proof {
            lemma_texts_push(seen@, attributes@[i as int].name);
            assert(names.take(i as int).push(names[i as int]) =~= names.take(i + 1));
        }
        seen.push(attributes[i].name.clone());
        i = i + 1;
    }
    let mut j: usize = 0;
    while j < indices.len()
        invariant
            j <= indices@.len(),
            names == field_names(attributes@, indices@),
            texts(seen@) == names.take(attributes@.len() + j),
            names.take(attributes@.len() + j).no_duplicates(),
        decreases indices@.len() - j,
    {
        proof {
            lemma_next_name(names, attributes@.len() + j);
            assert(names[attributes@.len() + j] == indices@[j as int].field@);
        }
        if contains_text(seen.as_slice(), &indices[j].field) {
            return Some(indices[j].field.clone());
        }
        proof {
            lemma_texts_push(seen@, indices@[j as int].field);
            assert(names.take(attributes@.len() + j).push(names[attributes@.len() + j]) =~= names.take(
                attributes@.len() + j + 1,
            ));
        }
        seen.push(indices[j].field.clone());
        j = j + 1;
    }
    proof {
        assert(names.take(attributes@.len() + j) =~= names);
    }
    None
}

/// Position of the first index on `field`.
pub(crate) fn first_index(indices: &Vec<IndexSpec>, field: &String) -> (at: Option<usize>)
    ensures
        at is Some <==> is_indexed(indices@, field@),
        at is Some ==> is_first_index(indices@, field@, at->0 as int),
{
    let mut i: usize = 0;
    while i < indices.len()
        invariant
            i <= indices@.len(),
            forall|k: int| 0 <= k < i ==> (#[trigger] indices@[k]).field@ != field@,
        decreases indices@.len() - i,
    {
        if indices[i].field == *field {
            return Some(i);
        }
        i = i + 1;
    }
    None
}

fn has_attribute(attributes: &Vec<AttributeDef>, name: &String) -> (found: bool)
    ensures
        found == is_declared(attributes@, name@),
{
    let mut i: usize = 0;
    while i < attributes.len()
        invariant
            i <= attributes@.len(),
            forall|k: int| 0 <= k < i ==> (#[trigger] attributes@[k]).name@ != name@,
        decreases attributes@.len() - i,
    {
        if attributes[i].name == *name {
            return true;
        }
        i = i + 1;
    }
    false
}

proof fn lemma_without(attributes: Seq<AttributeDef>, name: Seq<char>)
    ensures
        !is_declared(without(attributes, name), name),
        forall|k: int|
            0 <= k < without(attributes, name).len() ==> attributes.contains(#[trigger] without(attributes, name)[k]),
        forall|x: AttributeDef| attributes.contains(x) && x.name@ != name ==> #[trigger] without(attributes, name).contains(x),
        (forall|i: int, j: int|
            0 <= i < j < attributes.len() ==> (#[trigger] attributes[i]).name@ != (#[trigger] attributes[j]).name@) ==> (
        forall|i: int, j: int|
            0 <= i < j < without(attributes, name).len() ==> (#[trigger] without(attributes, name)[i]).name@ != (
            #[trigger] without(attributes, name)[j]).name@),
    decreases attributes.len(),
{
    if attributes.len() > 0 {
        let front = attributes.drop_last();
        lemma_without(front, name);
        let (w, v) = (without(attributes, name), without(front, name));
        assert forall|k: int| 0 <= k < w.len() implies attributes.contains(#[trigger] w[k]) by {
            if k < v.len() {
                assert(front.contains(v[k]));
                let i = choose|i: int| 0 <= i < front.len() && front[i] == v[k];
                assert(attributes[i] == w[k]);
            } else {
                assert(attributes[attributes.len() - 1] == w[k]);
            }
        }
        assert forall|x: AttributeDef| attributes.contains(x) && x.name@ != name implies #[trigger] w.contains(x) by {
            let i = choose|i: int| 0 <= i < attributes.len() && attributes[i] == x;
            if i < front.len() {
                assert(front[i] == x);
                assert(front.contains(x));
                assert(v.contains(x));
                let k = choose|k: int| 0 <= k < v.len() && v[k] == x;
                assert(w[k] == x);
            } else {
                assert(w[w.len() - 1] == x);
            }
        }
        if forall|i: int, j: int|
            0 <= i < j < attributes.len() ==> (#[trigger] attributes[i]).name@ != (#[trigger] attributes[j]).name@ {
            assert forall|i: int, j: int| 0 <= i < j < front.len() implies (#[trigger] front[i]).name@ != (
            #[trigger] front[j]).name@ by {
                assert(attributes[i].name@ != attributes[j].name@);
            }
            assert forall|i: int, j: int| 0 <= i < j < w.len() implies (#[trigger] w[i]).name@ != (
            #[trigger] w[j]).name@ by {
                if j < v.len() {
                    assert(v[i].name@ != v[j].name@);
                } else {
                    assert(front.contains(v[i]));
                    let m = choose|m: int| 0 <= m < front.len() && front[m] == v[i];
                    assert(attributes[m].name@ != attributes[attributes.len() - 1].name@);
                }
            }
        }
        assert forall|i: int| 0 <= i < w.len() implies (#[trigger] w[i]).name@ != name by {
            if i < v.len() {
                assert(v[i].name@ != name);
            }
        }
    }
}

/// Removes the attributes of that name.
pub(crate) fn retain_others(attributes: &mut Vec<AttributeDef>, name: &String)
    ensures
        final(attributes)@ == without(old(attributes)@, name@),
{
    let ghost all = attributes@;
    let n: usize = attributes.len();
    let mut i: usize = 0;
    let mut k: usize = 0;
    proof {
        assert(all.take(0) =~= Seq::<AttributeDef>::empty());
        assert(attributes@ =~= without(all.take(0), name@) + all.subrange(0, all.len() as int));
    }
    while k < n
        invariant
            k <= n == all.len(),
            i <= k,
            i == without(all.take(k as int), name@).len(),
            attributes@ =~= without(all.take(k as int), name@) + all.subrange(k as int, n as int),
        decreases n - k,
    {
        proof {
            assert(all.take(k + 1).drop_last() =~= all.take(k as int));
            assert(all.take(k + 1).last() == all[k as int]);
            assert(attributes@[i as int] == all[k as int]);
        }
        if attributes[i].name == *name {
            let _gone = attributes.remove(i);
        } else {
            i = i + 1;
        }
        k = k + 1;
    }
    proof {
        assert(all.take(k as int) =~= all);
    }
}

/// Removes the texts equal to `name`.
fn retain_other_texts(names: &mut Vec<String>, name: &String)
    ensures
        final(names)@ == without_text(old(names)@, name@),
{
    let ghost all = names@;
    let n: usize = names.len();
    let mut i: usize = 0;
    let mut k: usize = 0;
    proof {
        assert(all.take(0) =~= Seq::<String>::empty());
        assert(names@ =~= without_text(all.take(0), name@) + all.subrange(0, all.len() as int));
    }
    while k < n
        invariant
            k <= n == all.len(),
            i <= k,
            i == without_text(all.take(k as int), name@).len(),
            names@ =~= without_text(all.take(k as int), name@) + all.subrange(k as int, n as int),
        decreases n - k,
    {
        proof {
            assert(all.take(k + 1).drop_last() =~= all.take(k as int));
            assert(all.take(k + 1).last() == all[k as int]);
            assert(names@[i as int] == all[k as int]);
        }
        if names[i] == *name {
            let _gone = names.remove(i);
        } else {
            i = i + 1;
        }
        k = k + 1;
    }
    proof {
        assert(all.take(k as int) =~= all);
    }
}

/// The build is recorded as still running.
pub open spec fn is_in_progress(progress: Option<DiskBuildProgress>) -> bool {
    progress is Some && progress->0.status@ == "in_progress"@
}

/// Whether the build is recorded as still running.
pub fn build_in_progress(progress: &Option<DiskBuildProgress>) -> (yes: bool)
    ensures
        yes == is_in_progress(*progress),
{
    match progress {
        Some(p) => p.status == "in_progress".to_owned(),
        None => false,
    }
}

/// The key after which a recorded build goes on: the last processed key of a build
/// that is still running.
pub fn resume_point(progress: &Option<DiskBuildProgress>) -> (key: Option<Vec<u8>>)
    ensures
        key is Some <==> is_in_progress(*progress) && progress->0.last_key_hex is Some && is_hex(
            progress->0.last_key_hex->0@,
        ),
        key is Some ==> key->0@ == unhex(progress->0.last_key_hex->0@),
{
    if !build_in_progress(progress) {
        return None;
    }
    match progress {
        Some(p) => match &p.last_key_hex {
            Some(h) => hex_to_bytes(h.as_str()),
            None => None,
        },
        None => None,
    }
}

/// All but the attributes and the indices.
pub open spec fn same_elsewhere(a: DocStoreSchema, b: DocStoreSchema) -> bool {
    &&& a.namespace == b.namespace
    &&& a.ns_id == b.ns_id
    &&& a.key_type == b.key_type
    &&& a.semantic_search_enabled == b.semantic_search_enabled
    &&& a.embedding_fields == b.embedding_fields
}

impl DocStoreSchema {
    /// Whether a namespace can be created with this schema: its name is one, and every
    /// field is declared once. The name is looked at first, then the number of indices,
    /// then the fields.
    pub fn validate(&self) -> (r: Result<(), SchemaError>)
        ensures
            r is Ok <==> valid_namespace(self.namespace@) && declared_once(self.attributes@, self.indices@),
            r matches Err(e) ==> match e {
                SchemaError::InvalidNamespace => !valid_namespace(self.namespace@),
                SchemaError::TooManyIndices { count, max } => {
                    &&& valid_namespace(self.namespace@)
                    &&& count == self.indices@.len() > MAX_INDICES
                    &&& max == MAX_INDICES
                },
                SchemaError::DuplicateFieldName { name } => {
                    &&& valid_namespace(self.namespace@)
                    &&& self.indices@.len() <= MAX_INDICES
                    &&& is_first_repeat(field_names(self.attributes@, self.indices@), name@)
                },
                _ => false,
            },
    {
        proof {
            lemma_declared_once(self.attributes@, self.indices@);
        }
        if !is_valid_namespace(&self.namespace) {
            return Err(SchemaError::InvalidNamespace);
        }
        if self.indices.len() > MAX_INDICES {
            return Err(SchemaError::TooManyIndices { count: self.indices.len(), max: MAX_INDICES });
        }
        match first_repeat(&self.attributes, &self.indices) {
            Some(name) => Err(SchemaError::DuplicateFieldName { name }),
            None => Ok(()),
        }
    }

    /// Semantic search is switched on and has a field to embed.
    pub open spec fn semantic(&self) -> bool {
        self.semantic_search_enabled && self.embedding_fields@.len() > 0
    }

    /// Whether semantic search is switched on and has a field to embed.
    pub fn is_semantic_search_enabled(&self) -> (yes: bool)
        ensures
            yes == self.semantic(),
    {
        self.semantic_search_enabled && self.embedding_fields.len() > 0
    }

    /// Removes the first index on `field` and declares the field as an attribute,
    /// unless one of that name is declared. Returns the number of the namespace.
    pub fn drop_index(&mut self, field: &String) -> (r: Result<u32, DocStoreError>)
        ensures
            same_elsewhere(*final(self), *old(self)),
            r is Err ==> *final(self) == *old(self),
            (r matches Err(DocStoreError::MissingNsId { .. })) <==> old(self).ns_id is None,
            (r matches Err(DocStoreError::IndexNotFound { .. })) <==> old(self).ns_id is Some && !is_indexed(
                old(self).indices@,
                field@,
            ),
            r is Ok <==> old(self).ns_id is Some && is_indexed(old(self).indices@, field@),
            r matches Err(DocStoreError::MissingNsId { namespace }) ==> namespace@ == old(self).namespace@,
            r matches Err(DocStoreError::IndexNotFound { namespace, field: f }) ==> namespace@ == old(self).namespace@
                && f@ == field@,
            r is Ok ==> r->Ok_0 == old(self).ns_id->0,
            r is Ok ==> exists|at: int|
                #[trigger] is_first_index(old(self).indices@, field@, at) && final(self).indices@ == old(self).indices@.remove(at) && dropped(
                    old(self).attributes@,
                    final(self).attributes@,
                    old(self).indices@[at],
                ),
            declared_once(old(self).attributes@, old(self).indices@) ==> declared_once(
                final(self).attributes@,
                final(self).indices@,
            ),
    {
        let ns_id: u32 = match self.ns_id {
            Some(id) => id,
            None => {
                return Err(DocStoreError::MissingNsId { namespace: self.namespace.clone() });
            },
        };
        let at: usize = match first_index(&self.indices, field) {
            Some(at) => at,
            None => {
                return Err(
                    DocStoreError::IndexNotFound { namespace: self.namespace.clone(), field: field.clone() },
                );
            },
        };
        let ghost before = *self;
        let spec = self.indices.remove(at);
        if !has_attribute(&self.attributes, &spec.field) {
            let def = AttributeDef {
                name: spec.field.clone(),
                attr_type: index_type_to_attr_type(spec.index_type),
                description: Some(
                    "previously indexed; field data is still present in stored documents".to_owned(),
                ),
            };
            self.attributes.push(def);
        }
        proof {
            assert(is_first_index(before.indices@, field@, at as int));
            if !is_declared(before.attributes@, field@) {
                assert(self.attributes@.drop_last() =~= before.attributes@);
            }
            if declared_once(before.attributes@, before.indices@) {
                lemma_drop_keeps(before.attributes@, self.attributes@, before.indices@, at as int);
            }
        }
        Ok(ns_id)
    }

    /// Declares a new index: the field is no attribute any more and the index is
    /// the last one. `progress` is the recorded build of that field, if any.
    /// Returns the number of the namespace.
    pub fn add_index(&mut self, spec: IndexSpec, progress: &Option<DiskBuildProgress>) -> (r: Result<
        u32,
        DocStoreError,
    >)
        requires
            old(self).indices@.len() < usize::MAX,
        ensures
            same_elsewhere(*final(self), *old(self)),
            r is Err ==> *final(self) == *old(self),
            (r matches Err(DocStoreError::MissingNsId { .. })) <==> old(self).ns_id is None,
            (r matches Err(DocStoreError::IndexAlreadyExists { .. })) <==> old(self).ns_id is Some && is_indexed(
                old(self).indices@,
                spec.field@,
            ),
            (r matches Err(DocStoreError::Schema(SchemaError::TooManyIndices { .. }))) <==> old(self).ns_id is Some
                && !is_indexed(old(self).indices@, spec.field@) && old(self).indices@.len() >= MAX_INDICES,
            (r matches Err(DocStoreError::IndexBuildInProgress { .. })) <==> old(self).ns_id is Some && !is_indexed(
                old(self).indices@,
                spec.field@,
            ) && old(self).indices@.len() < MAX_INDICES && is_in_progress(*progress),
            r is Ok <==> old(self).ns_id is Some && !is_indexed(old(self).indices@, spec.field@) && old(self).indices@.len() < MAX_INDICES && !is_in_progress(*progress),
            r matches Err(DocStoreError::MissingNsId { namespace }) ==> namespace@ == old(self).namespace@,
            r matches Err(DocStoreError::IndexAlreadyExists { namespace, field }) ==> namespace@ == old(self).namespace@ && field@ == spec.field@,
            r matches Err(DocStoreError::Schema(SchemaError::TooManyIndices { count, max })) ==> count == old(self).indices@.len() + 1 && max == MAX_INDICES,
            r matches Err(DocStoreError::IndexBuildInProgress { namespace, field }) ==> namespace@ == old(self).namespace@ && field@ == spec.field@,
            r is Ok ==> r->Ok_0 == old(self).ns_id->0,
            r is Ok ==> final(self).indices@ == old(self).indices@.push(spec),
            r is Ok ==> final(self).attributes@ == without(old(self).attributes@, spec.field@),
            declared_once(old(self).attributes@, old(self).indices@) ==> declared_once(
                final(self).attributes@,
                final(self).indices@,
            ),
    {
        let ns_id: u32 = match self.ns_id {
            Some(id) => id,
            None => {
                return Err(DocStoreError::MissingNsId { namespace: self.namespace.clone() });
            },
        };
        if first_index(&self.indices, &spec.field).is_some() {
            return Err(
                DocStoreError::IndexAlreadyExists { namespace: self.namespace.clone(), field: spec.field },
            );
        }
        if self.indices.len() >= MAX_INDICES {
            let count: usize = self.indices.len() + 1;
            return Err(DocStoreError::Schema(SchemaError::TooManyIndices { count, max: MAX_INDICES }));
        }
        if build_in_progress(progress) {
            return Err(
                DocStoreError::IndexBuildInProgress { namespace: self.namespace.clone(), field: spec.field },
            );
        }
        let ghost before = *self;
        retain_others(&mut self.attributes, &spec.field);
        self.indices.push(spec);
        proof {
            if declared_once(before.attributes@, before.indices@) {
                lemma_add_keeps(before.attributes@, before.indices@, spec);
            }
        }
        Ok(ns_id)
    }

    /// Takes the attribute `field` out of the schema and out of the embedding
    /// fields; where no embedding field is left, semantic search is switched off.
    /// Returns whether that happened.
    pub fn remove_attribute(&mut self, field: &String) -> (r: Result<bool, DocStoreError>)
        ensures
            r is Err <==> is_indexed(old(self).indices@, field@),
            r is Err ==> *final(self) == *old(self),
            r is Err ==> (r->Err_0 matches DocStoreError::AttributeIsIndexed { namespace, field: f } && namespace@ == old(self).namespace@ && f@ == field@),
            r is Ok ==> final(self).attributes@ == without(old(self).attributes@, field@),
            r is Ok ==> final(self).embedding_fields@ == without_text(old(self).embedding_fields@, field@),
            r is Ok ==> (r->Ok_0 <==> embeds(old(self).embedding_fields@, field@) && final(self).embedding_fields@.len() == 0),
            r is Ok ==> final(self).semantic_search_enabled == (old(self).semantic_search_enabled && !r->Ok_0),
            final(self).indices == old(self).indices,
            final(self).namespace == old(self).namespace,
            final(self).ns_id == old(self).ns_id,
            final(self).key_type == old(self).key_type,
            declared_once(old(self).attributes@, old(self).indices@) ==> declared_once(
                final(self).attributes@,
                final(self).indices@,
            ),
    {
        if first_index(&self.indices, field).is_some() {
            return Err(
                DocStoreError::AttributeIsIndexed { namespace: self.namespace.clone(), field: field.clone() },
            );
        }
        let ghost before = *self;
        let embedded: bool = contains_text(self.embedding_fields.as_slice(), field);
        retain_others(&mut self.attributes, field);
        retain_other_texts(&mut self.embedding_fields, field);
        let disabled: bool = embedded && self.embedding_fields.len() == 0;
        if disabled {
            self.semantic_search_enabled = false;
        }
        proof {
            if declared_once(before.attributes@, before.indices@) {
                lemma_remove_keeps(before.attributes@, before.indices@, field@);
            }
        }
        Ok(disabled)
    }

    /// Switches semantic search off and forgets the embedding fields.
    pub fn disable_semantic_search(&mut self) -> (r: Result<(), DocStoreError>)
        ensures
            r is Err <==> !old(self).semantic_search_enabled && old(self).embedding_fields@.len() == 0,
            r is Err ==> *final(self) == *old(self),
            r is Err ==> (r->Err_0 matches DocStoreError::SemanticSearchNotEnabled { namespace } && namespace@ == old(self).namespace@),
            r is Ok ==> !final(self).semantic_search_enabled,
            r is Ok ==> final(self).embedding_fields@.len() == 0,
            final(self).attributes == old(self).attributes,
            final(self).indices == old(self).indices,
            final(self).namespace == old(self).namespace,
            final(self).ns_id == old(self).ns_id,
            final(self).key_type == old(self).key_type,
    {
        if !self.semantic_search_enabled && self.embedding_fields.len() == 0 {
            return Err(DocStoreError::SemanticSearchNotEnabled { namespace: self.namespace.clone() });
        }
        self.semantic_search_enabled = false;
        self.embedding_fields = Vec::new();
        Ok(())
    }

    /// Drops every index and returns them, so that they can be added again.
    pub fn drop_all_attribute_indices(&mut self) -> (r: Result<Vec<IndexSpec>, DocStoreError>)
        ensures
            same_elsewhere(*final(self), *old(self)),
            r is Err <==> old(self).ns_id is None && old(self).indices@.len() > 0,
            r is Err ==> *final(self) == *old(self),
            r is Err ==> (r->Err_0 matches DocStoreError::MissingNsId { namespace } && namespace@ == old(self).namespace@),
            r is Ok ==> spec_views(r->Ok_0@) == spec_views(old(self).indices@),
            r is Ok ==> final(self).indices@.len() == 0,
            r is Ok ==> all_dropped(old(self).attributes@, final(self).attributes@, old(self).indices@),
            declared_once(old(self).attributes@, old(self).indices@) ==> declared_once(
                final(self).attributes@,
                final(self).indices@,
            ),
    {
        let specs = copy_specs(&self.indices);
        let ghost before = *self;
        let ghost mut steps: Seq<Seq<AttributeDef>> = seq![self.attributes@];
        let n: usize = specs.len();
        let mut i: usize = 0;
        proof {
            assert(before.indices@.subrange(0, before.indices@.len() as int) =~= before.indices@);
            assert(spec_views(specs@).len() == spec_views(before.indices@).len());
        }
        while i < n
            invariant
                before == *old(self),
                i <= n == specs@.len() == before.indices@.len(),
                spec_views(specs@) == spec_views(before.indices@),
                same_elsewhere(*self, before),
                i > 0 ==> before.ns_id is Some,
                self.indices@ == before.indices@.subrange(i as int, n as int),
                i == 0 ==> *self == before,
                steps.len() == i + 1,
                steps[0] == before.attributes@,
                steps[i as int] == self.attributes@,
                forall|k: int| 0 <= k < i ==> dropped(#[trigger] steps[k], steps[k + 1], before.indices@[k]),
                declared_once(before.attributes@, before.indices@) ==> declared_once(self.attributes@, self.indices@),
            decreases n - i,
        {
            proof {
                assert(spec_views(specs@)[i as int] == spec_views(before.indices@)[i as int]);
                assert(self.indices@[0] == before.indices@[i as int]);
                assert(is_first_index(self.indices@, specs@[i as int].field@, 0));
            }
            match self.drop_index(&specs[i].field) {
                Ok(_) => {},
                Err(e) => {
                    return Err(e);
                },
            }
            proof {
                assert(self.indices@ =~= before.indices@.subrange(i + 1, n as int));
                steps = steps.push(self.attributes@);
            }
            i = i + 1;
        }
        proof {
            assert(chain(steps, before.indices@));
        }
        Ok(specs)
    }
}

/// `field` is one of the embedding fields.
pub open spec fn embeds(fields: Seq<String>, field: Seq<char>) -> bool {
    texts(fields).contains(field)
}

/// Fields and types of a list of indices.
pub open spec fn spec_views(specs: Seq<IndexSpec>) -> Seq<(Seq<char>, IndexType)> {
    Seq::new(specs.len(), |i: int| (specs[i].field@, specs[i].index_type))
}

fn copy_specs(specs: &Vec<IndexSpec>) -> (out: Vec<IndexSpec>)
    ensures
        spec_views(out@) == spec_views(specs@),
{
    let mut out: Vec<IndexSpec> = Vec::with_capacity(specs.len());
    let mut i: usize = 0;
    while i < specs.len()
        invariant
            i <= specs@.len(),
            out@.len() == i,
            forall|k: int| 0 <= k < i ==> #[trigger] spec_views(out@)[k] == spec_views(specs@)[k],
        decreases specs@.len() - i,
    {
        let ghost before = out@;
        out.push(IndexSpec { field: specs[i].field.clone(), index_type: specs[i].index_type });
        proof {
            assert forall|k: int| 0 <= k < i + 1 implies #[trigger] spec_views(out@)[k] == spec_views(specs@)[k] by {
                if k < i {
                    assert(spec_views(before)[k] == spec_views(specs@)[k]);
                }
            }
        }
        i = i + 1;
    }
    proof {
        assert(spec_views(out@) =~= spec_views(specs@));
    }
    out
}

/// Each step drops the next index.
pub open spec fn chain(steps: Seq<Seq<AttributeDef>>, indices: Seq<IndexSpec>) -> bool {
    &&& steps.len() == indices.len() + 1
    &&& forall|k: int| 0 <= k < indices.len() ==> dropped(#[trigger] steps[k], steps[k + 1], indices[k])
}

/// What dropping all indices, one by one, does to the attributes.
pub open spec fn all_dropped(before: Seq<AttributeDef>, after: Seq<AttributeDef>, indices: Seq<IndexSpec>) -> bool {
    exists|steps: Seq<Seq<AttributeDef>>|
        #[trigger] chain(steps, indices) && steps[0] == before && steps[indices.len() as int] == after
}

/// Removing an attribute keeps every field declared once.
pub proof fn lemma_remove_keeps(attributes: Seq<AttributeDef>, indices: Seq<IndexSpec>, name: Seq<char>)
    requires
        declared_once(attributes, indices),
    ensures
        declared_once(without(attributes, name), indices),
{
    lemma_without(attributes, name);
    let w = without(attributes, name);
    assert forall|i: int, j: int| 0 <= i < indices.len() && 0 <= j < w.len() implies (#[trigger] indices[i]).field@ != (
    #[trigger] w[j]).name@ by {
        assert(attributes.contains(w[j]));
        let m = choose|m: int| 0 <= m < attributes.len() && attributes[m] == w[j];
        assert(indices[i].field@ != attributes[m].name@);
    }
}

impl KvStoreSchema {
    /// Whether a namespace can be created with this schema: its name is one.
    pub fn validate(&self) -> (r: Result<(), SchemaError>)
        ensures
            r is Ok <==> valid_namespace(self.namespace@),
            r matches Err(e) ==> e == SchemaError::InvalidNamespace,
    {
        if is_valid_namespace(&self.namespace) {
            Ok(())
        } else {
            Err(SchemaError::InvalidNamespace)
        }
    }

    /// Semantic search is switched on and the values are texts.
    pub open spec fn semantic(&self) -> bool {
        self.semantic_search_enabled && self.value_type == KvValueType::Str
    }

    /// Whether semantic search is switched on and the values are texts.
    pub fn is_semantic_search_enabled(&self) -> (yes: bool)
        ensures
            yes == self.semantic(),
    {
        self.semantic_search_enabled && self.value_type == KvValueType::Str
    }
}

/// What dropping `spec` does to the attributes.
pub open spec fn dropped(before: Seq<AttributeDef>, after: Seq<AttributeDef>, spec: IndexSpec) -> bool {
    if is_declared(before, spec.field@) {
        after == before
    } else {
        &&& after.len() == before.len() + 1
        &&& after.drop_last() == before
        &&& demotes(after.last(), spec)
    }
}

proof fn lemma_drop_keeps(before: Seq<AttributeDef>, after: Seq<AttributeDef>, indices: Seq<IndexSpec>, at: int)
    requires
        declared_once(before, indices),
        0 <= at < indices.len(),
        dropped(before, after, indices[at]),
    ensures
        declared_once(after, indices.remove(at)),
{
    let rest = indices.remove(at);
    assert forall|i: int, j: int| 0 <= i < j < rest.len() implies (#[trigger] rest[i]).field@ != (
    #[trigger] rest[j]).field@ by {
        let a = if i < at {
            i
        } else {
            i + 1
        };
        let b = if j < at {
            j
        } else {
            j + 1
        };
        assert(indices[a].field@ != indices[b].field@);
    }
    assert forall|i: int, j: int| 0 <= i < rest.len() && 0 <= j < after.len() implies (#[trigger] rest[i]).field@ != (
    #[trigger] after[j]).name@ by {
        let a = if i < at {
            i
        } else {
            i + 1
        };
        if j < before.len() {
            assert(before[j] == after[j]);
            assert(indices[a].field@ != before[j].name@);
        } else if a < at {
            assert(indices[a].field@ != indices[at].field@);
        } else {
            assert(indices[at].field@ != indices[a].field@);
        }
    }
    assert forall|i: int, j: int| 0 <= i < j < after.len() implies (#[trigger] after[i]).name@ != (
    #[trigger] after[j]).name@ by {
        assert(before[i] == after[i]);
        if j < before.len() {
            assert(before[j] == after[j]);
            assert(before[i].name@ != before[j].name@);
        } else {
            assert(before[i].name@ != indices[at].field@);
        }
    }
}

proof fn lemma_add_keeps(attributes: Seq<AttributeDef>, indices: Seq<IndexSpec>, spec: IndexSpec)
    requires
        declared_once(attributes, indices),
        !is_indexed(indices, spec.field@),
        indices.len() < MAX_INDICES,
    ensures
        declared_once(without(attributes, spec.field@), indices.push(spec)),
{
    lemma_without(attributes, spec.field@);
    let (w, all) = (without(attributes, spec.field@), indices.push(spec));
    assert forall|i: int, j: int| 0 <= i < j < all.len() implies (#[trigger] all[i]).field@ != (
    #[trigger] all[j]).field@ by {
        if j < indices.len() {
            assert(indices[i].field@ != indices[j].field@);
        } else {
            assert(indices[i].field@ != spec.field@);
        }
    }
    assert forall|i: int, j: int| 0 <= i < all.len() && 0 <= j < w.len() implies (#[trigger] all[i]).field@ != (
    #[trigger] w[j]).name@ by {
        assert(attributes.contains(w[j]));
        let m = choose|m: int| 0 <= m < attributes.len() && attributes[m] == w[j];
        if i < indices.len() {
            assert(indices[i].field@ != attributes[m].name@);
        }
    }
}

proof fn lemma_without_absent(attributes: Seq<AttributeDef>, name: Seq<char>)
    requires
        !is_declared(attributes, name),
    ensures
        without(attributes, name) == attributes,
    decreases attributes.len(),
{
    if attributes.len() > 0 {
        let front = attributes.drop_last();
        assert forall|i: int| 0 <= i < front.len() implies (#[trigger] front[i]).name@ != name by {
            assert(attributes[i].name@ != name);
        }
        assert(attributes[attributes.len() - 1].name@ != name);
        lemma_without_absent(front, name);
        assert(front.push(attributes.last()) =~= attributes);
    } else {
        assert(without(attributes, name) =~= attributes);
    }
}

/// An index that was dropped and is added again leaves the attributes as they were.
pub proof fn law_dropped_index_comes_back(before: Seq<AttributeDef>, after: Seq<AttributeDef>, spec: IndexSpec)
    requires
        !is_declared(before, spec.field@),
        dropped(before, after, spec),
    ensures
        without(after, spec.field@) == before,
{
    lemma_without_absent(before, spec.field@);
}

/// The attributes with another name, in their order.
pub open spec fn not_named(attributes: Seq<AttributeDef>, name: Seq<char>) -> Seq<AttributeDef> {
    attributes.filter(|a: AttributeDef| a.name@ != name)
}

/// Taking a name out keeps all other attributes, and all other texts, in their order.
pub proof fn law_the_others_stay(attributes: Seq<AttributeDef>, names: Seq<String>, name: Seq<char>)
    ensures
        without(attributes, name) == not_named(attributes, name),
        without_text(names, name) == names.filter(|n: String| n@ != name),
    decreases attributes.len() + names.len(),
{
    reveal(Seq::filter);
    if attributes.len() > 0 {
        law_the_others_stay(attributes.drop_last(), names, name);
    } else {
        assert(without(attributes, name) =~= not_named(attributes, name));
        if names.len() > 0 {
            law_the_others_stay(attributes, names.drop_last(), name);
        } else {
            assert(without_text(names, name) =~= names.filter(|n: String| n@ != name));
        }
    }
}

/// A field is indexed where one of the indices is on it, and declared where one of the
/// attributes has its name; the first one counts as the others do, and the last.
pub proof fn law_fields_are_found(
    attributes: Seq<AttributeDef>,
    a: AttributeDef,
    indices: Seq<IndexSpec>,
    s: IndexSpec,
    field: Seq<char>,
)
    ensures
        !is_indexed(Seq::<IndexSpec>::empty(), field),
        !is_declared(Seq::<AttributeDef>::empty(), field),
        is_indexed(indices.push(s), field) <==> is_indexed(indices, field) || s.field@ == field,
        is_declared(attributes.push(a), field) <==> is_declared(attributes, field) || a.name@ == field,
{
    let (p, q) = (indices.push(s), attributes.push(a));
    if is_indexed(indices, field) {
        let i = choose|i: int| 0 <= i < indices.len() && (#[trigger] indices[i]).field@ == field;
        assert(p[i].field@ == field);
    }
    if s.field@ == field {
        assert(p[indices.len() as int].field@ == field);
    }
    if is_indexed(p, field) && s.field@ != field {
        let i = choose|i: int| 0 <= i < p.len() && (#[trigger] p[i]).field@ == field;
        assert(indices[i].field@ == field);
    }
    if is_declared(attributes, field) {
        let i = choose|i: int| 0 <= i < attributes.len() && (#[trigger] attributes[i]).name@ == field;
        assert(q[i].name@ == field);
    }
    if a.name@ == field {
        assert(q[attributes.len() as int].name@ == field);
    }
    if is_declared(q, field) && a.name@ != field {
        let i = choose|i: int| 0 <= i < q.len() && (#[trigger] q[i]).name@ == field;
        assert(attributes[i].name@ == field);
    }
}

/// Fields are declared once exactly where there are five indices at most and the names
/// of all attributes and indices together are pairwise different.
pub proof fn law_declared_once(attributes: Seq<AttributeDef>, indices: Seq<IndexSpec>)
    ensures
        declared_once(attributes, indices) <==> indices.len() <= 5 && (Seq::new(
            attributes.len(),
            |i: int| attributes[i].name@,
        ) + Seq::new(indices.len(), |i: int| indices[i].field@)).no_duplicates(),
        field_names(attributes, indices).len() == attributes.len() + indices.len(),
        forall|i: int|
            0 <= i < attributes.len() ==> field_names(attributes, indices)[i] == (#[trigger] attributes[i]).name@,
        forall|i: int|
            0 <= i < indices.len() ==> field_names(attributes, indices)[attributes.len() + i] == (
            #[trigger] indices[i]).field@,
{
    lemma_declared_once(attributes, indices);
    assert(field_names(attributes, indices) =~= Seq::new(attributes.len(), |i: int| attributes[i].name@) + Seq::new(
        indices.len(),
        |i: int| indices[i].field@,
    ));
}

/// The name that is complained about is the one that completes the first repetition:
/// there is one exactly where some name repeats another, and only one.
pub proof fn law_first_repeat(names: Seq<Seq<char>>, a: Seq<char>, b: Seq<char>)
    ensures
        is_first_repeat(names, a) && is_first_repeat(names, b) ==> a == b,
        is_first_repeat(names, a) ==> exists|i: int, j: int|
            0 <= i < j < names.len() && #[trigger] names[i] == a && #[trigger] names[j] == a && names.take(
                j,
            ).no_duplicates(),
{
    if is_first_repeat(names, a) {
        let j = choose|j: int|
            0 <= j < names.len() && #[trigger] names[j] == a && names.take(j).contains(a) && names.take(
                j,
            ).no_duplicates();
        let i = choose|i: int| 0 <= i < j && names.take(j)[i] == a;
        assert(names[i] == a);
        if is_first_repeat(names, b) {
            let k = choose|k: int|
                0 <= k < names.len() && #[trigger] names[k] == b && names.take(k).contains(b) && names.take(
                    k,
                ).no_duplicates();
            let h = choose|h: int| 0 <= h < k && names.take(k)[h] == b;
            assert(names[h] == b);
            if j < k {
                assert(names.take(k)[i] == a && names.take(k)[j] == a);
            } else if k < j {
                assert(names.take(j)[h] == b && names.take(j)[k] == b);
            }
        }
    }
}

/// A namespace is named by letters, digits, `_` and `-`, and by one character at least.
pub proof fn law_names_of_namespaces(name: Seq<char>)
    ensures
        valid_namespace(name) <==> name.len() > 0 && forall|i: int|
            #![trigger name[i]]
            0 <= i < name.len() ==> (0x30 <= name[i] as u32 <= 0x39) || (0x41 <= name[i] as u32 <= 0x5a) || (0x61
                <= name[i] as u32 <= 0x7a) || name[i] == '_' || name[i] == '-',
{
    assert forall|i: int| #![trigger name[i]] 0 <= i < name.len() implies (is_name_char(name[i]) <==> (0x30 <= name[i] as u32
        <= 0x39) || (0x41 <= name[i] as u32 <= 0x5a) || (0x61 <= name[i] as u32 <= 0x7a) || name[i] == '_' || name[i]
        == '-') by {
        law_name_character(name[i]);
    }
}

/// Letters, digits, `_` and `-` can stand in the name of a namespace.
pub proof fn law_name_character(c: char)
    ensures
        is_name_char(c) <==> (0x30 <= c as u32 <= 0x39) || (0x41 <= c as u32 <= 0x5a) || (0x61 <= c as u32 <= 0x7a) || c
            == '_' || c == '-',
{
}

/// The types of an index and of an attribute agree.
pub proof fn law_types_agree(t: IndexType)
    ensures
        attr_type_of(t) is Bool <==> t is Bool,
        attr_type_of(t) is Int <==> t is Int,
        attr_type_of(t) is Str <==> t is Str,
{
}

/// A dropped index leaves all attributes as they were. Its field becomes one more, with
/// its type and a remark, unless it was one already.
pub proof fn law_dropped_index_becomes_an_attribute(before: Seq<AttributeDef>, after: Seq<AttributeDef>, spec: IndexSpec)
    requires
        dropped(before, after, spec),
    ensures
        is_declared(after, spec.field@),
        before.len() <= after.len() <= before.len() + 1,
        forall|i: int| 0 <= i < before.len() ==> #[trigger] after[i] == before[i],
        after.len() == before.len() <==> is_declared(before, spec.field@),
        after.len() > before.len() ==> {
            let d = after[before.len() as int];
            &&& d.name@ == spec.field@
            &&& d.attr_type == attr_type_of(spec.index_type)
            &&& d.description is Some
            &&& d.description->0@ == "previously indexed; field data is still present in stored documents"@
        },
{
    if !is_declared(before, spec.field@) {
        assert(after[before.len() as int].name@ == spec.field@);
        assert forall|i: int| 0 <= i < before.len() implies #[trigger] after[i] == before[i] by {
            assert(after.drop_last()[i] == before[i]);
        }
    }
}

proof fn lemma_chain(steps: Seq<Seq<AttributeDef>>, indices: Seq<IndexSpec>, n: int)
    requires
        chain(steps, indices),
        0 <= n <= indices.len(),
    ensures
        steps[0].len() <= steps[n].len(),
        forall|i: int| 0 <= i < steps[0].len() ==> #[trigger] steps[n][i] == steps[0][i],
        forall|k: int| 0 <= k < n ==> is_declared(steps[n], (#[trigger] indices[k]).field@),
    decreases n,
{
    if n > 0 {
        lemma_chain(steps, indices, n - 1);
        let (a, b) = (steps[n - 1], steps[n]);
        assert(dropped(steps[n - 1], steps[n - 1 + 1], indices[n - 1]));
        law_dropped_index_becomes_an_attribute(a, b, indices[n - 1]);
        assert forall|i: int| 0 <= i < steps[0].len() implies #[trigger] b[i] == steps[0][i] by {
            assert(a[i] == steps[0][i]);
        }
        assert forall|k: int| 0 <= k < n implies is_declared(b, (#[trigger] indices[k]).field@) by {
            if k < n - 1 {
                let i = choose|i: int| 0 <= i < a.len() && (#[trigger] a[i]).name@ == indices[k].field@;
                assert(b[i].name@ == indices[k].field@);
            }
        }
    }
}

/// Once all indices are dropped, every field that was indexed is an attribute, and the
/// attributes that there were are as they were.
pub proof fn law_dropped_indices_become_attributes(
    before: Seq<AttributeDef>,
    after: Seq<AttributeDef>,
    indices: Seq<IndexSpec>,
)
    requires
        all_dropped(before, after, indices),
    ensures
        before.len() <= after.len(),
        forall|i: int| 0 <= i < before.len() ==> #[trigger] after[i] == before[i],
        forall|k: int| 0 <= k < indices.len() ==> is_declared(after, (#[trigger] indices[k]).field@),
{
    let steps = choose|steps: Seq<Seq<AttributeDef>>|
        #[trigger] chain(steps, indices) && steps[0] == before && steps[indices.len() as int] == after;
    lemma_chain(steps, indices, indices.len() as int);
}

/// A build is in progress exactly where its record says so.
pub proof fn law_in_progress(record: DiskBuildProgress)
    ensures
        is_in_progress(Some(record)) <==> record.status@ == "in_progress"@,
        !is_in_progress(None),
{
}

/// Semantic search is on where it is switched on and there is a text to embed: an
/// embedding field of a document store, texts as the values of a key-value store.
pub proof fn law_semantic_search_is_on(doc: DocStoreSchema, kv: KvStoreSchema)
    ensures
        doc.semantic() <==> doc.semantic_search_enabled && doc.embedding_fields@.len() > 0,
        kv.semantic() <==> kv.semantic_search_enabled && kv.value_type is Str,
{
}

/// Two schemas that agree elsewhere differ in their attributes and indices at most.
pub proof fn law_agree_elsewhere(a: DocStoreSchema, b: DocStoreSchema)
    ensures
        same_elsewhere(a, b) && a.attributes == b.attributes && a.indices == b.indices <==> a == b,
        same_elsewhere(a, b) <==> a.namespace == b.namespace && a.ns_id == b.ns_id && a.key_type == b.key_type
            && a.semantic_search_enabled == b.semantic_search_enabled && a.embedding_fields == b.embedding_fields,
{
}

/// The fields and types of a list of indices are theirs, all of them and in their order;
/// an embedding field is one of the embedding fields.
pub proof fn law_index_models(specs: Seq<IndexSpec>, fields: Seq<String>, field: Seq<char>, i: int)
    ensures
        spec_views(specs).len() == specs.len(),
        0 <= i < specs.len() ==> spec_views(specs)[i] == (specs[i].field@, specs[i].index_type),
        embeds(fields, field) <==> exists|k: int| 0 <= k < fields.len() && (#[trigger] fields[k])@ == field,
{
    if embeds(fields, field) {
        let k = choose|k: int| 0 <= k < texts(fields).len() && texts(fields)[k] == field;
        assert(fields[k]@ == field);
    }
    if exists|k: int| 0 <= k < fields.len() && (#[trigger] fields[k])@ == field {
        let k = choose|k: int| 0 <= k < fields.len() && (#[trigger] fields[k])@ == field;
        assert(texts(fields)[k] == field);
    }
}

/// The first index on a field is on it, and none before it is.
pub proof fn law_first_index(indices: Seq<IndexSpec>, field: Seq<char>, at: int)
    ensures
        is_first_index(indices, field, at) <==> 0 <= at < indices.len() && indices[at].field@ == field && forall|i: int|
            0 <= i < at ==> (#[trigger] indices[i]).field@ != field,
{
}

/// A schema is accepted exactly where its name consists of letters, digits, `_` and `-`,
/// it has five indices at most, and no two of its attributes and indices have the same
/// name. One of a key-value store is accepted exactly where its name is.
pub proof fn law_validated_schemas(
    doc: &DocStoreSchema,
    r: Result<(), SchemaError>,
    kv: &KvStoreSchema,
    s: Result<(), SchemaError>,
)
    requires
        call_ensures(DocStoreSchema::validate, (doc,), r),
        call_ensures(KvStoreSchema::validate, (kv,), s),
    ensures
        r is Ok <==> valid_namespace(doc.namespace@) && doc.indices@.len() <= 5 && (Seq::new(
            doc.attributes@.len(),
            |i: int| doc.attributes@[i].name@,
        ) + Seq::new(doc.indices@.len(), |i: int| doc.indices@[i].field@)).no_duplicates(),
        !valid_namespace(doc.namespace@) ==> r is Err && r->Err_0 is InvalidNamespace,
        valid_namespace(doc.namespace@) && doc.indices@.len() > 5 ==> r is Err && r->Err_0 is TooManyIndices,
        valid_namespace(doc.namespace@) && doc.indices@.len() <= 5 && r is Err ==> r->Err_0 is DuplicateFieldName,
        s is Ok <==> valid_namespace(kv.namespace@),
{
    law_declared_once(doc.attributes@, doc.indices@);
    assert((Seq::new(doc.attributes@.len(), |i: int| doc.attributes@[i].name@) + Seq::new(
        doc.indices@.len(),
        |i: int| doc.indices@[i].field@,
    )) =~= field_names(doc.attributes@, doc.indices@));
    lemma_declared_once(doc.attributes@, doc.indices@);
}

/// Adding an index: it is refused where the namespace was never created, the field is
/// indexed already, there are five indices, or a build of it is in progress, in that
/// order. Otherwise it becomes the last index, its field is no attribute any more, and all
/// else stays.
pub proof fn law_add_index(
    s: &mut DocStoreSchema,
    spec: IndexSpec,
    progress: Option<DiskBuildProgress>,
    r: Result<u32, DocStoreError>,
)
    requires
        old(s).indices@.len() < usize::MAX,
        call_ensures(DocStoreSchema::add_index, (s, spec, &progress), r),
    ensures
        r is Ok <==> old(s).ns_id is Some && !is_indexed(old(s).indices@, spec.field@) && old(s).indices@.len() < 5 && !(
        progress is Some && progress->0.status@ == "in_progress"@),
        r is Ok ==> final(s).indices@.len() == old(s).indices@.len() + 1 && final(s).indices@.last() == spec && final(s).indices@.drop_last() == old(s).indices@,
        r is Ok ==> final(s).attributes@ == not_named(old(s).attributes@, spec.field@),
        r matches Ok(id) ==> old(s).ns_id == Some(id),
        r is Err ==> *final(s) == *old(s),
        old(s).ns_id is None ==> r is Err && r->Err_0 is MissingNsId,
        old(s).ns_id is Some && is_indexed(old(s).indices@, spec.field@) ==> r is Err && r->Err_0 is IndexAlreadyExists,
        final(s).namespace == old(s).namespace && final(s).key_type == old(s).key_type && final(s).embedding_fields
            == old(s).embedding_fields && final(s).semantic_search_enabled == old(s).semantic_search_enabled,
{
    law_the_others_stay(old(s).attributes@, Seq::empty(), spec.field@);
    if r is Ok {
        assert(final(s).indices@.drop_last() =~= old(s).indices@);
    }
}

/// Dropping an index: it is refused where the namespace was never created or the field is
/// not indexed. Otherwise that index is gone and the others stay in order, its field is an
/// attribute, and the attributes that there were stay.
pub proof fn law_drop_index(s: &mut DocStoreSchema, field: &String, r: Result<u32, DocStoreError>)
    requires
        call_ensures(DocStoreSchema::drop_index, (s, field), r),
    ensures
        r is Ok <==> old(s).ns_id is Some && is_indexed(old(s).indices@, field@),
        r is Ok ==> final(s).indices@.len() == old(s).indices@.len() - 1 && is_declared(final(s).attributes@, field@)
            && old(s).attributes@.len() <= final(s).attributes@.len() && (forall|i: int|
            0 <= i < old(s).attributes@.len() ==> #[trigger] final(s).attributes@[i] == old(s).attributes@[i]),
        r is Ok ==> exists|at: int|
            0 <= at < old(s).indices@.len() && old(s).indices@[at].field@ == field@ && final(s).indices@
                == #[trigger] old(s).indices@.remove(at),
        r is Err ==> *final(s) == *old(s),
        final(s).namespace == old(s).namespace && final(s).key_type == old(s).key_type && final(s).embedding_fields
            == old(s).embedding_fields && final(s).semantic_search_enabled == old(s).semantic_search_enabled,
{
    if r is Ok {
        let at = choose|at: int|
            #[trigger] is_first_index(old(s).indices@, field@, at) && final(s).indices@ == old(s).indices@.remove(at)
                && dropped(old(s).attributes@, final(s).attributes@, old(s).indices@[at]);
        law_dropped_index_becomes_an_attribute(old(s).attributes@, final(s).attributes@, old(s).indices@[at]);
        assert(final(s).indices@ == old(s).indices@.remove(at));
    }
}

/// Dropping all indices leaves none, gives them all back in order, and makes every one of
/// their fields an attribute.
pub proof fn law_drop_all_indices(s: &mut DocStoreSchema, r: Result<Vec<IndexSpec>, DocStoreError>, k: int)
    requires
        call_ensures(DocStoreSchema::drop_all_attribute_indices, (s,), r),
    ensures
        r is Err <==> old(s).ns_id is None && old(s).indices@.len() > 0,
        r is Ok ==> final(s).indices@.len() == 0,
        r matches Ok(out) ==> out@.len() == old(s).indices@.len(),
        r matches Ok(out) ==> (0 <= k < out@.len() ==> out@[k].field@ == old(s).indices@[k].field@ && out@[k].index_type
            == old(s).indices@[k].index_type && is_declared(final(s).attributes@, out@[k].field@)),
        r is Ok ==> old(s).attributes@.len() <= final(s).attributes@.len() && forall|i: int|
            0 <= i < old(s).attributes@.len() ==> #[trigger] final(s).attributes@[i] == old(s).attributes@[i],
        final(s).namespace == old(s).namespace && final(s).key_type == old(s).key_type && final(s).embedding_fields
            == old(s).embedding_fields && final(s).semantic_search_enabled == old(s).semantic_search_enabled,
{
    if let Ok(out) = r {
        law_dropped_indices_become_attributes(old(s).attributes@, final(s).attributes@, old(s).indices@);
        let (a, b) = (spec_views(out@), spec_views(old(s).indices@));
        assert(a.len() == out@.len() && b.len() == old(s).indices@.len());
        if 0 <= k < out@.len() {
            assert(a[k] == b[k]);
        }
    }
}

/// Removing an attribute: it is refused where the field is indexed. Otherwise neither the
/// attributes nor the embedding fields have it any more, and the others stay; where that
/// took the last embedding field, semantic search is off, and the answer says so.
pub proof fn law_remove_attribute(s: &mut DocStoreSchema, field: &String, r: Result<bool, DocStoreError>)
    requires
        call_ensures(DocStoreSchema::remove_attribute, (s, field), r),
    ensures
        r is Err <==> is_indexed(old(s).indices@, field@),
        r is Err ==> r->Err_0 is AttributeIsIndexed && *final(s) == *old(s),
        r is Ok ==> final(s).attributes@ == not_named(old(s).attributes@, field@),
        r is Ok ==> texts_but(old(s).embedding_fields@, field@) == final(s).embedding_fields@,
        r matches Ok(off) ==> (off <==> old(s).embedding_fields@.len() > 0 && final(s).embedding_fields@.len() == 0),
        r matches Ok(off) ==> final(s).semantic_search_enabled == (old(s).semantic_search_enabled && !off),
        final(s).indices == old(s).indices && final(s).namespace == old(s).namespace && final(s).ns_id == old(s).ns_id
            && final(s).key_type == old(s).key_type,
{
    law_the_others_stay(old(s).attributes@, old(s).embedding_fields@, field@);
    lemma_texts_but(old(s).embedding_fields@, field@);
}

/// The texts other than that one, in their order.
pub open spec fn texts_but(names: Seq<String>, name: Seq<char>) -> Seq<String> {
    names.filter(|n: String| n@ != name)
}

/// Nothing is left without a text exactly where there were only such texts.
proof fn lemma_texts_but(names: Seq<String>, name: Seq<char>)
    ensures
        without_text(names, name) == texts_but(names, name),
        names.len() > 0 && without_text(names, name).len() == 0 ==> embeds(names, name),
        embeds(names, name) ==> names.len() > 0,
    decreases names.len(),
{
    reveal(Seq::filter);
    if names.len() > 0 {
        lemma_texts_but(names.drop_last(), name);
        if names.last()@ == name {
            assert(texts(names)[names.len() - 1] == name);
        }
    } else {
        assert(without_text(names, name) =~= texts_but(names, name));
    }
}

/// Switching semantic search off: it is refused where there is nothing to switch off.
pub proof fn law_disable_semantic_search(s: &mut DocStoreSchema, r: Result<(), DocStoreError>)
    requires
        call_ensures(DocStoreSchema::disable_semantic_search, (s,), r),
    ensures
        r is Err <==> !old(s).semantic_search_enabled && old(s).embedding_fields@.len() == 0,
        r is Ok ==> !final(s).semantic_search_enabled && final(s).embedding_fields@.len() == 0,
        final(s).attributes == old(s).attributes && final(s).indices == old(s).indices && final(s).namespace
            == old(s).namespace && final(s).ns_id == old(s).ns_id && final(s).key_type == old(s).key_type,
{
}

/// The types of an index, of its attribute and of its values in the engine agree.
pub proof fn law_converted_types(t: IndexType, a: AttributeType, v: IndexValueType, d: &DocStoreSchema, on: bool, k: &KvStoreSchema, kon: bool)
    requires
        call_ensures(index_type_to_attr_type, (t,), a),
        call_ensures(to_ivt, (t,), v),
        call_ensures(DocStoreSchema::is_semantic_search_enabled, (d,), on),
        call_ensures(KvStoreSchema::is_semantic_search_enabled, (k,), kon),
    ensures
        t is Bool <==> a is Bool,
        t is Int <==> a is Int,
        t is Str <==> a is Str,
        t is Bool <==> v is Bool,
        t is Int <==> v is Int,
        t is Str <==> v is Str,
        on <==> d.semantic_search_enabled && d.embedding_fields@.len() > 0,
        kon <==> k.semantic_search_enabled && k.value_type is Str,
{
}

/// A build is resumed behind the key of its record exactly where the record says that it
/// is in progress and has a key.
pub proof fn law_resume_point(record: DiskBuildProgress, key: Option<Vec<u8>>, yes: bool)
    requires
        call_ensures(resume_point, (&Some(record),), key),
        call_ensures(build_in_progress, (&Some(record),), yes),
    ensures
        yes <==> record.status@ == "in_progress"@,
        key is Some <==> record.status@ == "in_progress"@ && record.last_key_hex is Some && is_hex(record.last_key_hex->0@),
        key is Some ==> key->0@ == unhex(record.last_key_hex->0@),
{
}

} // verus!
