//! Stored documents as the store reads them: the fields of the outermost object.

use vstd::prelude::*;

use super::schema::{IndexType, IndexValue};
use crate::text::texts;

verus! {

/// The value of one field, as far as indexing and embedding look at it.
#[derive(Debug, Clone)]
pub enum FieldValue {
    Null,
    Bool(bool),
    /// A number; its value where it is a 64-bit integer.
    Number(Option<i64>),
    Text(String),
    Array,
    Object,
}

/// One field of a document.
#[derive(Debug, Clone)]
pub struct DocumentField {
    pub name: String,
    pub value: FieldValue,
}

/// Model of a [`FieldValue`].
pub enum FieldView {
    Null,
    Bool(bool),
    Number(Option<i64>),
    Text(Seq<char>),
    Array,
    Object,
}

impl View for FieldValue {
    type V = FieldView;

    open spec fn view(&self) -> FieldView {
        match *self {
            FieldValue::Null => FieldView::Null,
            FieldValue::Bool(b) => FieldView::Bool(b),
            FieldValue::Number(n) => FieldView::Number(n),
            FieldValue::Text(s) => FieldView::Text(s@),
            FieldValue::Array => FieldView::Array,
            FieldValue::Object => FieldView::Object,
        }
    }
}

/// Names and values of a list of fields.
pub open spec fn field_views(fields: Seq<DocumentField>) -> Seq<(Seq<char>, FieldView)> {
    Seq::new(fields.len(), |i: int| (fields[i].name@, fields[i].value@))
}

/// A JSON text: an object with its fields, or any other value.
#[derive(Debug, Clone)]
pub enum Json {
    Fields(Vec<DocumentField>),
    Plain(FieldValue),
}

/// Model of a [`Json`].
pub enum JsonView {
    Fields(Seq<(Seq<char>, FieldView)>),
    Plain(FieldView),
}

impl View for Json {
    type V = JsonView;

    open spec fn view(&self) -> JsonView {
        match *self {
            Json::Fields(fields) => JsonView::Fields(field_views(fields@)),
            Json::Plain(value) => JsonView::Plain(value@),
        }
    }
}

/// What a JSON text holds, or why the bytes are none.
pub uninterp spec fn parsed_json(bytes: Seq<u8>) -> Result<JsonView, Seq<char>>;

/// Parse a JSON text with `serde_json::from_slice`.
///
/// Trusted: whether the bytes are JSON, what they hold and the message of the error
/// depend on the bytes alone.
#[verifier::external_body]
pub(crate) fn parse_json(bytes: &[u8]) -> (r: Result<Json, String>)
    ensures
        match r {
            Ok(json) => parsed_json(bytes@) == Ok::<JsonView, Seq<char>>(json@),
            Err(message) => parsed_json(bytes@) == Err::<JsonView, Seq<char>>(message@),
        },
{
    let plain = |value: serde_json::Value| match value {
        serde_json::Value::Null => FieldValue::Null,
        serde_json::Value::Bool(b) => FieldValue::Bool(b),
        serde_json::Value::Number(n) => FieldValue::Number(n.as_i64()),
        serde_json::Value::String(s) => FieldValue::Text(s),
        serde_json::Value::Array(_) => FieldValue::Array,
        serde_json::Value::Object(_) => FieldValue::Object,
    };
    match serde_json::from_slice(bytes).map_err(|e| e.to_string())? {
        serde_json::Value::Object(fields) => {
            Ok(Json::Fields(fields.into_iter().map(|(name, v)| DocumentField { name, value: plain(v) }).collect()))
        },
        value => Ok(Json::Plain(plain(value))),
    }
}

/// The fields of the outermost object of a JSON text, without any where it is not an
/// object, or why the bytes are no JSON.
pub open spec fn parsed_document(bytes: Seq<u8>) -> Result<Seq<(Seq<char>, FieldView)>, Seq<char>> {
    match parsed_json(bytes) {
        Ok(JsonView::Fields(fields)) => Ok(fields),
        Ok(JsonView::Plain(_)) => Ok(seq![]),
        Err(message) => Err(message),
    }
}

/// The fields of a document; none at all where the bytes are no JSON.
pub open spec fn parsed_fields(bytes: Seq<u8>) -> Option<Seq<(Seq<char>, FieldView)>> {
    match parsed_document(bytes) {
        Ok(fields) => Some(fields),
        Err(_) => None,
    }
}

/// The fields of a stored document.
pub fn parse_document(bytes: &[u8]) -> (r: Result<Vec<DocumentField>, String>)
    ensures
        match r {
            Ok(fields) => parsed_document(bytes@) == Ok::<Seq<(Seq<char>, FieldView)>, Seq<char>>(field_views(fields@)),
            Err(message) => parsed_document(bytes@) == Err::<Seq<(Seq<char>, FieldView)>, Seq<char>>(message@),
        },
{
    match parse_json(bytes) {
        Ok(Json::Fields(fields)) => Ok(fields),
        Ok(Json::Plain(_)) => {
            let none: Vec<DocumentField> = Vec::new();
            assert(field_views(none@) =~= seq![]);
            Ok(none)
        },
        Err(message) => Err(message),
    }
}

/// The value of the field `name`.
pub open spec fn lookup(fields: Seq<(Seq<char>, FieldView)>, name: Seq<char>) -> Option<FieldView>
    decreases fields.len(),
{
    if fields.len() == 0 {
        None
    } else if fields.last().0 == name {
        Some(fields.last().1)
    } else {
        lookup(fields.drop_last(), name)
    }
}

/// Position of the field `name`.
fn find(fields: &[DocumentField], name: &String) -> (at: Option<usize>)
    ensures
        at is Some <==> lookup(field_views(fields@), name@) is Some,
        at is Some ==> at->0 < fields@.len() && lookup(field_views(fields@), name@) == Some(fields@[at->0 as int].value@),
        at is Some ==> fields@[at->0 as int].name@ == name@,
        forall|j: int|
            (match at {
                Some(a) => a as int,
                None => -1int,
            }) < j < fields@.len() ==> (#[trigger] fields@[j]).name@ != name@,
{
    let ghost views = field_views(fields@);
    let mut i: usize = fields.len();
    proof {
        assert(views.take(i as int) =~= views);
    }
    while i > 0
        invariant
            i <= fields@.len(),
            views == field_views(fields@),
            lookup(views, name@) == lookup(views.take(i as int), name@),
            forall|j: int| i <= j < fields@.len() ==> (#[trigger] fields@[j]).name@ != name@,
        decreases i,
    {
        proof {
            assert(views.take(i as int).drop_last() =~= views.take(i - 1));
            assert(views.take(i as int).last() == views[i - 1]);
        }
        if fields[i - 1].name == *name {
            return Some(i - 1);
        }
        i = i - 1;
    }
    None
}

/// The index value that a field value gives under an index of that type.
pub open spec fn index_value(value: FieldView, index_type: IndexType) -> Option<IndexValueView> {
    match (index_type, value) {
        (IndexType::Bool, FieldView::Bool(b)) => Some(IndexValueView::Bool(b)),
        (IndexType::Int, FieldView::Number(Some(n))) => Some(IndexValueView::Int(n)),
        (IndexType::Str, FieldView::Text(s)) => Some(IndexValueView::Str(s)),
        _ => None,
    }
}

/// Model of an [`IndexValue`].
pub enum IndexValueView {
    Bool(bool),
    Int(i64),
    Str(Seq<char>),
}

impl View for IndexValue {
    type V = IndexValueView;

    open spec fn view(&self) -> IndexValueView {
        match *self {
            IndexValue::Bool(b) => IndexValueView::Bool(b),
            IndexValue::Int(n) => IndexValueView::Int(n),
            IndexValue::Str(s) => IndexValueView::Str(s@),
        }
    }
}

/// What an index of that type on the field `name` holds of a document.
pub open spec fn extracted(fields: Seq<(Seq<char>, FieldView)>, name: Seq<char>, index_type: IndexType) -> Option<
    IndexValueView,
> {
    match lookup(fields, name) {
        Some(v) => index_value(v, index_type),
        None => None,
    }
}

/// What an index of that type on the field `name` holds of a document with these
/// fields: the value, where the field is there and has that type.
pub fn extract_field(fields: &[DocumentField], name: &String, index_type: IndexType) -> (v: Option<IndexValue>)
    ensures
        v is Some <==> extracted(field_views(fields@), name@, index_type) is Some,
        v is Some ==> Some(v->0@) == extracted(field_views(fields@), name@, index_type),
        forall|at: int|
            0 <= at < fields@.len() && (#[trigger] fields@[at]).name@ == name@ && (forall|j: int|
                at < j < fields@.len() ==> (#[trigger] fields@[j]).name@ != name@) ==> match (
                index_type,
                fields@[at].value,
            ) {
                (IndexType::Bool, FieldValue::Bool(b)) => v == Some(IndexValue::Bool(b)),
                (IndexType::Int, FieldValue::Number(Some(n))) => v == Some(IndexValue::Int(n)),
                (IndexType::Str, FieldValue::Text(t)) => v matches Some(IndexValue::Str(x)) && x@ == t@,
                _ => v is None,
            },
        (forall|j: int| 0 <= j < fields@.len() ==> (#[trigger] fields@[j]).name@ != name@) ==> v is None,
{
    let at: usize = match find(fields, name) {
        Some(at) => at,
        None => {
            return None;
        },
    };
    match (index_type, &fields[at].value) {
        (IndexType::Bool, FieldValue::Bool(b)) => Some(IndexValue::Bool(*b)),
        (IndexType::Int, FieldValue::Number(Some(n))) => Some(IndexValue::Int(*n)),
        (IndexType::Str, FieldValue::Text(s)) => Some(IndexValue::Str(s.clone())),
        _ => None,
    }
}

/// What an index of that type on the field `name` holds of the stored bytes;
/// nothing where they are no JSON.
pub fn json_extractor(bytes: &[u8], name: &String, index_type: IndexType) -> (v: Option<IndexValue>)
    ensures
        v is Some <==> parsed_fields(bytes@) is Some && extracted(parsed_fields(bytes@)->0, name@, index_type) is Some,
        v is Some ==> Some(v->0@) == extracted(parsed_fields(bytes@)->0, name@, index_type),
{
    match parse_document(bytes) {
        Ok(fields) => extract_field(fields.as_slice(), name, index_type),
        Err(_) => None,
    }
}

/// The line of a field: its name, a colon, a space, its text and a line end.
pub open spec fn field_line(name: Seq<char>, text: Seq<char>) -> Seq<char> {
    name + ": "@ + text + "\n"@
}

/// The embedding text: the lines of those of the names whose field is a text, in the
/// order of the names.
pub open spec fn embedding_text(fields: Seq<(Seq<char>, FieldView)>, names: Seq<Seq<char>>) -> Seq<char>
    decreases names.len(),
{
    if names.len() == 0 {
        seq![]
    } else {
        let before = embedding_text(fields, names.drop_last());
        match lookup(fields, names.last()) {
            Some(FieldView::Text(s)) => before + field_line(names.last(), s),
            _ => before,
        }
    }
}

/// The text to embed of a document with these fields: a line `name: text` for each
/// of the names, in order, whose field is there and a text.
pub fn build_embedding_text(fields: &[DocumentField], names: &[String]) -> (text: String)
    ensures
        text@ == embedding_text(field_views(fields@), texts(names@)),
{
    let ghost views = field_views(fields@);
    let ghost all = texts(names@);
    let mut text: String = String::new();
    let mut i: usize = 0;
    proof {
        assert(all.take(0) =~= Seq::<Seq<char>>::empty());
    }
    while i < names.len()
        invariant
            i <= names@.len(),
            views == field_views(fields@),
            all == texts(names@),
            text@ == embedding_text(views, all.take(i as int)),
        decreases names@.len() - i,
    {
        proof {
            assert(all.take(i + 1).drop_last() =~= all.take(i as int));
            assert(all.take(i + 1).last() == names@[i as int]@);
        }
        let ghost before = text@;
        if let Some(at) = find(fields, &names[i]) {
            if let FieldValue::Text(s) = &fields[at].value {
                text.append(names[i].as_str());
                text.append(": ");
                text.append(s.as_str());
                text.append("\n");
                proof {
                    assert(text@ =~= before + field_line(names@[i as int]@, s@));
                }
            }
        }
        i = i + 1;
    }
    proof {
        assert(all.take(i as int) =~= all);
    }
    text
}

/// The embedding text is empty exactly where none of the names is a field with a
/// text; an empty text still counts.
pub proof fn law_no_text_without_a_text_field(fields: Seq<(Seq<char>, FieldView)>, names: Seq<Seq<char>>)
    ensures
        embedding_text(fields, names).len() == 0 <==> forall|i: int|
            0 <= i < names.len() ==> !(lookup(fields, #[trigger] names[i]) matches Some(FieldView::Text(_))),
    decreases names.len(),
{
    reveal_strlit(": ");
    if names.len() > 0 {
        let front = names.drop_last();
        law_no_text_without_a_text_field(fields, front);
        if embedding_text(fields, names).len() == 0 {
            assert forall|i: int| 0 <= i < names.len() implies !(lookup(fields, #[trigger] names[i]) matches Some(FieldView::Text(_))) by {
                if i < names.len() - 1 {
                    assert(front[i] == names[i]);
                }
            }
        } else {
            if lookup(fields, names.last()) matches Some(FieldView::Text(_)) {
                assert(names[names.len() - 1] == names.last());
            } else {
                let i = choose|i: int|
                    0 <= i < front.len() && (lookup(fields, #[trigger] front[i]) matches Some(FieldView::Text(_)));
                assert(names[i] == front[i]);
            }
        }
    }
}

/// The kind of store that a schema describes.
#[derive(Debug, Clone, Copy, PartialEq, Eq, Structural)]
pub enum StoreType {
    Doc,
    Kv,
}

/// The kind of store that the field `store_type` names.
pub open spec fn store_type_of(fields: Seq<(Seq<char>, FieldView)>) -> Option<StoreType> {
    match lookup(fields, "store_type"@) {
        Some(FieldView::Text(s)) => if s == "doc"@ {
            Some(StoreType::Doc)
        } else if s == "kv"@ {
            Some(StoreType::Kv)
        } else {
            None
        },
        _ => None,
    }
}

/// The kind of store that these fields of a schema name.
pub fn named_store_type(fields: &[DocumentField]) -> (t: Option<StoreType>)
    ensures
        t == store_type_of(field_views(fields@)),
{
    match extract_field(fields, &"store_type".to_owned(), IndexType::Str) {
        Some(IndexValue::Str(s)) => {
            proof {
                reveal_strlit("doc");
                reveal_strlit("kv");
            }
            if s == "doc".to_owned() {
                Some(StoreType::Doc)
            } else if s == "kv".to_owned() {
                Some(StoreType::Kv)
            } else {
                None
            }
        },
        _ => None,
    }
}

/// The kind of store that a schema file describes; none where it is no JSON or
/// names no kind.
pub fn peek_store_type(json: &[u8]) -> (t: Option<StoreType>)
    ensures
        t == (match parsed_fields(json@) {
            Some(fields) => store_type_of(fields),
            None => None,
        }),
{
    match parse_document(json) {
        Ok(fields) => named_store_type(fields.as_slice()),
        Err(_) => None,
    }
}

/// The value of a field is that of the last field of its name; there is none exactly
/// where no field has the name.
pub proof fn law_lookup_finds_the_field(fields: Seq<(Seq<char>, FieldView)>, name: Seq<char>)
    ensures
        lookup(fields, name) is None <==> forall|i: int| 0 <= i < fields.len() ==> (#[trigger] fields[i]).0 != name,
        forall|i: int|
            0 <= i < fields.len() && (#[trigger] fields[i]).0 == name && (forall|j: int|
                i < j < fields.len() ==> (#[trigger] fields[j]).0 != name) ==> lookup(fields, name) == Some(fields[i].1),
    decreases fields.len(),
{
    if fields.len() > 0 {
        let front = fields.drop_last();
        law_lookup_finds_the_field(front, name);
        let last = fields.len() - 1;
        assert(fields[last] == fields.last());
        if fields.last().0 != name {
            assert forall|i: int|
                0 <= i < fields.len() && (#[trigger] fields[i]).0 == name && (forall|j: int|
                    i < j < fields.len() ==> (#[trigger] fields[j]).0 != name) implies lookup(fields, name) == Some(
                fields[i].1,
            ) by {
                assert(front[i] == fields[i]);
                assert forall|j: int| i < j < front.len() implies (#[trigger] front[j]).0 != name by {
                    assert(front[j] == fields[j]);
                }
            }
            if forall|i: int| 0 <= i < front.len() ==> (#[trigger] front[i]).0 != name {
                assert forall|i: int| 0 <= i < fields.len() implies (#[trigger] fields[i]).0 != name by {
                    if i < last {
                        assert(front[i] == fields[i]);
                    }
                }
            } else {
                let i = choose|i: int| 0 <= i < front.len() && (#[trigger] front[i]).0 == name;
                assert(fields[i].0 == name);
            }
        }
    }
}

/// A field whose value has the type of the index is indexed, under that very value,
/// whatever the value is: `false`, zero and the empty text too. A field of another type,
/// or a number that is no 64-bit integer, is not indexed.
pub proof fn law_values_of_the_type_are_indexed(
    fields: Seq<(Seq<char>, FieldView)>,
    name: Seq<char>,
    b: bool,
    n: i64,
    text: Seq<char>,
)
    ensures
        lookup(fields, name) == Some(FieldView::Bool(b)) ==> extracted(fields, name, IndexType::Bool) == Some(
            IndexValueView::Bool(b),
        ) && extracted(fields, name, IndexType::Int) is None && extracted(fields, name, IndexType::Str) is None,
        lookup(fields, name) == Some(FieldView::Number(Some(n))) ==> extracted(fields, name, IndexType::Int) == Some(
            IndexValueView::Int(n),
        ) && extracted(fields, name, IndexType::Bool) is None && extracted(fields, name, IndexType::Str) is None,
        lookup(fields, name) == Some(FieldView::Text(text)) ==> extracted(fields, name, IndexType::Str) == Some(
            IndexValueView::Str(text),
        ) && extracted(fields, name, IndexType::Bool) is None && extracted(fields, name, IndexType::Int) is None,
        (lookup(fields, name) is None || lookup(fields, name) == Some(FieldView::Number(None)) || lookup(fields, name)
            == Some(FieldView::Null) || lookup(fields, name) == Some(FieldView::Array) || lookup(fields, name) == Some(
            FieldView::Object,
        )) ==> forall|t: IndexType| #[trigger] extracted(fields, name, t) is None,
{
}

/// Documents with different values of the indexed type have different index values.
pub proof fn law_index_values_tell_documents_apart(
    a: Seq<(Seq<char>, FieldView)>,
    b: Seq<(Seq<char>, FieldView)>,
    name: Seq<char>,
    t: IndexType,
)
    requires
        extracted(a, name, t) is Some,
        extracted(a, name, t) == extracted(b, name, t),
    ensures
        lookup(a, name) == lookup(b, name),
        lookup(a, name) is Some,
        t is Bool <==> lookup(a, name)->0 is Bool,
        t is Int <==> lookup(a, name)->0 is Number,
        t is Str <==> lookup(a, name)->0 is Text,
{
}

/// Models of values keep everything of them.
pub proof fn law_models_keep_the_values(v: FieldValue, x: IndexValue)
    ensures
        v matches FieldValue::Bool(b) ==> v@ == FieldView::Bool(b),
        v matches FieldValue::Number(n) ==> v@ == FieldView::Number(n),
        v matches FieldValue::Text(t) ==> v@ == FieldView::Text(t@),
        v is Null ==> v@ is Null,
        v is Array ==> v@ is Array,
        v is Object ==> v@ is Object,
        x matches IndexValue::Bool(b) ==> x@ == IndexValueView::Bool(b),
        x matches IndexValue::Int(n) ==> x@ == IndexValueView::Int(n),
        x matches IndexValue::Str(t) ==> x@ == IndexValueView::Str(t@),
{
}

/// One more embedding field adds one line, its name, a colon, a space, its text and a
/// line end, where the document has a text under that name, and nothing otherwise.
/// Without embedding fields there is no text.
pub proof fn law_each_text_field_adds_its_line(
    fields: Seq<(Seq<char>, FieldView)>,
    names: Seq<Seq<char>>,
    name: Seq<char>,
    text: Seq<char>,
)
    ensures
        embedding_text(fields, Seq::<Seq<char>>::empty()).len() == 0,
        lookup(fields, name) == Some(FieldView::Text(text)) ==> embedding_text(fields, names.push(name))
            == embedding_text(fields, names) + name + seq![':', ' '] + text + seq!['\n'],
        !(lookup(fields, name) matches Some(FieldView::Text(_))) ==> embedding_text(fields, names.push(name))
            == embedding_text(fields, names),
{
    reveal_strlit(": ");
    reveal_strlit("\n");
    assert(names.push(name).drop_last() =~= names);
    assert(": "@ =~= seq![':', ' ']);
    assert("\n"@ =~= seq!['\n']);
    let before = embedding_text(fields, names);
    assert(before + field_line(name, text) =~= before + name + seq![':', ' '] + text + seq!['\n']);
}

/// A document is an object with its own fields; any other JSON value has none; and bytes
/// that are no JSON are none, for the parser's reason.
pub proof fn law_documents_are_objects(bytes: Seq<u8>)
    ensures
        parsed_json(bytes) matches Ok(JsonView::Fields(f)) ==> parsed_document(bytes) == Ok::<
            Seq<(Seq<char>, FieldView)>,
            Seq<char>,
        >(f) && parsed_fields(bytes) == Some(f),
        parsed_json(bytes) matches Ok(JsonView::Plain(_)) ==> parsed_fields(bytes) is Some && parsed_fields(
            bytes,
        )->0.len() == 0,
        parsed_json(bytes) matches Err(m) ==> parsed_document(bytes) == Err::<Seq<(Seq<char>, FieldView)>, Seq<char>>(m)
            && parsed_fields(bytes) is None,
{
}

/// A schema names its kind in the text field `store_type`, as `doc` or as `kv`; anything
/// else names none.
pub proof fn law_store_types(fields: Seq<(Seq<char>, FieldView)>)
    ensures
        store_type_of(fields) == Some(StoreType::Doc) <==> lookup(fields, "store_type"@) == Some(
            FieldView::Text(seq!['d', 'o', 'c']),
        ),
        store_type_of(fields) == Some(StoreType::Kv) <==> lookup(fields, "store_type"@) == Some(
            FieldView::Text(seq!['k', 'v']),
        ),
{
    reveal_strlit("doc");
    reveal_strlit("kv");
    assert("doc"@ =~= seq!['d', 'o', 'c']);
    assert("kv"@ =~= seq!['k', 'v']);
    assert("doc"@.len() == 3 && "kv"@.len() == 2);
}

/// The models of a list of fields are those of its fields, all of them and in their order;
/// that of a JSON text keeps whether it is an object.
pub proof fn law_field_models(fields: Seq<DocumentField>, i: int, json: Json)
    ensures
        field_views(fields).len() == fields.len(),
        0 <= i < fields.len() ==> field_views(fields)[i] == (fields[i].name@, fields[i].value@),
        json matches Json::Fields(f) ==> json@ == JsonView::Fields(field_views(f@)),
        json matches Json::Plain(v) ==> json@ == JsonView::Plain(v@),
{
}

/// Indexing a field of a document: its value is indexed, unchanged, exactly where it has
/// the type of the index; where the name occurs more than once the last one counts.
pub proof fn law_extract_field(
    fields: &[DocumentField],
    name: &String,
    b: Option<IndexValue>,
    n: Option<IndexValue>,
    t: Option<IndexValue>,
    at: int,
)
    requires
        call_ensures(extract_field, (fields, name, IndexType::Bool), b),
        call_ensures(extract_field, (fields, name, IndexType::Int), n),
        call_ensures(extract_field, (fields, name, IndexType::Str), t),
    ensures
        0 <= at < fields@.len() && fields@[at].name@ == name@ && (forall|j: int|
            at < j < fields@.len() ==> (#[trigger] fields@[j]).name@ != name@) ==> {
            &&& fields@[at].value matches FieldValue::Bool(x) ==> b == Some(IndexValue::Bool(x)) && n is None && t is None
            &&& fields@[at].value matches FieldValue::Number(Some(x)) ==> n == Some(IndexValue::Int(x)) && b is None && t
                is None
            &&& fields@[at].value matches FieldValue::Text(x) ==> t is Some && t->0 is Str && t->0->Str_0@ == x@ && b is None
                && n is None
            &&& !(fields@[at].value is Bool) && !(fields@[at].value is Text) && !(fields@[at].value
                matches FieldValue::Number(Some(_))) ==> b is None && n is None && t is None
        },
        (forall|j: int| 0 <= j < fields@.len() ==> (#[trigger] fields@[j]).name@ != name@) ==> b is None && n is None && t
            is None,
{
}

/// Indexing stored bytes is indexing the fields of the document that they are; bytes that
/// are no JSON, and JSON that is no object, have nothing to index.
pub proof fn law_json_extractor(
    bytes: &[u8],
    name: &String,
    index_type: IndexType,
    v: Option<IndexValue>,
    fields: &[DocumentField],
    w: Option<IndexValue>,
)
    requires
        call_ensures(json_extractor, (bytes, name, index_type), v),
        call_ensures(extract_field, (fields, name, index_type), w),
    ensures
        parsed_json(bytes@) == Ok::<JsonView, Seq<char>>(JsonView::Fields(field_views(fields@))) ==> (v is Some <==> w
            is Some) && (v is Some ==> v->0@ == w->0@),
        parsed_json(bytes@) matches Err(_) ==> v is None,
        parsed_json(bytes@) matches Ok(JsonView::Plain(_)) ==> v is None,
{
}

/// The text to embed is the lines of the text fields: one more name adds its line, its
/// name, a colon, a space, the text and a line end, where the document has a text under
/// it, and nothing otherwise; without names there is no text.
pub proof fn law_build_embedding_text(
    fields: &[DocumentField],
    names: &[String],
    more: &[String],
    none: &[String],
    short: String,
    long: String,
    empty: String,
)
    requires
        more@.len() == names@.len() + 1,
        more@.drop_last() == names@,
        none@.len() == 0,
        call_ensures(build_embedding_text, (fields, names), short),
        call_ensures(build_embedding_text, (fields, more), long),
        call_ensures(build_embedding_text, (fields, none), empty),
    ensures
        empty@.len() == 0,
        ({
            let name = more@.last()@;
            match lookup(field_views(fields@), name) {
                Some(FieldView::Text(t)) => long@ == short@ + name + seq![':', ' '] + t + seq!['\n'],
                _ => long@ == short@,
            }
        }),
{
    let name = more@.last()@;
    let views = field_views(fields@);
    assert(texts(more@) =~= texts(names@).push(name));
    assert(texts(none@) =~= Seq::<Seq<char>>::empty());
    match lookup(views, name) {
        Some(FieldView::Text(t)) => law_each_text_field_adds_its_line(views, texts(names@), name, t),
        _ => law_each_text_field_adds_its_line(views, texts(names@), name, Seq::empty()),
    }
}

/// The store type of a schema: the text of its field says it, and nothing else does.
pub proof fn law_named_store_type(fields: &[DocumentField], t: Option<StoreType>, json: &[u8], peeked: Option<StoreType>)
    requires
        call_ensures(named_store_type, (fields,), t),
        call_ensures(peek_store_type, (json,), peeked),
    ensures
        t == Some(StoreType::Doc) <==> lookup(field_views(fields@), "store_type"@) == Some(
            FieldView::Text(seq!['d', 'o', 'c']),
        ),
        t == Some(StoreType::Kv) <==> lookup(field_views(fields@), "store_type"@) == Some(FieldView::Text(seq!['k', 'v'])),
        parsed_json(json@) is Err ==> peeked is None,
        parsed_json(json@) matches Ok(JsonView::Plain(_)) ==> peeked is None,
        parsed_json(json@) == Ok::<JsonView, Seq<char>>(JsonView::Fields(field_views(fields@))) ==> peeked == t,
{
    law_store_types(field_views(fields@));
    law_documents_are_objects(json@);
}

} // verus!
