//! Amendments of the attributes of a schema.

use vstd::prelude::*;

use super::error::{DocStoreError, SchemaError};
use super::schema::{
    declared_once, first_index, is_declared, is_indexed, law_the_others_stay, lemma_remove_keeps, not_named,
    retain_others, same_elsewhere, without,
    AttributeDef, AttributeType, DocStoreSchema, IndexSpec,
};

verus! {

/// A change of the attributes, which have no index.
#[derive(Debug, Clone)]
pub enum SchemaAmendment {
    /// Declare one more attribute.
    AddAttribute { name: String, attr_type: AttributeType, description: Option<String> },
    /// Forget an attribute.
    RemoveAttribute { name: String },
    /// Declare an attribute otherwise.
    UpdateAttribute { name: String, attr_type: AttributeType, description: Option<String> },
}

impl SchemaAmendment {
    /// The attribute that it is about.
    pub open spec fn subject(self) -> Seq<char> {
        match self {
            SchemaAmendment::AddAttribute { name, .. } => name@,
            SchemaAmendment::RemoveAttribute { name } => name@,
            SchemaAmendment::UpdateAttribute { name, .. } => name@,
        }
    }

    /// An active index uses the attribute, so that it cannot be changed or removed.
    pub open spec fn hits_index(self, indices: Seq<IndexSpec>) -> bool {
        !(self is AddAttribute) && is_indexed(indices, self.subject())
    }

    /// It would declare a field a second time.
    pub open spec fn repeats(self, attributes: Seq<AttributeDef>, indices: Seq<IndexSpec>) -> bool {
        self is AddAttribute && (is_indexed(indices, self.subject()) || is_declared(attributes, self.subject()))
    }

    /// `after` are the attributes once it is made.
    pub open spec fn makes(self, before: Seq<AttributeDef>, after: Seq<AttributeDef>) -> bool {
        match self {
            SchemaAmendment::AddAttribute { name, attr_type, description } => after == before.push(
                AttributeDef { name, attr_type, description },
            ),
            SchemaAmendment::RemoveAttribute { name } => after == without(before, name@),
            SchemaAmendment::UpdateAttribute { name, attr_type, description } => if is_declared(before, name@) {
                exists|at: int|
                    is_first_attribute(before, name@, at) && after == #[trigger] before.update(
                        at,
                        AttributeDef { name, attr_type, description },
                    )
            } else {
                after == before
            },
        }
    }
}

/// Position of the first attribute of that name.
pub open spec fn is_first_attribute(attributes: Seq<AttributeDef>, name: Seq<char>, at: int) -> bool {
    &&& 0 <= at < attributes.len()
    &&& attributes[at].name@ == name
    &&& forall|i: int| 0 <= i < at ==> (#[trigger] attributes[i]).name@ != name
}

fn first_attribute(attributes: &Vec<AttributeDef>, name: &String) -> (at: Option<usize>)
    ensures
        at is Some <==> is_declared(attributes@, name@),
        at is Some ==> is_first_attribute(attributes@, name@, at->0 as int),
{
    let mut i: usize = 0;
    while i < attributes.len()
        invariant
            i <= attributes@.len(),
            forall|k: int| 0 <= k < i ==> (#[trigger] attributes@[k]).name@ != name@,
        decreases attributes@.len() - i,
    {
        if attributes[i].name == *name {
            return Some(i);
        }
        i = i + 1;
    }
    None
}

impl DocStoreSchema {
    /// Adds, changes or removes an attribute. What an active index uses can neither be
    /// changed nor removed, and no field is declared twice. Where there is no attribute
    /// to change or to remove, nothing changes.
    pub fn amend(&mut self, amendment: SchemaAmendment) -> (r: Result<(), DocStoreError>)
        ensures
            same_elsewhere(*final(self), *old(self)),
            final(self).indices == old(self).indices,
            r is Ok <==> !amendment.hits_index(old(self).indices@) && !amendment.repeats(
                old(self).attributes@,
                old(self).indices@,
            ),
            r is Ok ==> amendment.makes(old(self).attributes@, final(self).attributes@),
            r is Err ==> *final(self) == *old(self),
            amendment.hits_index(old(self).indices@) ==> (r matches Err(
                DocStoreError::AttributeIsIndexed { namespace, field },
            ) && namespace@ == old(self).namespace@ && field@ == amendment.subject()),
            amendment.repeats(old(self).attributes@, old(self).indices@) ==> (r matches Err(
                DocStoreError::Schema(SchemaError::DuplicateFieldName { name }),
            ) && name@ == amendment.subject()),
            declared_once(old(self).attributes@, old(self).indices@) ==> declared_once(
                final(self).attributes@,
                final(self).indices@,
            ),
    {
        let ghost before = self.attributes@;
        match amendment {
            SchemaAmendment::AddAttribute { name, attr_type, description } => {
                if first_index(&self.indices, &name).is_some() || first_attribute(&self.attributes, &name).is_some() {
                    return Err(DocStoreError::Schema(SchemaError::DuplicateFieldName { name }));
                }
                self.attributes.push(AttributeDef { name, attr_type, description });
            },
            SchemaAmendment::RemoveAttribute { name } => {
                if first_index(&self.indices, &name).is_some() {
                    return Err(DocStoreError::AttributeIsIndexed { namespace: self.namespace.clone(), field: name });
                }
                retain_others(&mut self.attributes, &name);
                proof {
                    if declared_once(before, self.indices@) {
                        lemma_remove_keeps(before, self.indices@, name@);
                    }
                }
            },
            SchemaAmendment::UpdateAttribute { name, attr_type, description } => {
                if first_index(&self.indices, &name).is_some() {
                    return Err(DocStoreError::AttributeIsIndexed { namespace: self.namespace.clone(), field: name });
                }
                if let Some(at) = first_attribute(&self.attributes, &name) {
                    let def = AttributeDef { name, attr_type, description };
                    self.attributes.set(at, def);
                    assert(self.attributes@ == before.update(at as int, def));
                }
            },
        }
        Ok(())
    }
}

/// An attribute that was added and removed again leaves the attributes as they were.
pub proof fn law_added_attribute_is_removed_again(
    add: SchemaAmendment,
    remove: SchemaAmendment,
    before: Seq<AttributeDef>,
    between: Seq<AttributeDef>,
    after: Seq<AttributeDef>,
)
    requires
        add is AddAttribute,
        remove is RemoveAttribute,
        add.subject() == remove.subject(),
        !is_declared(before, add.subject()),
        add.makes(before, between),
        remove.makes(between, after),
    ensures
        after == before,
{
    assert(between.drop_last() =~= before);
    lemma_without_nothing(before, add.subject());
}

proof fn lemma_without_nothing(attributes: Seq<AttributeDef>, name: Seq<char>)
    requires
        !is_declared(attributes, name),
    ensures
        without(attributes, name) == attributes,
    decreases attributes.len(),
{
    if attributes.len() > 0 {
        let front = attributes.drop_last();
        assert(attributes[attributes.len() - 1].name@ != name);
        if is_declared(front, name) {
            let i = choose|i: int| 0 <= i < front.len() && (#[trigger] front[i]).name@ == name;
            assert(attributes[i].name@ == name);
        }
        lemma_without_nothing(front, name);
        assert(attributes =~= front.push(attributes.last()));
    } else {
        assert(without(attributes, name) =~= attributes);
    }
}

/// What is refused: to change or remove a field that is indexed, and to add one that is
/// indexed or declared.
pub proof fn law_refused_amendments(
    name: String,
    attr_type: AttributeType,
    description: Option<String>,
    attributes: Seq<AttributeDef>,
    indices: Seq<IndexSpec>,
)
    ensures
        ({
            let add = SchemaAmendment::AddAttribute { name, attr_type, description };
            let remove = SchemaAmendment::RemoveAttribute { name };
            let update = SchemaAmendment::UpdateAttribute { name, attr_type, description };
            &&& add.subject() == name@ && remove.subject() == name@ && update.subject() == name@
            &&& !add.hits_index(indices)
            &&& remove.hits_index(indices) <==> is_indexed(indices, name@)
            &&& update.hits_index(indices) <==> is_indexed(indices, name@)
            &&& add.repeats(attributes, indices) <==> is_indexed(indices, name@) || is_declared(attributes, name@)
            &&& !remove.repeats(attributes, indices)
            &&& !update.repeats(attributes, indices)
        }),
{
}

/// What is made: an added attribute comes behind the others; a removed one is gone, and
/// the others stay in order; an updated one has its new definition in its place, and the
/// others are as they were.
pub proof fn law_made_amendments(
    name: String,
    attr_type: AttributeType,
    description: Option<String>,
    before: Seq<AttributeDef>,
    after: Seq<AttributeDef>,
)
    ensures
        (SchemaAmendment::AddAttribute { name, attr_type, description }).makes(before, after) ==> after.len()
            == before.len() + 1 && (forall|i: int| 0 <= i < before.len() ==> #[trigger] after[i] == before[i])
            && after[before.len() as int] == (AttributeDef { name, attr_type, description }),
        (SchemaAmendment::RemoveAttribute { name }).makes(before, after) ==> after == not_named(
            before,
            name@,
        ),
        (SchemaAmendment::UpdateAttribute { name, attr_type, description }).makes(before, after) ==> after.len()
            == before.len() && (forall|i: int|
            0 <= i < before.len() && (#[trigger] before[i]).name@ != name@ ==> after[i] == before[i]) && (forall|i: int|
            0 <= i < before.len() && (#[trigger] before[i]).name@ == name@ && (forall|j: int|
                0 <= j < i ==> (#[trigger] before[j]).name@ != name@) ==> after[i] == (AttributeDef {
                name,
                attr_type,
                description,
            })),
{
    law_the_others_stay(before, Seq::empty(), name@);
    let update = SchemaAmendment::UpdateAttribute { name, attr_type, description };
    if update.makes(before, after) && is_declared(before, name@) {
        let at = choose|at: int|
            is_first_attribute(before, name@, at) && after == #[trigger] before.update(
                at,
                AttributeDef { name, attr_type, description },
            );
        assert forall|i: int|
            0 <= i < before.len() && (#[trigger] before[i]).name@ == name@ && (forall|j: int|
                0 <= j < i ==> (#[trigger] before[j]).name@ != name@) implies after[i] == (AttributeDef {
            name,
            attr_type,
            description,
        }) by {
            if at < i {
                assert(before[at].name@ != name@);
            } else if i < at {
                assert(before[i].name@ != name@);
            }
        }
    }
}

/// Amending a schema: to change or remove an indexed field, and to add a field that is
/// there, is refused, and nothing changes. Otherwise an added attribute comes behind the
/// others, a removed one is gone and an updated one has its new definition in its place;
/// the other attributes and all else stay.
pub proof fn law_amend(
    name: String,
    attr_type: AttributeType,
    description: Option<String>,
    s: &mut DocStoreSchema,
    added: Result<(), DocStoreError>,
    t: &mut DocStoreSchema,
    removed: Result<(), DocStoreError>,
    u: &mut DocStoreSchema,
    updated: Result<(), DocStoreError>,
)
    requires
        call_ensures(DocStoreSchema::amend, (s, SchemaAmendment::AddAttribute { name, attr_type, description }), added),
        call_ensures(DocStoreSchema::amend, (t, SchemaAmendment::RemoveAttribute { name }), removed),
        call_ensures(DocStoreSchema::amend, (u, SchemaAmendment::UpdateAttribute { name, attr_type, description }), updated),
    ensures
        added is Ok <==> !is_indexed(old(s).indices@, name@) && !is_declared(old(s).attributes@, name@),
        added is Ok ==> final(s).attributes@ == old(s).attributes@.push(AttributeDef { name, attr_type, description }),
        removed is Ok <==> !is_indexed(old(t).indices@, name@),
        removed is Ok ==> final(t).attributes@ == not_named(old(t).attributes@, name@),
        updated is Ok <==> !is_indexed(old(u).indices@, name@),
        updated is Ok ==> final(u).attributes@.len() == old(u).attributes@.len() && forall|i: int|
            0 <= i < old(u).attributes@.len() && (#[trigger] old(u).attributes@[i]).name@ != name@ ==> final(u).attributes@[i]
                == old(u).attributes@[i],
        updated is Ok ==> forall|i: int|
            0 <= i < old(u).attributes@.len() && (#[trigger] old(u).attributes@[i]).name@ == name@ && (forall|j: int|
                0 <= j < i ==> (#[trigger] old(u).attributes@[j]).name@ != name@) ==> final(u).attributes@[i] == (
            AttributeDef { name, attr_type, description }),
        added is Err ==> *final(s) == *old(s),
        removed is Err ==> *final(t) == *old(t) && removed->Err_0 is AttributeIsIndexed,
        updated is Err ==> *final(u) == *old(u) && updated->Err_0 is AttributeIsIndexed,
        final(s).indices == old(s).indices && final(t).indices == old(t).indices && final(u).indices == old(u).indices,
{
    law_made_amendments(name, attr_type, description, old(s).attributes@, final(s).attributes@);
    law_made_amendments(name, attr_type, description, old(t).attributes@, final(t).attributes@);
    law_made_amendments(name, attr_type, description, old(u).attributes@, final(u).attributes@);
    law_refused_amendments(name, attr_type, description, old(s).attributes@, old(s).indices@);
    law_refused_amendments(name, attr_type, description, old(t).attributes@, old(t).indices@);
    law_refused_amendments(name, attr_type, description, old(u).attributes@, old(u).indices@);
    if added is Ok {
        assert(final(s).attributes@ =~= old(s).attributes@.push(AttributeDef { name, attr_type, description }));
    }
}

} // verus!
