//! The steps that make the indices of a namespace live.

use vstd::prelude::*;

use super::schema::{DocStoreSchema, KeyType};
use super::types::key_width;

verus! {

/// One step.
#[derive(Debug, Clone, Copy, PartialEq, Eq, Structural)]
pub enum ActivationStep {
    /// Install the row numbers that fixed-width keys stand for, and their inverse.
    InstallRowIds,
    /// Register the field of the index at this position.
    RegisterField(usize),
    /// Activate the index at this position.
    ActivateIndex(usize),
}

/// Registering and activating the first `n` indices, one after the other.
pub open spec fn index_steps(n: nat) -> Seq<ActivationStep>
    decreases n,
{
    if n == 0 {
        seq![]
    } else {
        index_steps((n - 1) as nat).push(ActivationStep::RegisterField((n - 1) as usize)).push(
            ActivationStep::ActivateIndex((n - 1) as usize),
        )
    }
}

/// All steps of a namespace: row numbers first, where the key type has them.
pub open spec fn activation_steps(key_type: KeyType, indices: nat) -> Seq<ActivationStep> {
    if key_width(key_type) is Some {
        seq![ActivationStep::InstallRowIds] + index_steps(indices)
    } else {
        index_steps(indices)
    }
}

/// The steps that make the indices of a namespace live. Activating an index
/// resolves keys to rows, so the row numbers are installed before the first one;
/// string keys have none, and are numbered by a row map.
pub fn activation_plan(schema: &DocStoreSchema) -> (steps: Vec<ActivationStep>)
    ensures
        steps@ == activation_steps(schema.key_type, schema.indices@.len()),
{
    let mut steps: Vec<ActivationStep> = Vec::new();
    match schema.key_type {
        KeyType::Str => {},
        _ => {
            steps.push(ActivationStep::InstallRowIds);
        },
    }
    let ghost first = steps@;
    proof {
        assert(first + index_steps(0) =~= first);
    }
    let mut i: usize = 0;
    while i < schema.indices.len()
        invariant
            i <= schema.indices@.len(),
            steps@ == first + index_steps(i as nat),
        decreases schema.indices@.len() - i,
    {
        steps.push(ActivationStep::RegisterField(i));
        steps.push(ActivationStep::ActivateIndex(i));
        proof {
            assert(steps@ =~= first + index_steps((i + 1) as nat));
        }
        i = i + 1;
    }
    proof {
        assert(steps@ =~= activation_steps(schema.key_type, schema.indices@.len()));
    }
    steps
}

/// No index is activated before the row numbers of a fixed-width key type are
/// installed.
pub proof fn law_row_ids_come_first(key_type: KeyType, indices: nat, k: int)
    requires
        key_width(key_type) is Some,
        0 <= k < activation_steps(key_type, indices).len(),
        activation_steps(key_type, indices)[k] is ActivateIndex,
    ensures
        0 < k,
        activation_steps(key_type, indices)[0] == ActivationStep::InstallRowIds,
{
}

proof fn lemma_index_steps(n: nat, i: int)
    requires
        n <= usize::MAX,
    ensures
        index_steps(n).len() == 2 * n,
        0 <= i < n ==> index_steps(n)[2 * i] == ActivationStep::RegisterField(i as usize) && index_steps(n)[2 * i + 1]
            == ActivationStep::ActivateIndex(i as usize),
    decreases n,
{
    if n > 0 {
        lemma_index_steps((n - 1) as nat, i);
        let before = index_steps((n - 1) as nat);
        lemma_index_steps((n - 1) as nat, n - 1);
        if 0 <= i < n - 1 {
            assert(index_steps(n)[2 * i] == before[2 * i]);
            assert(index_steps(n)[2 * i + 1] == before[2 * i + 1]);
        }
    }
}

/// Every index is registered and then activated, one index after the other and each
/// once, and nothing else is done but to install the row numbers, first, for the key
/// types that have them: all but strings.
pub proof fn law_every_index_is_activated(key_type: KeyType, indices: nat, i: int)
    requires
        0 <= i < indices <= usize::MAX,
    ensures
        key_type is Str ==> {
            let steps = activation_steps(key_type, indices);
            &&& steps.len() == 2 * indices
            &&& steps[2 * i] == ActivationStep::RegisterField(i as usize)
            &&& steps[2 * i + 1] == ActivationStep::ActivateIndex(i as usize)
        },
        !(key_type is Str) ==> {
            let steps = activation_steps(key_type, indices);
            &&& steps.len() == 2 * indices + 1
            &&& steps[0] == ActivationStep::InstallRowIds
            &&& steps[2 * i + 1] == ActivationStep::RegisterField(i as usize)
            &&& steps[2 * i + 2] == ActivationStep::ActivateIndex(i as usize)
        },
{
    lemma_index_steps(indices, i);
}

/// A namespace without indices has its row numbers installed, where its key type has
/// them, and nothing else done.
pub proof fn law_nothing_to_activate(key_type: KeyType)
    ensures
        key_type is Str ==> activation_steps(key_type, 0).len() == 0,
        !(key_type is Str) ==> activation_steps(key_type, 0) == seq![ActivationStep::InstallRowIds],
{
    if !(key_type is Str) {
        assert(activation_steps(key_type, 0) =~= seq![ActivationStep::InstallRowIds]);
    }
}

/// Making the indices of a namespace live: every one is registered and then activated, in
/// order; before the first one the row numbers are installed, unless keys are strings; and
/// nothing else is done.
pub proof fn law_activation_plan(schema: &DocStoreSchema, steps: Vec<ActivationStep>, i: int)
    requires
        call_ensures(activation_plan, (schema,), steps),
        0 <= i < schema.indices@.len(),
    ensures
        ({
            let first = if schema.key_type is Str {
                0int
            } else {
                1int
            };
            &&& steps@.len() == first + 2 * schema.indices@.len()
            &&& first == 1 ==> steps@[0] == ActivationStep::InstallRowIds
            &&& steps@[first + 2 * i] == ActivationStep::RegisterField(i as usize)
            &&& steps@[first + 2 * i + 1] == ActivationStep::ActivateIndex(i as usize)
        }),
{
    assert(schema.indices.len() <= usize::MAX);
    law_every_index_is_activated(schema.key_type, schema.indices@.len(), i);
}

} // verus!
