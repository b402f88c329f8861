//! Convenience builders: thin factories over `Action` for the common
//! one-effect shapes.

use vstd::prelude::*;

use crate::action::Action;
use crate::datum::Datum;
use crate::effect::Effect;
use crate::localstate::LocalState;
use crate::mutator::{Mutator, MutatorFact};

verus! {

/// An action named `name`, with no preconditions, whose single effect sets
/// the fact `key_to_mutate` to `value` at cost one.
pub fn simple_action(name: &str, key_to_mutate: &str, value: Datum) -> (result: Action)
    ensures
        result@.key == name@,
        result@.preconditions.len() == 0,
        result@.dynamic_names.len() == 0,
        result@.effects.len() == 1,
        result@.effects[0].action == name@,
        result@.effects[0].mutators == seq![MutatorFact::SetValue(key_to_mutate@, value)],
        result@.effects[0].cost == 1,
        result@.effects[0].state.len() == 0,
{
    let mut muts: Vec<(String, Datum)> = Vec::new();
    muts.push((key_to_mutate.to_owned(), value));
    let result = simple_multi_mutate_action(name, muts);
    proof {
        assert(result@.effects[0].mutators =~= seq![MutatorFact::SetValue(key_to_mutate@, value)]);
    }
    result
}

/// An action named `name`, with no preconditions, whose single effect sets
/// each listed fact to its paired value, in order, at cost one.
pub fn simple_multi_mutate_action(name: &str, muts: Vec<(String, Datum)>) -> (result: Action)
    ensures
        result@.key == name@,
        result@.preconditions.len() == 0,
        result@.dynamic_names.len() == 0,
        result@.effects.len() == 1,
        result@.effects[0].action == name@,
        result@.effects[0].mutators == muts@.map_values(
            |p: (String, Datum)| MutatorFact::SetValue(p.0@, p.1),
        ),
        result@.effects[0].cost == 1,
        result@.effects[0].state.len() == 0,
{
    let mut mutators: Vec<Mutator> = Vec::new();
    let mut i: usize = 0;
    while i < muts.len()
        invariant
            i <= muts.len(),
            mutators@.len() == i as int,
            forall|j: int| 0 <= j < i as int ==> mutators@[j]@ == MutatorFact::SetValue(
                muts@[j].0@,
                muts@[j].1,
            ),
        decreases muts.len() - i,
    {
        mutators.push(Mutator::SetValue(muts[i].0.clone(), muts[i].1));
        i = i + 1;
    }
    let result = Action {
        key: name.to_owned(),
        preconditions: Vec::new(),
        dynamic_preconditions: Vec::new(),
        effects: single_effect(name, mutators),
    };
    proof {
        assert(result@.effects.len() == 1);
        assert(result@.effects[0].mutators =~= muts@.map_values(
            |p: (String, Datum)| MutatorFact::SetValue(p.0@, p.1),
        ));
    }
    result
}

/// An action named `name`, with no preconditions, whose single effect
/// increments the numeric fact `key_to_mutate` by `value` at cost one.
pub fn simple_increment_action(name: &str, key_to_mutate: &str, value: Datum) -> (result: Action)
    ensures
        result@.key == name@,
        result@.preconditions.len() == 0,
        result@.dynamic_names.len() == 0,
        result@.effects.len() == 1,
        result@.effects[0].action == name@,
        result@.effects[0].mutators == seq![MutatorFact::Increment(key_to_mutate@, value)],
        result@.effects[0].cost == 1,
        result@.effects[0].state.len() == 0,
{
    let mut mutators: Vec<Mutator> = Vec::new();
    mutators.push(Mutator::Increment(key_to_mutate.to_owned(), value));
    let result = Action {
        key: name.to_owned(),
        preconditions: Vec::new(),
        dynamic_preconditions: Vec::new(),
        effects: single_effect(name, mutators),
    };
    proof {
        assert(result@.effects[0].mutators =~= seq![MutatorFact::Increment(key_to_mutate@, value)]);
    }
    result
}

/// An action named `name`, with no preconditions, whose single effect
/// decrements the numeric fact `key_to_mutate` by `value` at cost one.
pub fn simple_decrement_action(name: &str, key_to_mutate: &str, value: Datum) -> (result: Action)
    ensures
        result@.key == name@,
        result@.preconditions.len() == 0,
        result@.dynamic_names.len() == 0,
        result@.effects.len() == 1,
        result@.effects[0].action == name@,
        result@.effects[0].mutators == seq![MutatorFact::Decrement(key_to_mutate@, value)],
        result@.effects[0].cost == 1,
        result@.effects[0].state.len() == 0,
{
    let mut mutators: Vec<Mutator> = Vec::new();
    mutators.push(Mutator::Decrement(key_to_mutate.to_owned(), value));
    let result = Action {
        key: name.to_owned(),
        preconditions: Vec::new(),
        dynamic_preconditions: Vec::new(),
        effects: single_effect(name, mutators),
    };
    proof {
        assert(result@.effects[0].mutators =~= seq![MutatorFact::Decrement(key_to_mutate@, value)]);
    }
    result
}

/// One fresh effect template named after the action, carrying the given
/// mutators, cost one, and an empty placeholder state.
fn single_effect(name: &str, mutators: Vec<Mutator>) -> (result: Vec<Effect>)
    ensures
        result@.len() == 1,
        result@[0]@.action == name@,
        result@[0]@.mutators == mutators@.map_values(|m: Mutator| m@),
        result@[0]@.cost == 1,
        result@[0]@.state.len() == 0,
{
    let mut result: Vec<Effect> = Vec::new();
    result.push(
        Effect { action: name.to_owned(), mutators, cost: 1, state: LocalState::new() },
    );
    result
}

} // verus!
