//! The effect model: a named, costed bundle of mutators plus the state
//! they produced.

use vstd::prelude::*;

use crate::localstate::{LocalState, StateFacts};
use crate::mutator::{mutators_view, Mutator, MutatorFact};

verus! {

/// The outcome of performing an action: the action's identifier, the
/// mutators it applies in order, its non-negative cost, and the state that
/// resulted from applying the mutators.
///
/// On an action template the `state` field is an empty placeholder; it is
/// only meaningful once the effect has been realized during search against
/// a specific predecessor state.
#[derive(Debug, PartialEq, Hash)]
pub struct Effect {
    /// Identifier of the action this effect belongs to.
    pub action: String,
    /// The mutations applied in order, left to right.
    pub mutators: Vec<Mutator>,
    /// The non-negative cost of taking the action.
    pub cost: usize,
    /// The state after applying the mutators to the predecessor state.
    pub state: LocalState,
}

/// The mathematical model of an effect.
pub struct EffectFact {
    /// The action identifier, viewed as a character sequence.
    pub action: Seq<char>,
    /// The models of the mutators, in order.
    pub mutators: Seq<MutatorFact>,
    /// The cost as a mathematical integer.
    pub cost: int,
    /// The model of the resulting state.
    pub state: StateFacts,
}

impl View for Effect {
    type V = EffectFact;

    open spec fn view(&self) -> EffectFact {
        EffectFact {
            action: self.action@,
            mutators: mutators_view(self.mutators@),
            cost: self.cost as int,
            state: self.state@,
        }
    }
}

impl Clone for Effect {
    /// A full, independent copy with the same model.
    fn clone(&self) -> (result: Self)
        ensures
            result@ == self@,
    {
        let result = Effect {
            action: self.action.clone(),
            mutators: clone_mutators(&self.mutators),
            cost: self.cost,
            state: self.state.clone(),
        };
        result
    }
}

/// An element-exact copy of a mutator list.
pub fn clone_mutators(mutators: &Vec<Mutator>) -> (result: Vec<Mutator>)
    ensures
        result@ == mutators@,
{
    let mut out: Vec<Mutator> = Vec::new();
    let mut i: usize = 0;
    while i < mutators.len()
        invariant
            i <= mutators.len(),
            out@.len() == i as int,
            forall|j: int| 0 <= j < i as int ==> out@[j] == mutators@[j],
        decreases mutators.len() - i,
    {
        out.push(mutators[i].clone());
        i = i + 1;
    }
    proof {
        assert(out@ =~= mutators@);
    }
    out
}

impl Effect {
    /// A fresh effect template for the action `action_key`: no mutators, an
    /// empty placeholder state, and the default cost of one.
    pub fn new(action_key: &str) -> (result: Self)
        ensures
            result@.action == action_key@,
            result@.mutators == Seq::<MutatorFact>::empty(),
            result@.cost == 1,
            result@.state == Seq::<(Seq<char>, crate::datum::Datum)>::empty(),
    {
        let result = Effect {
            action: action_key.to_owned(),
            mutators: Vec::new(),
            cost: 1,
            state: LocalState::new(),
        };
        proof {
            assert(result@.mutators =~= Seq::<MutatorFact>::empty());
        }
        result
    }

    /// Builder: `self` with `mutator` appended to the mutator list.
    pub fn with_mutator(self, mutator: Mutator) -> (result: Self)
        ensures
            result@.action == self@.action,
            result@.mutators == self@.mutators.push(mutator@),
            result@.cost == self@.cost,
            result@.state == self@.state,
    {
        let ghost before = self@;
        let mut effect = self;
        effect.mutators.push(mutator);
        proof {
            assert(effect@.mutators =~= before.mutators.push(mutator@));
        }
        effect
    }
}

} // verus!
