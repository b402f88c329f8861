//! The action model: a named, precondition-gated unit of behaviour
//! producing one effect template.

use std::sync::Arc;

use vstd::prelude::*;

use crate::compare::{
    check_conditions, check_result_view, conds_check, conds_view, lemma_conds_check_prefix,
    Compare, CondFacts, EvalError, EvalFault,
};
use crate::datum::Datum;
use crate::effect::{Effect, EffectFact};
use crate::localstate::LocalState;
use crate::mutator::{mutators_view, Mutator};

verus! {

/// A state-dependent precondition: a caller-supplied pure function that
/// produces the comparison to check from the current candidate state, so a
/// threshold can depend on that state rather than on a fixed literal.
///
/// The function is shared, immutable, and must be side-effect-free and safe
/// to call repeatedly; nothing is assumed about which comparison it returns.
#[verifier::external_body]
pub struct DynCompare {
    resolver: Arc<dyn Fn(&LocalState) -> Compare>,
}

impl Clone for DynCompare {
    /// Another shared handle to the same resolver function.
    #[verifier::external_body]
    fn clone(&self) -> Self {
        DynCompare { resolver: Arc::clone(&self.resolver) }
    }
}

impl DynCompare {
    /// Wraps a caller-supplied resolver function behind a shared handle.
    #[verifier::external_body]
    pub fn new<F: Fn(&LocalState) -> Compare + Send + Sync + 'static>(resolver: F) -> Self {
        DynCompare { resolver: Arc::new(resolver) }
    }

    /// Relies on `Arc<dyn Fn>`: calls the caller-supplied resolver on the
    /// current state. The returned comparison is arbitrary; every caller is
    /// verified for any value it may produce.
    #[verifier::external_body]
    fn resolve(&self, state: &LocalState) -> Compare {
        (self.resolver)(state)
    }
}

impl core::hash::Hash for DynCompare {
    /// A resolver contributes nothing to a hash, matching the weak equality
    /// that never compares which function it is.
    #[verifier::external_body]
    fn hash<H: core::hash::Hasher>(&self, _state: &mut H) {
    }
}

/// Something an agent can do, granted the state satisfies the
/// preconditions. Its effect template describes the outcome; exactly one
/// effect template is meaningfully used per action.
///
/// Equality and hashing are deliberately weak: a dynamic precondition
/// counts only by its fact name, never by which resolver function it
/// carries.
#[derive(Clone, Hash)]
pub struct Action {
    /// Unique key, such as `eat_action`.
    pub key: String,
    /// Static preconditions: fact name and the literal comparison it must
    /// satisfy, baked in at construction time.
    pub preconditions: Vec<(String, Compare)>,
    /// Dynamic preconditions: fact name and the function producing the
    /// comparison from the current candidate state.
    pub dynamic_preconditions: Vec<(String, DynCompare)>,
    /// The effect templates; exactly one is meaningfully used.
    pub effects: Vec<Effect>,
}

/// The mathematical model of an action. A dynamic precondition is modelled
/// by its fact name alone: which comparison it yields depends on the state
/// it is asked about.
pub struct ActionFact {
    /// The key, viewed as a character sequence.
    pub key: Seq<char>,
    /// The static preconditions.
    pub preconditions: CondFacts,
    /// The fact names of the dynamic preconditions, in order.
    pub dynamic_names: Seq<Seq<char>>,
    /// The models of the effect templates.
    pub effects: Seq<EffectFact>,
}

impl View for Action {
    type V = ActionFact;

    open spec fn view(&self) -> ActionFact {
        ActionFact {
            key: self.key@,
            preconditions: conds_view(self.preconditions@),
            dynamic_names: self.dynamic_preconditions@.map_values(
                |p: (String, DynCompare)| p.0@,
            ),
            effects: self.effects@.map_values(|e: Effect| e@),
        }
    }
}

impl Action {
    /// A fresh action under `key`, with no preconditions and no effects.
    pub fn new(key: &str) -> (result: Self)
        ensures
            result@.key == key@,
            result@.preconditions == Seq::<(Seq<char>, Compare)>::empty(),
            result@.dynamic_names == Seq::<Seq<char>>::empty(),
            result@.effects == Seq::<EffectFact>::empty(),
    {
        let result = Action {
            key: key.to_owned(),
            preconditions: Vec::new(),
            dynamic_preconditions: Vec::new(),
            effects: Vec::new(),
        };
        proof {
            assert(result@.preconditions =~= Seq::<(Seq<char>, Compare)>::empty());
            assert(result@.dynamic_names =~= Seq::<Seq<char>>::empty());
            assert(result@.effects =~= Seq::<EffectFact>::empty());
        }
        result
    }

    /// Builder: `self` with a static precondition on `key` appended.
    pub fn with_precondition(self, key: &str, compare: Compare) -> (result: Self)
        ensures
            result@.key == self@.key,
            result@.preconditions == self@.preconditions.push((key@, compare)),
            result@.dynamic_names == self@.dynamic_names,
            result@.effects == self@.effects,
    {
        let mut action = self;
        let ghost before = action@;
        action.preconditions.push((key.to_owned(), compare));
        proof {
            assert(action@.preconditions =~= before.preconditions.push((key@, compare)));
        }
        action
    }

    /// Builder: `self` with a static precondition appended as a pair.
    pub fn add_precondition(self, precondition: (String, Compare)) -> (result: Self)
        ensures
            result@.key == self@.key,
            result@.preconditions == self@.preconditions.push(
                (precondition.0@, precondition.1),
            ),
            result@.dynamic_names == self@.dynamic_names,
            result@.effects == self@.effects,
    {
        let mut action = self;
        let ghost before = action@;
        action.preconditions.push(precondition);
        proof {
            assert(action@.preconditions =~= before.preconditions.push(
                (precondition.0@, precondition.1),
            ));
        }
        action
    }

    /// Builder: `self` with a dynamic precondition on the named fact
    /// appended.
    pub fn add_dynamic_precondition(self, precondition: (String, DynCompare)) -> (result: Self)
        ensures
            result@.key == self@.key,
            result@.preconditions == self@.preconditions,
            result@.dynamic_names == self@.dynamic_names.push(precondition.0@),
            result@.effects == self@.effects,
    {
        let mut action = self;
        let ghost before = action@;
        action.dynamic_preconditions.push(precondition);
        proof {
            assert(action@.dynamic_names =~= before.dynamic_names.push(precondition.0@));
        }
        action
    }

    /// Builder: `self` with an effect template appended.
    pub fn with_effect(self, effect: Effect) -> (result: Self)
        ensures
            result@.key == self@.key,
            result@.preconditions == self@.preconditions,
            result@.dynamic_names == self@.dynamic_names,
            result@.effects == self@.effects.push(effect@),
    {
        let mut action = self;
        let ghost before = action@;
        action.effects.push(effect);
        proof {
            assert(action@.effects =~= before.effects.push(effect@));
        }
        action
    }

    /// Builder: `self` with `mutator` appended to its single effect
    /// template, which is created (keyed by the action, cost one) when no
    /// template exists yet.
    pub fn add_mutator(self, mutator: crate::mutator::Mutator) -> (result: Self)
        ensures
            result@.key == self@.key,
            result@.preconditions == self@.preconditions,
            result@.dynamic_names == self@.dynamic_names,
            self@.effects.len() == 0 ==> result@.effects.len() == 1 && result@.effects[0].action
                == self@.key && result@.effects[0].mutators == seq![mutator@]
                && result@.effects[0].cost == 1,
            self@.effects.len() > 0 ==> result@.effects == self@.effects.update(
                0,
                EffectFact {
                    mutators: self@.effects[0].mutators.push(mutator@),
                    ..self@.effects[0]
                },
            ),
    {
        let mut action = self;
        let ghost before = action@;
        if action.effects.len() == 0 {
            let effect = Effect::new(action.key.as_str()).with_mutator(mutator);
            action.effects.push(effect);
            proof {
                assert(action@.effects =~= seq![action@.effects[0]]);
                assert(action@.effects[0].mutators =~= seq![mutator@]);
            }
        } else {
            let effect = action.effects[0].clone().with_mutator(mutator);
            action.effects.set(0, effect);
            proof {
                assert(action@.effects =~= before.effects.update(
                    0,
                    EffectFact { mutators: before.effects[0].mutators.push(mutator@), ..before
                        .effects[0] },
                ));
            }
        }
        action
    }

    /// Builder: `self` with the cost of its single effect template
    /// replaced.
    pub fn set_cost(self, new_cost: usize) -> (result: Self)
        requires
            self@.effects.len() > 0,
        ensures
            result@.key == self@.key,
            result@.preconditions == self@.preconditions,
            result@.dynamic_names == self@.dynamic_names,
            result@.effects == self@.effects.update(
                0,
                EffectFact { cost: new_cost as int, ..self@.effects[0] },
            ),
    {
        let mut action = self;
        let ghost before = action@;
        let mut effect = action.effects[0].clone();
        effect.cost = new_cost;
        action.effects.set(0, effect);
        proof {
            assert(action@.effects =~= before.effects.update(
                0,
                EffectFact { cost: new_cost as int, ..before.effects[0] },
            ));
        }
        action
    }

    /// The fact names of the dynamic preconditions, in order: the part of
    /// them that does not depend on any state.
    pub fn get_dynamic_precondition(&self) -> (result: Vec<String>)
        ensures
            result@.map_values(|s: String| s@) == self@.dynamic_names,
    {
        let mut result: Vec<String> = Vec::new();
        let mut i: usize = 0;
        while i < self.dynamic_preconditions.len()
            invariant
                i <= self.dynamic_preconditions.len(),
                result@.len() == i as int,
                forall|j: int| 0 <= j < i as int ==> result@[j]@
                    == self.dynamic_preconditions@[j].0@,
            decreases self.dynamic_preconditions.len() - i,
        {
            result.push(self.dynamic_preconditions[i].0.clone());
            i = i + 1;
        }
        proof {
            assert(result@.map_values(|s: String| s@) =~= self@.dynamic_names);
        }
        result
    }

    /// Materializes the full precondition list against `state`: the static
    /// pairs verbatim, then one pair per dynamic precondition, under its
    /// fact name, with the comparison its resolver produced for `state`.
    pub fn get_preconditions(&self, state: &LocalState) -> (result: Vec<(String, Compare)>)
        ensures
            result@.len() == self.preconditions@.len() + self@.dynamic_names.len(),
            forall|j: int| 0 <= j < self.preconditions@.len() ==> conds_view(result@)[j]
                == self@.preconditions[j],
            forall|j: int| 0 <= j < self@.dynamic_names.len() ==> conds_view(result@)[
                self.preconditions@.len() + j
            ].0 == self@.dynamic_names[j],
    {
        let mut result: Vec<(String, Compare)> = Vec::new();
        let mut i: usize = 0;
        while i < self.preconditions.len()
            invariant
                i <= self.preconditions.len(),
                result@.len() == i as int,
                forall|j: int| 0 <= j < i as int ==> result@[j] == self.preconditions@[j],
            decreases self.preconditions.len() - i,
        {
            let entry = (self.preconditions[i].0.clone(), self.preconditions[i].1);
            result.push(entry);
            i = i + 1;
        }
        let mut d: usize = 0;
        while d < self.dynamic_preconditions.len()
            invariant
                d <= self.dynamic_preconditions.len(),
                result@.len() == self.preconditions@.len() + d as int,
                forall|j: int| 0 <= j < self.preconditions@.len() ==> result@[j]
                    == self.preconditions@[j],
                forall|j: int| 0 <= j < d as int ==> result@[self.preconditions@.len() + j].0@
                    == self.dynamic_preconditions@[j].0@,
            decreases self.dynamic_preconditions.len() - d,
        {
            let name = self.dynamic_preconditions[d].0.clone();
            let compare = self.dynamic_preconditions[d].1.resolve(state);
            result.push((name, compare));
            d = d + 1;
        }
        result
    }
}

/// Whether every materialized precondition of `action` holds of `state`:
/// the first fault in precondition order when one exists — a missing fact
/// or an undefined comparison — otherwise the conjunction.
///
/// When the action has no dynamic preconditions the outcome is exactly the
/// evaluation of its static list; `Ok(true)` always implies the static
/// list is satisfied.
pub fn check_preconditions(state: &LocalState, action: &Action) -> (result: Result<
    bool,
    EvalError,
>)
    ensures
        result == Ok::<bool, EvalError>(true) ==> conds_check(state@, action@.preconditions)
            == Ok::<bool, EvalFault>(true),
        action@.dynamic_names.len() == 0 ==> check_result_view(result) == conds_check(
            state@,
            action@.preconditions,
        ),
{
    let materialized = action.get_preconditions(state);
    let result = check_conditions(state, &materialized);
    proof {
        let full = conds_view(materialized@);
        let stat = action@.preconditions;
        let dynp = full.subrange(stat.len() as int, full.len() as int);
        assert(full =~= stat + dynp);
        if check_result_view(result) == Ok::<bool, EvalFault>(true) {
            lemma_conds_check_prefix(state@, stat, dynp);
        }
        if action@.dynamic_names.len() == 0 {
            assert(full =~= stat);
        }
    }
    result
}

/// Whether two mutators are the same operation on the same fact with the
/// same amount.
fn mutator_eq(a: &Mutator, b: &Mutator) -> (r: bool)
    ensures
        r == (a@ == b@),
{
    match (a, b) {
        (Mutator::SetValue(k1, v1), Mutator::SetValue(k2, v2)) => k1.eq(k2) && *v1 == *v2,
        (Mutator::Increment(k1, v1), Mutator::Increment(k2, v2)) => k1.eq(k2) && *v1 == *v2,
        (Mutator::Decrement(k1, v1), Mutator::Decrement(k2, v2)) => k1.eq(k2) && *v1 == *v2,
        _ => false,
    }
}

/// Whether two mutator lists agree element by element.
fn mutators_eq(a: &Vec<Mutator>, b: &Vec<Mutator>) -> (r: bool)
    ensures
        r == (mutators_view(a@) == mutators_view(b@)),
{
    if a.len() != b.len() {
        proof {
            assert(mutators_view(a@).len() != mutators_view(b@).len());
        }
        return false;
    }
    let mut i: usize = 0;
    while i < a.len()
        invariant
            a@.len() == b@.len(),
            i <= a@.len(),
            forall|j: int| 0 <= j < i as int ==> mutators_view(a@)[j] == mutators_view(b@)[j],
        decreases a.len() - i,
    {
        if !mutator_eq(&a[i], &b[i]) {
            proof {
                assert(mutators_view(a@)[i as int] != mutators_view(b@)[i as int]);
            }
            return false;
        }
        i = i + 1;
    }
    proof {
        assert(mutators_view(a@) =~= mutators_view(b@));
    }
    true
}

/// Whether two states hold the same facts, name for name and value for
/// value, in the same order.
fn facts_eq(a: &LocalState, b: &LocalState) -> (r: bool)
    ensures
        r == (a@ == b@),
{
    if a.data.len() != b.data.len() {
        return false;
    }
    let mut i: usize = 0;
    while i < a.data.len()
        invariant
            a.data@.len() == b.data@.len(),
            i <= a.data@.len(),
            a@.len() == a.data@.len(),
            b@.len() == b.data@.len(),
            forall|j: int| 0 <= j < i as int ==> a@[j] == b@[j],
        decreases a.data.len() - i,
    {
        let names_match = a.data[i].0.eq(&b.data[i].0);
        if !names_match || !(a.data[i].1 == b.data[i].1) {
            proof {
                assert(a@[i as int] == (a.data@[i as int].0@, a.data@[i as int].1));
                assert(b@[i as int] == (b.data@[i as int].0@, b.data@[i as int].1));
                assert(a@[i as int] != b@[i as int]);
            }
            return false;
        }
        i = i + 1;
    }
    proof {
        assert(a@ =~= b@);
    }
    true
}

/// Whether two effects have the same model: identifier, mutators, cost and
/// resulting state.
fn effect_eq(a: &Effect, b: &Effect) -> (r: bool)
    ensures
        r == (a@ == b@),
{
    let r = a.action.eq(&b.action) && a.cost == b.cost && mutators_eq(&a.mutators, &b.mutators)
        && facts_eq(&a.state, &b.state);
    proof {
        if r {
            assert(a@ == b@);
        } else {
            assert(a@ != b@);
        }
    }
    r
}

/// Whether two effect-template lists agree element by element.
fn effects_eq(a: &Vec<Effect>, b: &Vec<Effect>) -> (r: bool)
    ensures
        r == (a@.map_values(|e: Effect| e@) == b@.map_values(|e: Effect| e@)),
{
    if a.len() != b.len() {
        return false;
    }
    let mut i: usize = 0;
    while i < a.len()
        invariant
            a@.len() == b@.len(),
            i <= a@.len(),
            forall|j: int| 0 <= j < i as int ==> (#[trigger] a@[j])@ == b@[j]@,
        decreases a.len() - i,
    {
        if !effect_eq(&a[i], &b[i]) {
            proof {
                assert(a@.map_values(|e: Effect| e@)[i as int] == a@[i as int]@);
                assert(b@.map_values(|e: Effect| e@)[i as int] == b@[i as int]@);
            }
            return false;
        }
        i = i + 1;
    }
    proof {
        assert(a@.map_values(|e: Effect| e@) =~= b@.map_values(|e: Effect| e@));
    }
    true
}

/// Whether two condition lists agree element by element.
fn conds_eq(a: &Vec<(String, Compare)>, b: &Vec<(String, Compare)>) -> (r: bool)
    ensures
        r == (conds_view(a@) == conds_view(b@)),
{
    if a.len() != b.len() {
        return false;
    }
    let mut i: usize = 0;
    while i < a.len()
        invariant
            a@.len() == b@.len(),
            i <= a@.len(),
            conds_view(a@).len() == a@.len(),
            conds_view(b@).len() == b@.len(),
            forall|j: int| 0 <= j < i as int ==> conds_view(a@)[j] == conds_view(b@)[j],
        decreases a.len() - i,
    {
        let names_match = a[i].0.eq(&b[i].0);
        if !names_match || !(a[i].1 == b[i].1) {
            proof {
                assert(conds_view(a@)[i as int] == (a@[i as int].0@, a@[i as int].1));
                assert(conds_view(b@)[i as int] == (b@[i as int].0@, b@[i as int].1));
                assert(conds_view(a@)[i as int] != conds_view(b@)[i as int]);
            }
            return false;
        }
        i = i + 1;
    }
    proof {
        assert(conds_view(a@) =~= conds_view(b@));
    }
    true
}

/// Whether two dynamic-precondition lists name the same facts in the same
/// order; which resolver each carries is deliberately not compared.
fn dyn_names_eq(a: &Vec<(String, DynCompare)>, b: &Vec<(String, DynCompare)>) -> (r: bool)
    ensures
        r == (a@.map_values(|p: (String, DynCompare)| p.0@) == b@.map_values(
            |p: (String, DynCompare)| p.0@,
        )),
{
    if a.len() != b.len() {
        proof {
            assert(a@.map_values(|p: (String, DynCompare)| p.0@).len() != b@.map_values(
                |p: (String, DynCompare)| p.0@,
            ).len());
        }
        return false;
    }
    let mut i: usize = 0;
    while i < a.len()
        invariant
            a@.len() == b@.len(),
            i <= a@.len(),
            forall|j: int| 0 <= j < i as int ==> (#[trigger] a@[j]).0@ == b@[j].0@,
        decreases a.len() - i,
    {
        if !a[i].0.eq(&b[i].0) {
            proof {
                assert(a@.map_values(|p: (String, DynCompare)| p.0@)[i as int] == a@[i as int].0@);
                assert(b@.map_values(|p: (String, DynCompare)| p.0@)[i as int] == b@[i as int].0@);
            }
            return false;
        }
        i = i + 1;
    }
    proof {
        assert(a@.map_values(|p: (String, DynCompare)| p.0@) =~= b@.map_values(
            |p: (String, DynCompare)| p.0@,
        ));
    }
    true
}

impl PartialEq for Action {
    /// Weak equality: two actions are equal when their keys, static
    /// preconditions, effect templates and dynamic-precondition fact names
    /// all agree; which resolver function a dynamic precondition carries is
    /// deliberately never compared.
    fn eq(&self, other: &Self) -> (r: bool) {
        let r = self.key.eq(&other.key) && conds_eq(&self.preconditions, &other.preconditions)
            && dyn_names_eq(&self.dynamic_preconditions, &other.dynamic_preconditions)
            && effects_eq(&self.effects, &other.effects);
        proof {
            if r {
                assert(self@ == other@);
            } else {
                assert(self@ != other@);
            }
        }
        r
    }
}

impl vstd::std_specs::cmp::PartialEqSpecImpl for Action {
    open spec fn obeys_eq_spec() -> bool {
        true
    }

    open spec fn eq_spec(&self, other: &Action) -> bool {
        self@ == other@
    }
}

} // verus!
