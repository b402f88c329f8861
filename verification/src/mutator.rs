//! The mutation model: atomic operations that transform a state mapping.

use vstd::prelude::*;

use crate::compare::EvalFault;
use crate::datum::Datum;
use crate::localstate::{find_fact, lemma_fact_index, set_fact, LocalState, StateFacts};

verus! {

/// An atomic operation on a state mapping, applied to one named fact.
#[derive(Debug, PartialEq, Eq, Hash)]
pub enum Mutator {
    /// Unconditional overwrite, inserting the fact when absent.
    SetValue(String, Datum),
    /// Numeric addition against the fact's current value; the fact must
    /// already hold a numeric value of the same variant.
    Increment(String, Datum),
    /// Numeric subtraction against the fact's current value; the fact must
    /// already hold a numeric value of the same variant.
    Decrement(String, Datum),
}

/// The mathematical model of a mutator, its fact name viewed as a
/// character sequence.
pub enum MutatorFact {
    /// Model of `Mutator::Set`.
    SetValue(Seq<char>, Datum),
    /// Model of `Mutator::Increment`.
    Increment(Seq<char>, Datum),
    /// Model of `Mutator::Decrement`.
    Decrement(Seq<char>, Datum),
}

impl View for Mutator {
    type V = MutatorFact;

    open spec fn view(&self) -> MutatorFact {
        match self {
            Mutator::SetValue(key, value) => MutatorFact::SetValue(key@, *value),
            Mutator::Increment(key, amount) => MutatorFact::Increment(key@, *amount),
            Mutator::Decrement(key, amount) => MutatorFact::Decrement(key@, *amount),
        }
    }
}

impl Clone for Mutator {
    /// An exact copy.
    fn clone(&self) -> (result: Self)
        ensures
            result == *self,
    {
        match self {
            Mutator::SetValue(key, value) => Mutator::SetValue(key.clone(), *value),
            Mutator::Increment(key, amount) => Mutator::Increment(key.clone(), *amount),
            Mutator::Decrement(key, amount) => Mutator::Decrement(key.clone(), *amount),
        }
    }
}

/// The sum (or difference, per `add`) of a fact's current value and an
/// amount: defined only between numeric values of the same variant, and
/// only inside that variant's representable range.
pub open spec fn datum_arith(key: Seq<char>, current: Datum, amount: Datum, add: bool) -> Result<
    Datum,
    EvalFault,
> {
    match (current, amount) {
        (Datum::I64(c), Datum::I64(a)) => {
            let value = if add {
                c + a
            } else {
                c - a
            };
            if i64::MIN <= value <= i64::MAX {
                Ok(Datum::I64(value as i64))
            } else {
                Err(EvalFault::Overflow(key))
            }
        },
        (Datum::U64(c), Datum::U64(a)) => {
            let value = if add {
                c + a
            } else {
                c - a
            };
            if 0 <= value <= u64::MAX {
                Ok(Datum::U64(value as u64))
            } else {
                Err(EvalFault::Overflow(key))
            }
        },
        _ => Err(EvalFault::TypeMismatch(key)),
    }
}

/// The state produced by one mutator against `st`, or the fault that stops
/// it: `Set` always succeeds; `Increment` and `Decrement` require the fact
/// to be present with a numeric value of the amount's variant.
pub open spec fn apply_mutator_fact(st: StateFacts, m: MutatorFact) -> Result<
    StateFacts,
    EvalFault,
> {
    match m {
        MutatorFact::SetValue(key, value) => Ok(set_fact(st, key, value)),
        MutatorFact::Increment(key, amount) => match find_fact(st, key) {
            Option::None => Err(EvalFault::MissingFact(key)),
            Option::Some(current) => match datum_arith(key, current, amount, true) {
                Ok(value) => Ok(set_fact(st, key, value)),
                Err(fault) => Err(fault),
            },
        },
        MutatorFact::Decrement(key, amount) => match find_fact(st, key) {
            Option::None => Err(EvalFault::MissingFact(key)),
            Option::Some(current) => match datum_arith(key, current, amount, false) {
                Ok(value) => Ok(set_fact(st, key, value)),
                Err(fault) => Err(fault),
            },
        },
    }
}

/// The state produced by a whole mutator list applied in order, left to
/// right, or the first fault that stops it.
pub open spec fn apply_mutator_facts(st: StateFacts, ms: Seq<MutatorFact>) -> Result<
    StateFacts,
    EvalFault,
>
    decreases ms.len(),
{
    if ms.len() == 0 {
        Ok(st)
    } else {
        match apply_mutator_fact(st, ms[0]) {
            Ok(next) => apply_mutator_facts(next, ms.drop_first()),
            Err(fault) => Err(fault),
        }
    }
}

/// The model of a mutator list held in exec form.
pub open spec fn mutators_view(ms: Seq<Mutator>) -> Seq<MutatorFact> {
    ms.map_values(|m: Mutator| m@)
}

/// Applies one mutator to a working state in place. On a fault the state is
/// left unchanged and the offending fact name is reported.
pub fn apply_mutator(state: &mut LocalState, mutator: &Mutator) -> (result: Result<
    (),
    crate::compare::EvalError,
>)
    ensures
        match result {
            Ok(_) => apply_mutator_fact(old(state)@, mutator@) == Ok::<StateFacts, EvalFault>(
                final(state)@,
            ),
            Err(e) => apply_mutator_fact(old(state)@, mutator@) == Err::<StateFacts, EvalFault>(e@)
                && final(state)@ == old(state)@,
        },
{
    match mutator {
        Mutator::SetValue(key, value) => {
            set_in_place(state, key, *value);
            Ok(())
        },
        Mutator::Increment(key, amount) => {
            arith_in_place(state, key, *amount, true)
        },
        Mutator::Decrement(key, amount) => {
            arith_in_place(state, key, *amount, false)
        },
    }
}

/// Overwrites the fact `key` with `value`, inserting it when absent.
fn set_in_place(state: &mut LocalState, key: &String, value: Datum)
    ensures
        final(state)@ == set_fact(old(state)@, key@, value),
{
    match crate::localstate::state_index_of(state, key.as_str()) {
        Option::Some(i) => {
            proof {
                lemma_fact_index(old(state)@, key@);
            }
            let name = state.data[i].0.clone();
            let ghost before = state@;
            state.data.set(i, (name, value));
            proof {
                assert(state@ =~= set_fact(before, key@, value));
            }
        },
        Option::None => {
            let ghost before = state@;
            state.data.push((key.clone(), value));
            proof {
                assert(state@ =~= set_fact(before, key@, value));
            }
        },
    }
}

/// Adds (or subtracts) `amount` against the numeric fact `key`.
fn arith_in_place(state: &mut LocalState, key: &String, amount: Datum, add: bool) -> (result:
    Result<(), crate::compare::EvalError>)
    ensures
        ({
            let m = if add {
                MutatorFact::Increment(key@, amount)
            } else {
                MutatorFact::Decrement(key@, amount)
            };
            match result {
                Ok(_) => apply_mutator_fact(old(state)@, m) == Ok::<StateFacts, EvalFault>(
                    final(state)@,
                ),
                Err(e) => apply_mutator_fact(old(state)@, m) == Err::<StateFacts, EvalFault>(e@)
                    && final(state)@ == old(state)@,
            }
        }),
{
    match crate::localstate::state_index_of(state, key.as_str()) {
        Option::None => Err(crate::compare::EvalError::MissingFact(key.clone())),
        Option::Some(i) => {
            proof {
                lemma_fact_index(old(state)@, key@);
            }
            let current = state.data[i].1;
            let computed: Option<Datum> = match (current, amount) {
                (Datum::I64(c), Datum::I64(a)) => {
                    let sum = if add {
                        c.checked_add(a)
                    } else {
                        c.checked_sub(a)
                    };
                    match sum {
                        Option::Some(v) => Some(Datum::I64(v)),
                        Option::None => None,
                    }
                },
                (Datum::U64(c), Datum::U64(a)) => {
                    let sum = if add {
                        c.checked_add(a)
                    } else {
                        c.checked_sub(a)
                    };
                    match sum {
                        Option::Some(v) => Some(Datum::U64(v)),
                        Option::None => None,
                    }
                },
                _ => {
                    return Err(crate::compare::EvalError::TypeMismatch(key.clone()));
                },
            };
            match computed {
                Option::None => Err(crate::compare::EvalError::Overflow(key.clone())),
                Option::Some(value) => {
                    let name = state.data[i].0.clone();
                    let ghost before = state@;
                    state.data.set(i, (name, value));
                    proof {
                        assert(state@ =~= set_fact(before, key@, value));
                    }
                    Ok(())
                },
            }
        },
    }
}

} // verus!
