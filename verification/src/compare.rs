//! The comparison model: operators over `Datum` values, evaluation of
//! named conditions against a state, and the goal-distance penalty.

use vstd::prelude::*;

use crate::datum::Datum;
use crate::localstate::{find_fact, LocalState, StateFacts};

verus! {

/// A comparison operator together with its expected (target) value.
///
/// `Equals` and `NotEquals` are defined between any two values; the four
/// ordering operators are defined only between numeric values of the same
/// variant — anything else is a type error, not a silent `false`.
#[derive(Clone, Copy, Debug, PartialEq, Eq, Hash, Structural)]
pub enum Compare {
    /// The actual value equals the target, structurally.
    Equals(Datum),
    /// The actual value differs from the target.
    NotEquals(Datum),
    /// The actual value is strictly greater than the target.
    GreaterThan(Datum),
    /// The actual value is greater than or equal to the target.
    GreaterThanEquals(Datum),
    /// The actual value is strictly less than the target.
    LessThan(Datum),
    /// The actual value is less than or equal to the target.
    LessThanEquals(Datum),
}

impl Compare {
    /// The target value the operator compares against.
    pub open spec fn target(self) -> Datum {
        match self {
            Compare::Equals(d) => d,
            Compare::NotEquals(d) => d,
            Compare::GreaterThan(d) => d,
            Compare::GreaterThanEquals(d) => d,
            Compare::LessThan(d) => d,
            Compare::LessThanEquals(d) => d,
        }
    }

    /// Whether evaluating `self` against `actual` is defined: always for
    /// (in)equality, and only between same-variant numerics for ordering.
    pub open spec fn defined_on(self, actual: Datum) -> bool {
        match self {
            Compare::Equals(_) => true,
            Compare::NotEquals(_) => true,
            _ => self.target().same_numeric(actual),
        }
    }

    /// The truth value of `self` against `actual`, meaningful when
    /// `defined_on` holds.
    pub open spec fn eval(self, actual: Datum) -> bool {
        match self {
            Compare::Equals(t) => actual == t,
            Compare::NotEquals(t) => actual != t,
            Compare::GreaterThan(t) => actual.as_int() > t.as_int(),
            Compare::GreaterThanEquals(t) => actual.as_int() >= t.as_int(),
            Compare::LessThan(t) => actual.as_int() < t.as_int(),
            Compare::LessThanEquals(t) => actual.as_int() <= t.as_int(),
        }
    }

    /// The heuristic penalty of `self` against `actual`: 0 when satisfied,
    /// otherwise the magnitude still needed to cross the threshold (numeric
    /// operators) or one fixed unit (non-numeric mismatches), capped at
    /// `u64::MAX`. Meaningful when `defined_on` holds.
    pub open spec fn penalty(self, actual: Datum) -> int {
        cap_u64(self.raw_penalty(actual))
    }

    /// The uncapped penalty.
    pub open spec fn raw_penalty(self, actual: Datum) -> int {
        match self {
            Compare::Equals(t) => if t.same_numeric(actual) {
                abs_diff(actual.as_int(), t.as_int())
            } else if actual == t {
                0
            } else {
                1
            },
            Compare::NotEquals(t) => if actual == t {
                1
            } else {
                0
            },
            Compare::GreaterThan(t) => if actual.as_int() > t.as_int() {
                0
            } else {
                t.as_int() - actual.as_int() + 1
            },
            Compare::GreaterThanEquals(t) => if actual.as_int() >= t.as_int() {
                0
            } else {
                t.as_int() - actual.as_int()
            },
            Compare::LessThan(t) => if actual.as_int() < t.as_int() {
                0
            } else {
                actual.as_int() - t.as_int() + 1
            },
            Compare::LessThanEquals(t) => if actual.as_int() <= t.as_int() {
                0
            } else {
                actual.as_int() - t.as_int()
            },
        }
    }
}

/// The absolute difference between two integers.
pub open spec fn abs_diff(a: int, b: int) -> int {
    if a >= b {
        a - b
    } else {
        b - a
    }
}

/// `v` capped at `u64::MAX`.
pub open spec fn cap_u64(v: int) -> int {
    if v > u64::MAX as int {
        u64::MAX as int
    } else {
        v
    }
}

/// A penalty is zero exactly when the comparison is satisfied.
pub proof fn lemma_penalty_zero_iff_eval(c: Compare, actual: Datum)
    requires
        c.defined_on(actual),
    ensures
        c.penalty(actual) == 0 <==> c.eval(actual),
        c.penalty(actual) >= 0,
{
}

/// Compares the actual value of a state fact under an operator.
///
/// Returns `None` exactly when the comparison is not defined (an ordering
/// operator against a non-numeric or differently-typed value); that outcome
/// is a type error to be surfaced, never a silent `false`.
pub fn compare_values(compare: &Compare, actual: &Datum) -> (result: Option<bool>)
    ensures
        result == if compare.defined_on(*actual) {
            Some(compare.eval(*actual))
        } else {
            None::<bool>
        },
{
    match compare {
        Compare::Equals(t) => Some(*actual == *t),
        Compare::NotEquals(t) => Some(*actual != *t),
        Compare::GreaterThan(t) => match (actual, t) {
            (Datum::I64(a), Datum::I64(b)) => Some(*a > *b),
            (Datum::U64(a), Datum::U64(b)) => Some(*a > *b),
            _ => None,
        },
        Compare::GreaterThanEquals(t) => match (actual, t) {
            (Datum::I64(a), Datum::I64(b)) => Some(*a >= *b),
            (Datum::U64(a), Datum::U64(b)) => Some(*a >= *b),
            _ => None,
        },
        Compare::LessThan(t) => match (actual, t) {
            (Datum::I64(a), Datum::I64(b)) => Some(*a < *b),
            (Datum::U64(a), Datum::U64(b)) => Some(*a < *b),
            _ => None,
        },
        Compare::LessThanEquals(t) => match (actual, t) {
            (Datum::I64(a), Datum::I64(b)) => Some(*a <= *b),
            (Datum::U64(a), Datum::U64(b)) => Some(*a <= *b),
            _ => None,
        },
    }
}

/// The penalty of a comparison against an actual value, capped at
/// `u64::MAX`; `None` exactly when the comparison is not defined.
pub fn compare_penalty(compare: &Compare, actual: &Datum) -> (result: Option<u64>)
    ensures
        result == if compare.defined_on(*actual) {
            Some(compare.penalty(*actual) as u64)
        } else {
            None::<u64>
        },
        compare.defined_on(*actual) ==> result == Some(compare.penalty(*actual) as u64)
            && compare.penalty(*actual) == cap_u64(compare.raw_penalty(*actual)),
{
    match compare {
        Compare::Equals(t) => match (actual, t) {
            (Datum::I64(a), Datum::I64(b)) => if *a >= *b {
                Some(i64_distance(*a, *b, 0))
            } else {
                Some(i64_distance(*b, *a, 0))
            },
            (Datum::U64(a), Datum::U64(b)) => if *a >= *b {
                Some(u64_distance(*a, *b, 0))
            } else {
                Some(u64_distance(*b, *a, 0))
            },
            _ => if *actual == *t {
                Some(0)
            } else {
                Some(1)
            },
        },
        Compare::NotEquals(t) => if *actual == *t {
            Some(1)
        } else {
            Some(0)
        },
        Compare::GreaterThan(t) => match (actual, t) {
            (Datum::I64(a), Datum::I64(b)) => if *a > *b {
                Some(0)
            } else {
                Some(i64_distance(*b, *a, 1))
            },
            (Datum::U64(a), Datum::U64(b)) => if *a > *b {
                Some(0)
            } else {
                Some(u64_distance(*b, *a, 1))
            },
            _ => None,
        },
        Compare::GreaterThanEquals(t) => match (actual, t) {
            (Datum::I64(a), Datum::I64(b)) => if *a >= *b {
                Some(0)
            } else {
                Some(i64_distance(*b, *a, 0))
            },
            (Datum::U64(a), Datum::U64(b)) => if *a >= *b {
                Some(0)
            } else {
                Some(u64_distance(*b, *a, 0))
            },
            _ => None,
        },
        Compare::LessThan(t) => match (actual, t) {
            (Datum::I64(a), Datum::I64(b)) => if *a < *b {
                Some(0)
            } else {
                Some(i64_distance(*a, *b, 1))
            },
            (Datum::U64(a), Datum::U64(b)) => if *a < *b {
                Some(0)
            } else {
                Some(u64_distance(*a, *b, 1))
            },
            _ => None,
        },
        Compare::LessThanEquals(t) => match (actual, t) {
            (Datum::I64(a), Datum::I64(b)) => if *a <= *b {
                Some(0)
            } else {
                Some(i64_distance(*a, *b, 0))
            },
            (Datum::U64(a), Datum::U64(b)) => if *a <= *b {
                Some(0)
            } else {
                Some(u64_distance(*a, *b, 0))
            },
            _ => None,
        },
    }
}

/// `a - b + extra` for signed operands, capped at `u64::MAX`; callers pass
/// `a >= b`, so the result is the non-negative gap.
fn i64_distance(a: i64, b: i64, extra: u64) -> (result: u64)
    requires
        a >= b,
        extra <= 1,
    ensures
        result == cap_u64(a - b + extra),
{
    let wide: i128 = a as i128 - b as i128 + extra as i128;
    if wide > u64::MAX as i128 {
        u64::MAX
    } else {
        wide as u64
    }
}

/// `a - b + extra` for unsigned operands, capped at `u64::MAX`.
fn u64_distance(a: u64, b: u64, extra: u64) -> (result: u64)
    requires
        a >= b,
        extra <= 1,
    ensures
        result == cap_u64(a - b + extra),
{
    let gap: u64 = a - b;
    if gap == u64::MAX && extra > 0 {
        u64::MAX
    } else {
        gap + extra
    }
}

/// The mathematical model of a condition list: fact names (viewed as
/// character sequences), each with the comparison it must satisfy.
pub type CondFacts = Seq<(Seq<char>, Compare)>;

/// An evaluation fault, at the model level: the offending fact name and the
/// failing operation.
pub enum EvalFault {
    /// A condition or mutator referenced a fact absent from the state.
    MissingFact(Seq<char>),
    /// A comparison or arithmetic mutator met an incompatible value variant.
    TypeMismatch(Seq<char>),
    /// An arithmetic mutator left the representable numeric range.
    Overflow(Seq<char>),
}

/// The joint result of evaluating the conditions `conds` against the state
/// `st`: the first fault in condition order when one exists, otherwise the
/// conjunction of all the comparisons.
///
/// A fault anywhere in the list is reported even when an earlier condition
/// already evaluated to `false`: a malformed model is never conflated with
/// an unsatisfied one.
pub open spec fn conds_check(st: StateFacts, conds: CondFacts) -> Result<bool, EvalFault>
    decreases conds.len(),
{
    if conds.len() == 0 {
        Ok(true)
    } else {
        match find_fact(st, conds[0].0) {
            Option::None => Err(EvalFault::MissingFact(conds[0].0)),
            Option::Some(actual) => if !conds[0].1.defined_on(actual) {
                Err(EvalFault::TypeMismatch(conds[0].0))
            } else {
                match conds_check(st, conds.drop_first()) {
                    Err(fault) => Err(fault),
                    Ok(rest) => Ok(conds[0].1.eval(actual) && rest),
                }
            },
        }
    }
}

/// The summed goal-distance of `conds` against `st`: the first fault in
/// condition order when one exists, otherwise the sum of the per-condition
/// penalties (each capped at `u64::MAX`).
pub open spec fn conds_distance(st: StateFacts, conds: CondFacts) -> Result<int, EvalFault>
    decreases conds.len(),
{
    if conds.len() == 0 {
        Ok(0)
    } else {
        match find_fact(st, conds[0].0) {
            Option::None => Err(EvalFault::MissingFact(conds[0].0)),
            Option::Some(actual) => if !conds[0].1.defined_on(actual) {
                Err(EvalFault::TypeMismatch(conds[0].0))
            } else {
                match conds_distance(st, conds.drop_first()) {
                    Err(fault) => Err(fault),
                    Ok(rest) => Ok(conds[0].1.penalty(actual) + rest),
                }
            },
        }
    }
}

/// The goal distance is zero exactly when every condition is satisfied, and
/// the two evaluations fault together, on the same fact.
pub proof fn lemma_distance_zero_iff_satisfied(st: StateFacts, conds: CondFacts)
    ensures
        conds_distance(st, conds) is Ok <==> conds_check(st, conds) is Ok,
        conds_check(st, conds) is Err ==> conds_distance(st, conds) == Err::<int, EvalFault>(
            conds_check(st, conds)->Err_0,
        ),
        conds_distance(st, conds) is Ok ==> conds_distance(st, conds)->Ok_0 >= 0,
        conds_distance(st, conds) == Ok::<int, EvalFault>(0) <==> conds_check(st, conds)
            == Ok::<bool, EvalFault>(true),
    decreases conds.len(),
{
    if conds.len() > 0 {
        lemma_distance_zero_iff_satisfied(st, conds.drop_first());
        match find_fact(st, conds[0].0) {
            Option::None => {},
            Option::Some(actual) => {
                if conds[0].1.defined_on(actual) {
                    lemma_penalty_zero_iff_eval(conds[0].1, actual);
                }
            },
        }
    }
}

/// A true conjunction over a concatenation is true over the prefix.
pub proof fn lemma_conds_check_prefix(st: StateFacts, a: CondFacts, b: CondFacts)
    requires
        conds_check(st, a + b) == Ok::<bool, EvalFault>(true),
    ensures
        conds_check(st, a) == Ok::<bool, EvalFault>(true),
    decreases a.len(),
{
    if a.len() == 0 {
        assert(a + b =~= b);
    } else {
        assert((a + b).drop_first() =~= a.drop_first() + b);
        assert((a + b)[0] == a[0]);
        lemma_conds_check_prefix(st, a.drop_first(), b);
    }
}

/// An evaluation fault carried back to the caller: the offending fact name
/// and the operation that failed on it.
#[derive(Debug, Clone, PartialEq, Eq)]
pub enum EvalError {
    /// A condition or mutator referenced a fact absent from the state.
    MissingFact(String),
    /// A comparison or arithmetic mutator met an incompatible value variant.
    TypeMismatch(String),
    /// An arithmetic mutator left the representable numeric range.
    Overflow(String),
}

impl View for EvalError {
    type V = EvalFault;

    open spec fn view(&self) -> EvalFault {
        match self {
            EvalError::MissingFact(fact) => EvalFault::MissingFact(fact@),
            EvalError::TypeMismatch(fact) => EvalFault::TypeMismatch(fact@),
            EvalError::Overflow(fact) => EvalFault::Overflow(fact@),
        }
    }
}

/// The model-level value of an exec evaluation result.
pub open spec fn check_result_view(r: Result<bool, EvalError>) -> Result<bool, EvalFault> {
    match r {
        Ok(b) => Ok(b),
        Err(e) => Err(e@),
    }
}

/// The model-level value of an exec distance result.
pub open spec fn distance_result_view(r: Result<u64, EvalError>) -> Result<int, EvalFault> {
    match r {
        Ok(d) => Ok(d as int),
        Err(e) => Err(e@),
    }
}

/// The model of a condition list held in exec form.
pub open spec fn conds_view(conds: Seq<(String, Compare)>) -> CondFacts {
    conds.map_values(|p: (String, Compare)| (p.0@, p.1))
}

/// Evaluates every condition in `conds` against `state`: the first fault in
/// condition order when one exists, otherwise whether all comparisons hold.
pub fn check_conditions(state: &LocalState, conds: &Vec<(String, Compare)>) -> (result: Result<
    bool,
    EvalError,
>)
    ensures
        check_result_view(result) == conds_check(state@, conds_view(conds@)),
{
    let ghost model = conds_view(conds@);
    proof {
        assert(model.skip(0) =~= model);
    }
    let mut all_true = true;
    let mut i: usize = 0;
    while i < conds.len()
        invariant
            i <= conds.len(),
            model == conds_view(conds@),
            model.len() == conds@.len(),
            forall|j: int| 0 <= j < model.len() ==> model[j] == (conds@[j].0@, conds@[j].1),
            conds_check(state@, model) == (match conds_check(state@, model.skip(i as int)) {
                Err(fault) => Err(fault),
                Ok(rest) => Ok(all_true && rest),
            }),
        decreases conds.len() - i,
    {
        proof {
            assert(model.skip(i as int)[0] == model[i as int]);
            assert(model.skip(i as int).drop_first() =~= model.skip(i as int + 1));
        }
        let name = &conds[i].0;
        match state.get(name.as_str()) {
            Option::None => {
                return Err(EvalError::MissingFact(name.clone()));
            },
            Option::Some(actual) => {
                match compare_values(&conds[i].1, &actual) {
                    Option::None => {
                        return Err(EvalError::TypeMismatch(name.clone()));
                    },
                    Option::Some(holds) => {
                        all_true = all_true && holds;
                    },
                }
            },
        }
        i = i + 1;
    }
    proof {
        assert(model.skip(conds@.len() as int) =~= Seq::<(Seq<char>, Compare)>::empty());
    }
    Ok(all_true)
}

/// Sums the per-condition penalties of `conds` against `state`, saturating
/// at `u64::MAX`: the first fault in condition order when one exists,
/// otherwise the capped sum.
pub fn conditions_distance(state: &LocalState, conds: &Vec<(String, Compare)>) -> (result: Result<
    u64,
    EvalError,
>)
    ensures
        ({
            let model = conds_view(conds@);
            match result {
                Ok(d) => conds_distance(state@, model) is Ok && d == cap_u64(
                    conds_distance(state@, model)->Ok_0,
                ),
                Err(e) => conds_distance(state@, model) == Err::<int, EvalFault>(e@),
            }
        }),
{
    let ghost model = conds_view(conds@);
    proof {
        assert(model.skip(0) =~= model);
    }
    let mut total: u64 = 0;
    let mut i: usize = 0;
    while i < conds.len()
        invariant
            i <= conds.len(),
            model == conds_view(conds@),
            model.len() == conds@.len(),
            forall|j: int| 0 <= j < model.len() ==> model[j] == (conds@[j].0@, conds@[j].1),
            conds_distance(state@, model) is Ok ==> total == cap_u64(
                conds_distance(state@, model)->Ok_0 - conds_distance(
                    state@,
                    model.skip(i as int),
                )->Ok_0,
            ),
            conds_distance(state@, model) is Err ==> conds_distance(state@, model) == conds_distance(
                state@,
                model.skip(i as int),
            ),
            conds_distance(state@, model.skip(i as int)) is Err ==> conds_distance(state@, model)
                is Err,
        decreases conds.len() - i,
    {
        proof {
            assert(model.skip(i as int)[0] == model[i as int]);
            assert(model.skip(i as int).drop_first() =~= model.skip(i as int + 1));
            lemma_distance_zero_iff_satisfied(state@, model.skip(i as int));
            lemma_distance_zero_iff_satisfied(state@, model.skip(i as int + 1));
        }
        let name = &conds[i].0;
        match state.get(name.as_str()) {
            Option::None => {
                return Err(EvalError::MissingFact(name.clone()));
            },
            Option::Some(actual) => {
                match compare_penalty(&conds[i].1, &actual) {
                    Option::None => {
                        return Err(EvalError::TypeMismatch(name.clone()));
                    },
                    Option::Some(gap) => {
                        proof {
                            lemma_penalty_zero_iff_eval(conds@[i as int].1, actual);
                        }
                        total = if total > u64::MAX - gap {
                            u64::MAX
                        } else {
                            total + gap
                        };
                    },
                }
            },
        }
        i = i + 1;
    }
    proof {
        assert(model.skip(conds@.len() as int) =~= Seq::<(Seq<char>, Compare)>::empty());
    }
    Ok(total)
}

} // verus!
