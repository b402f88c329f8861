use dogoap::compare::{compare_penalty, compare_values, Compare, EvalError};
use dogoap::datum::Datum;
use dogoap::goal::{check_goal, Goal};
use dogoap::localstate::LocalState;
use dogoap::mutator::{apply_mutator, Mutator};

#[test]
fn compare_values_equality_operators() {
    assert_eq!(
        compare_values(&Compare::Equals(Datum::I64(3)), &Datum::I64(3)),
        Some(true)
    );
    assert_eq!(
        compare_values(&Compare::Equals(Datum::I64(3)), &Datum::I64(4)),
        Some(false)
    );
    // Structural equality across variants is defined, and false.
    assert_eq!(
        compare_values(&Compare::Equals(Datum::Bool(true)), &Datum::I64(1)),
        Some(false)
    );
    assert_eq!(
        compare_values(&Compare::NotEquals(Datum::Enum(2)), &Datum::Enum(1)),
        Some(true)
    );
    assert_eq!(
        compare_values(&Compare::NotEquals(Datum::U64(7)), &Datum::U64(7)),
        Some(false)
    );
}

#[test]
fn compare_values_ordering_operators() {
    assert_eq!(
        compare_values(&Compare::GreaterThan(Datum::I64(3)), &Datum::I64(4)),
        Some(true)
    );
    assert_eq!(
        compare_values(&Compare::GreaterThanEquals(Datum::I64(4)), &Datum::I64(4)),
        Some(true)
    );
    assert_eq!(
        compare_values(&Compare::LessThan(Datum::U64(4)), &Datum::U64(4)),
        Some(false)
    );
    assert_eq!(
        compare_values(&Compare::LessThanEquals(Datum::I64(-2)), &Datum::I64(-3)),
        Some(true)
    );
}

#[test]
fn ordering_against_non_numeric_is_a_type_error() {
    assert_eq!(
        compare_values(&Compare::GreaterThan(Datum::Bool(false)), &Datum::Bool(true)),
        None
    );
    assert_eq!(
        compare_values(&Compare::LessThan(Datum::I64(1)), &Datum::U64(1)),
        None
    );
    assert_eq!(
        compare_values(&Compare::GreaterThanEquals(Datum::Enum(1)), &Datum::Enum(2)),
        None
    );
}

#[test]
fn penalty_is_distance_to_threshold() {
    assert_eq!(
        compare_penalty(&Compare::Equals(Datum::I64(10)), &Datum::I64(4)),
        Some(6)
    );
    assert_eq!(
        compare_penalty(&Compare::GreaterThanEquals(Datum::I64(10)), &Datum::I64(0)),
        Some(10)
    );
    assert_eq!(
        compare_penalty(&Compare::GreaterThan(Datum::I64(10)), &Datum::I64(10)),
        Some(1)
    );
    assert_eq!(
        compare_penalty(&Compare::LessThan(Datum::U64(3)), &Datum::U64(5)),
        Some(3)
    );
    assert_eq!(
        compare_penalty(&Compare::NotEquals(Datum::Bool(true)), &Datum::Bool(true)),
        Some(1)
    );
    assert_eq!(
        compare_penalty(&Compare::Equals(Datum::Bool(true)), &Datum::Bool(false)),
        Some(1)
    );
    assert_eq!(
        compare_penalty(&Compare::LessThanEquals(Datum::I64(2)), &Datum::I64(2)),
        Some(0)
    );
}

#[test]
fn state_lookup_insert_and_overwrite() {
    let state = LocalState::new()
        .with_datum("energy", Datum::I64(5))
        .with_datum("alive", Datum::Bool(true));
    assert_eq!(state.get("energy"), Some(Datum::I64(5)));
    assert_eq!(state.get("alive"), Some(Datum::Bool(true)));
    assert_eq!(state.get("hunger"), None);
    let state = state.with_datum("energy", Datum::I64(9));
    assert_eq!(state.get("energy"), Some(Datum::I64(9)));
    assert_eq!(state.data.len(), 2);
}

#[test]
fn state_clone_is_independent() {
    let state = LocalState::new().with_datum("energy", Datum::I64(5));
    let copy = state.clone();
    let changed = copy.with_datum("energy", Datum::I64(7));
    assert_eq!(state.get("energy"), Some(Datum::I64(5)));
    assert_eq!(changed.get("energy"), Some(Datum::I64(7)));
}

#[test]
fn set_mutator_overwrites_and_inserts() {
    let mut state = LocalState::new().with_datum("energy", Datum::I64(5));
    apply_mutator(
        &mut state,
        &Mutator::SetValue("energy".to_string(), Datum::I64(1)),
    )
    .unwrap();
    apply_mutator(
        &mut state,
        &Mutator::SetValue("hunger".to_string(), Datum::I64(2)),
    )
    .unwrap();
    assert_eq!(state.get("energy"), Some(Datum::I64(1)));
    assert_eq!(state.get("hunger"), Some(Datum::I64(2)));
}

#[test]
fn increment_and_decrement_mutators() {
    let mut state = LocalState::new()
        .with_datum("energy", Datum::I64(5))
        .with_datum("ammo", Datum::U64(4));
    apply_mutator(
        &mut state,
        &Mutator::Increment("energy".to_string(), Datum::I64(3)),
    )
    .unwrap();
    apply_mutator(
        &mut state,
        &Mutator::Decrement("ammo".to_string(), Datum::U64(1)),
    )
    .unwrap();
    assert_eq!(state.get("energy"), Some(Datum::I64(8)));
    assert_eq!(state.get("ammo"), Some(Datum::U64(3)));
}

#[test]
fn mutator_faults_are_typed() {
    let mut state = LocalState::new().with_datum("energy", Datum::I64(5));
    // Missing fact.
    let fault = apply_mutator(
        &mut state,
        &Mutator::Increment("hunger".to_string(), Datum::I64(1)),
    );
    assert_eq!(fault, Err(EvalError::MissingFact("hunger".to_string())));
    // Type mismatch.
    let fault = apply_mutator(
        &mut state,
        &Mutator::Increment("energy".to_string(), Datum::U64(1)),
    );
    assert_eq!(fault, Err(EvalError::TypeMismatch("energy".to_string())));
    // Arithmetic overflow.
    let mut maxed = LocalState::new().with_datum("energy", Datum::I64(i64::MAX));
    let fault = apply_mutator(
        &mut maxed,
        &Mutator::Increment("energy".to_string(), Datum::I64(1)),
    );
    assert_eq!(fault, Err(EvalError::Overflow("energy".to_string())));
    // Unsigned underflow.
    let mut empty_ammo = LocalState::new().with_datum("ammo", Datum::U64(0));
    let fault = apply_mutator(
        &mut empty_ammo,
        &Mutator::Decrement("ammo".to_string(), Datum::U64(1)),
    );
    assert_eq!(fault, Err(EvalError::Overflow("ammo".to_string())));
    // The state is unchanged after a fault.
    assert_eq!(state.get("energy"), Some(Datum::I64(5)));
}

#[test]
fn goal_builders_and_trivial_goal() {
    let goal = Goal::new();
    let state = LocalState::new();
    // A goal with no requirements is trivially satisfied by every state.
    assert_eq!(check_goal(&state, &goal), Ok(true));
    let goal = goal
        .with_req("energy", Compare::GreaterThanEquals(Datum::I64(3)))
        .with_priority(7);
    assert_eq!(goal.priority, 7);
    assert_eq!(goal.requirements.len(), 1);
    // Re-adding a requirement under the same name overwrites it.
    let goal = goal.with_req("energy", Compare::Equals(Datum::I64(5)));
    assert_eq!(goal.requirements.len(), 1);
    assert_eq!(goal.requirements[0].1, Compare::Equals(Datum::I64(5)));
}

#[test]
fn goal_from_reqs_collects_pairs() {
    let reqs = vec![
        ("energy".to_string(), Compare::GreaterThanEquals(Datum::I64(3))),
        ("alive".to_string(), Compare::Equals(Datum::Bool(true))),
    ];
    let goal = Goal::from_reqs(&reqs);
    assert_eq!(goal.requirements.len(), 2);
    assert_eq!(goal.requirements[0].0, "energy");
    assert_eq!(goal.requirements[1].0, "alive");
}

#[test]
fn distance_is_zero_exactly_when_satisfied() {
    let goal = Goal::new()
        .with_req("energy", Compare::GreaterThanEquals(Datum::I64(10)))
        .with_req("alive", Compare::Equals(Datum::Bool(true)));
    let far = LocalState::new()
        .with_datum("energy", Datum::I64(4))
        .with_datum("alive", Datum::Bool(false));
    assert_eq!(check_goal(&far, &goal), Ok(false));
    assert_eq!(far.distance_to_goal(&goal), Ok(7));
    let there = LocalState::new()
        .with_datum("energy", Datum::I64(12))
        .with_datum("alive", Datum::Bool(true));
    assert_eq!(check_goal(&there, &goal), Ok(true));
    assert_eq!(there.distance_to_goal(&goal), Ok(0));
}

#[test]
fn goal_faults_are_typed_not_false() {
    let state = LocalState::new().with_datum("alive", Datum::Bool(true));
    let missing = Goal::new().with_req("energy", Compare::Equals(Datum::I64(1)));
    assert_eq!(
        check_goal(&state, &missing),
        Err(EvalError::MissingFact("energy".to_string()))
    );
    assert_eq!(
        state.distance_to_goal(&missing),
        Err(EvalError::MissingFact("energy".to_string()))
    );
    let mismatched = Goal::new().with_req("alive", Compare::GreaterThan(Datum::I64(0)));
    assert_eq!(
        check_goal(&state, &mismatched),
        Err(EvalError::TypeMismatch("alive".to_string()))
    );
    assert_eq!(
        state.distance_to_goal(&mismatched),
        Err(EvalError::TypeMismatch("alive".to_string()))
    );
}
