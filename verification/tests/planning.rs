use std::sync::Arc;

use dogoap::action::{check_preconditions, Action, DynCompare};
use dogoap::compare::{Compare, EvalError};
use dogoap::datum::Datum;
use dogoap::effect::Effect;
use dogoap::goal::Goal;
use dogoap::localstate::LocalState;
use dogoap::mutator::{apply_mutator, Mutator};
use dogoap::planner::{
    get_effects_from_plan, make_plan, make_plan_with_strategy, successors, Node, PlanError,
    PlanningStrategy,
};
use dogoap::simple::{
    simple_action, simple_decrement_action, simple_increment_action, simple_multi_mutate_action,
};

fn plan_action_names(path: &[Node]) -> Vec<String> {
    path.iter()
        .filter_map(|node| match node {
            Node::Effect(effect) => Some(effect.action.clone()),
            Node::State(_) => None,
        })
        .collect()
}

#[test]
fn scenario_one_sleep_reaches_the_goal() {
    let state = LocalState::new().with_datum("energy", Datum::I64(0));
    let sleep = simple_increment_action("sleep", "energy", Datum::I64(10));
    let goal = Goal::new().with_req("energy", Compare::GreaterThanEquals(Datum::I64(10)));
    let (path, cost) = make_plan(&state, &vec![sleep], &goal).unwrap().unwrap();
    assert_eq!(cost, 1);
    let effects = get_effects_from_plan(path);
    assert_eq!(effects.len(), 1);
    assert_eq!(effects[0].action, "sleep");
    assert_eq!(effects[0].state.get("energy"), Some(Datum::I64(10)));
}

#[test]
fn scenario_repeatable_action_stacks_to_the_goal() {
    let state = LocalState::new().with_datum("energy", Datum::I64(5));
    let sleep = simple_increment_action("sleep", "energy", Datum::I64(3));
    let goal = Goal::new().with_req("energy", Compare::GreaterThanEquals(Datum::I64(10)));
    let (path, cost) = make_plan(&state, &vec![sleep], &goal).unwrap().unwrap();
    assert_eq!(cost, 2);
    let effects = get_effects_from_plan(path);
    assert_eq!(
        effects.iter().map(|e| e.action.clone()).collect::<Vec<_>>(),
        vec!["sleep".to_string(), "sleep".to_string()]
    );
    assert_eq!(effects[1].state.get("energy"), Some(Datum::I64(11)));
}

#[test]
fn scenario_precondition_gated_action_then_trivial_replan() {
    let state = LocalState::new().with_datum("hunger", Datum::I64(0));
    let eat = Action::new("eat")
        .with_precondition("hunger", Compare::Equals(Datum::I64(0)))
        .add_mutator(Mutator::SetValue("hunger".to_string(), Datum::I64(1)));
    let goal = Goal::new().with_req("hunger", Compare::Equals(Datum::I64(1)));
    let (path, cost) = make_plan(&state, &vec![eat.clone()], &goal).unwrap().unwrap();
    assert_eq!(cost, 1);
    let effects = get_effects_from_plan(path);
    assert_eq!(effects.len(), 1);
    assert_eq!(effects[0].action, "eat");
    let after = effects[0].state.clone();
    assert_eq!(after.get("hunger"), Some(Datum::I64(1)));
    // The same goal against the resulting state yields a zero-length plan.
    let (path, cost) = make_plan(&after, &vec![eat], &goal).unwrap().unwrap();
    assert_eq!(cost, 0);
    assert_eq!(path.len(), 1);
    assert!(get_effects_from_plan(path).is_empty());
}

#[test]
fn already_satisfied_goal_gives_empty_plan_at_cost_zero() {
    let state = LocalState::new().with_datum("energy", Datum::I64(20));
    let sleep = simple_increment_action("sleep", "energy", Datum::I64(10));
    let goal = Goal::new().with_req("energy", Compare::GreaterThanEquals(Datum::I64(10)));
    let (path, cost) = make_plan(&state, &vec![sleep], &goal).unwrap().unwrap();
    assert_eq!(cost, 0);
    assert_eq!(path.len(), 1);
    match &path[0] {
        Node::State(s) => assert_eq!(s.get("energy"), Some(Datum::I64(20))),
        Node::Effect(_) => panic!("the single vertex must be the initial state"),
    }
}

#[test]
fn unreachable_goal_gives_no_result() {
    let state = LocalState::new().with_datum("energy", Datum::I64(0));
    let goal = Goal::new().with_req("energy", Compare::GreaterThanEquals(Datum::I64(10)));
    // No actions at all: the frontier empties without reaching the goal.
    assert_eq!(make_plan(&state, &vec![], &goal), Ok(None));
    // An action gated on an unsatisfiable precondition never fires.
    let gated = Action::new("wish")
        .with_precondition("energy", Compare::GreaterThanEquals(Datum::I64(10)))
        .add_mutator(Mutator::SetValue("energy".to_string(), Datum::I64(10)));
    assert_eq!(make_plan(&state, &vec![gated], &goal), Ok(None));
}

#[test]
fn cheapest_route_wins_over_costly_shortcut() {
    let state = LocalState::new().with_datum("energy", Datum::I64(0));
    let sleep = simple_increment_action("sleep", "energy", Datum::I64(3));
    let binge = simple_increment_action("binge", "energy", Datum::I64(6)).set_cost(10);
    let goal = Goal::new().with_req("energy", Compare::GreaterThanEquals(Datum::I64(6)));
    // Brute force over this two-action space: two sleeps cost 2, one binge
    // costs 10, sleep+binge 11 or more; 2 is the minimum.
    let (path, cost) = make_plan(&state, &vec![binge, sleep], &goal).unwrap().unwrap();
    assert_eq!(cost, 2);
    assert_eq!(
        plan_action_names(&path),
        vec!["sleep".to_string(), "sleep".to_string()]
    );
}

#[test]
fn unimplemented_strategy_is_an_explicit_failure() {
    let state = LocalState::new().with_datum("energy", Datum::I64(0));
    let goal = Goal::new().with_req("energy", Compare::Equals(Datum::I64(0)));
    let result = make_plan_with_strategy(PlanningStrategy::GoalToStart, &state, &vec![], &goal);
    assert_eq!(result, Err(PlanError::UnimplementedStrategy));
}

#[test]
fn evaluation_faults_abort_planning() {
    let state = LocalState::new().with_datum("energy", Datum::I64(0));
    // Goal on a missing fact.
    let missing = Goal::new().with_req("hunger", Compare::Equals(Datum::I64(0)));
    assert_eq!(
        make_plan(&state, &vec![], &missing),
        Err(PlanError::Eval(EvalError::MissingFact("hunger".to_string())))
    );
    // Goal ordering a boolean.
    let flagged = LocalState::new().with_datum("alive", Datum::Bool(true));
    let mismatched = Goal::new().with_req("alive", Compare::LessThan(Datum::I64(1)));
    assert_eq!(
        make_plan(&flagged, &vec![], &mismatched),
        Err(PlanError::Eval(EvalError::TypeMismatch("alive".to_string())))
    );
    // A mutator that overflows during successor generation.
    let maxed = LocalState::new().with_datum("energy", Datum::I64(i64::MAX));
    let sleep = simple_increment_action("sleep", "energy", Datum::I64(1));
    let unreachable_goal = Goal::new().with_req("energy", Compare::Equals(Datum::I64(0)));
    assert_eq!(
        make_plan(&maxed, &vec![sleep], &unreachable_goal),
        Err(PlanError::Eval(EvalError::Overflow("energy".to_string())))
    );
}

#[test]
fn failing_preconditions_keep_actions_out_of_successors() {
    let state = LocalState::new()
        .with_datum("energy", Datum::I64(5))
        .with_datum("hunger", Datum::I64(3));
    let rested = Action::new("rested")
        .with_precondition("energy", Compare::GreaterThanEquals(Datum::I64(10)))
        .add_mutator(Mutator::Increment("hunger".to_string(), Datum::I64(1)));
    let fed = Action::new("fed")
        .with_precondition("hunger", Compare::LessThanEquals(Datum::I64(3)))
        .add_mutator(Mutator::SetValue("hunger".to_string(), Datum::I64(0)));
    let idle = Action::new("idle");
    let start = Node::State(state);
    let succs = successors(&start, &vec![rested, fed, idle]).unwrap();
    // "rested" fails its precondition and "idle" has no effect template:
    // neither appears; "fed" does.
    assert_eq!(succs.len(), 1);
    match &succs[0].0 {
        Node::Effect(effect) => {
            assert_eq!(effect.action, "fed");
            assert_eq!(effect.state.get("hunger"), Some(Datum::I64(0)));
        }
        Node::State(_) => panic!("successors are always effect vertices"),
    }
    assert_eq!(succs[0].1, 1);
}

#[test]
fn successors_follow_library_order() {
    let state = LocalState::new().with_datum("energy", Datum::I64(0));
    let first = simple_increment_action("first", "energy", Datum::I64(1));
    let second = simple_increment_action("second", "energy", Datum::I64(2));
    let succs = successors(&Node::State(state), &vec![first, second]).unwrap();
    assert_eq!(succs.len(), 2);
    let names: Vec<String> = succs
        .iter()
        .map(|(node, _)| match node {
            Node::Effect(effect) => effect.action.clone(),
            Node::State(_) => panic!("successors are always effect vertices"),
        })
        .collect();
    assert_eq!(names, vec!["first".to_string(), "second".to_string()]);
}

#[test]
fn dynamic_preconditions_resolve_against_the_candidate_state() {
    let threshold = DynCompare::new(|s: &LocalState| {
        Compare::GreaterThanEquals(s.get("threshold").unwrap())
    });
    let train = Action::new("train")
        .add_dynamic_precondition(("energy".to_string(), threshold))
        .add_mutator(Mutator::Increment("skill".to_string(), Datum::I64(1)));
    let ready = LocalState::new()
        .with_datum("energy", Datum::I64(5))
        .with_datum("threshold", Datum::I64(3))
        .with_datum("skill", Datum::I64(0));
    let tired = LocalState::new()
        .with_datum("energy", Datum::I64(5))
        .with_datum("threshold", Datum::I64(7))
        .with_datum("skill", Datum::I64(0));
    assert_eq!(check_preconditions(&ready, &train), Ok(true));
    assert_eq!(check_preconditions(&tired, &train), Ok(false));
    let succs = successors(&Node::State(ready), &vec![train.clone()]).unwrap();
    assert_eq!(succs.len(), 1);
    let succs = successors(&Node::State(tired), &vec![train]).unwrap();
    assert!(succs.is_empty());
}

#[test]
fn materialized_preconditions_list_static_then_dynamic() {
    let dynamic = DynCompare::new(|_s: &LocalState| Compare::Equals(Datum::Bool(true)));
    let action = Action::new("act")
        .with_precondition("energy", Compare::GreaterThan(Datum::I64(0)))
        .add_dynamic_precondition(("alive".to_string(), dynamic));
    let state = LocalState::new();
    let conds = action.get_preconditions(&state);
    assert_eq!(conds.len(), 2);
    assert_eq!(conds[0].0, "energy");
    assert_eq!(conds[0].1, Compare::GreaterThan(Datum::I64(0)));
    assert_eq!(conds[1].0, "alive");
    assert_eq!(conds[1].1, Compare::Equals(Datum::Bool(true)));
}

#[test]
fn replaying_effect_mutators_reproduces_its_state() {
    let state = LocalState::new()
        .with_datum("energy", Datum::I64(2))
        .with_datum("hunger", Datum::I64(9));
    let refresh = Action::new("refresh")
        .add_mutator(Mutator::Increment("energy".to_string(), Datum::I64(4)))
        .add_mutator(Mutator::SetValue("hunger".to_string(), Datum::I64(0)));
    let succs = successors(&Node::State(state.clone()), &vec![refresh]).unwrap();
    assert_eq!(succs.len(), 1);
    let effect = match &succs[0].0 {
        Node::Effect(effect) => effect.clone(),
        Node::State(_) => panic!("successors are always effect vertices"),
    };
    // Determinism of realization: the stored resulting state is exactly
    // what the mutator list produces from the predecessor state.
    let mut replayed = state.clone();
    for mutator in &effect.mutators {
        apply_mutator(&mut replayed, mutator).unwrap();
    }
    assert_eq!(replayed, effect.state);
}

#[test]
fn builders_shape_the_single_effect() {
    let set = simple_action("flip", "alive", Datum::Bool(false));
    assert_eq!(set.effects.len(), 1);
    assert_eq!(set.effects[0].action, "flip");
    assert_eq!(set.effects[0].cost, 1);
    assert_eq!(
        set.effects[0].mutators,
        vec![Mutator::SetValue("alive".to_string(), Datum::Bool(false))]
    );

    let multi = simple_multi_mutate_action(
        "redecorate",
        vec![
            ("walls".to_string(), Datum::Enum(2)),
            ("floor".to_string(), Datum::Enum(1)),
        ],
    );
    assert_eq!(multi.effects[0].mutators.len(), 2);
    assert_eq!(
        multi.effects[0].mutators[1],
        Mutator::SetValue("floor".to_string(), Datum::Enum(1))
    );

    let dec = simple_decrement_action("nap", "hunger", Datum::I64(2));
    assert_eq!(
        dec.effects[0].mutators,
        vec![Mutator::Decrement("hunger".to_string(), Datum::I64(2))]
    );

    let inc = simple_increment_action("walk", "steps", Datum::U64(100)).set_cost(4);
    assert_eq!(inc.effects[0].cost, 4);
    assert_eq!(
        inc.effects[0].mutators,
        vec![Mutator::Increment("steps".to_string(), Datum::U64(100))]
    );
}

#[test]
fn add_mutator_creates_then_extends_the_template() {
    let action = Action::new("cook")
        .add_mutator(Mutator::SetValue("stove".to_string(), Datum::Bool(true)))
        .add_mutator(Mutator::Increment("meals".to_string(), Datum::I64(1)));
    assert_eq!(action.effects.len(), 1);
    assert_eq!(action.effects[0].action, "cook");
    assert_eq!(action.effects[0].cost, 1);
    assert_eq!(action.effects[0].mutators.len(), 2);
}

#[test]
fn effects_extraction_keeps_only_effect_vertices_in_order() {
    let first = Effect {
        action: "a".to_string(),
        mutators: vec![],
        cost: 1,
        state: LocalState::new(),
    };
    let second = Effect {
        action: "b".to_string(),
        mutators: vec![],
        cost: 2,
        state: LocalState::new(),
    };
    let path = vec![
        Node::State(LocalState::new()),
        Node::Effect(first),
        Node::Effect(second),
    ];
    let effects = get_effects_from_plan(path);
    assert_eq!(effects.len(), 2);
    assert_eq!(effects[0].action, "a");
    assert_eq!(effects[1].action, "b");
}

#[test]
fn node_state_accessor_is_uniform() {
    let state = LocalState::new().with_datum("energy", Datum::I64(3));
    let vertex = Node::State(state.clone());
    assert_eq!(vertex.state().get("energy"), Some(Datum::I64(3)));
    let effect = Effect {
        action: "sleep".to_string(),
        mutators: vec![],
        cost: 1,
        state: state.clone(),
    };
    let vertex = Node::Effect(effect);
    assert_eq!(vertex.state().get("energy"), Some(Datum::I64(3)));
}

#[test]
fn action_equality_is_weak_over_resolvers() {
    let first = Action::new("train")
        .with_precondition("energy", Compare::GreaterThan(Datum::I64(0)))
        .add_dynamic_precondition((
            "skill".to_string(),
            DynCompare::new(|_s: &LocalState| Compare::Equals(Datum::I64(0))),
        ))
        .add_mutator(Mutator::Increment("skill".to_string(), Datum::I64(1)));
    // Same key, preconditions, effects and dynamic fact name, but a
    // different resolver function: still equal, by the weak policy.
    let second = Action::new("train")
        .with_precondition("energy", Compare::GreaterThan(Datum::I64(0)))
        .add_dynamic_precondition((
            "skill".to_string(),
            DynCompare::new(|s: &LocalState| Compare::Equals(s.get("level").unwrap())),
        ))
        .add_mutator(Mutator::Increment("skill".to_string(), Datum::I64(1)));
    assert!(first == second);
    // A different static precondition breaks equality.
    let third = Action::new("train")
        .with_precondition("energy", Compare::GreaterThan(Datum::I64(5)))
        .add_dynamic_precondition((
            "skill".to_string(),
            DynCompare::new(|_s: &LocalState| Compare::Equals(Datum::I64(0))),
        ))
        .add_mutator(Mutator::Increment("skill".to_string(), Datum::I64(1)));
    assert!(first != third);
    // A different dynamic fact name breaks equality too.
    let fourth = Action::new("train")
        .with_precondition("energy", Compare::GreaterThan(Datum::I64(0)))
        .add_dynamic_precondition((
            "luck".to_string(),
            DynCompare::new(|_s: &LocalState| Compare::Equals(Datum::I64(0))),
        ))
        .add_mutator(Mutator::Increment("skill".to_string(), Datum::I64(1)));
    assert!(first != fourth);
}

#[test]
fn shared_dynamic_preconditions_can_be_arc_wrapped() {
    let shared: Arc<LocalState> = Arc::new(LocalState::new().with_datum("bar", Datum::I64(1)));
    let dynamic = DynCompare::new(move |_s: &LocalState| {
        Compare::Equals(shared.get("bar").unwrap())
    });
    let action = Action::new("match_bar")
        .add_dynamic_precondition(("foo".to_string(), dynamic))
        .add_mutator(Mutator::SetValue("done".to_string(), Datum::Bool(true)));
    let state = LocalState::new().with_datum("foo", Datum::I64(1));
    assert_eq!(check_preconditions(&state, &action), Ok(true));
}
