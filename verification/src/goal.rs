//! The goal model: a set of required conditions with a priority for
//! external ranking among several goals.

use vstd::prelude::*;

use crate::compare::{
    check_conditions, check_result_view, conditions_distance, conds_check, conds_distance,
    conds_view, lemma_distance_zero_iff_satisfied, cap_u64, Compare, CondFacts, EvalError,
    EvalFault,
};
use crate::localstate::LocalState;

verus! {

/// What the caller wants the final state to be: requirements from fact
/// name to the comparison its value must satisfy, plus a priority used only
/// by a caller choosing among several goals.
///
/// A goal with no requirements is trivially satisfied by every state.
#[derive(Debug, PartialEq)]
pub struct Goal {
    /// The requirements, in insertion order; at most one entry per name is
    /// ever created through this type's own operations.
    pub requirements: Vec<(String, Compare)>,
    /// Relative importance for a caller ranking several goals; ties go to
    /// the goal added first. Not consulted by the planner itself.
    pub priority: usize,
}

impl View for Goal {
    type V = CondFacts;

    /// The model of a goal is its requirement list; the priority plays no
    /// part in satisfaction or distance.
    open spec fn view(&self) -> CondFacts {
        conds_view(self.requirements@)
    }
}

impl Clone for Goal {
    /// A full, independent copy with the same requirements and priority.
    fn clone(&self) -> (result: Self)
        ensures
            result@ == self@,
            result.priority == self.priority,
    {
        let mut requirements: Vec<(String, Compare)> = Vec::new();
        let mut i: usize = 0;
        while i < self.requirements.len()
            invariant
                i <= self.requirements.len(),
                requirements@.len() == i as int,
                forall|j: int| 0 <= j < i as int ==> requirements@[j] == self.requirements@[j],
            decreases self.requirements.len() - i,
        {
            let entry = (self.requirements[i].0.clone(), self.requirements[i].1);
            requirements.push(entry);
            i = i + 1;
        }
        proof {
            assert(requirements@ =~= self.requirements@);
        }
        Goal { requirements, priority: self.priority }
    }
}

impl Goal {
    /// An empty goal with priority zero: no requirements, satisfied by
    /// every state.
    pub fn new() -> (result: Self)
        ensures
            result@ == Seq::<(Seq<char>, Compare)>::empty(),
            result.priority == 0,
    {
        let result = Goal { requirements: Vec::new(), priority: 0 };
        proof {
            assert(result@ =~= Seq::<(Seq<char>, Compare)>::empty());
        }
        result
    }

    /// Builder: `self` with its priority replaced.
    pub fn with_priority(self, priority: usize) -> (result: Self)
        ensures
            result@ == self@,
            result.priority == priority,
    {
        let mut goal = self;
        goal.priority = priority;
        goal
    }

    /// Builder: `self` with the requirement on `key` set to `compare`
    /// (appended when `key` has no requirement yet, overwritten when it
    /// has).
    pub fn with_req(self, key: &str, compare: Compare) -> (result: Self)
        ensures
            result@ == upsert_req(self@, key@, compare),
            result.priority == self.priority,
    {
        let mut goal = self;
        let ghost before = goal@;
        match req_index_of(&goal, key) {
            Option::Some(i) => {
                let name = goal.requirements[i].0.clone();
                goal.requirements.set(i, (name, compare));
                proof {
                    assert(goal@ =~= upsert_req(before, key@, compare));
                }
            },
            Option::None => {
                goal.requirements.push((key.to_owned(), compare));
                proof {
                    assert(goal@ =~= upsert_req(before, key@, compare));
                }
            },
        }
        goal
    }

    /// A goal built from a list of conditions, in order, as `with_req`
    /// would add them one by one.
    pub fn from_reqs(preconditions: &Vec<(String, Compare)>) -> (result: Goal)
        ensures
            result@ == fold_reqs(preconditions@),
            result.priority == 0,
    {
        let mut goal = Goal::new();
        let mut i: usize = 0;
        proof {
            assert(preconditions@.subrange(0, 0) =~= Seq::<(String, Compare)>::empty());
        }
        while i < preconditions.len()
            invariant
                i <= preconditions.len(),
                goal@ == fold_reqs(preconditions@.subrange(0, i as int)),
                goal.priority == 0,
            decreases preconditions.len() - i,
        {
            proof {
                assert(preconditions@.subrange(0, i as int + 1).drop_last() =~= preconditions@
                    .subrange(0, i as int));
                assert(preconditions@.subrange(0, i as int + 1).last() == preconditions@[i as int]);
            }
            goal = goal.with_req(preconditions[i].0.as_str(), preconditions[i].1);
            i = i + 1;
        }
        proof {
            assert(preconditions@.subrange(0, preconditions@.len() as int) =~= preconditions@);
        }
        goal
    }
}

/// Index of the first requirement named `key`, or `-1` when none exists.
pub open spec fn req_index(reqs: CondFacts, key: Seq<char>) -> int
    decreases reqs.len(),
{
    if reqs.len() == 0 {
        -1
    } else if reqs[0].0 == key {
        0
    } else {
        let rest = req_index(reqs.drop_first(), key);
        if rest < 0 {
            -1
        } else {
            rest + 1
        }
    }
}

/// `reqs` with the first requirement named `key` overwritten to `compare`;
/// when absent the pair is appended.
pub open spec fn upsert_req(reqs: CondFacts, key: Seq<char>, compare: Compare) -> CondFacts {
    if req_index(reqs, key) >= 0 {
        reqs.update(req_index(reqs, key), (reqs[req_index(reqs, key)].0, compare))
    } else {
        reqs.push((key, compare))
    }
}

/// The requirements of a goal folded up from a condition list, one
/// `upsert_req` per entry, left to right.
pub open spec fn fold_reqs(conds: Seq<(String, Compare)>) -> CondFacts
    decreases conds.len(),
{
    if conds.len() == 0 {
        Seq::empty()
    } else {
        upsert_req(fold_reqs(conds.drop_last()), conds.last().0@, conds.last().1)
    }
}

/// `req_index` lands on a requirement with the sought name, and on the
/// first one.
pub proof fn lemma_req_index(reqs: CondFacts, key: Seq<char>)
    ensures
        req_index(reqs, key) >= 0 ==> req_index(reqs, key) < reqs.len() && reqs[req_index(
            reqs,
            key,
        )].0 == key,
        forall|j: int| 0 <= j < reqs.len() && reqs[j].0 == key ==> req_index(reqs, key) >= 0,
        forall|j: int| 0 <= j < req_index(reqs, key) ==> reqs[j].0 != key,
    decreases reqs.len(),
{
    if reqs.len() > 0 && reqs[0].0 != key {
        lemma_req_index(reqs.drop_first(), key);
        assert(forall|j: int| 1 <= j < reqs.len() ==> reqs[j] == reqs.drop_first()[j - 1]);
    }
}

/// Position of the first requirement named `key` in `goal`, when present.
fn req_index_of(goal: &Goal, key: &str) -> (result: Option<usize>)
    ensures
        match result {
            Some(i) => req_index(goal@, key@) == i as int && i < goal.requirements@.len(),
            None => req_index(goal@, key@) < 0,
        },
{
    proof {
        lemma_req_index(goal@, key@);
    }
    let key_string: String = key.to_owned();
    let mut i: usize = 0;
    while i < goal.requirements.len()
        invariant
            i <= goal.requirements.len(),
            goal@.len() == goal.requirements@.len(),
            forall|j: int| 0 <= j < goal@.len() ==> goal@[j] == (
                goal.requirements@[j].0@,
                goal.requirements@[j].1,
            ),
            forall|j: int| 0 <= j < i as int ==> goal@[j].0 != key@,
            req_index(goal@, key@) >= 0 ==> req_index(goal@, key@) < goal@.len() && goal@[req_index(
                goal@,
                key@,
            )].0 == key@,
            forall|j: int| 0 <= j < goal@.len() && goal@[j].0 == key@ ==> req_index(goal@, key@)
                >= 0,
            forall|j: int| 0 <= j < req_index(goal@, key@) ==> goal@[j].0 != key@,
            key_string@ == key@,
        decreases goal.requirements.len() - i,
    {
        if goal.requirements[i].0.eq(&key_string) {
            proof {
                assert(goal@[i as int].0 == key@);
                let fi = req_index(goal@, key@);
                assert(fi >= 0);
                if fi < i as int {
                    assert(goal@[fi].0 != key@);
                    assert(false);
                }
                if fi > i as int {
                    assert(goal@[i as int].0 != key@);
                    assert(false);
                }
            }
            return Some(i);
        }
        i = i + 1;
    }
    None
}

/// Checks all the requirements of `goal` against `state`.
///
/// `Ok(true)` when every requirement holds (or there are none),
/// `Ok(false)` when some requirement evaluates false, and the first fault
/// in requirement order — a missing fact or an undefined comparison — as a
/// typed error, never a silent `false`.
pub fn check_goal(state: &LocalState, goal: &Goal) -> (result: Result<bool, EvalError>)
    ensures
        check_result_view(result) == conds_check(state@, goal@),
{
    check_conditions(state, &goal.requirements)
}

impl LocalState {
    /// The goal-distance heuristic: the sum, over the goal's requirements,
    /// of a per-requirement penalty — 0 when already satisfied, otherwise
    /// the magnitude needed to cross the threshold (numeric operators) or
    /// one fixed unit (non-numeric mismatches) — saturating at `u64::MAX`.
    ///
    /// Faults exactly as goal checking does, on the same fact.
    pub fn distance_to_goal(&self, goal: &Goal) -> (result: Result<u64, EvalError>)
        ensures
            match result {
                Ok(d) => conds_distance(self@, goal@) is Ok && d == cap_u64(
                    conds_distance(self@, goal@)->Ok_0,
                ),
                Err(e) => conds_distance(self@, goal@) == Err::<int, EvalFault>(e@),
            },
    {
        conditions_distance(self, &goal.requirements)
    }
}

/// The distance of a state to a goal is zero exactly when the goal is
/// satisfied by that state, and the two evaluations fault together: a
/// distance of zero, goal satisfaction, and their faults all coincide.
pub proof fn lemma_goal_distance_zero_iff_satisfied(state: LocalState, goal: Goal)
    ensures
        conds_distance(state@, goal@) == Ok::<int, EvalFault>(0) <==> conds_check(state@, goal@)
            == Ok::<bool, EvalFault>(true),
        conds_distance(state@, goal@) is Ok <==> conds_check(state@, goal@) is Ok,
        conds_check(state@, goal@) is Err ==> conds_distance(state@, goal@) == Err::<
            int,
            EvalFault,
        >(conds_check(state@, goal@)->Err_0),
{
    lemma_distance_zero_iff_satisfied(state@, goal@);
}

} // verus!
