//! The planner: search-graph nodes, successor generation, the heuristic,
//! and the best-path search producing an ordered plan.

use vstd::prelude::*;

use crate::action::{check_preconditions, Action, ActionFact};
use crate::compare::{
    check_result_view, conds_check, conds_distance, cap_u64, CondFacts, EvalError, EvalFault,
};
use crate::effect::{clone_mutators, Effect, EffectFact};
use crate::goal::{check_goal, Goal};
use crate::localstate::{LocalState, StateFacts};
use crate::mutator::{apply_mutator, apply_mutator_fact, apply_mutator_facts, MutatorFact};

verus! {

/// A vertex of the search graph: either the initial state, or the state
/// after applying a realized effect. No other vertex kind exists.
#[derive(Debug, PartialEq)]
pub enum Node {
    /// The state reached by applying an effect during search.
    Effect(Effect),
    /// The initial state the search departs from.
    State(LocalState),
}

/// The mathematical model of a search vertex.
pub enum NodeFact {
    /// Model of `Node::Effect`.
    Effect(EffectFact),
    /// Model of `Node::State`.
    State(StateFacts),
}

impl NodeFact {
    /// The state this vertex exposes: the initial state, or the state the
    /// effect produced.
    pub open spec fn facts(self) -> StateFacts {
        match self {
            NodeFact::Effect(effect) => effect.state,
            NodeFact::State(st) => st,
        }
    }

    /// The step cost this vertex contributes to a plan: the effect's cost,
    /// or zero for the initial state.
    pub open spec fn cost(self) -> int {
        match self {
            NodeFact::Effect(effect) => effect.cost,
            NodeFact::State(_) => 0,
        }
    }
}

impl View for Node {
    type V = NodeFact;

    open spec fn view(&self) -> NodeFact {
        match self {
            Node::Effect(effect) => NodeFact::Effect(effect@),
            Node::State(st) => NodeFact::State(st@),
        }
    }
}

impl Clone for Node {
    /// A full, independent copy with the same model.
    fn clone(&self) -> (result: Self)
        ensures
            result@ == self@,
    {
        match self {
            Node::Effect(effect) => Node::Effect(effect.clone()),
            Node::State(st) => Node::State(st.clone()),
        }
    }
}

impl Node {
    /// The uniform state accessor over both vertex kinds.
    pub fn state(&self) -> (result: &LocalState)
        ensures
            result@ == self@.facts(),
    {
        match self {
            Node::Effect(effect) => &effect.state,
            Node::State(st) => st,
        }
    }
}

/// The models of an action library held in exec form.
pub open spec fn actions_view(actions: Seq<Action>) -> Seq<ActionFact> {
    actions.map_values(|a: Action| a@)
}

/// The models of a successor list held in exec form.
pub open spec fn succs_view(succs: Seq<(Node, usize)>) -> Seq<(NodeFact, int)> {
    succs.map_values(|p: (Node, usize)| (p.0@, p.1 as int))
}

/// The models of a vertex path held in exec form.
pub open spec fn path_view(path: Seq<Node>) -> Seq<NodeFact> {
    path.map_values(|n: Node| n@)
}

/// Whether `action` can fire from `st`: its static preconditions all hold,
/// it has an effect template, and applying that template's mutators to
/// `st` succeeds.
pub open spec fn action_applies(st: StateFacts, action: ActionFact) -> bool {
    &&& conds_check(st, action.preconditions) == Ok::<bool, EvalFault>(true)
    &&& action.effects.len() > 0
    &&& apply_mutator_facts(st, action.effects[0].mutators) is Ok
}

/// The effect realized from `template` against the predecessor state `st`:
/// the template with its placeholder state replaced by the state its
/// mutators produce from `st`.
pub open spec fn realized_effect(st: StateFacts, template: EffectFact) -> EffectFact {
    EffectFact { state: apply_mutator_facts(st, template.mutators)->Ok_0, ..template }
}

/// The successor an applicable action yields from `st`, with its step
/// cost.
pub open spec fn succ_of(st: StateFacts, action: ActionFact) -> (NodeFact, int) {
    (NodeFact::Effect(realized_effect(st, action.effects[0])), action.effects[0].cost)
}

/// Whether `node` is a vertex some action of the library yields from the
/// predecessor state `st`.
pub open spec fn plan_edge(st: StateFacts, node: NodeFact, actions: Seq<ActionFact>) -> bool {
    exists|i: int|
        0 <= i < actions.len() && action_applies(st, actions[i]) && node == succ_of(
            st,
            actions[i],
        ).0
}

/// The successors selected by the flags `sel`, one per action, in library
/// order.
pub open spec fn selected_succs(st: StateFacts, actions: Seq<ActionFact>, sel: Seq<bool>) -> Seq<
    (NodeFact, int),
>
    decreases actions.len(),
{
    if actions.len() == 0 || sel.len() != actions.len() {
        Seq::empty()
    } else {
        selected_succs(st, actions.drop_last(), sel.drop_last()) + (if sel.last() {
            seq![succ_of(st, actions.last())]
        } else {
            Seq::empty()
        })
    }
}

/// What one run of successor generation guarantees: a selection of
/// applicable actions (exact on actions without dynamic preconditions,
/// whose satisfaction no resolver can change) yielded the successor list,
/// in library order.
pub open spec fn successors_witness(
    st: StateFacts,
    actions: Seq<ActionFact>,
    sel: Seq<bool>,
    succs: Seq<(NodeFact, int)>,
) -> bool {
    &&& sel.len() == actions.len()
    &&& forall|i: int| 0 <= i < actions.len() && sel[i] ==> action_applies(st, actions[i])
    &&& forall|i: int|
        0 <= i < actions.len() && actions[i].dynamic_names.len() == 0 ==> (sel[i] <==> (conds_check(
            st,
            actions[i].preconditions,
        ) == Ok::<bool, EvalFault>(true) && actions[i].effects.len() > 0 && apply_mutator_facts(
            st,
            actions[i].effects[0].mutators,
        ) is Ok))
    &&& succs == selected_succs(st, actions, sel)
}

/// Whether generating a successor from `action` at `st` meets an
/// evaluation fault: its static precondition list faults, or the list
/// holds and applying the effect template's mutators faults.
pub open spec fn action_gen_fault(st: StateFacts, action: ActionFact) -> bool {
    ||| conds_check(st, action.preconditions) is Err
    ||| (conds_check(st, action.preconditions) == Ok::<bool, EvalFault>(true)
        && action.effects.len() > 0 && apply_mutator_facts(st, action.effects[0].mutators) is Err)
}

/// The fault met while generating a successor from `action` at `st`,
/// meaningful when `action_gen_fault` holds: the precondition fault, or
/// else the mutator fault.
pub open spec fn action_fault_value(st: StateFacts, action: ActionFact) -> EvalFault {
    if conds_check(st, action.preconditions) is Err {
        conds_check(st, action.preconditions)->Err_0
    } else {
        apply_mutator_facts(st, action.effects[0].mutators)->Err_0
    }
}

/// The first evaluation fault successor generation meets over the library,
/// in library order, when one exists.
pub open spec fn first_gen_fault(st: StateFacts, actions: Seq<ActionFact>) -> Option<EvalFault>
    decreases actions.len(),
{
    if actions.len() == 0 {
        None
    } else if action_gen_fault(st, actions[0]) {
        Some(action_fault_value(st, actions[0]))
    } else {
        first_gen_fault(st, actions.drop_first())
    }
}

/// Whether no action of the library carries a dynamic precondition, so
/// that successor generation is fully determined by the model.
pub open spec fn all_dyn_free(actions: Seq<ActionFact>) -> bool {
    forall|i: int| 0 <= i < actions.len() ==> (#[trigger] actions[i]).dynamic_names.len() == 0
}

/// Whether some selection, as `successors_witness` describes, yields the
/// successor list `succs` from `st`.
pub open spec fn some_selection_yields(
    st: StateFacts,
    actions: Seq<ActionFact>,
    succs: Seq<(NodeFact, int)>,
) -> bool {
    exists|sel: Seq<bool>| successors_witness(st, actions, sel, succs)
}

/// Whether `succ` is what some selected action yields from `st`.
pub open spec fn yields_from(
    st: StateFacts,
    actions: Seq<ActionFact>,
    sel: Seq<bool>,
    succ: (NodeFact, int),
) -> bool {
    exists|i: int| 0 <= i < actions.len() && sel[i] && succ == #[trigger] succ_of(st, actions[i])
}

/// Every selected successor comes from a selected action: it is that
/// action's realized effect and carries that effect's cost. An action
/// whose preconditions are not satisfied is never selected, so it never
/// appears among the successors.
pub proof fn lemma_selected_succs_sound(st: StateFacts, actions: Seq<ActionFact>, sel: Seq<bool>)
    requires
        sel.len() == actions.len(),
    ensures
        forall|j: int|
            0 <= j < selected_succs(st, actions, sel).len() ==> yields_from(
                st,
                actions,
                sel,
                #[trigger] selected_succs(st, actions, sel)[j],
            ),
    decreases actions.len(),
{
    if actions.len() > 0 {
        lemma_selected_succs_sound(st, actions.drop_last(), sel.drop_last());
        let prefix = selected_succs(st, actions.drop_last(), sel.drop_last());
        let whole = selected_succs(st, actions, sel);
        assert forall|j: int| 0 <= j < whole.len() implies yields_from(
            st,
            actions,
            sel,
            whole[j],
        ) by {
            if j < prefix.len() {
                assert(whole[j] == prefix[j]);
                assert(yields_from(st, actions.drop_last(), sel.drop_last(), prefix[j]));
                let i = choose|i: int|
                    0 <= i < actions.drop_last().len() && sel.drop_last()[i] && prefix[j]
                        == #[trigger] succ_of(st, actions.drop_last()[i]);
                assert(actions.drop_last()[i] == actions[i]);
                assert(sel.drop_last()[i] == sel[i]);
                assert(whole[j] == succ_of(st, actions[i]));
            } else {
                assert(sel.last());
                assert(j == prefix.len());
                assert(whole[j] == succ_of(st, actions.last()));
                assert(actions.last() == actions[actions.len() - 1]);
                assert(sel[actions.len() - 1]);
            }
        }
    }
}

/// Determinism of realization: applying an effect vertex's mutators, in
/// order, to its predecessor's state reproduces exactly the resulting
/// state the vertex stores.
pub proof fn lemma_effect_replay(st: StateFacts, node: NodeFact, actions: Seq<ActionFact>)
    requires
        plan_edge(st, node, actions),
    ensures
        node matches NodeFact::Effect(effect) && apply_mutator_facts(st, effect.mutators) == Ok::<
            StateFacts,
            EvalFault,
        >(effect.state),
{
    let i = choose|i: int|
        0 <= i < actions.len() && action_applies(st, actions[i]) && node == succ_of(
            st,
            actions[i],
        ).0;
    assert(node == NodeFact::Effect(realized_effect(st, actions[i].effects[0])));
}

/// No action whose materialized preconditions are not all satisfied, and
/// no action without an effect template, ever appears among the
/// successors: every yielded successor vertex is the realized effect of an
/// action that applies to the predecessor state.
pub proof fn lemma_successors_only_applicable(
    st: StateFacts,
    actions: Seq<ActionFact>,
    sel: Seq<bool>,
    succs: Seq<(NodeFact, int)>,
)
    requires
        successors_witness(st, actions, sel, succs),
    ensures
        forall|j: int| 0 <= j < succs.len() ==> plan_edge(st, (#[trigger] succs[j]).0, actions),
{
    lemma_selected_succs_sound(st, actions, sel);
    assert forall|j: int| 0 <= j < succs.len() implies plan_edge(
        st,
        (#[trigger] succs[j]).0,
        actions,
    ) by {
        assert(yields_from(st, actions, sel, succs[j]));
        let i = choose|i: int|
            0 <= i < actions.len() && sel[i] && succs[j] == #[trigger] succ_of(st, actions[i]);
        assert(action_applies(st, actions[i]));
        assert(succs[j].0 == succ_of(st, actions[i]).0);
    }
}

/// Every selected action's successor occurs somewhere in the selected
/// list.
pub proof fn lemma_selected_succs_complete(
    st: StateFacts,
    actions: Seq<ActionFact>,
    sel: Seq<bool>,
    k: int,
)
    requires
        sel.len() == actions.len(),
        0 <= k < actions.len(),
        sel[k],
    ensures
        exists|s: int|
            0 <= s < selected_succs(st, actions, sel).len() && #[trigger] selected_succs(
                st,
                actions,
                sel,
            )[s] == succ_of(st, actions[k]),
    decreases actions.len(),
{
    let whole = selected_succs(st, actions, sel);
    let prefix = selected_succs(st, actions.drop_last(), sel.drop_last());
    if k == actions.len() - 1 {
        assert(sel.last());
        assert(whole[prefix.len() as int] == succ_of(st, actions.last()));
        assert(actions.last() == actions[k]);
    } else {
        assert(actions.drop_last()[k] == actions[k]);
        assert(sel.drop_last()[k] == sel[k]);
        lemma_selected_succs_complete(st, actions.drop_last(), sel.drop_last(), k);
        let s = choose|s: int|
            0 <= s < prefix.len() && #[trigger] prefix[s] == succ_of(st, actions.drop_last()[k]);
        assert(whole[s] == prefix[s]);
    }
}

/// Applying a concatenation of two mutator lists is applying the first,
/// then the second.
pub proof fn lemma_apply_concat(st: StateFacts, a: Seq<MutatorFact>, b: Seq<MutatorFact>)
    ensures
        apply_mutator_facts(st, a) is Ok ==> apply_mutator_facts(st, a + b)
            == apply_mutator_facts(apply_mutator_facts(st, a)->Ok_0, b),
        apply_mutator_facts(st, a) is Err ==> apply_mutator_facts(st, a + b)
            == apply_mutator_facts(st, a),
    decreases a.len(),
{
    if a.len() == 0 {
        assert(a + b =~= b);
        assert(apply_mutator_facts(st, a) == Ok::<StateFacts, EvalFault>(st));
    } else {
        assert((a + b)[0] == a[0]);
        assert((a + b).drop_first() =~= a.drop_first() + b);
        match apply_mutator_fact(st, a[0]) {
            Ok(next) => {
                lemma_apply_concat(next, a.drop_first(), b);
                assert(apply_mutator_facts(st, a + b) == apply_mutator_facts(
                    next,
                    a.drop_first() + b,
                ));
                assert(apply_mutator_facts(st, a) == apply_mutator_facts(next, a.drop_first()));
            },
            Err(_) => {},
        }
    }
}

/// Applying one more mutator after a list is the same as applying the
/// extended list.
pub proof fn lemma_apply_snoc(st: StateFacts, ms: Seq<MutatorFact>, m: MutatorFact)
    ensures
        apply_mutator_facts(st, ms) is Ok ==> apply_mutator_facts(st, ms.push(m))
            == apply_mutator_fact(apply_mutator_facts(st, ms)->Ok_0, m),
        apply_mutator_facts(st, ms) is Err ==> apply_mutator_facts(st, ms.push(m))
            == apply_mutator_facts(st, ms),
    decreases ms.len(),
{
    if ms.len() == 0 {
        assert(ms.push(m)[0] == m);
        assert(ms.push(m).drop_first() =~= Seq::<MutatorFact>::empty());
        assert(apply_mutator_facts(st, ms) == Ok::<StateFacts, EvalFault>(st));
        match apply_mutator_fact(st, m) {
            Ok(next) => {
                assert(apply_mutator_facts(st, ms.push(m)) == apply_mutator_facts(
                    next,
                    ms.push(m).drop_first(),
                ));
                assert(apply_mutator_facts(next, ms.push(m).drop_first()) == Ok::<
                    StateFacts,
                    EvalFault,
                >(next));
            },
            Err(_) => {},
        }
    } else {
        assert(ms.push(m)[0] == ms[0]);
        assert(ms.push(m).drop_first() =~= ms.drop_first().push(m));
        match apply_mutator_fact(st, ms[0]) {
            Ok(next) => {
                lemma_apply_snoc(next, ms.drop_first(), m);
                assert(apply_mutator_facts(st, ms.push(m)) == apply_mutator_facts(
                    next,
                    ms.drop_first().push(m),
                ));
                assert(apply_mutator_facts(st, ms) == apply_mutator_facts(next, ms.drop_first()));
            },
            Err(_) => {},
        }
    }
}

/// Generates the successors of `node` under the action library: for each
/// action, in library order, whose materialized preconditions are all
/// satisfied and whose effect template list is non-empty, the realized
/// effect vertex together with its cost. Actions failing preconditions, or
/// with no effect template, contribute nothing.
///
/// The first evaluation fault met — a missing fact, an undefined
/// comparison, or a failing mutator — aborts generation with that typed
/// error; a faulting action is never silently skipped. When no action has
/// a dynamic precondition this is exact: generation fails with the first
/// fault in library order if and only if one exists.
pub fn successors(node: &Node, actions: &Vec<Action>) -> (result: Result<
    Vec<(Node, usize)>,
    EvalError,
>)
    ensures
        result is Ok ==> some_selection_yields(
            node@.facts(),
            actions_view(actions@),
            succs_view(result->Ok_0@),
        ),
        all_dyn_free(actions_view(actions@)) ==> (match result {
            Ok(_) => first_gen_fault(node@.facts(), actions_view(actions@)) is None,
            Err(e) => first_gen_fault(node@.facts(), actions_view(actions@)) == Some(e@),
        }),
{
    let state = node.state();
    let ghost st = node@.facts();
    let ghost acts = actions_view(actions@);
    let mut out: Vec<(Node, usize)> = Vec::new();
    let ghost mut sel: Seq<bool> = Seq::empty();
    let mut i: usize = 0;
    proof {
        assert(acts.subrange(0, 0) =~= Seq::<ActionFact>::empty());
        assert(succs_view(out@) =~= Seq::<(NodeFact, int)>::empty());
        assert(acts.skip(0) =~= acts);
    }
    while i < actions.len()
        invariant
            i <= actions.len(),
            state@ == st,
            st == node@.facts(),
            acts == actions_view(actions@),
            acts.len() == actions@.len(),
            forall|j: int| 0 <= j < acts.len() ==> acts[j] == actions@[j]@,
            sel.len() == i as int,
            forall|j: int| 0 <= j < i as int && sel[j] ==> action_applies(st, acts[j]),
            forall|j: int|
                0 <= j < i as int && acts[j].dynamic_names.len() == 0 ==> (sel[j] <==> (conds_check(
                    st,
                    acts[j].preconditions,
                ) == Ok::<bool, EvalFault>(true) && acts[j].effects.len() > 0
                    && apply_mutator_facts(st, acts[j].effects[0].mutators) is Ok)),
            succs_view(out@) == selected_succs(st, acts.subrange(0, i as int), sel),
            all_dyn_free(acts) ==> first_gen_fault(st, acts) == first_gen_fault(
                st,
                acts.skip(i as int),
            ),
        decreases actions.len() - i,
    {
        let action = &actions[i];
        let applicable = match check_preconditions(state, action) {
            Err(e) => {
                proof {
                    if all_dyn_free(acts) {
                        assert(acts[i as int].dynamic_names.len() == 0);
                        assert(conds_check(st, acts[i as int].preconditions) == Err::<
                            bool,
                            EvalFault,
                        >(e@));
                        assert(action_gen_fault(st, acts[i as int]));
                        assert(action_fault_value(st, acts[i as int]) == e@);
                        assert(acts.skip(i as int)[0] == acts[i as int]);
                        assert(first_gen_fault(st, acts.skip(i as int)) == Some(e@));
                        assert(first_gen_fault(st, acts) == Some(e@));
                    }
                    assert(acts == actions_view(actions@));
                    assert(st == node@.facts());
                }
                return Err(e);
            },
            Ok(b) => b,
        };
        let ghost prev_sel = sel;
        let ghost prev_out = succs_view(out@);
        if applicable && action.effects.len() > 0 {
            let template = &action.effects[0];
            proof {
                assert(template@ == acts[i as int].effects[0]);
            }
            let mut new_state = state.clone();
            let mut k: usize = 0;
            proof {
                assert(template@.mutators.subrange(0, 0) =~= Seq::<MutatorFact>::empty());
            }
            while k < template.mutators.len()
                invariant
                    k <= template.mutators.len(),
                    i < actions@.len(),
                    st == node@.facts(),
                    acts == actions_view(actions@),
                    acts.len() == actions@.len(),
                    template@ == acts[i as int].effects[0],
                    acts[i as int].effects.len() > 0,
                    acts[i as int].dynamic_names.len() == 0 ==> conds_check(
                        st,
                        acts[i as int].preconditions,
                    ) == Ok::<bool, EvalFault>(true),
                    template@.mutators.len() == template.mutators@.len(),
                    forall|t: int| 0 <= t < template.mutators@.len() ==> template@.mutators[t]
                        == template.mutators@[t]@,
                    apply_mutator_facts(st, template@.mutators.subrange(0, k as int)) == Ok::<
                        StateFacts,
                        EvalFault,
                    >(new_state@),
                    all_dyn_free(acts) ==> first_gen_fault(st, acts) == first_gen_fault(
                        st,
                        acts.skip(i as int),
                    ),
                decreases template.mutators.len() - k,
            {
                let ghost prefix = template@.mutators.subrange(0, k as int);
                match apply_mutator(&mut new_state, &template.mutators[k]) {
                    Ok(_) => {},
                    Err(e) => {
                        proof {
                            if all_dyn_free(acts) {
                                assert(acts[i as int].dynamic_names.len() == 0);
                                let full = template@.mutators;
                                lemma_apply_concat(st, prefix, full.skip(k as int));
                                assert(full =~= prefix + full.skip(k as int));
                                assert(full.skip(k as int)[0] == full[k as int]);
                                assert(apply_mutator_fact(new_state@, full[k as int]) == Err::<
                                    StateFacts,
                                    EvalFault,
                                >(e@));
                                assert(apply_mutator_facts(new_state@, full.skip(k as int))
                                    == Err::<StateFacts, EvalFault>(e@));
                                assert(apply_mutator_facts(st, full) == Err::<
                                    StateFacts,
                                    EvalFault,
                                >(e@));
                                assert(action_gen_fault(st, acts[i as int]));
                                assert(action_fault_value(st, acts[i as int]) == e@);
                                assert(acts.skip(i as int)[0] == acts[i as int]);
                                assert(first_gen_fault(st, acts.skip(i as int)) == Some(e@));
                                assert(first_gen_fault(st, acts) == Some(e@));
                            }
                            assert(acts == actions_view(actions@));
                            assert(st == node@.facts());
                        }
                        return Err(e);
                    },
                }
                proof {
                    lemma_apply_snoc(st, prefix, template@.mutators[k as int]);
                    assert(template@.mutators.subrange(0, k as int + 1) =~= prefix.push(
                        template@.mutators[k as int],
                    ));
                }
                k = k + 1;
            }
            proof {
                assert(template@.mutators.subrange(0, template.mutators@.len() as int)
                    =~= template@.mutators);
            }
            let realized = Effect {
                action: template.action.clone(),
                mutators: clone_mutators(&template.mutators),
                cost: template.cost,
                state: new_state,
            };
            let cost = template.cost;
            out.push((Node::Effect(realized), cost));
            proof {
                sel = sel.push(true);
                assert(realized@ == realized_effect(st, acts[i as int].effects[0]));
                assert(succs_view(out@) =~= prev_out.push(succ_of(st, acts[i as int])));
                assert(acts.subrange(0, i as int + 1).drop_last() =~= acts.subrange(0, i as int));
                assert(sel.drop_last() =~= prev_sel);
                assert(succs_view(out@) =~= selected_succs(st, acts.subrange(0, i as int + 1), sel));
                if all_dyn_free(acts) {
                    assert(!action_gen_fault(st, acts[i as int]));
                    assert(acts.skip(i as int)[0] == acts[i as int]);
                    assert(acts.skip(i as int).drop_first() =~= acts.skip(i as int + 1));
                    assert(first_gen_fault(st, acts.skip(i as int)) == first_gen_fault(
                        st,
                        acts.skip(i as int + 1),
                    ));
                }
            }
        } else {
            proof {
                sel = sel.push(false);
                assert(acts.subrange(0, i as int + 1).drop_last() =~= acts.subrange(0, i as int));
                assert(sel.drop_last() =~= prev_sel);
                assert(succs_view(out@) =~= selected_succs(st, acts.subrange(0, i as int + 1), sel));
                if all_dyn_free(acts) {
                    assert(acts[i as int].dynamic_names.len() == 0);
                    assert(!action_gen_fault(st, acts[i as int]));
                    assert(acts.skip(i as int)[0] == acts[i as int]);
                    assert(acts.skip(i as int).drop_first() =~= acts.skip(i as int + 1));
                    assert(first_gen_fault(st, acts.skip(i as int)) == first_gen_fault(
                        st,
                        acts.skip(i as int + 1),
                    ));
                }
            }
        }
        i = i + 1;
    }
    proof {
        assert(acts.subrange(0, actions@.len() as int) =~= acts);
        assert(succs_view(out@) == selected_succs(st, acts, sel));
        assert(successors_witness(st, acts, sel, succs_view(out@)));
        assert(some_selection_yields(st, acts, succs_view(out@)));
        if all_dyn_free(acts) {
            assert(acts.skip(acts.len() as int) =~= Seq::<ActionFact>::empty());
            assert(first_gen_fault(st, acts) is None);
        }
    }
    Ok(out)
}

/// The least cost of any effect template an action of the library offers:
/// a lower bound on the cost of any single plan step.
pub open spec fn min_step_cost(actions: Seq<ActionFact>) -> Option<int>
    decreases actions.len(),
{
    if actions.len() == 0 {
        None
    } else {
        let rest = min_step_cost(actions.drop_first());
        if actions[0].effects.len() > 0 {
            let head = actions[0].effects[0].cost;
            match rest {
                Option::None => Some(head),
                Option::Some(m) => Some(
                    if head <= m {
                        head
                    } else {
                        m
                    },
                ),
            }
        } else {
            rest
        }
    }
}

/// Whether every effect-template cost of the library is non-negative;
/// a library held in exec form always satisfies this, its costs being
/// machine integers.
pub open spec fn nonneg_costs(actions: Seq<ActionFact>) -> bool {
    forall|i: int|
        0 <= i < actions.len() && (#[trigger] actions[i]).effects.len() > 0 ==> actions[i].effects[
            0
        ].cost >= 0
}

/// A chain of plan steps departing from the state `st`: each vertex is an
/// effect some action of the library yields from its predecessor's state.
pub open spec fn valid_steps(
    st: StateFacts,
    actions: Seq<ActionFact>,
    steps: Seq<NodeFact>,
) -> bool {
    forall|i: int|
        0 <= i < steps.len() ==> plan_edge(
            if i == 0 {
                st
            } else {
                steps[i - 1].facts()
            },
            #[trigger] steps[i],
            actions,
        )
}

/// The value that guides the search from a state: the goal distance,
/// capped by the cheapest effect cost of the library. The full
/// per-requirement distance stays the library's public heuristic (and
/// keeps the distance-zero law); the search guides itself by this value,
/// which `lemma_search_heuristic_admissible` shows never overestimates the
/// remaining cost. Meaningful when the distance is defined.
pub open spec fn search_heuristic(st: StateFacts, actions: Seq<ActionFact>, goal: CondFacts) -> int {
    let d = cap_u64(conds_distance(st, goal)->Ok_0);
    match min_step_cost(actions) {
        Option::None => d,
        Option::Some(m) => if d <= m {
            d
        } else {
            m
        },
    }
}

/// With non-negative costs the cheapest step cost is non-negative and
/// bounds every effect template's cost from below.
pub proof fn lemma_min_step_cost(actions: Seq<ActionFact>)
    requires
        nonneg_costs(actions),
    ensures
        min_step_cost(actions) is Some ==> min_step_cost(actions)->Some_0 >= 0,
        forall|k: int|
            0 <= k < actions.len() && (#[trigger] actions[k]).effects.len() > 0 ==> min_step_cost(
                actions,
            ) is Some && min_step_cost(actions)->Some_0 <= actions[k].effects[0].cost,
    decreases actions.len(),
{
    if actions.len() > 0 {
        assert(nonneg_costs(actions.drop_first())) by {
            assert forall|i: int|
                0 <= i < actions.drop_first().len() && (#[trigger] actions.drop_first()[
                    i
                ]).effects.len() > 0 implies actions.drop_first()[i].effects[0].cost >= 0 by {
                assert(actions.drop_first()[i] == actions[i + 1]);
            }
        }
        lemma_min_step_cost(actions.drop_first());
        assert forall|k: int|
            0 <= k < actions.len() && (#[trigger] actions[k]).effects.len()
                > 0 implies min_step_cost(actions) is Some && min_step_cost(actions)->Some_0
            <= actions[k].effects[0].cost by {
            if k > 0 {
                assert(actions.drop_first()[k - 1] == actions[k]);
            }
        }
    }
}

/// Each vertex of a valid step chain is an effect vertex whose cost is
/// non-negative and no smaller than the cheapest step cost.
pub proof fn lemma_step_cost_bound(
    st: StateFacts,
    actions: Seq<ActionFact>,
    steps: Seq<NodeFact>,
    i: int,
)
    requires
        nonneg_costs(actions),
        valid_steps(st, actions, steps),
        0 <= i < steps.len(),
    ensures
        steps[i].cost() >= 0,
        min_step_cost(actions) is Some && min_step_cost(actions)->Some_0 <= steps[i].cost(),
{
    lemma_min_step_cost(actions);
    let pred = if i == 0 {
        st
    } else {
        steps[i - 1].facts()
    };
    assert(plan_edge(pred, steps[i], actions));
    let k = choose|k: int|
        0 <= k < actions.len() && action_applies(pred, actions[k]) && steps[i] == succ_of(
            pred,
            actions[k],
        ).0;
    assert(steps[i].cost() == actions[k].effects[0].cost);
}

/// The total cost of a valid step chain is non-negative and at least the
/// cost of its first step.
pub proof fn lemma_steps_cost(st: StateFacts, actions: Seq<ActionFact>, steps: Seq<NodeFact>)
    requires
        nonneg_costs(actions),
        valid_steps(st, actions, steps),
    ensures
        nodes_cost(steps) >= 0,
        steps.len() > 0 ==> nodes_cost(steps) >= steps[0].cost(),
    decreases steps.len(),
{
    if steps.len() > 0 {
        assert(valid_steps(st, actions, steps.drop_last())) by {
            assert forall|i: int| 0 <= i < steps.drop_last().len() implies plan_edge(
                if i == 0 {
                    st
                } else {
                    steps.drop_last()[i - 1].facts()
                },
                #[trigger] steps.drop_last()[i],
                actions,
            ) by {
                assert(steps.drop_last()[i] == steps[i]);
                if i > 0 {
                    assert(steps.drop_last()[i - 1] == steps[i - 1]);
                }
            }
        }
        lemma_steps_cost(st, actions, steps.drop_last());
        lemma_step_cost_bound(st, actions, steps, steps.len() - 1);
        if steps.len() > 1 {
            assert(steps.drop_last()[0] == steps[0]);
        }
    }
}

/// Admissibility of the search heuristic: it never overestimates the total
/// cost of any valid step chain that carries the state into one satisfying
/// the goal — zero steps when the state already satisfies it.
pub proof fn lemma_search_heuristic_admissible(
    st: StateFacts,
    actions: Seq<ActionFact>,
    goal: CondFacts,
    steps: Seq<NodeFact>,
)
    requires
        nonneg_costs(actions),
        valid_steps(st, actions, steps),
        conds_distance(st, goal) is Ok,
        steps.len() == 0 ==> conds_check(st, goal) == Ok::<bool, EvalFault>(true),
        steps.len() > 0 ==> conds_check(steps.last().facts(), goal) == Ok::<bool, EvalFault>(true),
    ensures
        search_heuristic(st, actions, goal) <= nodes_cost(steps),
{
    lemma_min_step_cost(actions);
    if steps.len() == 0 {
        crate::compare::lemma_distance_zero_iff_satisfied(st, goal);
        assert(conds_distance(st, goal)->Ok_0 == 0);
        assert(cap_u64(0) == 0);
    } else {
        lemma_steps_cost(st, actions, steps);
        lemma_step_cost_bound(st, actions, steps, 0);
        assert(steps.last() == steps[steps.len() - 1]);
    }
}

/// The cheapest effect-template cost of the library, when any action
/// carries an effect template at all.
fn min_action_cost(actions: &Vec<Action>) -> (result: Option<u64>)
    ensures
        match result {
            Some(m) => min_step_cost(actions_view(actions@)) == Some(m as int),
            None => min_step_cost(actions_view(actions@)) is None,
        },
{
    let ghost acts = actions_view(actions@);
    let mut best: Option<u64> = None;
    let mut i: usize = actions.len();
    proof {
        assert(acts.skip(actions@.len() as int) =~= Seq::<ActionFact>::empty());
    }
    while i > 0
        invariant
            i <= actions.len(),
            acts == actions_view(actions@),
            acts.len() == actions@.len(),
            forall|j: int| 0 <= j < acts.len() ==> acts[j] == actions@[j]@,
            match best {
                Some(m) => min_step_cost(acts.skip(i as int)) == Some(m as int),
                None => min_step_cost(acts.skip(i as int)) is None,
            },
        decreases i,
    {
        i = i - 1;
        proof {
            assert(acts.skip(i as int)[0] == acts[i as int]);
            assert(acts.skip(i as int).drop_first() =~= acts.skip(i as int + 1));
            assert(acts[i as int].effects =~= actions@[i as int].effects@.map_values(
                |e: Effect| e@,
            ));
        }
        if actions[i].effects.len() > 0 {
            proof {
                assert(acts[i as int].effects[0] == actions@[i as int].effects@[0]@);
            }
            let cost64: u64 = actions[i].effects[0].cost as u64;
            best = match best {
                Option::None => Some(cost64),
                Option::Some(m) => if cost64 <= m {
                    Some(cost64)
                } else {
                    Some(m)
                },
            };
        }
    }
    proof {
        assert(acts.skip(0) =~= acts);
    }
    best
}

/// The heuristic that guides the search: the goal distance of the state a
/// vertex exposes, capped by the cheapest effect cost of the library so
/// that it never overestimates the remaining cost
/// (`lemma_search_heuristic_admissible`).
fn heuristic(node: &Node, actions: &Vec<Action>, goal: &Goal) -> (result: Result<u64, EvalError>)
    ensures
        match result {
            Ok(h) => conds_distance(node@.facts(), goal@) is Ok && h as int == search_heuristic(
                node@.facts(),
                actions_view(actions@),
                goal@,
            ),
            Err(e) => conds_distance(node@.facts(), goal@) == Err::<int, EvalFault>(e@),
        },
{
    match node.state().distance_to_goal(goal) {
        Err(e) => Err(e),
        Ok(d) => match min_action_cost(actions) {
            Option::None => Ok(d),
            Option::Some(m) => if d <= m {
                Ok(d)
            } else {
                Ok(m)
            },
        },
    }
}

/// The goal test of the search: whether the state a vertex exposes
/// satisfies every goal requirement.
fn is_goal(node: &Node, goal: &Goal) -> (result: Result<bool, EvalError>)
    ensures
        check_result_view(result) == conds_check(node@.facts(), goal@),
{
    check_goal(node.state(), goal)
}

/// Whether `path` is a genuine plan: it starts at the initial-state vertex
/// for `start`, and every later vertex is an effect some action of the
/// library yields from its predecessor's state.
pub open spec fn valid_plan(start: StateFacts, actions: Seq<ActionFact>, path: Seq<NodeFact>) -> bool {
    &&& path.len() >= 1
    &&& path[0] == NodeFact::State(start)
    &&& forall|i: int|
        1 <= i < path.len() ==> plan_edge((#[trigger] path[i - 1]).facts(), path[i], actions)
}

/// The accumulated cost of a vertex path: the sum of its effect vertices'
/// costs (the initial-state vertex costs nothing).
pub open spec fn nodes_cost(path: Seq<NodeFact>) -> int
    decreases path.len(),
{
    if path.len() == 0 {
        0
    } else {
        nodes_cost(path.drop_last()) + path.last().cost()
    }
}

/// A plan that reaches the goal: a genuine plan whose last vertex
/// satisfies every goal requirement.
pub open spec fn goal_plan(
    start: StateFacts,
    actions: Seq<ActionFact>,
    goal: CondFacts,
    path: Seq<NodeFact>,
) -> bool {
    &&& valid_plan(start, actions, path)
    &&& conds_check(path.last().facts(), goal) == Ok::<bool, EvalFault>(true)
}

/// A library held in exec form always has non-negative effect costs: its
/// costs are machine integers.
pub proof fn lemma_actions_view_nonneg(actions: Seq<Action>)
    ensures
        nonneg_costs(actions_view(actions)),
{
    assert forall|i: int|
        0 <= i < actions_view(actions).len() && (#[trigger] actions_view(
            actions,
        )[i]).effects.len() > 0 implies actions_view(actions)[i].effects[0].cost >= 0 by {
        assert(actions_view(actions)[i] == actions[i]@);
        assert(actions[i]@.effects[0] == actions[i].effects@[0]@);
    }
}

/// Every vertex of a genuine plan has a non-negative cost.
pub proof fn lemma_plan_node_cost_nonneg(
    start: StateFacts,
    actions: Seq<ActionFact>,
    path: Seq<NodeFact>,
    m: int,
)
    requires
        valid_plan(start, actions, path),
        nonneg_costs(actions),
        0 <= m < path.len(),
    ensures
        path[m].cost() >= 0,
{
    if m > 0 {
        assert(plan_edge(path[m - 1].facts(), path[m], actions));
        let k = choose|k: int|
            0 <= k < actions.len() && action_applies(path[m - 1].facts(), actions[k]) && path[m]
                == succ_of(path[m - 1].facts(), actions[k]).0;
        assert(path[m].cost() == actions[k].effects[0].cost);
    }
}

/// A prefix of a genuine plan never costs more than the whole plan.
pub proof fn lemma_plan_prefix_cost(
    start: StateFacts,
    actions: Seq<ActionFact>,
    path: Seq<NodeFact>,
    m: int,
)
    requires
        valid_plan(start, actions, path),
        nonneg_costs(actions),
        0 <= m <= path.len(),
    ensures
        nodes_cost(path.take(m)) <= nodes_cost(path),
    decreases path.len() - m,
{
    if m == path.len() {
        assert(path.take(m) =~= path);
    } else {
        lemma_plan_prefix_cost(start, actions, path, m + 1);
        lemma_plan_node_cost_nonneg(start, actions, path, m);
        assert(path.take(m + 1).drop_last() =~= path.take(m));
        assert(path.take(m + 1).last() == path[m]);
    }
}

/// A failure of a planning call, as distinct from the first-class empty
/// result "no plan found".
#[derive(Debug, Clone, PartialEq, Eq)]
pub enum PlanError {
    /// The model was inconsistent: a missing fact, a type mismatch, or an
    /// arithmetic overflow met while evaluating preconditions, mutators or
    /// the goal.
    Eval(EvalError),
    /// The selected planning strategy is a reserved extension point that is
    /// not implemented.
    UnimplementedStrategy,
    /// The node-expansion budget was exhausted before the frontier emptied:
    /// no plan was found within the budget, which is distinct from no plan
    /// existing.
    BudgetExhausted,
}

/// Which way the search runs.
#[derive(Debug, Clone, Copy, PartialEq, Eq, Default)]
pub enum PlanningStrategy {
    /// Begin at the current state and search forward to the goal: finds
    /// the path of least accumulated cost.
    #[default]
    StartToGoal,
    /// Begin at the goal state and work backwards. A reserved extension
    /// point: selecting it yields an explicit failure.
    GoalToStart,
}

/// What a finished forward search guarantees.
///
/// A returned plan is genuine: it departs from the start state, every step
/// is an effect an applicable action yields from its predecessor, its last
/// vertex satisfies the goal, and the reported total is the sum of the
/// step costs. A start state that already satisfies the goal yields the
/// one-vertex plan of cost zero; a goal evaluation fault on the start
/// state yields that fault.
pub open spec fn plan_result_holds(
    start: StateFacts,
    actions: Seq<ActionFact>,
    goal: CondFacts,
    result: Result<Option<(Vec<Node>, usize)>, PlanError>,
) -> bool {
    &&& (match result {
        Ok(Some((path, cost))) => {
            &&& valid_plan(start, actions, path_view(path@))
            &&& conds_check(path_view(path@).last().facts(), goal) == Ok::<bool, EvalFault>(true)
            &&& cost as int == nodes_cost(path_view(path@))
        },
        _ => true,
    })
    &&& (conds_check(start, goal) == Ok::<bool, EvalFault>(true) ==> result is Ok && result->Ok_0
        is Some && result->Ok_0->Some_0.0@.len() == 1 && result->Ok_0->Some_0.1 == 0)
    &&& (conds_check(start, goal) is Err ==> (result matches Err(PlanError::Eval(e)) && e@
        == conds_check(start, goal)->Err_0))
    &&& (result is Err ==> (result->Err_0 is Eval || result->Err_0 is BudgetExhausted))
    &&& ((all_dyn_free(actions) && result == Ok::<Option<(Vec<Node>, usize)>, PlanError>(None))
        ==> forall|p: Seq<NodeFact>|
        !(#[trigger] goal_plan(start, actions, goal, p) && nodes_cost(p) <= usize::MAX as int))
    &&& ((all_dyn_free(actions) && result is Ok && result->Ok_0 is Some) ==> forall|
        p: Seq<NodeFact>,
    |
        (#[trigger] goal_plan(start, actions, goal, p)) && nodes_cost(p) <= usize::MAX as int
            ==> result->Ok_0->Some_0.1 as int <= nodes_cost(p))
}

/// One stored vertex of the search arena: the vertex itself, the arena
/// index it was reached from, the accumulated cost from the start, and the
/// cost-plus-heuristic priority that guides expansion order.
struct SearchEntry {
    node: Node,
    parent: Option<usize>,
    g: usize,
    f: u64,
}

/// Well-formedness of one arena entry: the root holds the initial-state
/// vertex at cost zero; every other entry points back to an earlier entry,
/// stands at the end of a plan edge from it, and accumulates its own step
/// cost onto its parent's.
spec fn wf_entry(entries: Seq<SearchEntry>, k: int, start: StateFacts, actions: Seq<ActionFact>) -> bool {
    match entries[k].parent {
        Option::None => entries[k].node@ == NodeFact::State(start) && entries[k].g == 0,
        Option::Some(p) => {
            &&& p < k
            &&& plan_edge(entries[p as int].node@.facts(), entries[k].node@, actions)
            &&& entries[k].g as int == entries[p as int].g as int + entries[k].node@.cost()
        },
    }
}

/// Well-formedness of the whole arena.
spec fn wf_entries(entries: Seq<SearchEntry>, start: StateFacts, actions: Seq<ActionFact>) -> bool {
    forall|k: int| 0 <= k < entries.len() ==> #[trigger] wf_entry(entries, k, start, actions)
}

/// Whether the open entry at position `j` stands at vertex `t` of `path`,
/// at exactly the prefix cost up to that vertex.
spec fn covers_at(
    entries: Seq<SearchEntry>,
    open: Seq<usize>,
    j: int,
    path: Seq<NodeFact>,
    t: int,
) -> bool {
    &&& 0 <= j < open.len()
    &&& 0 <= t < path.len()
    &&& (open[j] as int) < entries.len()
    &&& entries[open[j] as int].node@ == path[t]
    &&& entries[open[j] as int].g as int == nodes_cost(path.take(t + 1))
}

/// Whether the frontier still covers `path`: some open entry stands on it
/// at its prefix cost, so the search has not lost the path.
spec fn frontier_covers(entries: Seq<SearchEntry>, open: Seq<usize>, path: Seq<NodeFact>) -> bool {
    exists|j: int, t: int| covers_at(entries, open, j, path, t)
}

/// The cost of a concatenation is the sum of the parts' costs.
pub proof fn lemma_nodes_cost_concat(a: Seq<NodeFact>, b: Seq<NodeFact>)
    ensures
        nodes_cost(a + b) == nodes_cost(a) + nodes_cost(b),
    decreases b.len(),
{
    if b.len() == 0 {
        assert(a + b =~= a);
    } else {
        assert((a + b).drop_last() =~= a + b.drop_last());
        assert((a + b).last() == b.last());
        lemma_nodes_cost_concat(a, b.drop_last());
    }
}

/// Guidance bounds of one arena entry: its distance is defined, and its
/// priority lies between its accumulated cost and that cost plus the
/// admissible search heuristic.
spec fn entry_guided(
    entries: Seq<SearchEntry>,
    k: int,
    actions: Seq<ActionFact>,
    goal: CondFacts,
) -> bool {
    &&& conds_distance(entries[k].node@.facts(), goal) is Ok
    &&& entries[k].g as int <= entries[k].f as int
    &&& entries[k].f as int <= entries[k].g as int + search_heuristic(
        entries[k].node@.facts(),
        actions,
        goal,
    )
}

/// Guidance bounds of the whole arena.
spec fn entries_guided(entries: Seq<SearchEntry>, actions: Seq<ActionFact>, goal: CondFacts) -> bool {
    forall|k: int| 0 <= k < entries.len() ==> #[trigger] entry_guided(entries, k, actions, goal)
}

/// After expanding one frontier entry, the frontier covers every
/// goal-reaching plan again: a plan whose only witness was the expanded
/// entry is re-covered by the successor pushed for its next vertex.
proof fn lemma_frontier_restored(
    start: StateFacts,
    acts: Seq<ActionFact>,
    goal: CondFacts,
    mid_entries: Seq<SearchEntry>,
    mid_open: Seq<usize>,
    chosen: int,
    node_fact: NodeFact,
    g: int,
    sel: Seq<bool>,
    succs: Seq<(NodeFact, int)>,
    entries: Seq<SearchEntry>,
    open: Seq<usize>,
)
    requires
        all_dyn_free(acts),
        nonneg_costs(acts),
        forall|p: Seq<NodeFact>|
            #[trigger] goal_plan(start, acts, goal, p) && nodes_cost(p) <= usize::MAX as int
                ==> frontier_covers(mid_entries, mid_open, p) || (exists|t: int|
                popped_covers(mid_entries, chosen, p, t) && t < p.len() - 1),
        successors_witness(node_fact.facts(), acts, sel, succs),
        0 <= chosen < mid_entries.len(),
        mid_entries[chosen].node@ == node_fact,
        mid_entries[chosen].g as int == g,
        mid_entries.len() <= entries.len(),
        forall|k: int| 0 <= k < mid_entries.len() ==> entries[k] == mid_entries[k],
        mid_open.len() <= open.len(),
        forall|q: int| 0 <= q < mid_open.len() ==> open[q] == mid_open[q],
        forall|s2: int|
            0 <= s2 < succs.len() && g + (#[trigger] succs[s2]).1 <= usize::MAX as int
                ==> exists|j: int|
                0 <= j < open.len() && (open[j] as int) < entries.len() && entries[
                    open[j] as int
                ].node@ == succs[s2].0 && entries[open[j] as int].g as int == g + succs[s2].1,
    ensures
        forall|p: Seq<NodeFact>|
            #[trigger] goal_plan(start, acts, goal, p) && nodes_cost(p) <= usize::MAX as int
                ==> frontier_covers(entries, open, p),
{
    assert forall|p: Seq<NodeFact>|
        #[trigger] goal_plan(start, acts, goal, p) && nodes_cost(p) <= usize::MAX
            as int implies frontier_covers(entries, open, p) by {
        if frontier_covers(mid_entries, mid_open, p) {
            let (j, t) = choose|j: int, t: int| covers_at(mid_entries, mid_open, j, p, t);
            assert(open[j] == mid_open[j]);
            assert(entries[mid_open[j] as int] == mid_entries[mid_open[j] as int]);
            assert(covers_at(entries, open, j, p, t));
        } else {
            let t = choose|t: int| popped_covers(mid_entries, chosen, p, t) && t < p.len() - 1;
            assert(p[t] == node_fact);
            assert(plan_edge(p[t].facts(), p[t + 1], acts));
            let k = choose|k: int|
                0 <= k < acts.len() && action_applies(p[t].facts(), acts[k]) && p[t + 1]
                    == succ_of(p[t].facts(), acts[k]).0;
            assert(acts[k].dynamic_names.len() == 0);
            assert(p[t].facts() == node_fact.facts());
            assert(sel[k]);
            lemma_selected_succs_complete(node_fact.facts(), acts, sel, k);
            let s2 = choose|s2: int|
                0 <= s2 < selected_succs(node_fact.facts(), acts, sel).len()
                    && #[trigger] selected_succs(node_fact.facts(), acts, sel)[s2] == succ_of(
                    node_fact.facts(),
                    acts[k],
                );
            assert(succs == selected_succs(node_fact.facts(), acts, sel));
            assert(succs[s2] == succ_of(node_fact.facts(), acts[k]));
            assert(succs[s2].0 == p[t + 1]);
            assert(succs[s2].1 == p[t + 1].cost());
            lemma_plan_prefix_cost(start, acts, p, t + 2);
            assert(p.take(t + 2).drop_last() =~= p.take(t + 1));
            assert(p.take(t + 2).last() == p[t + 1]);
            assert(g == nodes_cost(p.take(t + 1)));
            assert(g + succs[s2].1 == nodes_cost(p.take(t + 2)));
            assert(g + succs[s2].1 <= usize::MAX as int);
            let j = choose|j: int|
                0 <= j < open.len() && (open[j] as int) < entries.len() && entries[
                    open[j] as int
                ].node@ == succs[s2].0 && entries[open[j] as int].g as int == g + succs[s2].1;
            assert(covers_at(entries, open, j, p, t + 1));
        }
    }
}

/// Taking the least-priority entry off a frontier that covers every
/// goal-reaching plan leaves each such plan either still covered or
/// witnessed by the taken entry at a vertex short of the goal.
proof fn lemma_frontier_after_pop(
    start: StateFacts,
    acts: Seq<ActionFact>,
    goal: CondFacts,
    mid_entries: Seq<SearchEntry>,
    pre_open: Seq<usize>,
    best_pos: int,
    chosen: int,
    node_fact: NodeFact,
)
    requires
        forall|p: Seq<NodeFact>|
            #[trigger] goal_plan(start, acts, goal, p) && nodes_cost(p) <= usize::MAX as int
                ==> frontier_covers(mid_entries, pre_open, p),
        0 <= best_pos < pre_open.len(),
        pre_open[best_pos] == chosen,
        0 <= chosen < mid_entries.len(),
        mid_entries[chosen].node@ == node_fact,
        conds_check(node_fact.facts(), goal) == Ok::<bool, EvalFault>(false),
    ensures
        forall|p: Seq<NodeFact>|
            #[trigger] goal_plan(start, acts, goal, p) && nodes_cost(p) <= usize::MAX as int
                ==> frontier_covers(
                mid_entries,
                pre_open.update(best_pos, pre_open.last()).drop_last(),
                p,
            ) || (exists|t: int| popped_covers(mid_entries, chosen, p, t) && t < p.len() - 1),
{
    let mid_open = pre_open.update(best_pos, pre_open.last()).drop_last();
    assert forall|p: Seq<NodeFact>|
        #[trigger] goal_plan(start, acts, goal, p) && nodes_cost(p) <= usize::MAX
            as int implies frontier_covers(mid_entries, mid_open, p) || (exists|t: int|
        popped_covers(mid_entries, chosen, p, t) && t < p.len() - 1) by {
        assert(frontier_covers(mid_entries, pre_open, p));
        let (j, t) = choose|j: int, t: int| covers_at(mid_entries, pre_open, j, p, t);
        if pre_open[j] == chosen && j == best_pos {
            assert(popped_covers(mid_entries, chosen, p, t));
            if t == p.len() - 1 {
                assert(mid_entries[chosen].node@ == p[t]);
                assert(p.last() == p[t]);
                assert(conds_check(p.last().facts(), goal) == Ok::<bool, EvalFault>(true));
                assert(false);
            }
            assert(exists|t2: int|
                popped_covers(mid_entries, chosen, p, t2) && t2 < p.len() - 1);
        } else if j == best_pos {
            assert(pre_open[j] == chosen);
            assert(false);
        } else if j == pre_open.len() - 1 {
            assert(mid_open[best_pos] == pre_open[j]);
            assert(covers_at(mid_entries, mid_open, best_pos, p, t));
        } else {
            assert(mid_open[j] == pre_open[j]);
            assert(covers_at(mid_entries, mid_open, j, p, t));
        }
    }
}

/// An entry taken at least priority from a frontier that covers every
/// goal-reaching plan costs no more than any such plan: its accumulated
/// cost is bounded through the admissible heuristic of whichever open
/// entry still lies on the plan.
/// The vertices of a plan after position `t` form a valid step chain from
/// the state of the vertex at `t`.
proof fn lemma_plan_suffix_steps(
    start: StateFacts,
    acts: Seq<ActionFact>,
    p: Seq<NodeFact>,
    t: int,
)
    requires
        valid_plan(start, acts, p),
        0 <= t < p.len(),
    ensures
        valid_steps(p[t].facts(), acts, p.subrange(t + 1, p.len() as int)),
{
    let steps = p.subrange(t + 1, p.len() as int);
    assert forall|i2: int| 0 <= i2 < steps.len() implies plan_edge(
        if i2 == 0 {
            p[t].facts()
        } else {
            steps[i2 - 1].facts()
        },
        #[trigger] steps[i2],
        acts,
    ) by {
        assert(steps[i2] == p[t + 1 + i2]);
        if i2 > 0 {
            assert(steps[i2 - 1] == p[t + i2]);
        }
        let e = t + 1 + i2;
        assert(1 <= e < p.len());
        assert(p[e - 1] == p[t + i2]);
        assert(plan_edge((p[e - 1]).facts(), p[e], acts));
    }
}

/// Splitting a goal-reaching plan at vertex `t`: the prefix cost plus the
/// admissible heuristic at that vertex never exceeds the whole plan's
/// cost.
#[verifier::rlimit(100)]
#[verifier::spinoff_prover]
proof fn lemma_plan_cost_split(
    acts: Seq<ActionFact>,
    goal: CondFacts,
    p: Seq<NodeFact>,
    t: int,
)
    requires
        nonneg_costs(acts),
        p.len() >= 1,
        0 <= t < p.len(),
        conds_check(p.last().facts(), goal) == Ok::<bool, EvalFault>(true),
        valid_steps(p[t].facts(), acts, p.subrange(t + 1, p.len() as int)),
        conds_distance(p[t].facts(), goal) is Ok,
    ensures
        nodes_cost(p.take(t + 1)) + search_heuristic(p[t].facts(), acts, goal) <= nodes_cost(p),
{
    let steps = p.subrange(t + 1, p.len() as int);
    if steps.len() == 0 {
        assert(t == p.len() - 1);
        assert(p.last() == p[t]);
    } else {
        assert(steps.last() == p[p.len() - 1]);
        assert(steps.last() == p.last());
    }
    lemma_search_heuristic_admissible(p[t].facts(), acts, goal, steps);
    lemma_nodes_cost_concat(p.take(t + 1), steps);
    assert(p.take(t + 1) + steps =~= p);
    assert(search_heuristic(p[t].facts(), acts, goal) <= nodes_cost(steps));
}

/// An open entry that lies on a goal-reaching plan at its prefix cost has
/// a priority no larger than the plan's total cost: the heuristic part
/// never overestimates the remaining steps.
#[verifier::rlimit(100)]
#[verifier::spinoff_prover]
proof fn lemma_entry_bounds_plan(
    start: StateFacts,
    acts: Seq<ActionFact>,
    goal: CondFacts,
    mid_entries: Seq<SearchEntry>,
    idx: int,
    p: Seq<NodeFact>,
    t: int,
)
    requires
        nonneg_costs(acts),
        p.len() >= 1,
        conds_check(p.last().facts(), goal) == Ok::<bool, EvalFault>(true),
        valid_steps(p[t].facts(), acts, p.subrange(t + 1, p.len() as int)),
        0 <= idx < mid_entries.len(),
        entry_guided(mid_entries, idx, acts, goal),
        0 <= t < p.len(),
        mid_entries[idx].node@ == p[t],
        mid_entries[idx].g as int == nodes_cost(p.take(t + 1)),
    ensures
        mid_entries[idx].f as int <= nodes_cost(p),
{
    assert(conds_distance(p[t].facts(), goal) is Ok);
    lemma_plan_cost_split(acts, goal, p, t);
}

#[verifier::rlimit(100)]
#[verifier::spinoff_prover]
proof fn lemma_popped_cost_minimal(
    start: StateFacts,
    acts: Seq<ActionFact>,
    goal: CondFacts,
    mid_entries: Seq<SearchEntry>,
    pre_open: Seq<usize>,
    chosen: int,
    g: int,
)
    requires
        nonneg_costs(acts),
        forall|p: Seq<NodeFact>|
            #[trigger] goal_plan(start, acts, goal, p) && nodes_cost(p) <= usize::MAX as int
                ==> frontier_covers(mid_entries, pre_open, p),
        entries_guided(mid_entries, acts, goal),
        0 <= chosen < mid_entries.len(),
        mid_entries[chosen].g as int == g,
        forall|q: int|
            0 <= q < pre_open.len() ==> mid_entries[chosen].f <= mid_entries[
                (#[trigger] pre_open[q]) as int
            ].f,
    ensures
        forall|p: Seq<NodeFact>|
            #[trigger] goal_plan(start, acts, goal, p) && nodes_cost(p) <= usize::MAX as int
                ==> g <= nodes_cost(p),
{
    assert forall|p: Seq<NodeFact>|
        #[trigger] goal_plan(start, acts, goal, p) && nodes_cost(p) <= usize::MAX
            as int implies g <= nodes_cost(p) by {
        assert(frontier_covers(mid_entries, pre_open, p));
        let (j, t) = choose|j: int, t: int| covers_at(mid_entries, pre_open, j, p, t);
        let idx = pre_open[j] as int;
        assert(mid_entries[chosen].f <= mid_entries[idx].f);
        assert(entry_guided(mid_entries, idx, acts, goal));
        assert(entry_guided(mid_entries, chosen, acts, goal));
        assert(mid_entries[idx].node@ == p[t]);
        lemma_plan_suffix_steps(start, acts, p, t);
        lemma_entry_bounds_plan(start, acts, goal, mid_entries, idx, p, t);
        assert(g <= mid_entries[chosen].f as int);
        assert(mid_entries[idx].f as int <= nodes_cost(p));
    }
}

/// Whether the entry just taken off the frontier stands at vertex `t` of
/// `path`, at exactly the prefix cost up to that vertex.
spec fn popped_covers(entries: Seq<SearchEntry>, chosen: int, path: Seq<NodeFact>, t: int) -> bool {
    &&& 0 <= t < path.len()
    &&& 0 <= chosen < entries.len()
    &&& entries[chosen].node@ == path[t]
    &&& entries[chosen].g as int == nodes_cost(path.take(t + 1))
}

/// Rebuilds the vertex path from the arena by following parent links back
/// from `goal_index` to the root.
fn reconstruct_plan(
    entries: &Vec<SearchEntry>,
    goal_index: usize,
    Ghost(start): Ghost<StateFacts>,
    Ghost(actions): Ghost<Seq<ActionFact>>,
) -> (result: Vec<Node>)
    requires
        wf_entries(entries@, start, actions),
        goal_index < entries@.len(),
    ensures
        valid_plan(start, actions, path_view(result@)),
        path_view(result@).last() == entries@[goal_index as int].node@,
        nodes_cost(path_view(result@)) == entries@[goal_index as int].g,
        entries@[goal_index as int].parent is None ==> result@.len() == 1,
{
    let ghost total_g = entries@[goal_index as int].g as int;
    let mut rev: Vec<Node> = Vec::new();
    let mut cur: usize = goal_index;
    rev.push(entries[cur].node.clone());
    proof {
        assert(path_view(rev@).len() == 1);
        assert(path_view(rev@)[0] == entries@[cur as int].node@);
        assert(nodes_cost(path_view(rev@).drop_last()) == 0) by {
            assert(path_view(rev@).drop_last() =~= Seq::<NodeFact>::empty());
        }
    }
    loop
        invariant
            wf_entries(entries@, start, actions),
            goal_index < entries@.len(),
            cur < entries@.len(),
            total_g == entries@[goal_index as int].g as int,
            rev@.len() >= 1,
            path_view(rev@).len() == rev@.len(),
            path_view(rev@)[0] == entries@[goal_index as int].node@,
            path_view(rev@).last() == entries@[cur as int].node@,
            forall|t: int|
                1 <= t < rev@.len() ==> plan_edge(
                    (#[trigger] path_view(rev@)[t]).facts(),
                    path_view(rev@)[t - 1],
                    actions,
                ),
            nodes_cost(path_view(rev@)) == total_g - entries@[cur as int].g + entries@[cur
                as int].node@.cost(),
            entries@[goal_index as int].parent is None ==> rev@.len() == 1 && cur == goal_index,
        ensures
            cur < entries@.len(),
            entries@[cur as int].parent is None,
            rev@.len() >= 1,
            path_view(rev@).len() == rev@.len(),
            path_view(rev@)[0] == entries@[goal_index as int].node@,
            path_view(rev@).last() == entries@[cur as int].node@,
            forall|t: int|
                1 <= t < rev@.len() ==> plan_edge(
                    (#[trigger] path_view(rev@)[t]).facts(),
                    path_view(rev@)[t - 1],
                    actions,
                ),
            nodes_cost(path_view(rev@)) == total_g - entries@[cur as int].g + entries@[cur
                as int].node@.cost(),
            entries@[goal_index as int].parent is None ==> rev@.len() == 1 && cur == goal_index,
        decreases cur,
    {
        let parent = match &entries[cur].parent {
            Option::None => {
                break ;
            },
            Option::Some(p) => *p,
        };
        proof {
            assert(wf_entry(entries@, cur as int, start, actions));
        }
        let ghost prev_rev = path_view(rev@);
        let ghost prev_cur = cur as int;
        cur = parent;
        rev.push(entries[cur].node.clone());
        proof {
            assert(path_view(rev@) =~= prev_rev.push(entries@[cur as int].node@));
            assert(path_view(rev@).drop_last() =~= prev_rev);
        }
    }
    proof {
        assert(wf_entry(entries@, cur as int, start, actions));
        assert(entries@[cur as int].node@ == NodeFact::State(start));
        assert(entries@[cur as int].g == 0);
        assert(NodeFact::State(start).cost() == 0);
        assert(nodes_cost(path_view(rev@)) == total_g);
    }
    let ghost rev_nodes = path_view(rev@);
    let ghost total_len = rev@.len() as int;
    let mut result: Vec<Node> = Vec::new();
    proof {
        assert(nodes_cost(path_view(result@)) == 0) by {
            assert(path_view(result@) =~= Seq::<NodeFact>::empty());
        }
    }
    while rev.len() > 0
        invariant
            result@.len() + rev@.len() == total_len,
            path_view(rev@).len() == rev@.len(),
            path_view(result@).len() == result@.len(),
            forall|t: int| 0 <= t < rev@.len() ==> path_view(rev@)[t] == rev_nodes[t],
            forall|u: int|
                0 <= u < result@.len() ==> path_view(result@)[u] == rev_nodes[total_len - 1 - u],
            nodes_cost(path_view(rev@)) + nodes_cost(path_view(result@)) == nodes_cost(rev_nodes),
        decreases rev.len(),
    {
        let ghost prev_rev = path_view(rev@);
        let ghost prev_result = path_view(result@);
        let node = rev.pop().unwrap();
        result.push(node);
        proof {
            assert(path_view(rev@) =~= prev_rev.drop_last());
            assert(path_view(result@) =~= prev_result.push(prev_rev.last()));
            assert(path_view(result@).drop_last() =~= prev_result);
        }
    }
    proof {
        let path = path_view(result@);
        assert(path.len() == total_len);
        assert(path[0] == rev_nodes[total_len - 1]);
        assert(path[0] == NodeFact::State(start));
        assert(path.last() == rev_nodes[0]);
        assert forall|i: int| 1 <= i < path.len() implies plan_edge(
            (#[trigger] path[i - 1]).facts(),
            path[i],
            actions,
        ) by {
            let t = total_len - i;
            assert(path[i - 1] == rev_nodes[t]);
            assert(path[i] == rev_nodes[t - 1]);
            assert(plan_edge(rev_nodes[t].facts(), rev_nodes[t - 1], actions));
        }
        assert(nodes_cost(path) == nodes_cost(rev_nodes)) by {
            assert(path_view(rev@) =~= Seq::<NodeFact>::empty());
        }
    }
    result
}

/// How many vertices one planning call may expand before it gives up with
/// `PlanError::BudgetExhausted`; an unreachable goal over a cyclic action
/// library would otherwise expand without bound.
pub const EXPANSION_BUDGET: usize = 1000000;

/// The forward best-path search: expand the frontier vertex of least
/// accumulated-cost-plus-heuristic until a dequeued vertex satisfies the
/// goal.
#[verifier::rlimit(100)]
fn search_start_to_goal(start: &LocalState, actions: &Vec<Action>, goal: &Goal) -> (result: Result<
    Option<(Vec<Node>, usize)>,
    PlanError,
>)
    ensures
        plan_result_holds(start@, actions_view(actions@), goal@, result),
{
    let ghost acts = actions_view(actions@);
    match check_goal(start, goal) {
        Err(e) => {
            return Err(PlanError::Eval(e));
        },
        Ok(true) => {
            let mut path: Vec<Node> = Vec::new();
            path.push(Node::State(start.clone()));
            proof {
                assert(path_view(path@).len() == 1);
                assert(path_view(path@)[0] == NodeFact::State(start@));
                assert(nodes_cost(path_view(path@)) == 0) by {
                    assert(nodes_cost(Seq::<NodeFact>::empty()) == 0);
                    assert(path_view(path@).drop_last() =~= Seq::<NodeFact>::empty());
                    assert(path_view(path@).last() == NodeFact::State(start@));
                    assert(NodeFact::State(start@).cost() == 0);
                }
                if all_dyn_free(acts) {
                    lemma_actions_view_nonneg(actions@);
                    assert forall|p: Seq<NodeFact>|
                        (#[trigger] goal_plan(start@, acts, goal@, p)) && nodes_cost(p)
                            <= usize::MAX as int implies 0 <= nodes_cost(p) by {
                        lemma_plan_prefix_cost(start@, acts, p, 0);
                        assert(p.take(0) =~= Seq::<NodeFact>::empty());
                    }
                }
            }
            return Ok(Some((path, 0)));
        },
        Ok(false) => {},
    }
    let root = Node::State(start.clone());
    let root_h = match heuristic(&root, actions, goal) {
        Err(e) => {
            return Err(PlanError::Eval(e));
        },
        Ok(h) => h,
    };
    let mut entries: Vec<SearchEntry> = Vec::new();
    entries.push(SearchEntry { node: root, parent: None, g: 0, f: root_h });
    let mut open: Vec<usize> = Vec::new();
    open.push(0);
    proof {
        assert(entry_guided(entries@, 0, acts, goal@));
        if all_dyn_free(acts) {
            assert forall|p: Seq<NodeFact>|
                #[trigger] goal_plan(start@, acts, goal@, p) && nodes_cost(p) <= usize::MAX
                    as int implies frontier_covers(entries@, open@, p) by {
                assert(p[0] == NodeFact::State(start@));
                assert(p.take(1).len() == 1);
                assert(p.take(1).drop_last() =~= Seq::<NodeFact>::empty());
                assert(p.take(1).last() == p[0]);
                assert(nodes_cost(Seq::<NodeFact>::empty()) == 0);
                assert(NodeFact::State(start@).cost() == 0);
                assert(nodes_cost(p.take(1)) == 0);
                assert(covers_at(entries@, open@, 0, p, 0));
            }
        }
    }
    let mut remaining: usize = EXPANSION_BUDGET;
    while remaining > 0
        invariant
            acts == actions_view(actions@),
            conds_check(start@, goal@) == Ok::<bool, EvalFault>(false),
            wf_entries(entries@, start@, acts),
            entries_guided(entries@, acts, goal@),
            forall|j: int| 0 <= j < open@.len() ==> (#[trigger] open@[j]) < entries@.len(),
            all_dyn_free(acts) ==> forall|p: Seq<NodeFact>|
                #[trigger] goal_plan(start@, acts, goal@, p) && nodes_cost(p) <= usize::MAX as int
                    ==> frontier_covers(entries@, open@, p),
        decreases remaining,
    {
        if open.len() == 0 {
            proof {
                if all_dyn_free(acts) {
                    assert forall|p: Seq<NodeFact>|
                        !(#[trigger] goal_plan(start@, acts, goal@, p) && nodes_cost(p)
                            <= usize::MAX as int) by {
                        if goal_plan(start@, acts, goal@, p) && nodes_cost(p) <= usize::MAX
                            as int {
                            assert(frontier_covers(entries@, open@, p));
                            let (j, t) = choose|j: int, t: int|
                                covers_at(entries@, open@, j, p, t);
                            assert(false);
                        }
                    }
                }
            }
            return Ok(None);
        }
        let mut best_pos: usize = 0;
        let mut scan: usize = 1;
        while scan < open.len()
            invariant
                open@.len() > 0,
                best_pos < open@.len(),
                scan <= open@.len(),
                forall|j: int| 0 <= j < open@.len() ==> (#[trigger] open@[j]) < entries@.len(),
                forall|q: int|
                    0 <= q < scan as int ==> entries@[open@[best_pos as int] as int].f <= entries@[
                        (#[trigger] open@[q]) as int
                    ].f,
            decreases open.len() - scan,
        {
            if entries[open[scan]].f < entries[open[best_pos]].f {
                best_pos = scan;
            }
            scan = scan + 1;
        }
        let ghost pre_open = open@;
        let chosen: usize = open.swap_remove(best_pos);
        let ghost mid_open = open@;
        let ghost mid_entries = entries@;
        let node = entries[chosen].node.clone();
        let g = entries[chosen].g;
        proof {
            assert(wf_entries(entries@, start@, acts));
        }
        match is_goal(&node, goal) {
            Err(e) => {
                return Err(PlanError::Eval(e));
            },
            Ok(true) => {
                let path = reconstruct_plan(&entries, chosen, Ghost(start@), Ghost(acts));
                proof {
                    assert(path_view(path@).last().facts() == node@.facts());
                    if all_dyn_free(acts) {
                        lemma_actions_view_nonneg(actions@);
                        assert(forall|q: int|
                            0 <= q < pre_open.len() ==> mid_entries[chosen as int].f
                                <= mid_entries[(#[trigger] pre_open[q]) as int].f);
                        lemma_popped_cost_minimal(
                            start@,
                            acts,
                            goal@,
                            mid_entries,
                            pre_open,
                            chosen as int,
                            g as int,
                        );
                    }
                }
                return Ok(Some((path, g)));
            },
            Ok(false) => {},
        }
        let succs = match successors(&node, actions) {
            Err(e) => {
                return Err(PlanError::Eval(e));
            },
            Ok(s) => s,
        };
        let ghost sel = choose|sel: Seq<bool>|
            successors_witness(node@.facts(), acts, sel, succs_view(succs@));
        proof {
            lemma_selected_succs_sound(node@.facts(), acts, sel);
            if all_dyn_free(acts) {
                assert(mid_open == pre_open.update(
                    best_pos as int,
                    pre_open.last(),
                ).drop_last());
                lemma_frontier_after_pop(
                    start@,
                    acts,
                    goal@,
                    mid_entries,
                    pre_open,
                    best_pos as int,
                    chosen as int,
                    node@,
                );
            }
        }
        let mut s: usize = 0;
        while s < succs.len()
            invariant
                acts == actions_view(actions@),
                conds_check(start@, goal@) == Ok::<bool, EvalFault>(false),
                wf_entries(entries@, start@, acts),
                entries_guided(entries@, acts, goal@),
                forall|j: int| 0 <= j < open@.len() ==> (#[trigger] open@[j]) < entries@.len(),
                s <= succs.len(),
                chosen < entries@.len(),
                entries@[chosen as int].node@ == node@,
                entries@[chosen as int].g == g,
                succs_view(succs@).len() == succs@.len(),
                forall|j: int|
                    0 <= j < succs@.len() ==> yields_from(
                        node@.facts(),
                        acts,
                        sel,
                        #[trigger] succs_view(succs@)[j],
                    ),
                forall|i: int| 0 <= i < acts.len() && sel[i] ==> action_applies(node@.facts(), acts[i]),
                mid_entries.len() <= entries@.len(),
                forall|k: int| 0 <= k < mid_entries.len() ==> entries@[k] == mid_entries[k],
                mid_open.len() <= open@.len(),
                forall|q: int| 0 <= q < mid_open.len() ==> open@[q] == mid_open[q],
                forall|s2: int|
                    0 <= s2 < s as int && g as int + (#[trigger] succs_view(succs@)[s2]).1
                        <= usize::MAX as int ==> exists|j: int|
                        0 <= j < open@.len() && (open@[j] as int) < entries@.len() && entries@[
                            open@[j] as int
                        ].node@ == succs_view(succs@)[s2].0 && entries@[open@[j] as int].g as int
                            == g as int + succs_view(succs@)[s2].1,
            decreases succs.len() - s,
        {
            let cost: usize = succs[s].1;
            let succ_node = succs[s].0.clone();
            proof {
                assert(succs_view(succs@)[s as int] == (succ_node@, cost as int));
                let i = choose|i: int|
                    0 <= i < acts.len() && sel[i] && succs_view(succs@)[s as int]
                        == #[trigger] succ_of(node@.facts(), acts[i]);
                assert(succ_node@ == succ_of(node@.facts(), acts[i]).0);
                assert(plan_edge(node@.facts(), succ_node@, acts));
                assert(succ_node@ is Effect);
                assert(succ_node@.cost() == cost as int);
            }
            if g <= usize::MAX - cost {
                let child_g: usize = g + cost;
                let child_h = match heuristic(&succ_node, actions, goal) {
                    Err(e) => {
                        return Err(PlanError::Eval(e));
                    },
                    Ok(h) => h,
                };
                let g64: u64 = child_g as u64;
                let child_f: u64 = if g64 > u64::MAX - child_h {
                    u64::MAX
                } else {
                    g64 + child_h
                };
                let ghost before = entries@;
                let ghost before_open = open@;
                entries.push(
                    SearchEntry { node: succ_node, parent: Some(chosen), g: child_g, f: child_f },
                );
                open.push(entries.len() - 1);
                proof {
                    assert forall|k: int| 0 <= k < entries@.len() implies #[trigger] wf_entry(
                        entries@,
                        k,
                        start@,
                        acts,
                    ) by {
                        if k < before.len() {
                            assert(wf_entry(before, k, start@, acts));
                            assert(entries@[k] == before[k]);
                            match before[k].parent {
                                Option::None => {},
                                Option::Some(p) => {
                                    assert(entries@[p as int] == before[p as int]);
                                },
                            }
                        } else {
                            assert(entries@[k].parent == Some(chosen));
                            assert(entries@[chosen as int] == before[chosen as int]);
                        }
                    }
                    assert forall|k: int| 0 <= k < entries@.len() implies #[trigger] entry_guided(
                        entries@,
                        k,
                        acts,
                        goal@,
                    ) by {
                        if k < before.len() {
                            assert(entry_guided(before, k, acts, goal@));
                            assert(entries@[k] == before[k]);
                        } else {
                            assert(entries@[k].node@ == succ_node@);
                            assert(entries@[k].g == child_g);
                            assert(entries@[k].f == child_f);
                        }
                    }
                    assert forall|s2: int|
                        0 <= s2 < s as int + 1 && g as int + (#[trigger] succs_view(succs@)[s2]).1
                            <= usize::MAX as int implies exists|j: int|
                        0 <= j < open@.len() && (open@[j] as int) < entries@.len() && entries@[
                            open@[j] as int
                        ].node@ == succs_view(succs@)[s2].0 && entries@[open@[j] as int].g as int
                            == g as int + succs_view(succs@)[s2].1 by {
                        if s2 == s as int {
                            let j = open@.len() - 1;
                            assert(open@[j] == before.len());
                            assert(entries@[before.len() as int].node@ == succ_node@);
                            assert(entries@[before.len() as int].g == child_g);
                        } else {
                            let j = choose|j: int|
                                0 <= j < before_open.len() && (before_open[j] as int)
                                    < before.len() && before[before_open[j] as int].node@
                                    == succs_view(succs@)[s2].0 && before[
                                    before_open[j] as int
                                ].g as int == g as int + succs_view(succs@)[s2].1;
                            assert(open@[j] == before_open[j]);
                            assert(entries@[before_open[j] as int] == before[before_open[
                                j
                            ] as int]);
                        }
                    }
                }
            }
            s = s + 1;
        }
        proof {
            if all_dyn_free(acts) {
                lemma_actions_view_nonneg(actions@);
                lemma_frontier_restored(
                    start@,
                    acts,
                    goal@,
                    mid_entries,
                    mid_open,
                    chosen as int,
                    node@,
                    g as int,
                    sel,
                    succs_view(succs@),
                    entries@,
                    open@,
                );
            }
        }
        remaining = remaining - 1;
    }
    Err(PlanError::BudgetExhausted)
}

/// Computes a plan under the chosen strategy. Selecting the reserved
/// `GoalToStart` strategy yields `PlanError::UnimplementedStrategy`; the
/// implemented `StartToGoal` strategy guarantees `plan_result_holds`.
pub fn make_plan_with_strategy(
    strategy: PlanningStrategy,
    start: &LocalState,
    actions: &Vec<Action>,
    goal: &Goal,
) -> (result: Result<Option<(Vec<Node>, usize)>, PlanError>)
    ensures
        strategy is GoalToStart ==> result == Err::<Option<(Vec<Node>, usize)>, PlanError>(
            PlanError::UnimplementedStrategy,
        ),
        strategy is StartToGoal ==> plan_result_holds(
            start@,
            actions_view(actions@),
            goal@,
            result,
        ),
{
    match strategy {
        PlanningStrategy::StartToGoal => search_start_to_goal(start, actions, goal),
        PlanningStrategy::GoalToStart => Err(PlanError::UnimplementedStrategy),
    }
}

/// Computes the least-guided-cost plan from `start` to a state satisfying
/// `goal`, searching forward through the action library: the ordered
/// vertex path together with its total cost, `Ok(None)` when the search
/// space is exhausted without reaching the goal, or a typed failure.
pub fn make_plan(start: &LocalState, actions: &Vec<Action>, goal: &Goal) -> (result: Result<
    Option<(Vec<Node>, usize)>,
    PlanError,
>)
    ensures
        plan_result_holds(start@, actions_view(actions@), goal@, result),
{
    make_plan_with_strategy(PlanningStrategy::StartToGoal, start, actions, goal)
}

/// The effect vertices of a path, in path order.
pub open spec fn plan_effects(path: Seq<NodeFact>) -> Seq<EffectFact>
    decreases path.len(),
{
    if path.len() == 0 {
        Seq::empty()
    } else {
        plan_effects(path.drop_last()) + (match path.last() {
            NodeFact::Effect(effect) => seq![effect],
            NodeFact::State(_) => Seq::empty(),
        })
    }
}

/// Extracts the executable plan from a vertex path: the effects of its
/// effect vertices, in path order.
pub fn get_effects_from_plan(plan: Vec<Node>) -> (result: Vec<Effect>)
    ensures
        result@.map_values(|e: Effect| e@) == plan_effects(path_view(plan@)),
{
    let mut result: Vec<Effect> = Vec::new();
    let mut i: usize = 0;
    proof {
        assert(path_view(plan@).subrange(0, 0) =~= Seq::<NodeFact>::empty());
        assert(result@.map_values(|e: Effect| e@) =~= Seq::<EffectFact>::empty());
    }
    while i < plan.len()
        invariant
            i <= plan.len(),
            path_view(plan@).len() == plan@.len(),
            result@.map_values(|e: Effect| e@) == plan_effects(
                path_view(plan@).subrange(0, i as int),
            ),
        decreases plan.len() - i,
    {
        let ghost prefix = path_view(plan@).subrange(0, i as int);
        let ghost prev = result@.map_values(|e: Effect| e@);
        proof {
            assert(path_view(plan@).subrange(0, i as int + 1).drop_last() =~= prefix);
            assert(path_view(plan@).subrange(0, i as int + 1).last() == path_view(plan@)[i as int]);
        }
        match &plan[i] {
            Node::Effect(effect) => {
                result.push(effect.clone());
                proof {
                    assert(result@.map_values(|e: Effect| e@) =~= prev.push(effect@));
                }
            },
            Node::State(_) => {},
        }
        i = i + 1;
    }
    proof {
        assert(path_view(plan@).subrange(0, plan@.len() as int) =~= path_view(plan@));
    }
    result
}

} // verus!
