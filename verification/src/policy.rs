//! Policy extraction: the greedy one-step minimizer over a converged cost
//! vector, deliberately evaluated with zero nature displacement.
use vstd::prelude::*;

use crate::model::bounded_action;
use crate::model::do_action;
use crate::model::in_ring_state;
use crate::model::is_goal;
use crate::model::lemma_do_action_in_ring;
use crate::model::lemma_sidx_of_index;
use crate::model::position_of;
use crate::model::sidx;
use crate::model::spec_do_action;
use crate::model::spec_is_goal;
use crate::model::stay_action;
use crate::model::Action;
use crate::model::State;
use crate::model::StateSpace;
use crate::solver::actions_ok;
use crate::solver::costs_ok;
use crate::COST_INFINITY;
use crate::COST_SCALE;

verus! {

/// The one-step lookahead cost of robot action `a` at state `s` with no
/// disturbance: the recorded cost of the clamped destination plus one step.
pub open spec fn spec_lookahead_cost(space: StateSpace, costs: Seq<u64>, s: State, a: Action) -> int {
    costs[sidx(space.states@, spec_do_action(s, a, stay_action(), space.w as int))] + COST_SCALE
}

/// The greedy choice over the first `n` robot actions: the least one-step
/// lookahead cost found so far and the action that attained it, seeded with
/// the stay action at zero cost for a goal state and at the sentinel
/// otherwise.
pub open spec fn spec_greedy(
    actions: Seq<Action>,
    n: int,
    space: StateSpace,
    costs: Seq<u64>,
    s: State,
) -> (int, Action)
    decreases n,
{
    if n <= 0 {
        (
            if spec_is_goal(s, space.w as int) {
                0
            } else {
                COST_INFINITY as int
            },
            stay_action(),
        )
    } else {
        let prev = spec_greedy(actions, n - 1, space, costs, s);
        let c = spec_lookahead_cost(space, costs, s, actions[n - 1]);
        if c < prev.0 {
            (c, actions[n - 1])
        } else {
            prev
        }
    }
}

/// The action the extracted policy assigns to the state at index `k`.
pub open spec fn spec_plan_action(
    space: StateSpace,
    actions: Seq<Action>,
    costs: Seq<u64>,
    k: int,
) -> Action {
    spec_greedy(actions, actions.len() as int, space, costs, space.states@[k]).1
}

/// The greedy choice is the stay action or a catalog action, and its cost
/// component never exceeds the sentinel.
pub proof fn lemma_greedy_props(
    actions: Seq<Action>,
    n: int,
    space: StateSpace,
    costs: Seq<u64>,
    s: State,
)
    requires
        0 <= n <= actions.len(),
    ensures
        spec_greedy(actions, n, space, costs, s).1 == stay_action() || actions.contains(
            spec_greedy(actions, n, space, costs, s).1,
        ),
        spec_greedy(actions, n, space, costs, s).0 <= COST_INFINITY as int,
    decreases n,
{
    if n > 0 {
        lemma_greedy_props(actions, n - 1, space, costs, s);
        if spec_lookahead_cost(space, costs, s, actions[n - 1]) < spec_greedy(
            actions,
            n - 1,
            space,
            costs,
            s,
        ).0 {
            assert(actions[n - 1] == spec_greedy(actions, n, space, costs, s).1);
            assert(actions.contains(actions[n - 1]));
        }
    }
}

/// Policy validity: every action of the extracted policy is the stay action
/// or belongs to the robot catalog, and applying it to its own state with
/// any nature action keeps the state inside the legal state space, so the
/// simulator's state lookup never fails.
pub proof fn lemma_policy_validity(
    space: StateSpace,
    actions: Seq<Action>,
    costs: Seq<u64>,
    k: int,
    na: Action,
)
    requires
        space.wf(),
        0 <= k < space.states@.len(),
    ensures
        spec_plan_action(space, actions, costs, k) == stay_action() || actions.contains(
            spec_plan_action(space, actions, costs, k),
        ),
        actions.contains(stay_action()) ==> actions.contains(
            spec_plan_action(space, actions, costs, k),
        ),
        in_ring_state(
            spec_do_action(
                space.states@[k],
                spec_plan_action(space, actions, costs, k),
                na,
                space.w as int,
            ),
            space.w as int,
        ),
{
    lemma_greedy_props(actions, actions.len() as int, space, costs, space.states@[k]);
    assert(space.states@.contains(space.states@[k]));
    lemma_do_action_in_ring(
        space.states@[k],
        spec_plan_action(space, actions, costs, k),
        na,
        space.w as int,
    );
}

/// With the no-nature distribution — a single zero displacement carrying the
/// whole probability mass — the solver's expected backup for a state equals
/// the policy extractor's greedy one-step minimum over the same cost vector:
/// the solver then computes exactly the deterministic shortest-step backup.
pub proof fn lemma_no_nature_backup_matches_greedy(
    actions: Seq<Action>,
    n: int,
    entries: Seq<(Action, u64)>,
    space: StateSpace,
    costs: Seq<u64>,
    s: State,
)
    requires
        entries.len() == 1,
        entries[0].1 == crate::PROB_DENOM,
        entries[0].0 == stay_action(),
        0 <= n <= actions.len(),
    ensures
        crate::solver::spec_best_cost(actions, n, entries, space, costs, s) == spec_greedy(
            actions,
            n,
            space,
            costs,
            s,
        ).0,
    decreases n,
{
    if n > 0 {
        lemma_no_nature_backup_matches_greedy(actions, n - 1, entries, space, costs, s);
        crate::solver::lemma_deterministic_expected(entries, space, costs, s, actions[n - 1]);
    }
}

/// Extracts the deterministic policy table: for each state the robot action
/// with the least one-step lookahead cost under zero disturbance, the stay
/// action where no action improves on the seed.
#[verifier::loop_isolation(false)]
pub fn build_plan_based_on_costs_to_goal(
    available_states: &StateSpace,
    robot_actions: &Vec<Action>,
    costs_to_goal: &Vec<u64>,
) -> (plan: Vec<Action>)
    requires
        available_states.wf(),
        actions_ok(robot_actions@),
        costs_ok(*available_states, costs_to_goal@),
    ensures
        plan@.len() == available_states.states@.len(),
        forall|k: int|
            0 <= k < plan@.len() ==> #[trigger] plan@[k] == spec_plan_action(
                *available_states,
                robot_actions@,
                costs_to_goal@,
                k,
            ),
        forall|k: int|
            0 <= k < plan@.len() ==> (#[trigger] plan@[k] == stay_action() || robot_actions@.contains(
                plan@[k],
            )),
        forall|k: int| 0 <= k < plan@.len() ==> bounded_action(#[trigger] plan@[k]),
{
    let ghost spc = *available_states;
    let ghost acts = robot_actions@;
    let ghost costs = costs_to_goal@;
    let n_states = available_states.states.len();
    let n_actions = robot_actions.len();
    let mut plan: Vec<Action> = Vec::new();
    let mut k: usize = 0;
    while k < n_states
        invariant
            plan@.len() == k,
            k <= n_states,
            forall|m: int|
                0 <= m < k ==> #[trigger] plan@[m] == spec_plan_action(spc, acts, costs, m),
        decreases n_states - k,
    {
        let state = available_states.states[k];
        proof {
            assert(spc.states@.contains(state));
        }
        let goal = is_goal(&state, available_states.w);
        let mut min_cost_to_goal: u64 = if goal {
            0
        } else {
            COST_INFINITY
        };
        let mut best_action = Action { di: 0, dj: 0 };
        let mut ai: usize = 0;
        while ai < n_actions
            invariant
                ai <= n_actions,
                min_cost_to_goal as int == spec_greedy(acts, ai as int, spc, costs, state).0,
                best_action == spec_greedy(acts, ai as int, spc, costs, state).1,
            decreases n_actions - ai,
        {
            let action = robot_actions[ai];
            let no_disturbance = Action { di: 0, dj: 0 };
            let new_state = do_action(&state, &action, &no_disturbance, available_states);
            proof {
                lemma_do_action_in_ring(state, action, stay_action(), spc.w as int);
                assert(spc.states@.contains(new_state));
            }
            let position = match position_of(available_states, new_state.i, new_state.j) {
                Some(p) => p,
                None => {
                    proof {
                        assert(false);
                    }
                    0
                },
            };
            proof {
                lemma_sidx_of_index(spc, position as int);
                assert(sidx(spc.states@, new_state) == position as int);
            }
            let c = costs_to_goal[position];
            if c + COST_SCALE < min_cost_to_goal {
                min_cost_to_goal = c + COST_SCALE;
                best_action = Action { di: action.di, dj: action.dj };
            }
            ai = ai + 1;
        }
        proof {
            lemma_greedy_props(acts, acts.len() as int, spc, costs, state);
        }
        plan.push(best_action);
        k = k + 1;
    }
    proof {
        assert forall|m: int| 0 <= m < plan@.len() implies {
            &&& (#[trigger] plan@[m] == stay_action() || acts.contains(plan@[m]))
            &&& bounded_action(plan@[m])
        } by {
            lemma_greedy_props(acts, acts.len() as int, spc, costs, spc.states@[m]);
            if plan@[m] != stay_action() {
                let i = choose|i: int| 0 <= i < acts.len() && acts[i] == plan@[m];
                assert(bounded_action(acts[i]));
            }
        }
    }
    plan
}

} // verus!
