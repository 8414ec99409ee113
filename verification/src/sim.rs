//! Monte-Carlo policy simulation: repeated trajectories under the extracted
//! policy with nature actions drawn from the disturbance distribution.
use vstd::prelude::*;

use vstd::arithmetic::mul::lemma_mul_inequality;
use vstd::arithmetic::mul::lemma_mul_upper_bound;

use crate::dist::choose_nature_action_randomly;
use crate::dist::spec_sample;
use crate::dist::NatureDist;
use crate::model::bounded_action;
use crate::model::bounded_state;
use crate::model::do_action;
use crate::model::in_ring_state;
use crate::model::is_goal;
use crate::model::lemma_sidx_of_index;
use crate::model::position_of;
use crate::model::sidx;
use crate::model::spec_do_action;
use crate::model::spec_is_goal;
use crate::model::Action;
use crate::model::State;
use crate::model::StateSpace;
use crate::PROB_DENOM;

verus! {

/// A policy table usable with a state space: one bounded action per state.
pub open spec fn plan_ok(space: StateSpace, plan: Seq<Action>) -> bool {
    &&& plan.len() == space.states@.len()
    &&& forall|k: int| 0 <= k < plan.len() ==> bounded_action(#[trigger] plan[k])
}

/// The state after `t` steps of the policy from `start`, where the nature
/// action of step `t` is the inverse-CDF sample of the distribution at the
/// draw `us[t - 1]`.
pub open spec fn spec_trajectory(
    space: StateSpace,
    plan: Seq<Action>,
    entries: Seq<(Action, u64)>,
    start: State,
    us: Seq<int>,
    t: int,
) -> State
    decreases t,
{
    if t <= 0 {
        start
    } else {
        let prev = spec_trajectory(space, plan, entries, start, us, t - 1);
        spec_do_action(
            prev,
            plan[sidx(space.states@, prev)],
            spec_sample(entries, us[t - 1]),
            space.w as int,
        )
    }
}

/// Every draw of the sequence lies below the probability denominator.
pub open spec fn spec_draws_ok(us: Seq<int>) -> bool {
    forall|t: int| 0 <= t < us.len() ==> 0 <= #[trigger] us[t] < PROB_DENOM
}

/// The trajectory drawn by `us` first reaches the goal at step `total`:
/// the state after `total` steps is a goal state and no earlier counted
/// step's state is.
pub open spec fn spec_run_reaches(
    space: StateSpace,
    plan: Seq<Action>,
    entries: Seq<(Action, u64)>,
    start: State,
    us: Seq<int>,
    total: int,
) -> bool {
    &&& us.len() == total
    &&& spec_draws_ok(us)
    &&& spec_is_goal(
        spec_trajectory(space, plan, entries, start, us, total),
        space.w as int,
    )
    &&& forall|t: int|
        0 < t < total ==> !spec_is_goal(
            #[trigger] spec_trajectory(space, plan, entries, start, us, t),
            space.w as int,
        )
}

/// The trajectory drawn by `us` passes `budget` counted steps without ever
/// standing on a goal state.
pub open spec fn spec_run_exhausted(
    space: StateSpace,
    plan: Seq<Action>,
    entries: Seq<(Action, u64)>,
    start: State,
    us: Seq<int>,
    budget: int,
) -> bool {
    &&& us.len() == budget
    &&& spec_draws_ok(us)
    &&& forall|t: int|
        0 < t <= budget ==> !spec_is_goal(
            #[trigger] spec_trajectory(space, plan, entries, start, us, t),
            space.w as int,
        )
}

/// A trajectory only reads the draws of the steps already taken: appending a
/// draw leaves every earlier state unchanged.
pub proof fn lemma_trajectory_push(
    space: StateSpace,
    plan: Seq<Action>,
    entries: Seq<(Action, u64)>,
    start: State,
    us: Seq<int>,
    u: int,
    t: int,
)
    requires
        0 <= t <= us.len(),
    ensures
        spec_trajectory(space, plan, entries, start, us.push(u), t) == spec_trajectory(
            space,
            plan,
            entries,
            start,
            us,
            t,
        ),
    decreases t,
{
    if t > 0 {
        lemma_trajectory_push(space, plan, entries, start, us, u, t - 1);
        assert(us.push(u)[t - 1] == us[t - 1]);
    }
}

/// Runs one trajectory: from the start state, repeatedly samples a nature
/// action, takes the policy's action for the current state, applies the
/// clamped transition, and counts a step, until a goal state is reached.
/// On success the count is the first counted step whose state is a goal
/// state of the trajectory under some sequence of in-range draws; with
/// `None` some such trajectory passes the whole budget without reaching
/// the goal.
#[verifier::loop_isolation(false)]
pub fn simulate_robot(
    nature_behaviour: &NatureDist,
    start_state: &State,
    available_states: &StateSpace,
    plan: &Vec<Action>,
    max_steps: u64,
) -> (r: Option<u64>)
    requires
        available_states.wf(),
        nature_behaviour.wf(),
        in_ring_state(*start_state, available_states.w as int),
        plan_ok(*available_states, plan@),
    ensures
        match r {
            Some(total) => {
                &&& 1 <= total <= max_steps
                &&& exists|us: Seq<int>|
                    spec_run_reaches(
                        *available_states,
                        plan@,
                        nature_behaviour.entries@,
                        *start_state,
                        us,
                        total as int,
                    )
            },
            None => exists|us: Seq<int>|
                spec_run_exhausted(
                    *available_states,
                    plan@,
                    nature_behaviour.entries@,
                    *start_state,
                    us,
                    max_steps as int,
                ),
        },
{
    let ghost spc = *available_states;
    let ghost ents = nature_behaviour.entries@;
    let ghost start0 = *start_state;
    let ghost mut us: Seq<int> = Seq::empty();
    let mut current_state = State { i: start_state.i, j: start_state.j };
    let mut total_cost: u64 = 0;
    while total_cost < max_steps
        invariant
            total_cost <= max_steps,
            in_ring_state(current_state, spc.w as int),
            us.len() == total_cost as int,
            spec_draws_ok(us),
            current_state == spec_trajectory(spc, plan@, ents, start0, us, total_cost as int),
            forall|t: int|
                0 < t <= total_cost as int ==> !spec_is_goal(
                    #[trigger] spec_trajectory(spc, plan@, ents, start0, us, t),
                    spc.w as int,
                ),
        decreases max_steps - total_cost,
    {
        let nature_action = choose_nature_action_randomly(nature_behaviour);
        let ghost u = choose|u: int| 0 <= u < PROB_DENOM && nature_action == spec_sample(ents, u);
        let position = match position_of(available_states, current_state.i, current_state.j) {
            Some(p) => p,
            None => {
                proof {
                    assert(spc.states@.contains(current_state));
                    assert(false);
                }
                0
            },
        };
        proof {
            lemma_sidx_of_index(spc, position as int);
            assert(sidx(spc.states@, current_state) == position as int);
            assert(bounded_state(current_state));
        }
        let action = plan[position];
        let ghost prev_us = us;
        let ghost prev_state = current_state;
        let ghost prev_total = total_cost as int;
        current_state = do_action(&current_state, &action, &nature_action, available_states);
        total_cost = total_cost + 1;
        proof {
            us = prev_us.push(u);
            lemma_trajectory_push(spc, plan@, ents, start0, prev_us, u, prev_total);
            assert(spec_trajectory(spc, plan@, ents, start0, us, prev_total) == prev_state);
            assert(us[prev_total] == u);
            assert(spec_trajectory(spc, plan@, ents, start0, us, prev_total + 1) == current_state);
            assert forall|t: int|
                0 < t <= prev_total implies !spec_is_goal(
                #[trigger] spec_trajectory(spc, plan@, ents, start0, us, t),
                spc.w as int,
            ) by {
                lemma_trajectory_push(spc, plan@, ents, start0, prev_us, u, t);
            }
        }
        if is_goal(&current_state, available_states.w) {
            proof {
                assert(spec_run_reaches(spc, plan@, ents, start0, us, total_cost as int));
            }
            return Some(total_cost);
        }
    }
    proof {
        assert(spec_run_exhausted(spc, plan@, ents, start0, us, max_steps as int));
    }
    None
}

/// The sum of the first `n` recorded step counts.
pub open spec fn spec_steps_sum(costs: Seq<u64>, n: int) -> int
    decreases n,
{
    if n <= 0 {
        0
    } else {
        spec_steps_sum(costs, n - 1) + costs[n - 1]
    }
}

/// A prefix sum only reads the entries it covers: appending one more
/// recorded count leaves it unchanged.
pub proof fn lemma_steps_sum_push(costs: Seq<u64>, c: u64, n: int)
    requires
        0 <= n <= costs.len(),
    ensures
        spec_steps_sum(costs.push(c), n) == spec_steps_sum(costs, n),
    decreases n,
{
    if n > 0 {
        lemma_steps_sum_push(costs, c, n - 1);
        assert(costs.push(c)[n - 1] == costs[n - 1]);
    }
}

/// The tally of a Monte-Carlo evaluation: the step count of every
/// trajectory that reached the goal, in run order; their sum; the number of
/// trajectories that exhausted the step budget; and the mean cost in
/// fixed-point units.
pub struct SimulationStats {
    pub costs: Vec<u64>,
    pub total_steps: u64,
    pub abandoned: u64,
    pub mean_scaled: u64,
}

/// Runs `trials` independent trajectories from the start state and tallies
/// them. Every completed run contributes its step count, between one and
/// the budget; runs that exhaust the budget are counted as abandoned; the
/// mean is the total over the completed runs in units of [`crate::COST_SCALE`],
/// zero when no run completed.
#[verifier::loop_isolation(false)]
pub fn simulate_many(
    nature_behaviour: &NatureDist,
    start_state: &State,
    available_states: &StateSpace,
    plan: &Vec<Action>,
    trials: u64,
    max_steps: u64,
) -> (r: SimulationStats)
    requires
        available_states.wf(),
        nature_behaviour.wf(),
        in_ring_state(*start_state, available_states.w as int),
        plan_ok(*available_states, plan@),
        trials <= 1_000_000,
        max_steps <= 10_000_000,
    ensures
        r.costs@.len() + r.abandoned as int == trials as int,
        forall|t: int| 0 <= t < r.costs@.len() ==> 1 <= #[trigger] r.costs@[t] <= max_steps,
        r.total_steps as int == spec_steps_sum(r.costs@, r.costs@.len() as int),
        r.costs@.len() == 0 ==> r.mean_scaled == 0,
        r.costs@.len() > 0 ==> r.mean_scaled as int == (r.total_steps as int) * (
        crate::COST_SCALE as int) / (r.costs@.len() as int),
{
    let mut costs: Vec<u64> = Vec::new();
    let mut total_steps: u64 = 0;
    let mut abandoned: u64 = 0;
    let mut i: u64 = 0;
    while i < trials
        invariant
            i <= trials,
            costs@.len() + abandoned as int == i as int,
            forall|t: int| 0 <= t < costs@.len() ==> 1 <= #[trigger] costs@[t] <= max_steps,
            total_steps as int == spec_steps_sum(costs@, costs@.len() as int),
            total_steps as int <= costs@.len() as int * (max_steps as int),
        decreases trials - i,
    {
        match simulate_robot(nature_behaviour, start_state, available_states, plan, max_steps) {
            Some(cost) => {
                proof {
                    let len = costs@.len() as int;
                    let m = max_steps as int;
                    assert((len + 1) * m == len * m + m) by (nonlinear_arith);
                    lemma_mul_inequality(len + 1, trials as int, m);
                    lemma_mul_upper_bound(trials as int, 1_000_000, m, 10_000_000);
                    lemma_steps_sum_push(costs@, cost, len);
                }
                let ghost prev = costs@;
                costs.push(cost);
                proof {
                    assert(costs@ == prev.push(cost));
                }
                total_steps = total_steps + cost;
            },
            None => {
                abandoned = abandoned + 1;
            },
        }
        i = i + 1;
    }
    let completed = costs.len() as u64;
    let mean_scaled: u64 = if completed == 0 {
        0
    } else {
        proof {
            let len = costs@.len() as int;
            let m = max_steps as int;
            lemma_mul_inequality(len, trials as int, m);
            lemma_mul_upper_bound(trials as int, 1_000_000, m, 10_000_000);
        }
        total_steps * crate::COST_SCALE / completed
    };
    SimulationStats { costs, total_steps, abandoned, mean_scaled }
}

} // verus!
