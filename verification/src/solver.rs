//! Value-iteration solver: the synchronous one-step backup sweep, its
//! convergence test, and the fixed-point driver.
use vstd::prelude::*;

use vstd::arithmetic::div_mod::lemma_div_is_ordered;
use vstd::arithmetic::div_mod::lemma_div_multiples_vanish;
use vstd::arithmetic::div_mod::lemma_div_pos_is_pos;
use vstd::arithmetic::mul::lemma_mul_inequality;
use vstd::arithmetic::mul::lemma_mul_is_commutative;
use vstd::arithmetic::mul::lemma_mul_is_distributive_add_other_way;
use vstd::arithmetic::mul::lemma_mul_nonnegative;
use vstd::arithmetic::mul::lemma_mul_upper_bound;

use crate::dist::lemma_weight_prefix_mono;
use crate::dist::spec_weight_prefix;
use crate::dist::NatureDist;
use crate::model::bounded_action;
use crate::model::bounded_state;
use crate::model::do_action;
use crate::model::in_ring_state;
use crate::model::is_goal;
use crate::model::lemma_do_action_in_ring;
use crate::model::lemma_sidx_of_index;
use crate::model::lemma_sidx_valid;
use crate::model::position_of;
use crate::model::sidx;
use crate::model::spec_do_action;
use crate::model::spec_is_goal;
use crate::model::Action;
use crate::model::State;
use crate::model::StateSpace;
use crate::COST_INFINITY;
use crate::COST_SCALE;
use crate::PROB_DENOM;

verus! {

/// Every action of a robot catalog is bounded.
pub open spec fn actions_ok(actions: Seq<Action>) -> bool {
    forall|k: int| 0 <= k < actions.len() ==> bounded_action(#[trigger] actions[k])
}

/// A cost vector indexed in lock-step with the state enumeration, each entry
/// at most the sentinel.
pub open spec fn costs_ok(space: StateSpace, costs: Seq<u64>) -> bool {
    &&& costs.len() == space.states@.len()
    &&& forall|k: int| 0 <= k < costs.len() ==> #[trigger] costs[k] <= COST_INFINITY
}

/// The one-step cost of reaching the successor of `s` under robot action `a`
/// and nature action `na`: the successor's recorded cost plus one step.
pub open spec fn spec_succ_cost(
    space: StateSpace,
    costs: Seq<u64>,
    s: State,
    a: Action,
    na: Action,
) -> int {
    costs[sidx(space.states@, spec_do_action(s, a, na, space.w as int))] + COST_SCALE
}

/// The weight-scaled sum of one-step costs over the first `n` nature
/// entries.
pub open spec fn spec_weighted_sum(
    entries: Seq<(Action, u64)>,
    n: int,
    space: StateSpace,
    costs: Seq<u64>,
    s: State,
    a: Action,
) -> int
    decreases n,
{
    if n <= 0 {
        0
    } else {
        spec_weighted_sum(entries, n - 1, space, costs, s, a) + entries[n - 1].1 * spec_succ_cost(
            space,
            costs,
            s,
            a,
            entries[n - 1].0,
        )
    }
}

/// The expected one-step cost of robot action `a` at state `s`: the weighted
/// sum over all nature entries divided by the probability denominator.
pub open spec fn spec_expected_cost(
    entries: Seq<(Action, u64)>,
    space: StateSpace,
    costs: Seq<u64>,
    s: State,
    a: Action,
) -> int {
    spec_weighted_sum(entries, entries.len() as int, space, costs, s, a) / (PROB_DENOM as int)
}

/// The running minimum of expected one-step costs over the first `n` robot
/// actions, seeded with zero for a goal state and the sentinel otherwise.
pub open spec fn spec_best_cost(
    actions: Seq<Action>,
    n: int,
    entries: Seq<(Action, u64)>,
    space: StateSpace,
    costs: Seq<u64>,
    s: State,
) -> int
    decreases n,
{
    if n <= 0 {
        if spec_is_goal(s, space.w as int) {
            0
        } else {
            COST_INFINITY as int
        }
    } else {
        let prev = spec_best_cost(actions, n - 1, entries, space, costs, s);
        let e = spec_expected_cost(entries, space, costs, s, actions[n - 1]);
        if e < prev {
            e
        } else {
            prev
        }
    }
}

/// The refreshed cost of the state at index `k`: the minimum over the whole
/// robot catalog of the expected one-step cost.
pub open spec fn spec_state_cost(
    space: StateSpace,
    actions: Seq<Action>,
    entries: Seq<(Action, u64)>,
    costs: Seq<u64>,
    k: int,
) -> int {
    spec_best_cost(actions, actions.len() as int, entries, space, costs, space.states@[k])
}

/// The initial cost vector: zero at goal states, the sentinel elsewhere.
pub open spec fn spec_init_costs(space: StateSpace) -> Seq<u64> {
    Seq::new(
        space.states@.len(),
        |k: int|
            if spec_is_goal(space.states@[k], space.w as int) {
                0u64
            } else {
                COST_INFINITY
            },
    )
}

/// One synchronous sweep: every state's cost recomputed from the previous
/// full vector.
pub open spec fn spec_sweep(
    space: StateSpace,
    actions: Seq<Action>,
    entries: Seq<(Action, u64)>,
    costs: Seq<u64>,
) -> Seq<u64> {
    Seq::new(
        space.states@.len(),
        |k: int| spec_state_cost(space, actions, entries, costs, k) as u64,
    )
}

/// `n` successive sweeps applied to `costs`.
pub open spec fn spec_sweeps(
    space: StateSpace,
    actions: Seq<Action>,
    entries: Seq<(Action, u64)>,
    costs: Seq<u64>,
    n: nat,
) -> Seq<u64>
    decreases n,
{
    if n == 0 {
        costs
    } else {
        spec_sweep(space, actions, entries, spec_sweeps(space, actions, entries, costs, (n - 1) as nat))
    }
}

/// The absolute difference of two integers.
pub open spec fn spec_absdiff(a: int, b: int) -> int {
    if a >= b {
        a - b
    } else {
        b - a
    }
}

/// Two cost vectors of equal length whose entries differ by at most `eps`.
pub open spec fn within_eps(a: Seq<u64>, b: Seq<u64>, eps: int) -> bool {
    &&& a.len() == b.len()
    &&& forall|k: int| 0 <= k < a.len() ==> spec_absdiff(#[trigger] a[k] as int, b[k] as int) <= eps
}

/// A weighted sum of one-step costs is never negative.
pub proof fn lemma_weighted_sum_nonneg(
    entries: Seq<(Action, u64)>,
    n: int,
    space: StateSpace,
    costs: Seq<u64>,
    s: State,
    a: Action,
)
    ensures
        0 <= spec_weighted_sum(entries, n, space, costs, s, a),
    decreases n,
{
    if n > 0 {
        lemma_weighted_sum_nonneg(entries, n - 1, space, costs, s, a);
        lemma_mul_nonnegative(
            entries[n - 1].1 as int,
            spec_succ_cost(space, costs, s, a, entries[n - 1].0),
        );
    }
}

/// Over a legal source state and a well-formed space, the weighted sum over
/// the first `n` entries is at most the prefix weight times the largest
/// one-step cost.
pub proof fn lemma_weighted_sum_bounds(
    entries: Seq<(Action, u64)>,
    n: int,
    space: StateSpace,
    costs: Seq<u64>,
    s: State,
    a: Action,
)
    requires
        space.wf(),
        costs_ok(space, costs),
        in_ring_state(s, space.w as int),
        0 <= n <= entries.len(),
    ensures
        0 <= spec_weighted_sum(entries, n, space, costs, s, a),
        spec_weighted_sum(entries, n, space, costs, s, a) <= spec_weight_prefix(entries, n) * (
        (COST_INFINITY + COST_SCALE) as int),
    decreases n,
{
    lemma_weighted_sum_nonneg(entries, n, space, costs, s, a);
    let hi = (COST_INFINITY + COST_SCALE) as int;
    if n > 0 {
        lemma_weighted_sum_bounds(entries, n - 1, space, costs, s, a);
        let w = space.w as int;
        let na = entries[n - 1].0;
        let wt = entries[n - 1].1 as int;
        lemma_do_action_in_ring(s, a, na, w);
        let succ = spec_do_action(s, a, na, w);
        assert(space.states@.contains(succ));
        lemma_sidx_valid(space.states@, succ);
        assert(costs[sidx(space.states@, succ)] <= COST_INFINITY);
        let sc = spec_succ_cost(space, costs, s, a, na);
        assert(0 <= sc <= hi);
        lemma_mul_inequality(sc, hi, wt);
        lemma_mul_is_commutative(wt, sc);
        lemma_mul_is_commutative(wt, hi);
        assert(wt * sc <= wt * hi);
        lemma_mul_is_distributive_add_other_way(hi, spec_weight_prefix(entries, n - 1), wt);
        assert(spec_weight_prefix(entries, n) * hi == spec_weight_prefix(entries, n - 1) * hi
            + wt * hi);
    }
}

/// The expected one-step cost is never negative, whatever the cost vector.
pub proof fn lemma_expected_cost_nonneg(
    entries: Seq<(Action, u64)>,
    space: StateSpace,
    costs: Seq<u64>,
    s: State,
    a: Action,
)
    ensures
        0 <= spec_expected_cost(entries, space, costs, s, a),
{
    lemma_weighted_sum_nonneg(entries, entries.len() as int, space, costs, s, a);
    lemma_div_pos_is_pos(
        spec_weighted_sum(entries, entries.len() as int, space, costs, s, a),
        PROB_DENOM as int,
    );
}

/// The running minimum stays between zero and the sentinel, and is pinned at
/// zero for a goal state.
pub proof fn lemma_best_cost_bounds(
    actions: Seq<Action>,
    n: int,
    entries: Seq<(Action, u64)>,
    space: StateSpace,
    costs: Seq<u64>,
    s: State,
)
    ensures
        0 <= spec_best_cost(actions, n, entries, space, costs, s) <= COST_INFINITY as int,
        spec_is_goal(s, space.w as int) ==> spec_best_cost(actions, n, entries, space, costs, s)
            == 0,
    decreases n,
{
    if n > 0 {
        lemma_best_cost_bounds(actions, n - 1, entries, space, costs, s);
        lemma_expected_cost_nonneg(entries, space, costs, s, actions[n - 1]);
    }
}

/// A sweep of a well-formed cost vector is itself well-formed, zero at every
/// goal state, and pointwise the refreshed state cost.
pub proof fn lemma_sweep_ok(
    space: StateSpace,
    actions: Seq<Action>,
    entries: Seq<(Action, u64)>,
    costs: Seq<u64>,
)
    ensures
        spec_sweep(space, actions, entries, costs).len() == space.states@.len(),
        costs_ok(space, spec_sweep(space, actions, entries, costs)),
        forall|k: int|
            0 <= k < space.states@.len() ==> #[trigger] spec_sweep(space, actions, entries, costs)[k]
                as int == spec_state_cost(space, actions, entries, costs, k),
        forall|k: int|
            0 <= k < space.states@.len() && spec_is_goal(space.states@[k], space.w as int)
                ==> #[trigger] spec_sweep(space, actions, entries, costs)[k] == 0,
{
    assert forall|k: int| 0 <= k < space.states@.len() implies {
        &&& #[trigger] spec_sweep(space, actions, entries, costs)[k] as int == spec_state_cost(
            space,
            actions,
            entries,
            costs,
            k,
        )
        &&& spec_sweep(space, actions, entries, costs)[k] <= COST_INFINITY
        &&& (spec_is_goal(space.states@[k], space.w as int) ==> spec_sweep(
            space,
            actions,
            entries,
            costs,
        )[k] == 0)
    } by {
        lemma_best_cost_bounds(actions, actions.len() as int, entries, space, costs, space.states@[k]);
    }
}

/// Goal absorption: a goal state's cost is zero in the initial vector and
/// stays zero after every number of solver sweeps.
pub proof fn lemma_goal_absorption(
    space: StateSpace,
    actions: Seq<Action>,
    entries: Seq<(Action, u64)>,
    n: nat,
    k: int,
)
    requires
        0 <= k < space.states@.len(),
        spec_is_goal(space.states@[k], space.w as int),
    ensures
        spec_sweeps(space, actions, entries, spec_init_costs(space), n).len()
            == space.states@.len(),
        spec_sweeps(space, actions, entries, spec_init_costs(space), n)[k] == 0,
    decreases n,
{
    if n > 0 {
        lemma_goal_absorption(space, actions, entries, (n - 1) as nat, k);
        let prev = spec_sweeps(space, actions, entries, spec_init_costs(space), (n - 1) as nat);
        lemma_sweep_ok(space, actions, entries, prev);
    }
}

/// One synchronous value-iteration sweep: recomputes every state's cost as
/// the minimum over robot actions of the expected one-step cost under the
/// nature distribution, reading only the previous full vector.
#[verifier::loop_isolation(false)]
pub fn recalculate_cost_to_goals(
    available_states: &StateSpace,
    robot_actions: &Vec<Action>,
    nature_behaviour: &NatureDist,
    costs_to_goal: &Vec<u64>,
) -> (r: Vec<u64>)
    requires
        available_states.wf(),
        actions_ok(robot_actions@),
        nature_behaviour.wf(),
        costs_ok(*available_states, costs_to_goal@),
    ensures
        r@ == spec_sweep(
            *available_states,
            robot_actions@,
            nature_behaviour.entries@,
            costs_to_goal@,
        ),
        costs_ok(*available_states, r@),
{
    let ghost spc = *available_states;
    let ghost acts = robot_actions@;
    let ghost ents = nature_behaviour.entries@;
    let ghost old_costs = costs_to_goal@;
    let n_states = available_states.states.len();
    let n_actions = robot_actions.len();
    let n_entries = nature_behaviour.entries.len();
    let mut new_costs_to_goal: Vec<u64> = Vec::new();
    let mut k: usize = 0;
    while k < n_states
        invariant
            new_costs_to_goal@.len() == k,
            k <= n_states,
            forall|m: int|
                0 <= m < k ==> #[trigger] new_costs_to_goal@[m] as int == spec_state_cost(
                    spc,
                    acts,
                    ents,
                    old_costs,
                    m,
                ),
        decreases n_states - k,
    {
        let state = available_states.states[k];
        proof {
            assert(spc.states@.contains(state));
        }
        let goal = is_goal(&state, available_states.w);
        let mut min_cost_to_goal: u64 = if goal {
            0
        } else {
            COST_INFINITY
        };
        let mut ai: usize = 0;
        while ai < n_actions
            invariant
                ai <= n_actions,
                min_cost_to_goal <= COST_INFINITY,
                min_cost_to_goal as int == spec_best_cost(acts, ai as int, ents, spc, old_costs, state),
            decreases n_actions - ai,
        {
            let action = robot_actions[ai];
            let mut current_cost_to_goal: u64 = 0;
            let mut ei: usize = 0;
            while ei < n_entries
                invariant
                    ei <= n_entries,
                    current_cost_to_goal as int == spec_weighted_sum(
                        ents,
                        ei as int,
                        spc,
                        old_costs,
                        state,
                        action,
                    ),
                decreases n_entries - ei,
            {
                let (nature_action, probability) = nature_behaviour.entries[ei];
                let new_state = do_action(&state, &action, &nature_action, available_states);
                proof {
                    lemma_do_action_in_ring(
                        state,
                        action,
                        nature_action,
                        spc.w as int,
                    );
                    assert(spc.states@.contains(new_state));
                }
                let position = match position_of(available_states, new_state.i, new_state.j) {
                    Some(p) => p,
                    None => {
                        proof {
                            assert(false);
                        }
                        0
                    },
                };
                proof {
                    lemma_sidx_of_index(spc, position as int);
                    assert(sidx(spc.states@, new_state) == position as int);
                }
                let c = costs_to_goal[position];
                proof {
                    assert(c <= COST_INFINITY);
                    assert(probability == ents[ei as int].1);
                    lemma_weight_prefix_mono(ents, ei + 1, ents.len() as int);
                    crate::dist::lemma_weight_prefix_nonneg(ents, ei as int);
                    assert(probability as int <= 10_000);
                    lemma_mul_upper_bound(
                        probability as int,
                        10_000,
                        c as int + 1000,
                        10_001_000,
                    );
                    lemma_weighted_sum_bounds(ents, ei as int, spc, old_costs, state, action);
                    lemma_weight_prefix_mono(ents, ei as int, ents.len() as int);
                    lemma_mul_inequality(
                        spec_weight_prefix(ents, ei as int),
                        10_000,
                        10_001_000,
                    );
                }
                let contribution = probability * (c + COST_SCALE);
                current_cost_to_goal = current_cost_to_goal + contribution;
                ei = ei + 1;
            }
            let expected = current_cost_to_goal / PROB_DENOM;
            proof {
                assert(expected as int == spec_expected_cost(ents, spc, old_costs, state, action));
            }
            if expected < min_cost_to_goal {
                min_cost_to_goal = expected;
            }
            ai = ai + 1;
        }
        new_costs_to_goal.push(min_cost_to_goal);
        k = k + 1;
    }
    proof {
        lemma_sweep_ok(spc, acts, ents, old_costs);
        assert(new_costs_to_goal@ =~= spec_sweep(spc, acts, ents, old_costs));
    }
    new_costs_to_goal
}

/// Under a point distribution that gives one nature action the whole
/// probability mass, the expected one-step cost reduces exactly to the
/// one-step cost of the single successor: integer scaling loses nothing.
pub proof fn lemma_deterministic_expected(
    entries: Seq<(Action, u64)>,
    space: StateSpace,
    costs: Seq<u64>,
    s: State,
    a: Action,
)
    requires
        entries.len() == 1,
        entries[0].1 == PROB_DENOM,
    ensures
        spec_expected_cost(entries, space, costs, s, a) == spec_succ_cost(
            space,
            costs,
            s,
            a,
            entries[0].0,
        ),
{
    let sc = spec_succ_cost(space, costs, s, a, entries[0].0);
    assert(spec_weighted_sum(entries, 0, space, costs, s, a) == 0);
    assert(spec_weighted_sum(entries, 1, space, costs, s, a) == PROB_DENOM as int * sc);
    lemma_div_multiples_vanish(sc, PROB_DENOM as int);
}

/// A distribution whose single entry gives the zero displacement the whole
/// probability mass: the "no nature" disturbance model.
pub open spec fn no_nature_entries(entries: Seq<(Action, u64)>) -> bool {
    &&& entries.len() == 1
    &&& entries[0].1 == PROB_DENOM
    &&& entries[0].0 == crate::model::stay_action()
}

/// The destination of the `i`-th robot action applied to `s` with no
/// disturbance.
pub open spec fn spec_step_succ(space: StateSpace, actions: Seq<Action>, s: State, i: int) -> State {
    spec_do_action(s, actions[i], crate::model::stay_action(), space.w as int)
}

/// Whether the goal region can be reached from `s` in at most `n`
/// undisturbed steps through the robot catalog.
pub open spec fn spec_reach(space: StateSpace, actions: Seq<Action>, s: State, n: nat) -> bool
    decreases n,
{
    if spec_is_goal(s, space.w as int) {
        true
    } else if n == 0 {
        false
    } else {
        exists|i: int|
            0 <= i < actions.len() && spec_reach(
                space,
                actions,
                #[trigger] spec_step_succ(space, actions, s, i),
                (n - 1) as nat,
            )
    }
}

/// The running minimum over the whole catalog is at most each considered
/// expected cost.
pub proof fn lemma_best_cost_le_expected(
    actions: Seq<Action>,
    n: int,
    i: int,
    entries: Seq<(Action, u64)>,
    space: StateSpace,
    costs: Seq<u64>,
    s: State,
)
    requires
        0 <= i < n <= actions.len(),
    ensures
        spec_best_cost(actions, n, entries, space, costs, s) <= spec_expected_cost(
            entries,
            space,
            costs,
            s,
            actions[i],
        ),
    decreases n,
{
    if i < n - 1 {
        lemma_best_cost_le_expected(actions, n - 1, i, entries, space, costs, s);
    }
}

/// The running minimum is its seed or is attained by some catalog action.
pub proof fn lemma_best_cost_attained(
    actions: Seq<Action>,
    n: int,
    entries: Seq<(Action, u64)>,
    space: StateSpace,
    costs: Seq<u64>,
    s: State,
)
    requires
        0 <= n <= actions.len(),
    ensures
        spec_best_cost(actions, n, entries, space, costs, s) == (if spec_is_goal(
            s,
            space.w as int,
        ) {
            0int
        } else {
            COST_INFINITY as int
        }) || exists|i: int|
            0 <= i < n && spec_best_cost(actions, n, entries, space, costs, s)
                == spec_expected_cost(entries, space, costs, s, #[trigger] actions[i]),
    decreases n,
{
    if n > 0 {
        lemma_best_cost_attained(actions, n - 1, entries, space, costs, s);
        let prev = spec_best_cost(actions, n - 1, entries, space, costs, s);
        let e = spec_expected_cost(entries, space, costs, s, actions[n - 1]);
        if e < prev {
            assert(spec_best_cost(actions, n, entries, space, costs, s) == spec_expected_cost(
                entries,
                space,
                costs,
                s,
                actions[n - 1],
            ));
        } else {
            if exists|i: int|
                0 <= i < n - 1 && prev == spec_expected_cost(
                    entries,
                    space,
                    costs,
                    s,
                    #[trigger] actions[i],
                ) {
                let i = choose|i: int|
                    0 <= i < n - 1 && prev == spec_expected_cost(
                        entries,
                        space,
                        costs,
                        s,
                        #[trigger] actions[i],
                    );
                assert(spec_best_cost(actions, n, entries, space, costs, s)
                    == spec_expected_cost(entries, space, costs, s, actions[i]));
            }
        }
    }
}

/// At an exact fixed point under the no-nature distribution, a state from
/// which the goal is reachable in `n` steps costs at most `n` steps.
pub proof fn lemma_no_nature_cost_at_most_reach(
    space: StateSpace,
    actions: Seq<Action>,
    entries: Seq<(Action, u64)>,
    v: Seq<u64>,
    k: int,
    n: nat,
)
    requires
        space.wf(),
        costs_ok(space, v),
        no_nature_entries(entries),
        spec_sweep(space, actions, entries, v) == v,
        0 <= k < space.states@.len(),
        spec_reach(space, actions, space.states@[k], n),
        COST_SCALE * n <= COST_INFINITY,
    ensures
        v[k] as int <= COST_SCALE * n,
    decreases n,
{
    let w = space.w as int;
    let s = space.states@[k];
    lemma_sweep_ok(space, actions, entries, v);
    assert(v[k] as int == spec_state_cost(space, actions, entries, v, k));
    if spec_is_goal(s, w) {
        lemma_best_cost_bounds(actions, actions.len() as int, entries, space, v, s);
    } else {
        let i = choose|i: int|
            0 <= i < actions.len() && spec_reach(
                space,
                actions,
                #[trigger] spec_step_succ(space, actions, s, i),
                (n - 1) as nat,
            );
        let succ = spec_step_succ(space, actions, s, i);
        lemma_sidx_of_index(space, k);
        lemma_do_action_in_ring(s, actions[i], crate::model::stay_action(), w);
        assert(space.states@.contains(succ));
        lemma_sidx_valid(space.states@, succ);
        let m = sidx(space.states@, succ);
        lemma_no_nature_cost_at_most_reach(space, actions, entries, v, m, (n - 1) as nat);
        lemma_deterministic_expected(entries, space, v, s, actions[i]);
        lemma_best_cost_le_expected(actions, actions.len() as int, i, entries, space, v, s);
        assert(spec_expected_cost(entries, space, v, s, actions[i]) == v[m] + COST_SCALE);
    }
}

/// At an exact fixed point under the no-nature distribution, a state priced
/// below the sentinel holds a whole number of steps, and the goal really is
/// reachable in that many undisturbed steps.
pub proof fn lemma_no_nature_cost_reaches(
    space: StateSpace,
    actions: Seq<Action>,
    entries: Seq<(Action, u64)>,
    v: Seq<u64>,
    k: int,
)
    requires
        space.wf(),
        costs_ok(space, v),
        no_nature_entries(entries),
        spec_sweep(space, actions, entries, v) == v,
        0 <= k < space.states@.len(),
        v[k] < COST_INFINITY,
    ensures
        (v[k] as int) % (COST_SCALE as int) == 0,
        spec_reach(
            space,
            actions,
            space.states@[k],
            (v[k] as int / COST_SCALE as int) as nat,
        ),
    decreases v[k],
{
    let w = space.w as int;
    let s = space.states@[k];
    let d = COST_SCALE as int;
    lemma_sweep_ok(space, actions, entries, v);
    assert(v[k] as int == spec_state_cost(space, actions, entries, v, k));
    lemma_best_cost_attained(actions, actions.len() as int, entries, space, v, s);
    if spec_is_goal(s, w) {
        lemma_best_cost_bounds(actions, actions.len() as int, entries, space, v, s);
        assert(v[k] as int == 0);
    } else {
        let i = choose|i: int|
            0 <= i < actions.len() && spec_best_cost(
                actions,
                actions.len() as int,
                entries,
                space,
                v,
                s,
            ) == spec_expected_cost(entries, space, v, s, #[trigger] actions[i]);
        lemma_deterministic_expected(entries, space, v, s, actions[i]);
        lemma_sidx_of_index(space, k);
        lemma_do_action_in_ring(s, actions[i], crate::model::stay_action(), w);
        let succ = spec_do_action(s, actions[i], crate::model::stay_action(), w);
        assert(space.states@.contains(succ));
        lemma_sidx_valid(space.states@, succ);
        let m = sidx(space.states@, succ);
        assert(v[k] as int == v[m] + COST_SCALE);
        lemma_no_nature_cost_reaches(space, actions, entries, v, m);
        let q = v[m] as int / d;
        vstd::arithmetic::div_mod::lemma_fundamental_div_mod(v[m] as int, d);
        assert(v[m] as int == d * q);
        assert(v[k] as int == d * (q + 1));
        vstd::arithmetic::div_mod::lemma_mod_multiples_basic(q + 1, d);
        lemma_mul_is_commutative(d, q + 1);
        lemma_div_multiples_vanish(q + 1, d);
        assert(v[k] as int / d == q + 1);
        assert(spec_step_succ(space, actions, s, i) == succ);
        assert(spec_reach(space, actions, succ, q as nat));
        assert(spec_reach(space, actions, s, (q + 1) as nat));
    }
}

/// Two cost vectors that agree within `eps` give weighted sums over the
/// first `n` nature entries that agree within the prefix weight times `eps`.
pub proof fn lemma_weighted_sum_close(
    entries: Seq<(Action, u64)>,
    n: int,
    space: StateSpace,
    u: Seq<u64>,
    v: Seq<u64>,
    s: State,
    a: Action,
    eps: int,
)
    requires
        space.wf(),
        u.len() == space.states@.len(),
        v.len() == space.states@.len(),
        in_ring_state(s, space.w as int),
        0 <= eps,
        forall|k: int| 0 <= k < u.len() ==> spec_absdiff(#[trigger] u[k] as int, v[k] as int) <= eps,
        0 <= n <= entries.len(),
    ensures
        spec_absdiff(
            spec_weighted_sum(entries, n, space, u, s, a),
            spec_weighted_sum(entries, n, space, v, s, a),
        ) <= spec_weight_prefix(entries, n) * eps,
    decreases n,
{
    if n > 0 {
        lemma_weighted_sum_close(entries, n - 1, space, u, v, s, a, eps);
        let w = space.w as int;
        let na = entries[n - 1].0;
        let wt = entries[n - 1].1 as int;
        lemma_do_action_in_ring(s, a, na, w);
        let succ = spec_do_action(s, a, na, w);
        assert(space.states@.contains(succ));
        lemma_sidx_valid(space.states@, succ);
        let m = sidx(space.states@, succ);
        let cu = u[m] as int;
        let cv = v[m] as int;
        assert(spec_absdiff(cu, cv) <= eps);
        let tu = wt * (cu + COST_SCALE);
        let tv = wt * (cv + COST_SCALE);
        assert(spec_absdiff(tu, tv) <= wt * eps) by (nonlinear_arith)
            requires
                tu == wt * (cu + 1000),
                tv == wt * (cv + 1000),
                0 <= wt,
                spec_absdiff(cu, cv) <= eps,
                spec_absdiff(cu, cv) == (if cu >= cv { cu - cv } else { cv - cu }),
                spec_absdiff(tu, tv) == (if tu >= tv { tu - tv } else { tv - tu }),
        ;
        lemma_mul_is_distributive_add_other_way(eps, spec_weight_prefix(entries, n - 1), wt);
        assert(spec_weight_prefix(entries, n) * eps == spec_weight_prefix(entries, n - 1) * eps
            + wt * eps);
    }
}

/// Two cost vectors that agree within `eps` give expected one-step costs
/// that agree within `eps`: the expectation is an average, which expands
/// nothing.
pub proof fn lemma_expected_cost_close(
    entries: Seq<(Action, u64)>,
    space: StateSpace,
    u: Seq<u64>,
    v: Seq<u64>,
    s: State,
    a: Action,
    eps: int,
)
    requires
        space.wf(),
        u.len() == space.states@.len(),
        v.len() == space.states@.len(),
        in_ring_state(s, space.w as int),
        0 <= eps,
        forall|k: int| 0 <= k < u.len() ==> spec_absdiff(#[trigger] u[k] as int, v[k] as int) <= eps,
        spec_weight_prefix(entries, entries.len() as int) == PROB_DENOM,
    ensures
        spec_absdiff(
            spec_expected_cost(entries, space, u, s, a),
            spec_expected_cost(entries, space, v, s, a),
        ) <= eps,
{
    let len = entries.len() as int;
    let d = PROB_DENOM as int;
    lemma_weighted_sum_close(entries, len, space, u, v, s, a, eps);
    let wu = spec_weighted_sum(entries, len, space, u, s, a);
    let wv = spec_weighted_sum(entries, len, space, v, s, a);
    lemma_mul_is_commutative(d, eps);
    assert(wu <= wv + eps * d);
    assert(wv <= wu + eps * d);
    lemma_div_is_ordered(wu, wv + eps * d, d);
    vstd::arithmetic::div_mod::lemma_hoist_over_denominator(wv, eps, PROB_DENOM as nat);
    lemma_div_is_ordered(wv, wu + eps * d, d);
    vstd::arithmetic::div_mod::lemma_hoist_over_denominator(wu, eps, PROB_DENOM as nat);
}

/// Two cost vectors that agree within `eps` give running minima that agree
/// within `eps`: taking a minimum expands nothing.
pub proof fn lemma_best_cost_close(
    actions: Seq<Action>,
    n: int,
    entries: Seq<(Action, u64)>,
    space: StateSpace,
    u: Seq<u64>,
    v: Seq<u64>,
    s: State,
    eps: int,
)
    requires
        space.wf(),
        u.len() == space.states@.len(),
        v.len() == space.states@.len(),
        in_ring_state(s, space.w as int),
        0 <= eps,
        forall|k: int| 0 <= k < u.len() ==> spec_absdiff(#[trigger] u[k] as int, v[k] as int) <= eps,
        spec_weight_prefix(entries, entries.len() as int) == PROB_DENOM,
        0 <= n <= actions.len(),
    ensures
        spec_absdiff(
            spec_best_cost(actions, n, entries, space, u, s),
            spec_best_cost(actions, n, entries, space, v, s),
        ) <= eps,
    decreases n,
{
    if n > 0 {
        lemma_best_cost_close(actions, n - 1, entries, space, u, v, s, eps);
        lemma_expected_cost_close(entries, space, u, v, s, actions[n - 1], eps);
    }
}

/// The sweep is non-expansive: cost vectors within the tolerance of each
/// other sweep to cost vectors within the same tolerance. In particular a
/// sweep of the solver's converged output moves it by at most the tolerance
/// again.
pub proof fn lemma_sweep_nonexpansive(
    space: StateSpace,
    actions: Seq<Action>,
    entries: Seq<(Action, u64)>,
    u: Seq<u64>,
    v: Seq<u64>,
    eps: int,
)
    requires
        space.wf(),
        costs_ok(space, u),
        costs_ok(space, v),
        spec_weight_prefix(entries, entries.len() as int) == PROB_DENOM,
        0 <= eps,
        within_eps(u, v, eps),
    ensures
        within_eps(
            spec_sweep(space, actions, entries, u),
            spec_sweep(space, actions, entries, v),
            eps,
        ),
{
    lemma_sweep_ok(space, actions, entries, u);
    lemma_sweep_ok(space, actions, entries, v);
    let su = spec_sweep(space, actions, entries, u);
    let sv = spec_sweep(space, actions, entries, v);
    assert forall|k: int| 0 <= k < su.len() implies spec_absdiff(
        #[trigger] su[k] as int,
        sv[k] as int,
    ) <= eps by {
        assert(space.states@.contains(space.states@[k]));
        lemma_best_cost_close(
            actions,
            actions.len() as int,
            entries,
            space,
            u,
            v,
            space.states@[k],
            eps,
        );
    }
}

/// Every iterate of the solver from the initial vector is a well-formed
/// cost vector.
pub proof fn lemma_sweeps_ok(
    space: StateSpace,
    actions: Seq<Action>,
    entries: Seq<(Action, u64)>,
    n: nat,
)
    ensures
        costs_ok(space, spec_sweeps(space, actions, entries, spec_init_costs(space), n)),
    decreases n,
{
    if n == 0 {
        let init = spec_init_costs(space);
        assert forall|k: int| 0 <= k < init.len() implies #[trigger] init[k]
            <= COST_INFINITY by {}
    } else {
        lemma_sweeps_ok(space, actions, entries, (n - 1) as nat);
        lemma_sweep_ok(
            space,
            actions,
            entries,
            spec_sweeps(space, actions, entries, spec_init_costs(space), (n - 1) as nat),
        );
    }
}

/// A cost vector whose entries are all whole numbers of steps.
pub open spec fn step_multiples(costs: Seq<u64>) -> bool {
    forall|k: int|
        0 <= k < costs.len() ==> (#[trigger] costs[k] as int) % (COST_SCALE as int) == 0
}

/// A sweep under the no-nature distribution keeps every cost a whole number
/// of steps.
pub proof fn lemma_no_nature_sweep_multiples(
    space: StateSpace,
    actions: Seq<Action>,
    entries: Seq<(Action, u64)>,
    costs: Seq<u64>,
)
    requires
        space.wf(),
        costs_ok(space, costs),
        no_nature_entries(entries),
        step_multiples(costs),
    ensures
        step_multiples(spec_sweep(space, actions, entries, costs)),
{
    let d = COST_SCALE as int;
    let sw = spec_sweep(space, actions, entries, costs);
    lemma_sweep_ok(space, actions, entries, costs);
    assert forall|k: int| 0 <= k < sw.len() implies (#[trigger] sw[k] as int) % d == 0 by {
        let s = space.states@[k];
        let best = spec_state_cost(space, actions, entries, costs, k);
        lemma_best_cost_attained(actions, actions.len() as int, entries, space, costs, s);
        if exists|i: int|
            0 <= i < actions.len() && best == spec_expected_cost(
                entries,
                space,
                costs,
                s,
                #[trigger] actions[i],
            ) {
            let i = choose|i: int|
                0 <= i < actions.len() && best == spec_expected_cost(
                    entries,
                    space,
                    costs,
                    s,
                    #[trigger] actions[i],
                );
            lemma_deterministic_expected(entries, space, costs, s, actions[i]);
            lemma_sidx_of_index(space, k);
            lemma_do_action_in_ring(s, actions[i], crate::model::stay_action(), space.w as int);
            let succ = spec_do_action(s, actions[i], crate::model::stay_action(), space.w as int);
            assert(space.states@.contains(succ));
            lemma_sidx_valid(space.states@, succ);
            let m = sidx(space.states@, succ);
            assert((costs[m] as int) % d == 0);
            let q = costs[m] as int / d;
            vstd::arithmetic::div_mod::lemma_fundamental_div_mod(costs[m] as int, d);
            assert(best == d * (q + 1));
            vstd::arithmetic::div_mod::lemma_mod_multiples_basic(q + 1, d);
            lemma_mul_is_commutative(d, q + 1);
        } else {
            assert(best == 0 || best == COST_INFINITY as int);
            vstd::arithmetic::div_mod::lemma_mod_multiples_basic(0, d);
            vstd::arithmetic::div_mod::lemma_mod_multiples_basic(10_000, d);
            lemma_mul_is_commutative(d, 10_000);
        }
    }
}

/// Every iterate of the solver from the initial vector under the no-nature
/// distribution is well-formed and holds whole numbers of steps.
pub proof fn lemma_no_nature_sweeps_multiples(
    space: StateSpace,
    actions: Seq<Action>,
    entries: Seq<(Action, u64)>,
    n: nat,
)
    requires
        space.wf(),
        no_nature_entries(entries),
    ensures
        costs_ok(space, spec_sweeps(space, actions, entries, spec_init_costs(space), n)),
        step_multiples(spec_sweeps(space, actions, entries, spec_init_costs(space), n)),
    decreases n,
{
    let d = COST_SCALE as int;
    if n == 0 {
        let init = spec_init_costs(space);
        assert forall|k: int| 0 <= k < init.len() implies (#[trigger] init[k] as int) % d == 0
            && init[k] <= COST_INFINITY by {
            vstd::arithmetic::div_mod::lemma_mod_multiples_basic(0, d);
            vstd::arithmetic::div_mod::lemma_mod_multiples_basic(10_000, d);
            lemma_mul_is_commutative(d, 10_000);
        }
    } else {
        lemma_no_nature_sweeps_multiples(space, actions, entries, (n - 1) as nat);
        let prev = spec_sweeps(space, actions, entries, spec_init_costs(space), (n - 1) as nat);
        lemma_sweep_ok(space, actions, entries, prev);
        lemma_no_nature_sweep_multiples(space, actions, entries, prev);
    }
}

/// Two cost vectors of whole steps that agree within the tolerance are
/// equal: the tolerance is a tenth of a step.
pub proof fn lemma_within_eps_multiples_equal(a: Seq<u64>, b: Seq<u64>)
    requires
        within_eps(a, b, crate::COST_EPSILON as int),
        step_multiples(a),
        step_multiples(b),
    ensures
        a == b,
{
    let d = COST_SCALE as int;
    assert forall|k: int| 0 <= k < a.len() implies a[k] == b[k] by {
        let x = a[k] as int;
        let y = b[k] as int;
        assert(x % d == 0);
        assert(y % d == 0);
        vstd::arithmetic::div_mod::lemma_fundamental_div_mod(x, d);
        vstd::arithmetic::div_mod::lemma_fundamental_div_mod(y, d);
        let p = x / d;
        let q = y / d;
        if p != q {
            assert(spec_absdiff(x, y) > crate::COST_EPSILON as int) by (nonlinear_arith)
                requires
                    x == 1000 * p,
                    y == 1000 * q,
                    p != q,
                    spec_absdiff(x, y) == if x >= y { x - y } else { y - x },
            ;
        }
    }
    assert(a =~= b);
}

/// Distribution normalization: under the no-nature distribution — a single
/// zero displacement carrying the whole probability mass — a solver vector
/// that has converged within the tolerance prices every state at exactly its
/// shortest undisturbed path to the goal region. The cost is a whole number
/// of steps; where it is below the sentinel the goal is reachable in exactly
/// that many steps; and no reachable step count is cheaper than the recorded
/// cost, so an unreachable goal leaves the sentinel in place.
pub proof fn lemma_no_nature_costs_are_shortest_paths(
    space: StateSpace,
    actions: Seq<Action>,
    entries: Seq<(Action, u64)>,
    v: Seq<u64>,
    iterations: nat,
    k: int,
    n: nat,
)
    requires
        space.wf(),
        no_nature_entries(entries),
        v == spec_sweeps(space, actions, entries, spec_init_costs(space), iterations),
        within_eps(spec_sweep(space, actions, entries, v), v, crate::COST_EPSILON as int),
        0 <= k < space.states@.len(),
    ensures
        (v[k] as int) % (COST_SCALE as int) == 0,
        v[k] < COST_INFINITY ==> spec_reach(
            space,
            actions,
            space.states@[k],
            (v[k] as int / COST_SCALE as int) as nat,
        ),
        spec_reach(space, actions, space.states@[k], n) && COST_SCALE * n <= COST_INFINITY
            ==> v[k] as int <= COST_SCALE * n,
{
    lemma_no_nature_sweeps_multiples(space, actions, entries, iterations);
    lemma_sweep_ok(space, actions, entries, v);
    lemma_no_nature_sweep_multiples(space, actions, entries, v);
    lemma_within_eps_multiples_equal(spec_sweep(space, actions, entries, v), v);
    if v[k] < COST_INFINITY {
        lemma_no_nature_cost_reaches(space, actions, entries, v, k);
    }
    if spec_reach(space, actions, space.states@[k], n) && COST_SCALE * n <= COST_INFINITY {
        lemma_no_nature_cost_at_most_reach(space, actions, entries, v, k, n);
    }
}

/// The outcome of the value-iteration driver: the convergence flag, the
/// number of vector replacements, the final cost vector, and the policy
/// extracted from it.
pub struct SolveResult {
    pub converged: bool,
    pub iterations: u64,
    pub costs_to_goal: Vec<u64>,
    pub plan: Vec<Action>,
}

/// Builds the initial cost vector: zero at goal states, the sentinel
/// everywhere else.
#[verifier::loop_isolation(false)]
pub fn init_costs(available_states: &StateSpace) -> (r: Vec<u64>)
    requires
        available_states.wf(),
    ensures
        r@ == spec_init_costs(*available_states),
        costs_ok(*available_states, r@),
{
    let ghost spc = *available_states;
    let n_states = available_states.states.len();
    let mut costs: Vec<u64> = Vec::new();
    let mut k: usize = 0;
    while k < n_states
        invariant
            costs@.len() == k,
            k <= n_states,
            forall|m: int| 0 <= m < k ==> #[trigger] costs@[m] == spec_init_costs(spc)[m],
        decreases n_states - k,
    {
        let state = available_states.states[k];
        if is_goal(&state, available_states.w) {
            costs.push(0);
        } else {
            costs.push(COST_INFINITY);
        }
        k = k + 1;
    }
    proof {
        assert(costs@ =~= spec_init_costs(spc));
    }
    costs
}

/// Runs synchronous value iteration from the initial vector until a sweep
/// changes no entry by more than the tolerance, returns the newly computed
/// vector of that final sweep, and extracts the greedy policy from it.
/// Gives up after `max_iterations` vector replacements, returning the
/// best-so-far vector with the converged flag cleared.
pub fn build_optimal_plan(
    available_states: &StateSpace,
    robot_actions: &Vec<Action>,
    nature_behaviour: &NatureDist,
    max_iterations: u64,
) -> (r: SolveResult)
    requires
        available_states.wf(),
        actions_ok(robot_actions@),
        nature_behaviour.wf(),
    ensures
        r.iterations <= max_iterations,
        r.converged ==> r.costs_to_goal@ == spec_sweeps(
            *available_states,
            robot_actions@,
            nature_behaviour.entries@,
            spec_init_costs(*available_states),
            (r.iterations + 1) as nat,
        ),
        r.converged ==> within_eps(
            r.costs_to_goal@,
            spec_sweeps(
                *available_states,
                robot_actions@,
                nature_behaviour.entries@,
                spec_init_costs(*available_states),
                r.iterations as nat,
            ),
            crate::COST_EPSILON as int,
        ),
        !r.converged ==> r.costs_to_goal@ == spec_sweeps(
            *available_states,
            robot_actions@,
            nature_behaviour.entries@,
            spec_init_costs(*available_states),
            r.iterations as nat,
        ),
        costs_ok(*available_states, r.costs_to_goal@),
        r.converged ==> within_eps(
            spec_sweep(*available_states, robot_actions@, nature_behaviour.entries@, r.costs_to_goal@),
            r.costs_to_goal@,
            crate::COST_EPSILON as int,
        ),
        !r.converged ==> r.iterations == max_iterations,
        forall|m: nat|
            m < r.iterations ==> !within_eps(
                spec_sweep(
                    *available_states,
                    robot_actions@,
                    nature_behaviour.entries@,
                    spec_sweeps(
                        *available_states,
                        robot_actions@,
                        nature_behaviour.entries@,
                        spec_init_costs(*available_states),
                        m,
                    ),
                ),
                #[trigger] spec_sweeps(
                    *available_states,
                    robot_actions@,
                    nature_behaviour.entries@,
                    spec_init_costs(*available_states),
                    m,
                ),
                crate::COST_EPSILON as int,
            ),
        forall|k: int|
            0 <= k < r.costs_to_goal@.len() && spec_is_goal(
                available_states.states@[k],
                available_states.w as int,
            ) ==> #[trigger] r.costs_to_goal@[k] == 0,
        r.plan@.len() == available_states.states@.len(),
        forall|k: int|
            0 <= k < r.plan@.len() ==> #[trigger] r.plan@[k] == crate::policy::spec_plan_action(
                *available_states,
                robot_actions@,
                r.costs_to_goal@,
                k,
            ),
        forall|k: int|
            0 <= k < r.plan@.len() ==> (#[trigger] r.plan@[k] == crate::model::stay_action()
                || robot_actions@.contains(r.plan@[k])),
        forall|k: int| 0 <= k < r.plan@.len() ==> bounded_action(#[trigger] r.plan@[k]),
{
    let ghost spc = *available_states;
    let ghost acts = robot_actions@;
    let ghost ents = nature_behaviour.entries@;
    let mut costs_to_goal = init_costs(available_states);
    let mut x: u64 = 0;
    let mut converged = false;
    loop
        invariant_except_break
            !converged,
            costs_to_goal@ == spec_sweeps(spc, acts, ents, spec_init_costs(spc), x as nat),
        invariant
            spc == *available_states,
            acts == robot_actions@,
            ents == nature_behaviour.entries@,
            available_states.wf(),
            actions_ok(robot_actions@),
            nature_behaviour.wf(),
            x <= max_iterations,
            costs_ok(spc, costs_to_goal@),
            forall|m: nat|
                m < x ==> !within_eps(
                    spec_sweep(
                        spc,
                        acts,
                        ents,
                        spec_sweeps(spc, acts, ents, spec_init_costs(spc), m),
                    ),
                    #[trigger] spec_sweeps(spc, acts, ents, spec_init_costs(spc), m),
                    crate::COST_EPSILON as int,
                ),
        ensures
            converged ==> costs_to_goal@ == spec_sweeps(
                spc,
                acts,
                ents,
                spec_init_costs(spc),
                (x + 1) as nat,
            ),
            converged ==> within_eps(
                costs_to_goal@,
                spec_sweeps(spc, acts, ents, spec_init_costs(spc), x as nat),
                crate::COST_EPSILON as int,
            ),
            !converged ==> x == max_iterations && costs_to_goal@ == spec_sweeps(
                spc,
                acts,
                ents,
                spec_init_costs(spc),
                x as nat,
            ),
            x <= max_iterations,
        decreases max_iterations - x,
    {
        if x >= max_iterations {
            break;
        }
        let new_costs_to_goal = recalculate_cost_to_goals(
            available_states,
            robot_actions,
            nature_behaviour,
            &costs_to_goal,
        );
        if !are_arrays_different(&new_costs_to_goal, &costs_to_goal, crate::COST_EPSILON) {
            converged = true;
            costs_to_goal = new_costs_to_goal;
            break;
        }
        costs_to_goal = new_costs_to_goal;
        x = x + 1;
    }
    proof {
        assert forall|k: int|
            0 <= k < costs_to_goal@.len() && spec_is_goal(spc.states@[k], spc.w as int)
                implies #[trigger] costs_to_goal@[k] == 0 by {
            if converged {
                lemma_goal_absorption(spc, acts, ents, (x + 1) as nat, k);
            } else {
                lemma_goal_absorption(spc, acts, ents, x as nat, k);
            }
        }
        if converged {
            let prev = spec_sweeps(spc, acts, ents, spec_init_costs(spc), x as nat);
            lemma_sweeps_ok(spc, acts, ents, x as nat);
            lemma_sweep_nonexpansive(
                spc,
                acts,
                ents,
                costs_to_goal@,
                prev,
                crate::COST_EPSILON as int,
            );
            assert(spec_sweep(spc, acts, ents, prev) == costs_to_goal@);
        }
    }
    let plan = crate::policy::build_plan_based_on_costs_to_goal(
        available_states,
        robot_actions,
        &costs_to_goal,
    );
    SolveResult { converged, iterations: x, costs_to_goal, plan }
}

/// True iff some pair of entries of the two equal-length vectors differs by
/// more than `epsilon`.
#[verifier::loop_isolation(false)]
pub fn are_arrays_different(a1: &Vec<u64>, a2: &Vec<u64>, epsilon: u64) -> (r: bool)
    requires
        a1@.len() == a2@.len(),
    ensures
        r == !within_eps(a1@, a2@, epsilon as int),
{
    let n = a1.len();
    let mut i: usize = 0;
    while i < n
        invariant
            i <= n,
            forall|m: int| 0 <= m < i ==> spec_absdiff(#[trigger] a1@[m] as int, a2@[m] as int)
                <= epsilon,
        decreases n - i,
    {
        let x = a1[i];
        let y = a2[i];
        let diff = if x >= y {
            x - y
        } else {
            y - x
        };
        if diff > epsilon {
            return true;
        }
        i = i + 1;
    }
    false
}

} // verus!
