use grid_mdp::dist::NatureDist;
use grid_mdp::model::build_states;
use grid_mdp::model::default_robot_actions;
use grid_mdp::model::do_action;
use grid_mdp::model::is_goal;
use grid_mdp::model::position_of;
use grid_mdp::model::Action;
use grid_mdp::model::State;
use grid_mdp::model::StateSpace;
use grid_mdp::solver::are_arrays_different;
use grid_mdp::solver::build_optimal_plan;
use grid_mdp::solver::init_costs;
use grid_mdp::solver::recalculate_cost_to_goals;
use grid_mdp::COST_EPSILON;
use grid_mdp::COST_INFINITY;
use grid_mdp::COST_SCALE;
use grid_mdp::PROB_DENOM;

fn no_nature() -> NatureDist {
    NatureDist::new(vec![(Action { di: 0, dj: 0 }, PROB_DENOM)]).unwrap()
}

fn noisy_nature() -> NatureDist {
    NatureDist::new(vec![
        (Action { di: 0, dj: 0 }, 9_600),
        (Action { di: 1, dj: 0 }, 100),
        (Action { di: 0, dj: 1 }, 100),
        (Action { di: -1, dj: 0 }, 100),
        (Action { di: 0, dj: -1 }, 100),
    ])
    .unwrap()
}

/// Breadth-first shortest-step distances to the goal region over the ring,
/// using unit moves only, as an independent reference for the solver.
fn bfs_distances(space: &StateSpace) -> Vec<Option<u64>> {
    let n = space.states.len();
    let mut dist: Vec<Option<u64>> = vec![None; n];
    let mut frontier: Vec<usize> = Vec::new();
    for k in 0..n {
        if is_goal(&space.states[k], space.w) {
            dist[k] = Some(0);
            frontier.push(k);
        }
    }
    let moves = [(1i64, 0i64), (-1, 0), (0, 1), (0, -1)];
    while !frontier.is_empty() {
        let mut next: Vec<usize> = Vec::new();
        for &k in &frontier {
            let s = space.states[k];
            let d = dist[k].unwrap();
            for (di, dj) in moves {
                if let Some(m) = position_of(space, s.i + di, s.j + dj) {
                    if dist[m].is_none() {
                        dist[m] = Some(d + 1);
                        next.push(m);
                    }
                }
            }
        }
        frontier = next;
    }
    dist
}

#[test]
fn deterministic_reference_scenario() {
    // W = 15 with no disturbance: the solver converges and the cost at
    // (1, 1) is the ring-constrained shortest-step distance, 20 steps.
    let space = build_states(15).unwrap();
    let actions = default_robot_actions();
    let res = build_optimal_plan(&space, &actions, &no_nature(), 10_000);
    assert!(res.converged);
    // One sweep per additional ring distance from the goal; the farthest
    // cell (1, 1) lies 20 steps out.
    assert_eq!(res.iterations, 20);
    let start = position_of(&space, 1, 1).unwrap();
    assert_eq!(res.costs_to_goal[start], 20 * COST_SCALE);
}

#[test]
fn deterministic_costs_equal_shortest_paths() {
    // With the single-action, full-mass distribution the solved cost of
    // every state equals the plain shortest-path step count to the goal.
    let space = build_states(15).unwrap();
    let actions = default_robot_actions();
    let res = build_optimal_plan(&space, &actions, &no_nature(), 10_000);
    assert!(res.converged);
    let dist = bfs_distances(&space);
    for k in 0..space.states.len() {
        match dist[k] {
            Some(d) => assert_eq!(res.costs_to_goal[k], d * COST_SCALE),
            None => assert_eq!(res.costs_to_goal[k], COST_INFINITY),
        }
    }
}

#[test]
fn goal_states_cost_zero() {
    let space = build_states(15).unwrap();
    let actions = default_robot_actions();
    for dist in [no_nature(), noisy_nature()] {
        let res = build_optimal_plan(&space, &actions, &dist, 10_000);
        assert!(res.converged);
        for k in 0..space.states.len() {
            if is_goal(&space.states[k], space.w) {
                assert_eq!(res.costs_to_goal[k], 0);
            }
        }
    }
}

#[test]
fn converged_vector_is_stable() {
    // One more sweep on the returned vector stays within the tolerance.
    let space = build_states(15).unwrap();
    let actions = default_robot_actions();
    for dist in [no_nature(), noisy_nature()] {
        let res = build_optimal_plan(&space, &actions, &dist, 10_000);
        assert!(res.converged);
        let again = recalculate_cost_to_goals(&space, &actions, &dist, &res.costs_to_goal);
        assert!(!are_arrays_different(&again, &res.costs_to_goal, COST_EPSILON));
    }
}

#[test]
fn noise_does_not_cheapen_the_start() {
    // Noisy nature scenario: the solved cost at (1, 1) exceeds the
    // deterministic-case cost at (1, 1).
    let space = build_states(15).unwrap();
    let actions = default_robot_actions();
    let quiet = build_optimal_plan(&space, &actions, &no_nature(), 10_000);
    let noisy = build_optimal_plan(&space, &actions, &noisy_nature(), 10_000);
    assert!(quiet.converged && noisy.converged);
    let start = position_of(&space, 1, 1).unwrap();
    assert!(noisy.costs_to_goal[start] > quiet.costs_to_goal[start]);
}

#[test]
fn first_sweep_small_grid_exact() {
    // W = 3: the ring is every cell but (2, 2); the only goal is (3, 3).
    // One sweep from the initial vector prices exactly the two neighbours
    // of the goal at one step.
    let space = build_states(3).unwrap();
    assert_eq!(space.states.len(), 8);
    let actions = default_robot_actions();
    let costs = init_costs(&space);
    let swept = recalculate_cost_to_goals(&space, &actions, &no_nature(), &costs);
    for k in 0..space.states.len() {
        let s = space.states[k];
        let expected = if s.i == 3 && s.j == 3 {
            0
        } else if (s.i == 3 && s.j == 2) || (s.i == 2 && s.j == 3) {
            COST_SCALE
        } else {
            COST_INFINITY
        };
        assert_eq!(swept[k], expected);
    }
}

#[test]
fn difference_test_is_exact_on_the_tolerance() {
    let a = vec![0u64, 100];
    let b = vec![100u64, 0];
    assert!(!are_arrays_different(&a, &b, 100));
    assert!(are_arrays_different(&a, &b, 99));
    assert!(!are_arrays_different(&a, &a, 0));
}

#[test]
fn iteration_budget_surfaces_nonconvergence() {
    // A zero budget returns the initial vector with the flag cleared.
    let space = build_states(15).unwrap();
    let actions = default_robot_actions();
    let res = build_optimal_plan(&space, &actions, &no_nature(), 0);
    assert!(!res.converged);
    assert_eq!(res.iterations, 0);
    let start = position_of(&space, 1, 1).unwrap();
    assert_eq!(res.costs_to_goal[start], COST_INFINITY);
}

#[test]
fn policy_actions_valid_and_applicable() {
    // Every extracted action belongs to the robot catalog, and applying it
    // to its own state resolves to a legal state.
    let space = build_states(15).unwrap();
    let actions = default_robot_actions();
    let res = build_optimal_plan(&space, &actions, &noisy_nature(), 10_000);
    assert!(res.converged);
    assert_eq!(res.plan.len(), space.states.len());
    let stay = Action { di: 0, dj: 0 };
    for k in 0..space.states.len() {
        let a = res.plan[k];
        assert!(actions.contains(&a));
        let succ = do_action(&space.states[k], &a, &stay, &space);
        assert!(position_of(&space, succ.i, succ.j).is_some());
    }
}

#[test]
fn greedy_policy_descends_deterministic_costs() {
    // Under no disturbance the extracted policy strictly reduces the solved
    // cost at every non-goal state: following it reaches the goal.
    let space = build_states(15).unwrap();
    let actions = default_robot_actions();
    let res = build_optimal_plan(&space, &actions, &no_nature(), 10_000);
    assert!(res.converged);
    let stay = Action { di: 0, dj: 0 };
    for k in 0..space.states.len() {
        if !is_goal(&space.states[k], space.w) {
            let succ = do_action(&space.states[k], &res.plan[k], &stay, &space);
            let m = position_of(&space, succ.i, succ.j).unwrap();
            assert_eq!(res.costs_to_goal[m] + COST_SCALE, res.costs_to_goal[k]);
        }
    }
}
