use grid_mdp::dist::NatureDist;
use grid_mdp::model::build_states;
use grid_mdp::model::default_robot_actions;
use grid_mdp::model::position_of;
use grid_mdp::model::Action;
use grid_mdp::model::State;
use grid_mdp::sim::simulate_many;
use grid_mdp::sim::simulate_robot;
use grid_mdp::solver::build_optimal_plan;
use grid_mdp::COST_SCALE;
use grid_mdp::PROB_DENOM;

fn no_nature() -> NatureDist {
    NatureDist::new(vec![(Action { di: 0, dj: 0 }, PROB_DENOM)]).unwrap()
}

fn noisy_nature() -> NatureDist {
    NatureDist::new(vec![
        (Action { di: 0, dj: 0 }, 9_600),
        (Action { di: 1, dj: 0 }, 100),
        (Action { di: 0, dj: 1 }, 100),
        (Action { di: -1, dj: 0 }, 100),
        (Action { di: 0, dj: -1 }, 100),
    ])
    .unwrap()
}

#[test]
fn deterministic_run_takes_the_shortest_path() {
    let space = build_states(15).unwrap();
    let actions = default_robot_actions();
    let dist = no_nature();
    let res = build_optimal_plan(&space, &actions, &dist, 10_000);
    assert!(res.converged);
    let start = State { i: 1, j: 1 };
    for _ in 0..20 {
        let steps = simulate_robot(&dist, &start, &space, &res.plan, 100_000);
        assert_eq!(steps, Some(20));
    }
}

#[test]
fn zero_budget_gives_up() {
    let space = build_states(15).unwrap();
    let actions = default_robot_actions();
    let dist = no_nature();
    let res = build_optimal_plan(&space, &actions, &dist, 10_000);
    let steps = simulate_robot(&dist, &State { i: 1, j: 1 }, &space, &res.plan, 0);
    assert_eq!(steps, None);
}

#[test]
fn noisy_runs_terminate_and_match_the_solved_cost() {
    // Policy evaluation: a thousand trajectories from (1, 1) under the
    // noisy distribution all reach the goal, each in at least one step, and
    // their mean step count lands near the solver's analytic estimate.
    let space = build_states(15).unwrap();
    let actions = default_robot_actions();
    let dist = noisy_nature();
    let res = build_optimal_plan(&space, &actions, &dist, 10_000);
    assert!(res.converged);
    let start = State { i: 1, j: 1 };
    let start_idx = position_of(&space, 1, 1).unwrap();
    let runs = 1_000u64;
    let stats = simulate_many(&dist, &start, &space, &res.plan, runs, 1_000_000);
    assert_eq!(stats.abandoned, 0);
    assert_eq!(stats.costs.len() as u64, runs);
    let mut total_steps = 0u64;
    for &steps in &stats.costs {
        assert!(steps >= 1);
        total_steps += steps;
    }
    assert_eq!(stats.total_steps, total_steps);
    let mean_scaled = total_steps * COST_SCALE / runs;
    assert_eq!(stats.mean_scaled, mean_scaled);
    let analytic = res.costs_to_goal[start_idx];
    // Within two whole steps of the analytic cost: far wider than the
    // sampling error of a thousand runs.
    let margin = 2 * COST_SCALE;
    assert!(mean_scaled + margin >= analytic && mean_scaled <= analytic + margin);
}

#[test]
fn start_on_the_goal_still_costs_a_step() {
    // The trajectory loop always takes its first step before testing for
    // the goal, as the step tally starts at the first transition.
    let space = build_states(15).unwrap();
    let actions = default_robot_actions();
    let dist = no_nature();
    let res = build_optimal_plan(&space, &actions, &dist, 10_000);
    let steps = simulate_robot(&dist, &State { i: 15, j: 15 }, &space, &res.plan, 100_000);
    assert_eq!(steps, Some(1));
}

#[test]
fn tallies_of_deterministic_runs_are_exact() {
    // Every undisturbed run from (1, 1) takes exactly 20 steps, so the
    // tally is fully determined: 50 completed runs, 1000 steps in total,
    // and a mean of 20 whole steps.
    let space = build_states(15).unwrap();
    let actions = default_robot_actions();
    let dist = no_nature();
    let res = build_optimal_plan(&space, &actions, &dist, 10_000);
    let stats = simulate_many(&dist, &State { i: 1, j: 1 }, &space, &res.plan, 50, 100_000);
    assert_eq!(stats.abandoned, 0);
    assert_eq!(stats.costs, vec![20u64; 50]);
    assert_eq!(stats.total_steps, 50 * 20);
    assert_eq!(stats.mean_scaled, 20 * COST_SCALE);
}

#[test]
fn empty_evaluation_has_empty_tallies() {
    let space = build_states(15).unwrap();
    let actions = default_robot_actions();
    let dist = no_nature();
    let res = build_optimal_plan(&space, &actions, &dist, 10_000);
    let stats = simulate_many(&dist, &State { i: 1, j: 1 }, &space, &res.plan, 0, 100_000);
    assert!(stats.costs.is_empty());
    assert_eq!(stats.abandoned, 0);
    assert_eq!(stats.total_steps, 0);
    assert_eq!(stats.mean_scaled, 0);
    // A zero step budget abandons every run.
    let stats = simulate_many(&dist, &State { i: 1, j: 1 }, &space, &res.plan, 7, 0);
    assert!(stats.costs.is_empty());
    assert_eq!(stats.abandoned, 7);
    assert_eq!(stats.mean_scaled, 0);
}
