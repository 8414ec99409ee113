use grid_mdp::model::build_states;
use grid_mdp::model::default_robot_actions;
use grid_mdp::model::do_action;
use grid_mdp::model::is_goal;
use grid_mdp::model::position_of;
use grid_mdp::model::Action;
use grid_mdp::model::State;
use grid_mdp::GridError;

#[test]
fn reference_geometry() {
    // W = 15: the ring excludes exactly the 25 cells with 6 <= i, j <= 10.
    let space = build_states(15).unwrap();
    assert_eq!(space.states.len(), 15 * 15 - 25);
    for i in 6..=10i64 {
        for j in 6..=10i64 {
            assert!(position_of(&space, i, j).is_none());
        }
    }
    assert!(position_of(&space, 5, 5).is_some());
    assert!(position_of(&space, 6, 5).is_some());
    assert!(position_of(&space, 11, 10).is_some());
    assert!(position_of(&space, 0, 1).is_none());
    assert!(position_of(&space, 16, 1).is_none());
    // Row-major enumeration starts at the corner cell.
    assert_eq!(position_of(&space, 1, 1), Some(0));
}

#[test]
fn goal_membership() {
    let space = build_states(15).unwrap();
    assert!(is_goal(&State { i: 11, j: 11 }, space.w));
    assert!(is_goal(&State { i: 15, j: 15 }, space.w));
    assert!(!is_goal(&State { i: 10, j: 11 }, space.w));
    assert!(!is_goal(&State { i: 11, j: 10 }, space.w));
    assert!(!is_goal(&State { i: 1, j: 1 }, space.w));
}

#[test]
fn invalid_geometry_rejected() {
    assert_eq!(build_states(2).err(), Some(GridError::InvalidGeometry));
    assert_eq!(build_states(0).err(), Some(GridError::InvalidGeometry));
    assert_eq!(build_states(-4).err(), Some(GridError::InvalidGeometry));
    assert_eq!(build_states(10_001).err(), Some(GridError::InvalidGeometry));
    assert!(build_states(3).is_ok());
}

#[test]
fn wall_clamp_at_grid_edge() {
    let space = build_states(15).unwrap();
    let stay = Action { di: 0, dj: 0 };
    // Stepping off the lower-left corner clamps to the source state.
    let r = do_action(&State { i: 1, j: 1 }, &Action { di: -1, dj: 0 }, &stay, &space);
    assert_eq!(r, State { i: 1, j: 1 });
    let r = do_action(&State { i: 1, j: 1 }, &Action { di: 0, dj: -1 }, &stay, &space);
    assert_eq!(r, State { i: 1, j: 1 });
    // Stepping off the upper-right corner clamps too.
    let r = do_action(&State { i: 15, j: 15 }, &Action { di: 1, dj: 0 }, &stay, &space);
    assert_eq!(r, State { i: 15, j: 15 });
}

#[test]
fn wall_clamp_at_central_block() {
    let space = build_states(15).unwrap();
    let stay = Action { di: 0, dj: 0 };
    // (5, 6) -> (6, 6) would enter the forbidden block: stay put.
    let r = do_action(&State { i: 5, j: 6 }, &Action { di: 1, dj: 0 }, &stay, &space);
    assert_eq!(r, State { i: 5, j: 6 });
    // Robot and nature displacements add before the clamp test.
    let r = do_action(
        &State { i: 5, j: 6 },
        &Action { di: 1, dj: 0 },
        &Action { di: 0, dj: -1 },
        &space,
    );
    assert_eq!(r, State { i: 6, j: 5 });
}

#[test]
fn legal_moves_apply() {
    let space = build_states(15).unwrap();
    let stay = Action { di: 0, dj: 0 };
    let r = do_action(&State { i: 5, j: 5 }, &Action { di: 1, dj: 0 }, &stay, &space);
    assert_eq!(r, State { i: 6, j: 5 });
    let r = do_action(&State { i: 1, j: 1 }, &Action { di: 0, dj: 1 }, &stay, &space);
    assert_eq!(r, State { i: 1, j: 2 });
}

#[test]
fn robot_catalog() {
    let actions = default_robot_actions();
    assert_eq!(actions.len(), 5);
    assert_eq!(actions[0], Action { di: 0, dj: 0 });
    assert_eq!(actions[1], Action { di: 1, dj: 0 });
    assert_eq!(actions[2], Action { di: 0, dj: 1 });
    assert_eq!(actions[3], Action { di: -1, dj: 0 });
    assert_eq!(actions[4], Action { di: 0, dj: -1 });
}
