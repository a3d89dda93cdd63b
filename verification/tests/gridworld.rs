// The reference gridworld: its enumeration, its transition model, and the
// behaviour of its teleport, boundary and interior cells.

use policy_iteration::dist_env::{DistEnv, EnvError, SCALE};
use policy_iteration::gridworld_3_5::{Action, Coord, GridWorld3_5, GridWorldConfig};

fn reference_config() -> GridWorldConfig {
    GridWorldConfig {
        grid_x: 5,
        grid_y: 5,
        point_a: Coord { x: 1, y: 0 },
        point_a_prime: Coord { x: 1, y: 4 },
        reward_a: 10 * SCALE,
        point_b: Coord { x: 3, y: 0 },
        point_b_prime: Coord { x: 3, y: 2 },
        reward_b: 5 * SCALE,
        reward_off_grid: -SCALE,
        reward_default: 0,
    }
}

fn index_of(gw: &GridWorld3_5, x: i32, y: i32) -> usize {
    gw.state_index(Coord { x, y }).expect("cell should be on the grid")
}

#[test]
fn enumerates_all_cells_in_row_major_order() {
    let gw = GridWorld3_5::new(reference_config());
    let states = gw.states();
    assert_eq!(states.len(), 25);
    for (i, s) in states.iter().enumerate() {
        assert_eq!(*s, i);
    }
    let coords = gw.coords();
    assert_eq!(coords.len(), 25);
    assert_eq!(coords[0], Coord { x: 0, y: 0 });
    assert_eq!(coords[1], Coord { x: 1, y: 0 });
    assert_eq!(coords[5], Coord { x: 0, y: 1 });
    assert_eq!(coords[24], Coord { x: 4, y: 4 });
    assert_eq!(index_of(&gw, 3, 2), 13);
    assert_eq!(gw.state_index(Coord { x: 5, y: 0 }), None);
    assert_eq!(gw.state_index(Coord { x: 0, y: -1 }), None);
}

#[test]
fn four_actions_in_fixed_order_everywhere() {
    let gw = GridWorld3_5::new(reference_config());
    assert_eq!(
        *gw.action_list(),
        vec![Action::Up, Action::Down, Action::Left, Action::Right]
    );
    for s in gw.states() {
        let acts = gw.actions(s).expect("state is known");
        assert_eq!(acts, vec![0, 1, 2, 3]);
    }
}

#[test]
fn probabilities_sum_to_one_for_every_pair() {
    // Every legal (state, action) pair of a valid environment must have
    // outcome probabilities summing exactly to one.
    let gw = GridWorld3_5::new(reference_config());
    for s in gw.states() {
        for a in gw.actions(s).expect("state is known") {
            let os = gw.transition(s, a).expect("pair is legal");
            assert!(!os.is_empty());
            let mut sum: i64 = 0;
            for o in &os {
                assert!(o.prob >= 0 && o.prob <= SCALE);
                sum += o.prob;
            }
            assert_eq!(sum, SCALE);
        }
    }
}

#[test]
fn teleport_cells_ignore_the_action() {
    let gw = GridWorld3_5::new(reference_config());
    let a_cell = index_of(&gw, 1, 0);
    let a_prime = index_of(&gw, 1, 4);
    let b_cell = index_of(&gw, 3, 0);
    let b_prime = index_of(&gw, 3, 2);
    for a in 0..4 {
        let os = gw.transition(a_cell, a).expect("pair is legal");
        assert_eq!(os.len(), 1);
        assert_eq!(os[0].prob, SCALE);
        assert_eq!(os[0].reward, 10 * SCALE);
        assert_eq!(os[0].next, a_prime);
        let os = gw.transition(b_cell, a).expect("pair is legal");
        assert_eq!(os.len(), 1);
        assert_eq!(os[0].reward, 5 * SCALE);
        assert_eq!(os[0].next, b_prime);
    }
}

#[test]
fn boundary_moves_stay_in_place_with_penalty() {
    let gw = GridWorld3_5::new(reference_config());
    let corner = index_of(&gw, 0, 0);
    // Up (action 0) from the top-left corner falls off the grid.
    let os = gw.transition(corner, 0).expect("pair is legal");
    assert_eq!(os.len(), 1);
    assert_eq!(os[0].reward, -SCALE);
    assert_eq!(os[0].next, corner);
    // Left (action 2) likewise.
    let os = gw.transition(corner, 2).expect("pair is legal");
    assert_eq!(os[0].reward, -SCALE);
    assert_eq!(os[0].next, corner);
    // Down (action 1) is an ordinary move to (0, 1).
    let os = gw.transition(corner, 1).expect("pair is legal");
    assert_eq!(os[0].reward, 0);
    assert_eq!(os[0].next, index_of(&gw, 0, 1));
    // Right (action 3) is an ordinary move to (1, 0), the teleport cell.
    let os = gw.transition(corner, 3).expect("pair is legal");
    assert_eq!(os[0].reward, 0);
    assert_eq!(os[0].next, index_of(&gw, 1, 0));
}

#[test]
fn unknown_state_and_action_are_rejected() {
    let gw = GridWorld3_5::new(reference_config());
    assert_eq!(gw.actions(25), Err(EnvError::UnknownState));
    assert_eq!(gw.transition(25, 0), Err(EnvError::UnknownState));
    assert_eq!(gw.transition(0, 4), Err(EnvError::UnknownStateAction));
}
