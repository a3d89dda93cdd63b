// The policy-iteration solver: the end-to-end gridworld scenario, absorbing
// states, cap exhaustion, validation failures, and the improvement laws on
// concrete values.

use policy_iteration::dist_env::{DistEnv, Outcome, SCALE};
use policy_iteration::dp_solution::{DPSolution, SolveError, SolveStatus};
use policy_iteration::gridworld_3_5::{Action, Coord, GridWorld3_5, GridWorldConfig};
use policy_iteration::table_env::TableEnv;

fn reference_config() -> GridWorldConfig {
    GridWorldConfig {
        grid_x: 5,
        grid_y: 5,
        point_a: Coord { x: 1, y: 0 },
        point_a_prime: Coord { x: 1, y: 4 },
        reward_a: 10 * SCALE,
        point_b: Coord { x: 3, y: 0 },
        point_b_prime: Coord { x: 3, y: 2 },
        reward_b: 5 * SCALE,
        reward_off_grid: -SCALE,
        reward_default: 0,
    }
}

const GAMMA_09: i64 = 900_000; // 0.9
const THETA_1E4: i64 = 100; // 1e-4

fn solve_reference() -> (GridWorld3_5, DPSolution) {
    let gw = GridWorld3_5::new(reference_config());
    let sol = DPSolution::solve(&gw, GAMMA_09, THETA_1E4, 500, 100).expect("model is well-formed");
    (gw, sol)
}

fn cell(gw: &GridWorld3_5, x: i32, y: i32) -> usize {
    gw.state_index(Coord { x, y }).expect("cell should be on the grid")
}

#[test]
fn reference_gridworld_converges_to_known_values() {
    let (gw, sol) = solve_reference();
    assert_eq!(sol.status, SolveStatus::Converged);
    assert_eq!(sol.values.len(), 25);
    assert_eq!(sol.policy.len(), 25);
    let v_a = sol.values[cell(&gw, 1, 0)];
    let v_b = sol.values[cell(&gw, 3, 0)];
    let v_corner = sol.values[cell(&gw, 0, 0)];
    // The teleport-source cell at (1, 0) is the most valuable cell of the
    // grid; in particular it beats the other teleport source and the corner.
    assert!(v_a > v_b);
    assert!(v_a > v_corner);
    // The optimal values of this gridworld under gamma = 0.9:
    // v(1,0) = 10 / (1 - 0.9^5) ~ 24.419, v(0,0) = 0.9 * v(1,0) ~ 21.977,
    // v(3,0) = 5 + 0.9^5 * v(1,0) / 0.9^4 ... ~ 19.419.
    assert!((v_a - 24_419_428).abs() < 50_000, "v_a = {}", v_a);
    assert!((v_corner - 21_977_485).abs() < 50_000, "v_corner = {}", v_corner);
    assert!((v_b - 19_419_455).abs() < 50_000, "v_b = {}", v_b);
    // From (1, 1), the optimal move is up, into the teleport cell.
    let up_index = gw
        .action_list()
        .iter()
        .position(|a| *a == Action::Up)
        .expect("up is an action");
    assert_eq!(sol.policy[cell(&gw, 1, 1)], Some(up_index));
}

#[test]
fn solve_is_deterministic() {
    let (_, sol1) = solve_reference();
    let (_, sol2) = solve_reference();
    assert_eq!(sol1.values, sol2.values);
    assert_eq!(sol1.policy, sol2.policy);
    assert_eq!(sol1.status, sol2.status);
}

#[test]
fn greedy_choice_never_has_smaller_q_than_any_action() {
    // Policy improvement never decreases a state's action value: the chosen
    // action's q is the maximum, with ties broken toward the earliest action.
    let (gw, sol) = solve_reference();
    for s in gw.states() {
        let chosen = sol.policy[s].expect("no absorbing cells in the gridworld");
        let q_chosen = DPSolution::action_value(&gw, &sol.values, GAMMA_09, s, chosen);
        for a in gw.actions(s).expect("state is known") {
            let q_a = DPSolution::action_value(&gw, &sol.values, GAMMA_09, s, a);
            assert!(q_chosen >= q_a);
            if a < chosen {
                // The earliest-action tie-break: anything before the chosen
                // action must be strictly worse.
                assert!(q_chosen > q_a);
            }
        }
    }
}

#[test]
fn improvement_is_idempotent_on_a_stable_policy() {
    // Solving again, starting from scratch with the same inputs, reproduces
    // the converged policy; and the converged policy is exactly the greedy
    // one for the converged values, so improving it again changes nothing.
    let (gw, sol) = solve_reference();
    assert_eq!(sol.status, SolveStatus::Converged);
    for s in gw.states() {
        let chosen = sol.policy[s].expect("no absorbing cells in the gridworld");
        // Recompute the greedy argmax by hand from the q-values.
        let mut best = 0usize;
        let mut best_q = DPSolution::action_value(&gw, &sol.values, GAMMA_09, s, 0);
        for a in gw.actions(s).expect("state is known") {
            let q_a = DPSolution::action_value(&gw, &sol.values, GAMMA_09, s, a);
            if q_a > best_q {
                best = a;
                best_q = q_a;
            }
        }
        assert_eq!(chosen, best);
    }
}

#[test]
fn absorbing_state_keeps_its_value_and_gets_no_action() {
    // State 0 has no legal action; state 1 steps to state 0 for reward 1.
    let table = vec![
        vec![],
        vec![vec![Outcome { prob: SCALE, reward: SCALE, next: 0 }]],
    ];
    let env = TableEnv::new(table);
    let sol = DPSolution::solve(&env, GAMMA_09, THETA_1E4, 50, 10).expect("model is well-formed");
    assert_eq!(sol.status, SolveStatus::Converged);
    assert_eq!(sol.values[0], 0);
    assert_eq!(sol.policy[0], None);
    assert_eq!(sol.policy[1], Some(0));
    assert_eq!(sol.values[1], SCALE);
}

#[test]
fn exhausted_caps_report_not_converged() {
    // A single state looping onto itself with reward 1 and no discounting:
    // every sweep raises its value by 1, so evaluation can never converge,
    // and the run must stop at its caps rather than loop forever.
    let table = vec![vec![vec![Outcome { prob: SCALE, reward: SCALE, next: 0 }]]];
    let env = TableEnv::new(table);
    let sol = DPSolution::solve(&env, SCALE, 1, 10, 5).expect("model is well-formed");
    assert_eq!(sol.status, SolveStatus::NotConverged);
}

#[test]
fn zero_iteration_cap_reports_not_converged() {
    let gw = GridWorld3_5::new(reference_config());
    let sol = DPSolution::solve(&gw, GAMMA_09, THETA_1E4, 500, 0).expect("model is well-formed");
    assert_eq!(sol.status, SolveStatus::NotConverged);
    // The best-effort tables are the initial ones.
    assert!(sol.values.iter().all(|v| *v == 0));
    assert!(sol.policy.iter().all(|p| *p == Some(0)));
}

#[test]
fn probabilities_not_summing_to_one_are_rejected() {
    let table = vec![vec![vec![Outcome { prob: SCALE / 2, reward: 0, next: 0 }]]];
    let env = TableEnv::new(table);
    let r = DPSolution::solve(&env, GAMMA_09, THETA_1E4, 10, 10);
    assert!(matches!(r, Err(SolveError::MalformedDistribution)));
}

#[test]
fn negative_probability_is_rejected() {
    let table = vec![vec![vec![
        Outcome { prob: -1, reward: 0, next: 0 },
        Outcome { prob: SCALE + 1, reward: 0, next: 0 },
    ]]];
    let env = TableEnv::new(table);
    let r = DPSolution::solve(&env, GAMMA_09, THETA_1E4, 10, 10);
    assert!(matches!(r, Err(SolveError::MalformedDistribution)));
}

#[test]
fn empty_outcome_list_is_rejected() {
    // A state with a legal action whose outcome list is empty is malformed
    // (an action must have at least one outcome; an absorbing state instead
    // has no action at all).
    let table = vec![vec![vec![]]];
    let env = TableEnv::new(table);
    let r = DPSolution::solve(&env, GAMMA_09, THETA_1E4, 10, 10);
    assert!(matches!(r, Err(SolveError::MalformedDistribution)));
}

#[test]
fn unknown_next_state_is_rejected() {
    let table = vec![vec![vec![Outcome { prob: SCALE, reward: 0, next: 5 }]]];
    let env = TableEnv::new(table);
    let r = DPSolution::solve(&env, GAMMA_09, THETA_1E4, 10, 10);
    assert!(matches!(r, Err(SolveError::UnknownState)));
}

#[test]
fn stochastic_outcomes_average_their_rewards() {
    // One state, one action, two equally likely outcomes with rewards 2 and
    // 4, no discounting of a zero-valued successor: q = 3.
    let table = vec![
        vec![vec![
            Outcome { prob: SCALE / 2, reward: 2 * SCALE, next: 1 },
            Outcome { prob: SCALE / 2, reward: 4 * SCALE, next: 1 },
        ]],
        vec![],
    ];
    let env = TableEnv::new(table);
    let sol = DPSolution::solve(&env, 0, 1, 10, 10).expect("model is well-formed");
    assert_eq!(sol.status, SolveStatus::Converged);
    assert_eq!(sol.values[0], 3 * SCALE);
    assert_eq!(sol.values[1], 0);
}
