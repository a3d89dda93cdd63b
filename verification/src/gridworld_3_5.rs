//! A rectangular gridworld environment with two teleport cells.
//!
//! The agent stands on a cell of a `grid_x` by `grid_y` grid and may move up,
//! down, left or right.  Two designated cells teleport: whatever the action,
//! the agent is sent to a fixed destination cell and collects a fixed reward.
//! From any other cell, a move that would leave the grid keeps the agent in
//! place and yields the off-grid reward; any remaining move succeeds and
//! yields the default reward.  Every transition is deterministic: each
//! (state, action) pair has exactly one outcome, of probability one.

use vstd::prelude::*;

use vstd::arithmetic::div_mod::lemma_fundamental_div_mod_converse;

use crate::dist_env::{
    DistEnv, EnvError, Outcome, SCALE, REWARD_CAP, dist_nexts_ok, dist_shape_ok, model_wf,
    prob_sum, identity_states,
};

verus! {

/// A move on the grid.
#[derive(Clone, Copy, PartialEq, Eq, Hash, Structural, Debug)]
pub enum Action {
    Up,
    Left,
    Down,
    Right,
}

/// A cell of the grid.  `(0, 0)` is the top-left corner; `x` grows to the
/// right and `y` grows downward.
#[derive(Clone, Copy, PartialEq, Eq, Hash, Structural, Debug)]
pub struct Coord {
    pub x: i32,
    pub y: i32,
}

/// The constants that describe one gridworld instance: the grid dimensions,
/// the two teleport cells with their destinations and rewards (in fixed-point
/// units, see `SCALE`), and the rewards for falling off the grid and for an
/// ordinary move.
#[derive(Clone, Copy, PartialEq, Eq, Structural, Debug)]
pub struct GridWorldConfig {
    pub grid_x: i32,
    pub grid_y: i32,
    pub point_a: Coord,
    pub point_a_prime: Coord,
    pub reward_a: i64,
    pub point_b: Coord,
    pub point_b_prime: Coord,
    pub reward_b: i64,
    pub reward_off_grid: i64,
    pub reward_default: i64,
}

/// The cell lies on the grid.
pub open spec fn on_grid(cfg: GridWorldConfig, c: Coord) -> bool {
    0 <= c.x < cfg.grid_x && 0 <= c.y < cfg.grid_y
}

/// An acceptable configuration: a non-empty grid of at most a million cells
/// (so state indices and value-table sizes stay comfortably within machine
/// range), teleport cells and destinations on the grid, and rewards within
/// the representable band.
pub open spec fn config_wf(cfg: GridWorldConfig) -> bool {
    &&& 1 <= cfg.grid_x
    &&& 1 <= cfg.grid_y
    &&& cfg.grid_x * cfg.grid_y <= 1_000_000
    &&& on_grid(cfg, cfg.point_a)
    &&& on_grid(cfg, cfg.point_a_prime)
    &&& on_grid(cfg, cfg.point_b)
    &&& on_grid(cfg, cfg.point_b_prime)
    &&& -REWARD_CAP <= cfg.reward_a <= REWARD_CAP
    &&& -REWARD_CAP <= cfg.reward_b <= REWARD_CAP
    &&& -REWARD_CAP <= cfg.reward_off_grid <= REWARD_CAP
    &&& -REWARD_CAP <= cfg.reward_default <= REWARD_CAP
}

/// The state index of a cell: cells are enumerated row by row, top row first.
pub open spec fn coord_index(cfg: GridWorldConfig, c: Coord) -> int {
    c.y * cfg.grid_x + c.x
}

/// The cell at a state index (inverse of `coord_index`).
pub open spec fn coord_at(cfg: GridWorldConfig, s: int) -> Coord {
    Coord { x: (s % (cfg.grid_x as int)) as i32, y: (s / (cfg.grid_x as int)) as i32 }
}

/// The action at an action index.  Every state enumerates its legal actions
/// in this fixed order.
pub open spec fn action_at(a: int) -> Action {
    if a == 0 {
        Action::Up
    } else if a == 1 {
        Action::Down
    } else if a == 2 {
        Action::Left
    } else {
        Action::Right
    }
}

/// Where a move would take the agent, ignoring the grid boundary.
pub open spec fn moved(c: Coord, a: Action) -> Coord {
    match a {
        Action::Up => Coord { x: c.x, y: (c.y - 1) as i32 },
        Action::Down => Coord { x: c.x, y: (c.y + 1) as i32 },
        Action::Left => Coord { x: (c.x - 1) as i32, y: c.y },
        Action::Right => Coord { x: (c.x + 1) as i32, y: c.y },
    }
}

/// The single outcome of taking action `a` in cell `c`: teleport cells send
/// the agent to their destination for their reward whatever the action; a
/// move off the grid keeps the agent in place for the off-grid reward; any
/// other move succeeds for the default reward.
pub open spec fn grid_outcome(cfg: GridWorldConfig, c: Coord, a: Action) -> Outcome {
    if c == cfg.point_a {
        Outcome {
            prob: SCALE,
            reward: cfg.reward_a,
            next: coord_index(cfg, cfg.point_a_prime) as usize,
        }
    } else if c == cfg.point_b {
        Outcome {
            prob: SCALE,
            reward: cfg.reward_b,
            next: coord_index(cfg, cfg.point_b_prime) as usize,
        }
    } else {
        let t = moved(c, a);
        if !on_grid(cfg, t) {
            Outcome { prob: SCALE, reward: cfg.reward_off_grid, next: coord_index(cfg, c) as usize }
        } else {
            Outcome { prob: SCALE, reward: cfg.reward_default, next: coord_index(cfg, t) as usize }
        }
    }
}

/// The transition model of the gridworld: one state per cell in row-major
/// order, four actions per state, one outcome per (state, action) pair.
pub open spec fn grid_model(cfg: GridWorldConfig) -> Seq<Seq<Seq<Outcome>>> {
    Seq::new(
        (cfg.grid_x * cfg.grid_y) as nat,
        |s: int| Seq::new(4, |a: int| seq![grid_outcome(cfg, coord_at(cfg, s), action_at(a))]),
    )
}

/// Row-major enumeration facts: the index of an on-grid cell is in range and
/// decodes back to the same cell.
proof fn lemma_row_major(gx: int, gy: int, x: int, y: int)
    requires
        1 <= gx,
        1 <= gy,
        0 <= x < gx,
        0 <= y < gy,
    ensures
        0 <= y * gx + x < gx * gy,
        (y * gx + x) % gx == x,
        (y * gx + x) / gx == y,
{
    assert(0 <= y * gx + x && y * gx + x < gx * gy) by (nonlinear_arith)
        requires
            1 <= gx,
            1 <= gy,
            0 <= x < gx,
            0 <= y < gy,
    ;
    lemma_fundamental_div_mod_converse(y * gx + x, gx, y, x);
}

/// The index of an on-grid cell is a state of the model, and decoding it
/// yields the cell again.
pub proof fn lemma_coord_index_roundtrip(cfg: GridWorldConfig, c: Coord)
    requires
        config_wf(cfg),
        on_grid(cfg, c),
    ensures
        0 <= coord_index(cfg, c) < cfg.grid_x * cfg.grid_y,
        coord_at(cfg, coord_index(cfg, c)) == c,
{
    lemma_row_major(cfg.grid_x as int, cfg.grid_y as int, c.x as int, c.y as int);
}

/// Decoding a state index yields an on-grid cell whose index is the state.
pub proof fn lemma_coord_at_on_grid(cfg: GridWorldConfig, s: int)
    requires
        config_wf(cfg),
        0 <= s < cfg.grid_x * cfg.grid_y,
    ensures
        on_grid(cfg, coord_at(cfg, s)),
        coord_index(cfg, coord_at(cfg, s)) == s,
{
    let gx = cfg.grid_x as int;
    let gy = cfg.grid_y as int;
    let x = s % gx;
    let y = s / gx;
    assert(0 <= x < gx) by (nonlinear_arith)
        requires
            1 <= gx,
            0 <= s,
            x == s % gx,
    ;
    assert(0 <= y < gy) by (nonlinear_arith)
        requires
            1 <= gx,
            1 <= gy,
            0 <= s < gx * gy,
            y == s / gx,
    ;
    let c = coord_at(cfg, s);
    assert(c.x == x && c.y == y);
    vstd::arithmetic::div_mod::lemma_fundamental_div_mod(s, gx);
    assert(s == gx * y + x);
    assert(gx * y == y * gx) by (nonlinear_arith);
    assert(coord_index(cfg, c) == s);
}

/// A well-formed configuration yields a well-formed model: every (state,
/// action) pair has exactly one outcome, of probability one (so the
/// probabilities of each distribution sum exactly to one), with a reward in
/// the representable band and an on-grid next state.
pub proof fn lemma_grid_model_wf(cfg: GridWorldConfig)
    requires
        config_wf(cfg),
    ensures
        model_wf(grid_model(cfg)),
        grid_model(cfg).len() == cfg.grid_x * cfg.grid_y,
        forall|s: int|
            0 <= s < grid_model(cfg).len() ==> (#[trigger] grid_model(cfg)[s]).len() == 4,
{
    let m = grid_model(cfg);
    let n = m.len() as int;
    assert forall|s: int, a: int| 0 <= s < n && 0 <= a < m[s].len() implies dist_nexts_ok(
        #[trigger] m[s][a],
        n,
    ) && dist_shape_ok(m[s][a]) by {
        lemma_coord_at_on_grid(cfg, s);
        let c = coord_at(cfg, s);
        let o = grid_outcome(cfg, c, action_at(a));
        assert(m[s][a] =~= seq![o]);
        lemma_coord_index_roundtrip(cfg, cfg.point_a_prime);
        lemma_coord_index_roundtrip(cfg, cfg.point_b_prime);
        lemma_coord_index_roundtrip(cfg, c);
        if c != cfg.point_a && c != cfg.point_b {
            let t = moved(c, action_at(a));
            if on_grid(cfg, t) {
                lemma_coord_index_roundtrip(cfg, t);
            }
        }
        assert(o.next < n);
        assert(seq![o].drop_last() =~= Seq::<Outcome>::empty());
        assert(prob_sum(Seq::<Outcome>::empty()) == 0);
        assert(seq![o].last() == o);
        assert(prob_sum(seq![o]) == o.prob);
        assert(seq![o][0] == o);
    }
}

/// The gridworld environment of Sutton and Barto's example 3.5, generalized:
/// the grid size, the teleport cells and all rewards are constructor
/// parameters, so several instances can coexist.
pub struct GridWorld3_5 {
    cfg: GridWorldConfig,
    states_vec: Vec<Coord>,
    actions_vec: Vec<Action>,
}

impl GridWorld3_5 {
    #[verifier::type_invariant]
    spec fn inv(self) -> bool {
        &&& config_wf(self.cfg)
        &&& self.states_vec@.len() == self.cfg.grid_x * self.cfg.grid_y
        &&& forall|i: int|
            0 <= i < self.states_vec@.len() ==> self.states_vec@[i] == coord_at(self.cfg, i)
        &&& self.actions_vec@ =~= seq![Action::Up, Action::Down, Action::Left, Action::Right]
    }

    /// The configuration this instance was built from.
    pub closed spec fn config(&self) -> GridWorldConfig {
        self.cfg
    }

    /// Builds the gridworld described by `cfg`.
    pub fn new(cfg: GridWorldConfig) -> (r: GridWorld3_5)
        requires
            config_wf(cfg),
        ensures
            r.config() == cfg,
            r.model() == grid_model(cfg),
            model_wf(r.model()),
    {
        proof {
            assert(cfg.grid_x * cfg.grid_y <= 1_000_000) by (nonlinear_arith)
                requires
                    config_wf(cfg),
            ;
        }
        let gx = cfg.grid_x as usize;
        let n = gx * (cfg.grid_y as usize);
        let mut states_vec: Vec<Coord> = Vec::new();
        let mut s: usize = 0;
        while s < n
            invariant
                s <= n,
                config_wf(cfg),
                gx == cfg.grid_x as usize,
                n == cfg.grid_x * cfg.grid_y,
                states_vec@.len() == s,
                forall|i: int| 0 <= i < s ==> states_vec@[i] == coord_at(cfg, i),
            decreases n - s,
        {
            proof {
                lemma_coord_at_on_grid(cfg, s as int);
            }
            let x = (s % gx) as i32;
            let y = (s / gx) as i32;
            states_vec.push(Coord { x, y });
            s = s + 1;
        }
        let mut actions_vec: Vec<Action> = Vec::new();
        actions_vec.push(Action::Up);
        actions_vec.push(Action::Down);
        actions_vec.push(Action::Left);
        actions_vec.push(Action::Right);
        proof {
            assert(actions_vec@ =~= seq![Action::Up, Action::Down, Action::Left, Action::Right]);
            lemma_grid_model_wf(cfg);
        }
        GridWorld3_5 { cfg, states_vec, actions_vec }
    }

    /// The cells of the grid in state-enumeration order: the `s`-th entry is
    /// the cell that state `s` stands for.
    pub fn coords(&self) -> (r: &Vec<Coord>)
        ensures
            r@.len() == self.model().len(),
            forall|i: int| 0 <= i < r@.len() ==> r@[i] == coord_at(self.config(), i),
    {
        proof {
            use_type_invariant(&*self);
        }
        &self.states_vec
    }

    /// The actions in action-enumeration order: the `a`-th entry is the
    /// action that action index `a` stands for, in every state.
    pub fn action_list(&self) -> (r: &Vec<Action>)
        ensures
            r@ =~= seq![Action::Up, Action::Down, Action::Left, Action::Right],
            forall|a: int| 0 <= a < 4 ==> r@[a] == action_at(a),
    {
        proof {
            use_type_invariant(&*self);
        }
        &self.actions_vec
    }

    /// The state index of a cell, or `None` for a cell off the grid.
    pub fn state_index(&self, c: Coord) -> (r: Option<usize>)
        ensures
            on_grid(self.config(), c) ==> r == Some(coord_index(self.config(), c) as usize),
            !on_grid(self.config(), c) ==> r is None,
    {
        proof {
            use_type_invariant(&*self);
        }
        if 0 <= c.x && c.x < self.cfg.grid_x && 0 <= c.y && c.y < self.cfg.grid_y {
            proof {
                lemma_coord_index_roundtrip(self.cfg, c);
                assert(cfg_cells_fit(self.cfg));
            }
            Some((c.y as usize) * (self.cfg.grid_x as usize) + (c.x as usize))
        } else {
            None
        }
    }

    /// The single outcome of taking action `a` in on-grid cell `c`.
    fn compute_outcome(&self, c: Coord, a: Action) -> (o: Outcome)
        requires
            on_grid(self.config(), c),
        ensures
            o == grid_outcome(self.config(), c, a),
    {
        proof {
            use_type_invariant(&*self);
            lemma_coord_index_roundtrip(self.cfg, c);
            lemma_coord_index_roundtrip(self.cfg, self.cfg.point_a_prime);
            lemma_coord_index_roundtrip(self.cfg, self.cfg.point_b_prime);
            assert(cfg_cells_fit(self.cfg));
        }
        let gx = self.cfg.grid_x as usize;
        if c.x == self.cfg.point_a.x && c.y == self.cfg.point_a.y {
            let d = self.cfg.point_a_prime;
            Outcome {
                prob: SCALE,
                reward: self.cfg.reward_a,
                next: (d.y as usize) * gx + (d.x as usize),
            }
        } else if c.x == self.cfg.point_b.x && c.y == self.cfg.point_b.y {
            let d = self.cfg.point_b_prime;
            Outcome {
                prob: SCALE,
                reward: self.cfg.reward_b,
                next: (d.y as usize) * gx + (d.x as usize),
            }
        } else {
            let t = match a {
                Action::Up => Coord { x: c.x, y: c.y - 1 },
                Action::Down => Coord { x: c.x, y: c.y + 1 },
                Action::Left => Coord { x: c.x - 1, y: c.y },
                Action::Right => Coord { x: c.x + 1, y: c.y },
            };
            if t.x < 0 || t.x >= self.cfg.grid_x || t.y < 0 || t.y >= self.cfg.grid_y {
                Outcome {
                    prob: SCALE,
                    reward: self.cfg.reward_off_grid,
                    next: (c.y as usize) * gx + (c.x as usize),
                }
            } else {
                proof {
                    lemma_coord_index_roundtrip(self.cfg, t);
                }
                Outcome {
                    prob: SCALE,
                    reward: self.cfg.reward_default,
                    next: (t.y as usize) * gx + (t.x as usize),
                }
            }
        }
    }
}

/// Cell coordinates fit machine arithmetic: a consequence of `config_wf`
/// pulled out for the executable index computations.
spec fn cfg_cells_fit(cfg: GridWorldConfig) -> bool {
    cfg.grid_x * cfg.grid_y <= 1_000_000
}

impl DistEnv for GridWorld3_5 {
    closed spec fn model(&self) -> Seq<Seq<Seq<Outcome>>> {
        grid_model(self.cfg)
    }

    fn states(&self) -> (r: Vec<usize>) {
        proof {
            use_type_invariant(&*self);
            assert(cfg_cells_fit(self.cfg));
        }
        identity_states((self.cfg.grid_x as usize) * (self.cfg.grid_y as usize))
    }

    fn actions(&self, s: usize) -> (r: Result<Vec<usize>, EnvError>) {
        proof {
            use_type_invariant(&*self);
            assert(cfg_cells_fit(self.cfg));
        }
        let n = (self.cfg.grid_x as usize) * (self.cfg.grid_y as usize);
        if s < n {
            Ok(identity_states(4))
        } else {
            Err(EnvError::UnknownState)
        }
    }

    fn transition(&self, s: usize, a: usize) -> (r: Result<Vec<Outcome>, EnvError>) {
        proof {
            use_type_invariant(&*self);
            assert(cfg_cells_fit(self.cfg));
        }
        let gx = self.cfg.grid_x as usize;
        let n = gx * (self.cfg.grid_y as usize);
        if s >= n {
            Err(EnvError::UnknownState)
        } else if a >= 4 {
            Err(EnvError::UnknownStateAction)
        } else {
            proof {
                lemma_coord_at_on_grid(self.cfg, s as int);
            }
            let c = Coord { x: (s % gx) as i32, y: (s / gx) as i32 };
            let act = if a == 0 {
                Action::Up
            } else if a == 1 {
                Action::Down
            } else if a == 2 {
                Action::Left
            } else {
                Action::Right
            };
            let o = self.compute_outcome(c, act);
            let mut os: Vec<Outcome> = Vec::new();
            os.push(o);
            proof {
                assert(os@ =~= self.model()[s as int][a as int]);
            }
            Ok(os)
        }
    }
}

} // verus!
