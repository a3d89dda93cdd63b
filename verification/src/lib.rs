//! Policy iteration for finite Markov decision processes.
//!
//! An environment is a finite set of states, a finite set of legal actions for
//! each state, and, for every legal (state, action) pair, a complete list of
//! stochastic outcomes (probability, expected reward, next state).  The solver
//! alternates policy evaluation and greedy policy improvement until the policy
//! is stable or an iteration cap is hit, and returns a value table, a policy
//! table and a convergence status.
//!
//! All quantities (probabilities, rewards, the discount factor, the
//! convergence tolerance and state values) are fixed-point integers: a stored
//! quantity `x` stands for the real number `x / SCALE`.

pub mod dist_env;
pub mod dp_solution;
pub mod gridworld_3_5;
pub mod table_env;
