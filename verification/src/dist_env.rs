//! The distribution-environment abstraction: a passive, query-only view of a
//! finite Markov decision process.
//!
//! States and actions are identified by their position in the environment's
//! fixed enumeration: state `s` is the `s`-th entry of `states()`, and action
//! `a` of state `s` is the `a`-th entry of `actions(s)`.  A concrete
//! environment (such as the gridworld) additionally knows what each index
//! stands for.

use vstd::prelude::*;

verus! {

/// Fixed-point scale: a stored quantity `x` stands for the real number
/// `x / SCALE`.  A probability of one is stored as `SCALE`.
pub const SCALE: i64 = 1_000_000;

/// Largest reward magnitude (in fixed-point units) a well-formed environment
/// may report.  The bound keeps the solver's arithmetic within `i64` range.
pub const REWARD_CAP: i64 = 1_000_000_000_000;

/// Largest state-value magnitude (in fixed-point units) the solver ever
/// stores.  `VALUE_CAP + REWARD_CAP` still fits in an `i64`.
pub const VALUE_CAP: i64 = 4_000_000_000_000_000_000;

/// One stochastic consequence of taking an action in a state: it happens with
/// probability `prob / SCALE`, yields expected reward `reward / SCALE`, and
/// moves the agent to state `next`.
#[derive(Clone, Copy, PartialEq, Eq, Structural, Debug)]
pub struct Outcome {
    pub prob: i64,
    pub reward: i64,
    pub next: usize,
}

/// A query for a state or action outside the environment's enumeration.
#[derive(Clone, Copy, PartialEq, Eq, Structural, Debug)]
pub enum EnvError {
    UnknownState,
    UnknownStateAction,
}

/// Truncating division of `x` by a positive divisor `d` (rounding toward
/// zero), matching what the executable `/` on signed integers computes.
pub open spec fn tdiv(x: int, d: int) -> int {
    if x >= 0 {
        x / d
    } else {
        -((-x) / d)
    }
}

/// Sum of the probabilities of a list of outcomes.
pub open spec fn prob_sum(os: Seq<Outcome>) -> int
    decreases os.len(),
{
    if os.len() == 0 {
        0
    } else {
        prob_sum(os.drop_last()) + os.last().prob
    }
}

/// Every outcome of the list names a next state inside an environment of `n`
/// states.
pub open spec fn dist_nexts_ok(os: Seq<Outcome>, n: int) -> bool {
    forall|i: int| 0 <= i < os.len() ==> (#[trigger] os[i]).next < n
}

/// The list is a well-shaped probability distribution: it is non-empty, every
/// probability lies in `[0, SCALE]`, every reward magnitude is at most
/// `REWARD_CAP`, and the probabilities sum exactly to `SCALE` (that is, to
/// one; with fixed-point probabilities exactness is attainable, so no
/// tolerance is granted).
pub open spec fn dist_shape_ok(os: Seq<Outcome>) -> bool {
    &&& os.len() > 0
    &&& forall|i: int| 0 <= i < os.len() ==> 0 <= (#[trigger] os[i]).prob <= SCALE
    &&& forall|i: int|
        0 <= i < os.len() ==> -REWARD_CAP <= (#[trigger] os[i]).reward <= REWARD_CAP
    &&& prob_sum(os) == SCALE
}

/// Every outcome of every legal (state, action) pair names a known next state.
pub open spec fn model_nexts_ok(m: Seq<Seq<Seq<Outcome>>>) -> bool {
    forall|s: int, a: int|
        0 <= s < m.len() && 0 <= a < m[s].len() ==> dist_nexts_ok(
            #[trigger] m[s][a],
            m.len() as int,
        )
}

/// Every legal (state, action) pair carries a well-shaped distribution.
pub open spec fn model_shape_ok(m: Seq<Seq<Seq<Outcome>>>) -> bool {
    forall|s: int, a: int|
        0 <= s < m.len() && 0 <= a < m[s].len() ==> dist_shape_ok(#[trigger] m[s][a])
}

/// A well-formed environment model: for every state `s` and every legal
/// action `a` of `s`, `m[s][a]` is a well-formed outcome distribution.
pub open spec fn model_wf(m: Seq<Seq<Seq<Outcome>>>) -> bool {
    model_nexts_ok(m) && model_shape_ok(m)
}

/// A distribution-based environment.
///
/// The mathematical content of an environment is its `model`: for each state
/// `s` and each legal action `a` of `s`, the outcome distribution
/// `model()[s][a]`.  The three query functions expose exactly that model.
/// They are pure: the model is fixed at construction time, so repeated calls
/// agree and the enumeration order is stable.
pub trait DistEnv {
    /// The transition model this environment presents: `model()[s][a]` is the
    /// outcome distribution for taking action `a` in state `s`.
    spec fn model(&self) -> Seq<Seq<Seq<Outcome>>>;

    /// The complete, fixed enumeration of states, namely `0, 1, ..., n - 1`.
    fn states(&self) -> (r: Vec<usize>)
        ensures
            r@.len() == self.model().len(),
            forall|i: int| 0 <= i < r@.len() ==> r@[i] == i,
    ;

    /// The legal actions of state `s`, namely `0, 1, ..., k - 1` where `k` is
    /// the number of legal actions; empty for an absorbing state.  Fails with
    /// `UnknownState` when `s` is not in the enumeration.
    fn actions(&self, s: usize) -> (r: Result<Vec<usize>, EnvError>)
        ensures
            s < self.model().len() ==> (r matches Ok(acts) && acts@.len()
                == self.model()[s as int].len() && (forall|j: int|
                0 <= j < acts@.len() ==> acts@[j] == j)),
            s >= self.model().len() ==> (r matches Err(e) && e == EnvError::UnknownState),
    ;

    /// The full outcome distribution for taking action `a` in state `s`.
    /// Fails with `UnknownState` when `s` is not in the enumeration and with
    /// `UnknownStateAction` when `a` is not legal in `s`.
    fn transition(&self, s: usize, a: usize) -> (r: Result<Vec<Outcome>, EnvError>)
        ensures
            s < self.model().len() && a < self.model()[s as int].len() ==> (r matches Ok(os)
                && os@ == self.model()[s as int][a as int]),
            s >= self.model().len() ==> (r matches Err(e) && e == EnvError::UnknownState),
            s < self.model().len() && a >= self.model()[s as int].len() ==> (r matches Err(e) && e
                == EnvError::UnknownStateAction),
    ;
}

/// In a well-formed environment model, the outcome probabilities returned
/// for any legal (state, action) pair sum exactly to one (`SCALE` in fixed
/// point, so within any tolerance), each lying in `[0, SCALE]`.
pub proof fn lemma_probabilities_sum_to_one(m: Seq<Seq<Seq<Outcome>>>, s: int, a: int)
    requires
        model_wf(m),
        0 <= s < m.len(),
        0 <= a < m[s].len(),
    ensures
        prob_sum(m[s][a]) == SCALE,
        forall|i: int| 0 <= i < m[s][a].len() ==> 0 <= (#[trigger] m[s][a][i]).prob <= SCALE,
{
    assert(dist_shape_ok(m[s][a]));
}

/// The state enumeration `0, 1, ..., n - 1` as a vector, shared by the
/// concrete environments' `states` implementations.
pub(crate) fn identity_states(n: usize) -> (r: Vec<usize>)
    ensures
        r@.len() == n,
        forall|i: int| 0 <= i < r@.len() ==> r@[i] == i,
{
    let mut r: Vec<usize> = Vec::new();
    let mut i: usize = 0;
    while i < n
        invariant
            i <= n,
            r@.len() == i,
            forall|j: int| 0 <= j < r@.len() ==> r@[j] == j,
        decreases n - i,
    {
        r.push(i);
        i = i + 1;
    }
    r
}

} // verus!
