//! The policy-iteration solver.
//!
//! `DPSolution::solve` validates the environment's transition model, then
//! alternates policy evaluation (Gauss-Seidel value sweeps until the largest
//! per-state change falls below the tolerance) and greedy policy improvement,
//! until the policy is stable or an iteration cap is hit.  Every step of the
//! algorithm is pinned down by the specification functions of this module, so
//! the returned tables are exactly the ones the specified algorithm computes.

use vstd::prelude::*;

use vstd::arithmetic::div_mod::{
    lemma_div_is_ordered, lemma_div_multiples_vanish, lemma_div_pos_is_pos,
};
use vstd::pervasive::VecAdditionalExecFns;
use vstd::pervasive::unreached;

use crate::dist_env::{
    DistEnv, Outcome, SCALE, REWARD_CAP, VALUE_CAP, tdiv, prob_sum, dist_nexts_ok, dist_shape_ok,
    model_nexts_ok, model_shape_ok, model_wf,
};

verus! {

/// Whether the solve run reached a stable policy before its caps ran out.
#[derive(Clone, Copy, PartialEq, Eq, Structural, Debug)]
pub enum SolveStatus {
    /// The policy-improvement step left the policy unchanged: the returned
    /// policy is greedy with respect to the returned values.
    Converged,
    /// An iteration cap was exhausted first: the returned tables are the
    /// best effort so far and must not be taken as optimal.
    NotConverged,
}

/// Why a solve run rejected its environment.
#[derive(Clone, Copy, PartialEq, Eq, Structural, Debug)]
pub enum SolveError {
    /// Some outcome names a next state outside the environment's enumeration.
    UnknownState,
    /// Some queried (state, action) pair is not legal.  The solver only ever
    /// queries legal pairs, so this is never returned by `solve` itself.
    UnknownStateAction,
    /// Some legal (state, action) pair carries a malformed distribution: no
    /// outcomes at all, a probability outside `[0, SCALE]`, a reward beyond
    /// `REWARD_CAP` in magnitude, or probabilities that do not sum to
    /// `SCALE`.
    MalformedDistribution,
}

/// The result of a solve run: the value table and the policy table, indexed
/// by state, and the convergence status.  `policy[s]` is `None` exactly for
/// the absorbing states (those with no legal action).
pub struct DPSolution {
    pub values: Vec<i64>,
    pub policy: Vec<Option<usize>>,
    pub status: SolveStatus,
}

// ------------------------------------------------------------------
// The mathematical model of the algorithm.
// ------------------------------------------------------------------

/// Every entry of the value table has magnitude at most `b`.
pub open spec fn vals_bounded(v: Seq<i64>, b: int) -> bool {
    forall|i: int| 0 <= i < v.len() ==> -b <= #[trigger] v[i] <= b
}

/// The policy table matches the environment: absorbing states have no entry,
/// every other state has a legal action.
pub open spec fn policy_wf(pol: Seq<Option<usize>>, m: Seq<Seq<Seq<Outcome>>>) -> bool {
    &&& pol.len() == m.len()
    &&& forall|s: int|
        0 <= s < m.len() ==> ((#[trigger] pol[s]) is None <==> m[s].len() == 0)
    &&& forall|s: int|
        0 <= s < m.len() && pol[s] is Some ==> ((#[trigger] pol[s])->0 as int) < m[s].len()
}

/// The contribution of one outcome before weighting: its reward plus the
/// discounted value of its next state.  All arithmetic is fixed-point with
/// truncating division, exactly as the executable code computes it.
pub open spec fn term_val(o: Outcome, v: Seq<i64>, gamma: int) -> int {
    o.reward + tdiv(gamma * v[o.next as int], SCALE as int)
}

/// The probability-weighted sum of the outcome contributions, before the
/// final division by `SCALE`.
pub open spec fn weighted_sum(os: Seq<Outcome>, v: Seq<i64>, gamma: int) -> int
    decreases os.len(),
{
    if os.len() == 0 {
        0
    } else {
        weighted_sum(os.drop_last(), v, gamma) + os.last().prob * term_val(os.last(), v, gamma)
    }
}

/// The action value `q(s, a)` under value table `v`: the expectation, over
/// the outcome distribution of `(s, a)`, of reward plus discounted next-state
/// value.
pub open spec fn q_val(
    m: Seq<Seq<Seq<Outcome>>>,
    v: Seq<i64>,
    gamma: int,
    s: int,
    a: int,
) -> int {
    tdiv(weighted_sum(m[s][a], v, gamma), SCALE as int)
}

/// The greedy action for state `s` among its first `k` actions: the one of
/// largest `q`, ties broken toward the action that comes first in the
/// enumeration.
pub open spec fn best_action(
    m: Seq<Seq<Seq<Outcome>>>,
    v: Seq<i64>,
    gamma: int,
    s: int,
    k: int,
) -> int
    decreases k,
{
    if k <= 1 {
        0
    } else {
        let b = best_action(m, v, gamma, s, k - 1);
        if q_val(m, v, gamma, s, k - 1) > q_val(m, v, gamma, s, b) {
            k - 1
        } else {
            b
        }
    }
}

/// The greedy policy with respect to value table `v`: for every state with
/// at least one legal action, the greedy action; for absorbing states, no
/// action.
pub open spec fn greedy_policy(
    m: Seq<Seq<Seq<Outcome>>>,
    v: Seq<i64>,
    gamma: int,
) -> Seq<Option<usize>> {
    Seq::new(
        m.len(),
        |s: int|
            if m[s].len() == 0 {
                None
            } else {
                Some(best_action(m, v, gamma, s, m[s].len() as int) as usize)
            },
    )
}

/// One Gauss-Seidel evaluation sweep over the first `k` states: each state's
/// value is replaced, in enumeration order, by the `q` of its policy action,
/// read against the table as already updated so far; absorbing states are
/// left untouched.
pub open spec fn sweep_upto(
    m: Seq<Seq<Seq<Outcome>>>,
    pol: Seq<Option<usize>>,
    v: Seq<i64>,
    gamma: int,
    k: int,
) -> Seq<i64>
    decreases k,
{
    if k <= 0 {
        v
    } else {
        let v1 = sweep_upto(m, pol, v, gamma, k - 1);
        match pol[k - 1] {
            Some(a) => v1.update(k - 1, q_val(m, v1, gamma, k - 1, a as int) as i64),
            None => v1,
        }
    }
}

/// One full evaluation sweep.
pub open spec fn sweep(
    m: Seq<Seq<Seq<Outcome>>>,
    pol: Seq<Option<usize>>,
    v: Seq<i64>,
    gamma: int,
) -> Seq<i64> {
    sweep_upto(m, pol, v, gamma, m.len() as int)
}

/// The magnitude of the difference of two table entries.
pub open spec fn abs_diff(a: i64, b: i64) -> int {
    if a >= b {
        a - b
    } else {
        b - a
    }
}

/// The largest per-state change between two value tables, over the first `k`
/// states: the `delta` that decides evaluation convergence.
pub open spec fn max_delta(v1: Seq<i64>, v2: Seq<i64>, k: int) -> int
    decreases k,
{
    if k <= 0 {
        0
    } else {
        let d = abs_diff(v1[k - 1], v2[k - 1]);
        let rest = max_delta(v1, v2, k - 1);
        if d > rest {
            d
        } else {
            rest
        }
    }
}

/// The evaluation phase: sweep until the largest change falls below `theta`
/// (converged) or `sweeps` sweeps have run (exhausted).  Yields the final
/// table and whether the phase converged.
pub open spec fn eval_phase(
    m: Seq<Seq<Seq<Outcome>>>,
    pol: Seq<Option<usize>>,
    v: Seq<i64>,
    gamma: int,
    theta: int,
    sweeps: nat,
) -> (Seq<i64>, bool)
    decreases sweeps,
{
    if sweeps == 0 {
        (v, false)
    } else {
        let v1 = sweep(m, pol, v, gamma);
        if max_delta(v, v1, m.len() as int) < theta {
            (v1, true)
        } else {
            eval_phase(m, pol, v1, gamma, theta, (sweeps - 1) as nat)
        }
    }
}

/// The initial policy: the first legal action of every non-absorbing state.
pub open spec fn init_policy(m: Seq<Seq<Seq<Outcome>>>) -> Seq<Option<usize>> {
    Seq::new(m.len(), |s: int| if m[s].len() == 0 { None } else { Some(0usize) })
}

/// The all-zero initial value table.
pub open spec fn zero_values(n: nat) -> Seq<i64> {
    Seq::new(n, |i: int| 0i64)
}

/// The policy-iteration loop with `iters` iterations left: evaluate, then
/// improve; stop converged when improvement leaves the policy unchanged,
/// stop exhausted when an evaluation phase fails to converge or the
/// iterations run out.  Yields the final value table, the final policy, and
/// whether the run converged.
pub open spec fn iterate(
    m: Seq<Seq<Seq<Outcome>>>,
    v: Seq<i64>,
    pol: Seq<Option<usize>>,
    gamma: int,
    theta: int,
    sweep_cap: nat,
    iters: nat,
) -> (Seq<i64>, Seq<Option<usize>>, bool)
    decreases iters,
{
    if iters == 0 {
        (v, pol, false)
    } else {
        let (v1, conv) = eval_phase(m, pol, v, gamma, theta, sweep_cap);
        if !conv {
            (v1, pol, false)
        } else {
            let pol1 = greedy_policy(m, v1, gamma);
            if pol1 == pol {
                (v1, pol1, true)
            } else {
                iterate(m, v1, pol1, gamma, theta, sweep_cap, (iters - 1) as nat)
            }
        }
    }
}

// ------------------------------------------------------------------
// Arithmetic bounds.
// ------------------------------------------------------------------

/// Truncating division shrinks: if `|x| <= b * d` then `|x / d| <= b`.
proof fn lemma_tdiv_mag(x: int, d: int, b: int)
    requires
        d >= 1,
        b >= 0,
        -(b * d) <= x <= b * d,
    ensures
        -b <= tdiv(x, d) <= b,
{
    if x >= 0 {
        lemma_div_pos_is_pos(x, d);
        lemma_div_is_ordered(x, b * d, d);
        assert(b * d == d * b) by (nonlinear_arith);
        lemma_div_multiples_vanish(b, d);
    } else {
        lemma_div_pos_is_pos(-x, d);
        lemma_div_is_ordered(-x, b * d, d);
        assert(b * d == d * b) by (nonlinear_arith);
        lemma_div_multiples_vanish(b, d);
    }
}

/// Discounting by `gamma <= SCALE` does not grow a value's magnitude.
proof fn lemma_discount_bound(gamma: int, x: int, b: int)
    requires
        0 <= gamma <= SCALE,
        b >= 0,
        -b <= x <= b,
    ensures
        -b <= tdiv(gamma * x, SCALE as int) <= b,
{
    assert(-(b * (SCALE as int)) <= gamma * x <= b * (SCALE as int)) by (nonlinear_arith)
        requires
            0 <= gamma <= SCALE,
            b >= 0,
            -b <= x <= b,
    ;
    lemma_tdiv_mag(gamma * x, SCALE as int, b);
}

/// The probabilities of any prefix of a nonnegative list sum to something
/// nonnegative.
proof fn lemma_prob_sum_nonneg(os: Seq<Outcome>)
    requires
        forall|i: int| 0 <= i < os.len() ==> (#[trigger] os[i]).prob >= 0,
    ensures
        prob_sum(os) >= 0,
    decreases os.len(),
{
    if os.len() > 0 {
        assert(forall|i: int|
            0 <= i < os.drop_last().len() ==> (#[trigger] os.drop_last()[i]).prob >= 0);
        lemma_prob_sum_nonneg(os.drop_last());
    }
}

/// Extending a prefix by one outcome adds that outcome's probability.
proof fn lemma_prob_sum_take_succ(os: Seq<Outcome>, i: int)
    requires
        0 <= i < os.len(),
    ensures
        prob_sum(os.take(i + 1)) == prob_sum(os.take(i)) + os[i].prob,
{
    assert(os.take(i + 1).drop_last() =~= os.take(i));
    assert(os.take(i + 1).last() == os[i]);
}

/// A prefix of a nonnegative list sums to at most the whole.
proof fn lemma_prob_sum_take_le(os: Seq<Outcome>, i: int)
    requires
        forall|j: int| 0 <= j < os.len() ==> (#[trigger] os[j]).prob >= 0,
        0 <= i <= os.len(),
    ensures
        prob_sum(os.take(i)) <= prob_sum(os),
    decreases os.len() - i,
{
    if i == os.len() {
        assert(os.take(i) =~= os);
    } else {
        lemma_prob_sum_take_succ(os, i);
        lemma_prob_sum_take_le(os, i + 1);
    }
}

/// Extending a prefix by one outcome adds that outcome's weighted term.
proof fn lemma_weighted_sum_take_succ(os: Seq<Outcome>, v: Seq<i64>, gamma: int, i: int)
    requires
        0 <= i < os.len(),
    ensures
        weighted_sum(os.take(i + 1), v, gamma) == weighted_sum(os.take(i), v, gamma) + os[i].prob
            * term_val(os[i], v, gamma),
{
    assert(os.take(i + 1).drop_last() =~= os.take(i));
    assert(os.take(i + 1).last() == os[i]);
}

// ------------------------------------------------------------------
// The executable solver.
// ------------------------------------------------------------------

/// Computes the action value `q(s, a)` in fixed point.  The ghost `bound`
/// carries the magnitude bound of the current value table; the result's
/// magnitude is at most `REWARD_CAP` more.
fn q_value<E: DistEnv>(
    env: &E,
    v: &Vec<i64>,
    gamma: i64,
    s: usize,
    a: usize,
    bound: Ghost<int>,
) -> (q: i64)
    requires
        model_wf(env.model()),
        s < env.model().len(),
        a < env.model()[s as int].len(),
        v@.len() == env.model().len(),
        vals_bounded(v@, bound@),
        0 <= bound@ <= VALUE_CAP,
        0 <= gamma <= SCALE,
    ensures
        q == q_val(env.model(), v@, gamma as int, s as int, a as int),
        -(REWARD_CAP + bound@) <= q <= REWARD_CAP + bound@,
{
    let ghost m = env.model();
    let ghost cap = REWARD_CAP + bound@;
    let os = match env.transition(s, a) {
        Ok(os) => os,
        Err(_) => unreached(),
    };
    proof {
        assert(dist_nexts_ok(m[s as int][a as int], m.len() as int));
        assert(dist_shape_ok(m[s as int][a as int]));
    }
    let mut acc: i128 = 0;
    let mut i: usize = 0;
    while i < os.len()
        invariant
            model_wf(m),
            m == env.model(),
            s < m.len(),
            a < m[s as int].len(),
            os@ == m[s as int][a as int],
            v@.len() == m.len(),
            vals_bounded(v@, bound@),
            0 <= bound@ <= VALUE_CAP,
            0 <= gamma <= SCALE,
            cap == REWARD_CAP + bound@,
            i <= os@.len(),
            acc == weighted_sum(os@.take(i as int), v@, gamma as int),
            -(prob_sum(os@.take(i as int)) * cap) <= acc <= prob_sum(os@.take(i as int)) * cap,
            prob_sum(os@.take(i as int)) <= SCALE,
        decreases os@.len() - i,
    {
        let ghost psum = prob_sum(os@.take(i as int));
        let o = os[i];
        proof {
            assert(o == os@[i as int]);
            assert(0 <= o.prob <= SCALE && -REWARD_CAP <= o.reward <= REWARD_CAP);
            assert(o.next < m.len());
            assert(-bound@ <= v@[o.next as int] <= bound@);
            lemma_prob_sum_nonneg(os@.take(i as int));
            assert(-((VALUE_CAP as int) * (SCALE as int)) <= (gamma as int) * (v@[
                o.next as int
            ] as int) <= (VALUE_CAP as int) * (SCALE as int)) by (nonlinear_arith)
                requires
                    0 <= gamma <= SCALE,
                    -VALUE_CAP <= v@[o.next as int] <= VALUE_CAP,
            ;
        }
        let disc: i128 = (gamma as i128) * (v[o.next] as i128) / (SCALE as i128);
        proof {
            lemma_discount_bound(gamma as int, v@[o.next as int] as int, bound@);
            assert(disc == tdiv((gamma as int) * (v@[o.next as int] as int), SCALE as int));
            assert(-bound@ <= disc <= bound@);
        }
        let term: i128 = (o.reward as i128) + disc;
        proof {
            assert(-cap <= term <= cap);
            assert(-((SCALE as int) * cap) <= (o.prob as int) * (term as int) <= (SCALE as int)
                * cap) by (nonlinear_arith)
                requires
                    0 <= o.prob <= SCALE,
                    -cap <= term <= cap,
                    cap >= 0,
            ;
            assert((SCALE as int) * cap <= (SCALE as int) * ((REWARD_CAP as int)
                + (VALUE_CAP as int))) by (nonlinear_arith)
                requires
                    0 <= cap <= REWARD_CAP + VALUE_CAP,
            ;
            assert(psum * cap <= (SCALE as int) * ((REWARD_CAP as int) + (VALUE_CAP as int)))
                by (nonlinear_arith)
                requires
                    0 <= psum <= SCALE,
                    0 <= cap <= REWARD_CAP + VALUE_CAP,
            ;
            lemma_prob_sum_take_succ(os@, i as int);
            lemma_weighted_sum_take_succ(os@, v@, gamma as int, i as int);
            assert(term as int == term_val(o, v@, gamma as int));
            assert(-((psum + o.prob) * cap) <= acc + (o.prob as int) * (term as int) <= (psum
                + o.prob) * cap) by (nonlinear_arith)
                requires
                    -(psum * cap) <= acc <= psum * cap,
                    0 <= o.prob,
                    -cap <= term <= cap,
                    cap >= 0,
            ;
            lemma_prob_sum_take_le(os@, i + 1);
        }
        acc = acc + (o.prob as i128) * term;
        i = i + 1;
    }
    proof {
        assert(os@.take(os@.len() as int) =~= os@);
        assert(prob_sum(os@) == SCALE);
        assert(acc == weighted_sum(m[s as int][a as int], v@, gamma as int));
        assert(-((cap) * (SCALE as int)) <= acc <= cap * (SCALE as int)) by (nonlinear_arith)
            requires
                -((SCALE as int) * cap) <= acc <= (SCALE as int) * cap,
        ;
        lemma_tdiv_mag(acc as int, SCALE as int, cap);
    }
    let q128: i128 = acc / (SCALE as i128);
    proof {
        assert(q128 == q_val(m, v@, gamma as int, s as int, a as int));
        assert(-cap <= q128 <= cap);
    }
    q128 as i64
}

/// The greedy action among the first `k` actions is one of them.
proof fn lemma_best_action_range(m: Seq<Seq<Seq<Outcome>>>, v: Seq<i64>, gamma: int, s: int, k: int)
    requires
        k >= 1,
    ensures
        0 <= best_action(m, v, gamma, s, k) < k,
    decreases k,
{
    if k > 1 {
        lemma_best_action_range(m, v, gamma, s, k - 1);
    }
}

/// The greedy policy is a well-formed policy.
proof fn lemma_greedy_policy_wf(m: Seq<Seq<Seq<Outcome>>>, v: Seq<i64>, gamma: int)
    ensures
        policy_wf(greedy_policy(m, v, gamma), m),
{
    let pol = greedy_policy(m, v, gamma);
    assert forall|s: int| 0 <= s < m.len() && pol[s] is Some implies ((#[trigger] pol[s])->0 as int)
        < m[s].len() by {
        lemma_best_action_range(m, v, gamma, s, m[s].len() as int);
    }
}

/// Computes the greedy policy with respect to the value table `v`.
fn improve<E: DistEnv>(env: &E, v: &Vec<i64>, gamma: i64, bound: Ghost<int>) -> (pol: Vec<
    Option<usize>,
>)
    requires
        model_wf(env.model()),
        v@.len() == env.model().len(),
        vals_bounded(v@, bound@),
        0 <= bound@ <= VALUE_CAP,
        0 <= gamma <= SCALE,
    ensures
        pol@ == greedy_policy(env.model(), v@, gamma as int),
        policy_wf(pol@, env.model()),
{
    let ghost m = env.model();
    let ghost target = greedy_policy(m, v@, gamma as int);
    let states = env.states();
    let n = states.len();
    let mut pol: Vec<Option<usize>> = Vec::new();
    let mut s: usize = 0;
    while s < n
        invariant
            model_wf(m),
            m == env.model(),
            target == greedy_policy(m, v@, gamma as int),
            n == m.len(),
            v@.len() == m.len(),
            vals_bounded(v@, bound@),
            0 <= bound@ <= VALUE_CAP,
            0 <= gamma <= SCALE,
            s <= n,
            pol@.len() == s,
            forall|j: int| 0 <= j < s ==> pol@[j] == target[j],
        decreases n - s,
    {
        let acts = match env.actions(s) {
            Ok(acts) => acts,
            Err(_) => unreached(),
        };
        let k = acts.len();
        if k == 0 {
            pol.push(None);
        } else {
            let mut best: usize = 0;
            let mut best_q: i64 = q_value(env, v, gamma, s, 0, bound);
            let mut a: usize = 1;
            while a < k
                invariant
                    model_wf(m),
                    m == env.model(),
                    s < m.len(),
                    k == m[s as int].len(),
                    v@.len() == m.len(),
                    vals_bounded(v@, bound@),
                    0 <= bound@ <= VALUE_CAP,
                    0 <= gamma <= SCALE,
                    1 <= a <= k,
                    best < a,
                    best as int == best_action(m, v@, gamma as int, s as int, a as int),
                    best_q == q_val(m, v@, gamma as int, s as int, best as int),
                decreases k - a,
            {
                let qa = q_value(env, v, gamma, s, a, bound);
                if qa > best_q {
                    best = a;
                    best_q = qa;
                }
                a = a + 1;
            }
            pol.push(Some(best));
        }
        s = s + 1;
    }
    proof {
        assert(pol@ =~= target);
        lemma_greedy_policy_wf(m, v@, gamma as int);
    }
    pol
}

/// `sweep_upto` changes only the states it has visited and keeps the
/// table's length.
proof fn lemma_sweep_upto_frame(
    m: Seq<Seq<Seq<Outcome>>>,
    pol: Seq<Option<usize>>,
    v: Seq<i64>,
    gamma: int,
    k: int,
)
    requires
        0 <= k <= v.len(),
    ensures
        sweep_upto(m, pol, v, gamma, k).len() == v.len(),
        forall|j: int| k <= j < v.len() ==> #[trigger] sweep_upto(m, pol, v, gamma, k)[j] == v[j],
    decreases k,
{
    if k == 0 {
        assert(sweep_upto(m, pol, v, gamma, k) == v);
    } else {
        lemma_sweep_upto_frame(m, pol, v, gamma, k - 1);
        let v1 = sweep_upto(m, pol, v, gamma, k - 1);
        match pol[k - 1] {
            Some(a) => {
                let q = q_val(m, v1, gamma, k - 1, a as int) as i64;
                assert(sweep_upto(m, pol, v, gamma, k) == v1.update(k - 1, q));
            },
            None => {
                assert(sweep_upto(m, pol, v, gamma, k) == v1);
            },
        }
        assert forall|j: int| k <= j < v.len() implies #[trigger] sweep_upto(m, pol, v, gamma, k)[j]
            == v[j] by {
            assert(v1[j] == v[j]);
        }
    }
}

/// `max_delta` only reads the first `k` entries of its second table.
proof fn lemma_max_delta_agree(v1: Seq<i64>, v2a: Seq<i64>, v2b: Seq<i64>, k: int)
    requires
        forall|j: int| 0 <= j < k ==> v2a[j] == v2b[j],
    ensures
        max_delta(v1, v2a, k) == max_delta(v1, v2b, k),
    decreases (if k >= 0 { k } else { 0 }),
{
    if k > 0 {
        lemma_max_delta_agree(v1, v2a, v2b, k - 1);
    }
}

/// `max_delta` is never negative.
proof fn lemma_max_delta_nonneg(v1: Seq<i64>, v2: Seq<i64>, k: int)
    ensures
        max_delta(v1, v2, k) >= 0,
    decreases (if k >= 0 { k } else { 0 }),
{
    if k > 0 {
        lemma_max_delta_nonneg(v1, v2, k - 1);
    }
}

/// Multiplying both sides of `a <= b` by a nonnegative factor.
proof fn lemma_mul_mono(a: int, b: int, c: int)
    requires
        a <= b,
        c >= 0,
    ensures
        a * c <= b * c,
{
    assert(a * c <= b * c) by (nonlinear_arith)
        requires
            a <= b,
            c >= 0,
    ;
}

/// Runs one Gauss-Seidel sweep in place and reports the largest per-state
/// change.  Values grow by at most `REWARD_CAP` per state visited.
fn sweep_values<E: DistEnv>(
    env: &E,
    pol: &Vec<Option<usize>>,
    v: &mut Vec<i64>,
    gamma: i64,
    bound: Ghost<int>,
) -> (delta: i128)
    requires
        model_wf(env.model()),
        policy_wf(pol@, env.model()),
        old(v)@.len() == env.model().len(),
        vals_bounded(old(v)@, bound@),
        0 <= bound@,
        bound@ + (env.model().len() as int) * (REWARD_CAP as int) <= VALUE_CAP,
        0 <= gamma <= SCALE,
    ensures
        final(v)@ == sweep(env.model(), pol@, old(v)@, gamma as int),
        final(v)@.len() == old(v)@.len(),
        vals_bounded(final(v)@, bound@ + (env.model().len() as int) * (REWARD_CAP as int)),
        delta == max_delta(old(v)@, final(v)@, env.model().len() as int),
{
    let ghost m = env.model();
    let ghost v0 = v@;
    let ghost n_int = m.len() as int;
    let states = env.states();
    let n = states.len();
    let mut dmax: i128 = 0;
    let mut s: usize = 0;
    while s < n
        invariant
            model_wf(m),
            m == env.model(),
            policy_wf(pol@, m),
            n == m.len(),
            n_int == n as int,
            v@.len() == n,
            v@ == sweep_upto(m, pol@, v0, gamma as int, s as int),
            v0.len() == n,
            vals_bounded(v0, bound@),
            vals_bounded(v@, bound@ + (s as int) * (REWARD_CAP as int)),
            0 <= bound@,
            bound@ + n_int * (REWARD_CAP as int) <= VALUE_CAP,
            0 <= gamma <= SCALE,
            s <= n,
            dmax == max_delta(v0, v@, s as int),
            dmax >= 0,
        decreases n - s,
    {
        let ghost pre = v@;
        let ghost bnd = bound@ + (s as int) * (REWARD_CAP as int);
        proof {
            lemma_mul_mono(s as int, n_int, REWARD_CAP as int);
            assert((s as int) * (REWARD_CAP as int) <= n_int * (REWARD_CAP as int));
            lemma_sweep_upto_frame(m, pol@, v0, gamma as int, s as int);
            assert(v@[s as int] == v0[s as int]);
        }
        let old_val = v[s];
        let mut new_val = old_val;
        match pol[s] {
            Some(a) => {
                new_val = q_value(env, v, gamma, s, a, Ghost(bnd));
                proof {
                    assert((s as int + 1) * (REWARD_CAP as int) == (s as int) * (REWARD_CAP as int)
                        + (REWARD_CAP as int)) by (nonlinear_arith);
                }
                v.set(s, new_val);
            },
            None => {},
        }
        proof {
            let snext = s as int + 1;
            assert(v@ =~= sweep_upto(m, pol@, v0, gamma as int, snext));
            assert(vals_bounded(v@, bound@ + snext * (REWARD_CAP as int))) by {
                assert((s as int) * (REWARD_CAP as int) + (REWARD_CAP as int) == snext * (
                REWARD_CAP as int)) by (nonlinear_arith)
                    requires
                        snext == s as int + 1,
                ;
            }
            lemma_max_delta_agree(v0, pre, v@, s as int);
            assert(max_delta(v0, v@, snext) == (if abs_diff(v0[s as int], v@[s as int]) > max_delta(
                v0,
                v@,
                s as int,
            ) {
                abs_diff(v0[s as int], v@[s as int])
            } else {
                max_delta(v0, v@, s as int)
            }));
        }
        let d: i128 = (new_val as i128) - (old_val as i128);
        let d_abs: i128 = if d < 0 {
            -d
        } else {
            d
        };
        if d_abs > dmax {
            dmax = d_abs;
        }
        s = s + 1;
    }
    proof {
        assert(v@ == sweep(m, pol@, v0, gamma as int));
    }
    dmax
}

/// Runs evaluation sweeps until the largest change drops below `theta` or
/// `max_sweeps` sweeps have run, and reports whether the phase converged.
fn evaluate<E: DistEnv>(
    env: &E,
    pol: &Vec<Option<usize>>,
    v: &mut Vec<i64>,
    gamma: i64,
    theta: i64,
    max_sweeps: usize,
    bound: Ghost<int>,
) -> (converged: bool)
    requires
        model_wf(env.model()),
        policy_wf(pol@, env.model()),
        old(v)@.len() == env.model().len(),
        vals_bounded(old(v)@, bound@),
        0 <= bound@,
        bound@ + (max_sweeps as int) * (env.model().len() as int) * (REWARD_CAP as int)
            <= VALUE_CAP,
        0 <= gamma <= SCALE,
        theta >= 1,
    ensures
        (final(v)@, converged) == eval_phase(
            env.model(),
            pol@,
            old(v)@,
            gamma as int,
            theta as int,
            max_sweeps as nat,
        ),
        final(v)@.len() == env.model().len(),
        vals_bounded(
            final(v)@,
            bound@ + (max_sweeps as int) * (env.model().len() as int) * (REWARD_CAP as int),
        ),
{
    let ghost m = env.model();
    let ghost v0 = v@;
    let ghost n_int = m.len() as int;
    let ghost r_int = REWARD_CAP as int;
    let ghost full = bound@ + (max_sweeps as int) * n_int * r_int;
    let mut j: usize = 0;
    while j < max_sweeps
        invariant
            model_wf(m),
            m == env.model(),
            policy_wf(pol@, m),
            n_int == m.len() as int,
            r_int == REWARD_CAP as int,
            v0 == old(v)@,
            v@.len() == m.len(),
            vals_bounded(v@, bound@ + (j as int) * n_int * r_int),
            0 <= bound@,
            0 <= j <= max_sweeps,
            full == bound@ + (max_sweeps as int) * n_int * r_int,
            full <= VALUE_CAP,
            0 <= gamma <= SCALE,
            theta >= 1,
            eval_phase(m, pol@, v0, gamma as int, theta as int, max_sweeps as nat) == eval_phase(
                m,
                pol@,
                v@,
                gamma as int,
                theta as int,
                (max_sweeps - j) as nat,
            ),
        decreases max_sweeps - j,
    {
        let ghost pre = v@;
        let ghost bnd = bound@ + (j as int) * n_int * r_int;
        proof {
            assert(bnd + n_int * r_int <= full) by (nonlinear_arith)
                requires
                    bnd == bound@ + (j as int) * n_int * r_int,
                    full == bound@ + (max_sweeps as int) * n_int * r_int,
                    (j as int) < (max_sweeps as int),
                    n_int >= 0,
                    r_int >= 0,
            ;
            lemma_max_delta_nonneg(pre, sweep(m, pol@, pre, gamma as int), n_int);
        }
        let delta = sweep_values(env, pol, v, gamma, Ghost(bnd));
        proof {
            assert(vals_bounded(v@, bnd + n_int * r_int));
            assert(bnd + n_int * r_int == bound@ + ((j as int) + 1) * n_int * r_int)
                by (nonlinear_arith)
                requires
                    bnd == bound@ + (j as int) * n_int * r_int,
            ;
        }
        if delta < (theta as i128) {
            proof {
                assert(eval_phase(m, pol@, pre, gamma as int, theta as int, (max_sweeps - j) as nat)
                    == (v@, true));
            }
            return true;
        }
        proof {
            assert(eval_phase(m, pol@, pre, gamma as int, theta as int, (max_sweeps - j) as nat)
                == eval_phase(m, pol@, v@, gamma as int, theta as int, (max_sweeps - j - 1) as nat));
        }
        j = j + 1;
    }
    proof {
        assert(eval_phase(m, pol@, v@, gamma as int, theta as int, 0) == (v@, false));
    }
    false
}

/// The all-zero value table of length `n`.
fn initial_values(n: usize) -> (v: Vec<i64>)
    ensures
        v@ == zero_values(n as nat),
        vals_bounded(v@, 0),
{
    let mut v: Vec<i64> = Vec::new();
    let mut i: usize = 0;
    while i < n
        invariant
            i <= n,
            v@.len() == i,
            forall|j: int| 0 <= j < i ==> v@[j] == 0i64,
        decreases n - i,
    {
        v.push(0i64);
        i = i + 1;
    }
    proof {
        assert(v@ =~= zero_values(n as nat));
    }
    v
}

/// The initial policy: the first legal action of every non-absorbing state.
fn initial_policy<E: DistEnv>(env: &E) -> (pol: Vec<Option<usize>>)
    ensures
        pol@ == init_policy(env.model()),
        policy_wf(pol@, env.model()),
{
    let ghost m = env.model();
    let states = env.states();
    let n = states.len();
    let mut pol: Vec<Option<usize>> = Vec::new();
    let mut s: usize = 0;
    while s < n
        invariant
            m == env.model(),
            n == m.len(),
            s <= n,
            pol@.len() == s,
            forall|j: int| 0 <= j < s ==> pol@[j] == init_policy(m)[j],
        decreases n - s,
    {
        let acts = match env.actions(s) {
            Ok(acts) => acts,
            Err(_) => unreached(),
        };
        if acts.len() == 0 {
            pol.push(None);
        } else {
            pol.push(Some(0usize));
        }
        s = s + 1;
    }
    proof {
        assert(pol@ =~= init_policy(m));
    }
    pol
}

/// Entry-by-entry equality of two policy tables.
fn policies_equal(p1: &Vec<Option<usize>>, p2: &Vec<Option<usize>>) -> (r: bool)
    ensures
        r <==> p1@ == p2@,
{
    if p1.len() != p2.len() {
        return false;
    }
    let n = p1.len();
    let mut i: usize = 0;
    while i < n
        invariant
            n == p1@.len(),
            n == p2@.len(),
            i <= n,
            forall|j: int| 0 <= j < i ==> p1@[j] == p2@[j],
        decreases n - i,
    {
        let same = match (p1[i], p2[i]) {
            (None, None) => true,
            (Some(a), Some(b)) => a == b,
            _ => false,
        };
        if !same {
            proof {
                assert(p1@[i as int] != p2@[i as int]);
            }
            return false;
        }
        i = i + 1;
    }
    proof {
        assert(p1@ =~= p2@);
    }
    true
}

/// Checks that every outcome of every legal (state, action) pair names a
/// known next state.
fn validate_nexts<E: DistEnv>(env: &E) -> (r: bool)
    ensures
        r <==> model_nexts_ok(env.model()),
{
    let ghost m = env.model();
    let states = env.states();
    let n = states.len();
    let mut s: usize = 0;
    while s < n
        invariant
            m == env.model(),
            n == m.len(),
            s <= n,
            forall|s2: int, a2: int|
                0 <= s2 < s && 0 <= a2 < m[s2].len() ==> dist_nexts_ok(
                    #[trigger] m[s2][a2],
                    m.len() as int,
                ),
        decreases n - s,
    {
        let acts = match env.actions(s) {
            Ok(acts) => acts,
            Err(_) => unreached(),
        };
        let k = acts.len();
        let mut a: usize = 0;
        while a < k
            invariant
                m == env.model(),
                n == m.len(),
                s < n,
                k == m[s as int].len(),
                a <= k,
                forall|a2: int|
                    0 <= a2 < a ==> dist_nexts_ok(#[trigger] m[s as int][a2], m.len() as int),
            decreases k - a,
        {
            let os = match env.transition(s, a) {
                Ok(os) => os,
                Err(_) => unreached(),
            };
            let cnt = os.len();
            let mut i: usize = 0;
            while i < cnt
                invariant
                    m == env.model(),
                    n == m.len(),
                    s < n,
                    a < m[s as int].len(),
                    os@ == m[s as int][a as int],
                    cnt == os@.len(),
                    i <= cnt,
                    forall|i2: int| 0 <= i2 < i ==> (#[trigger] os@[i2]).next < n,
                decreases cnt - i,
            {
                if os[i].next >= n {
                    proof {
                        assert(!dist_nexts_ok(m[s as int][a as int], m.len() as int));
                        assert(!model_nexts_ok(m));
                    }
                    return false;
                }
                i = i + 1;
            }
            proof {
                assert(dist_nexts_ok(m[s as int][a as int], m.len() as int));
            }
            a = a + 1;
        }
        s = s + 1;
    }
    true
}

/// Checks that every legal (state, action) pair carries a well-shaped
/// distribution: non-empty, probabilities in `[0, SCALE]` summing exactly to
/// `SCALE`, rewards within `REWARD_CAP`.
fn validate_shapes<E: DistEnv>(env: &E) -> (r: bool)
    ensures
        r <==> model_shape_ok(env.model()),
{
    let ghost m = env.model();
    let states = env.states();
    let n = states.len();
    let mut s: usize = 0;
    while s < n
        invariant
            m == env.model(),
            n == m.len(),
            s <= n,
            forall|s2: int, a2: int|
                0 <= s2 < s && 0 <= a2 < m[s2].len() ==> dist_shape_ok(#[trigger] m[s2][a2]),
        decreases n - s,
    {
        let acts = match env.actions(s) {
            Ok(acts) => acts,
            Err(_) => unreached(),
        };
        let k = acts.len();
        let mut a: usize = 0;
        while a < k
            invariant
                m == env.model(),
                n == m.len(),
                s < n,
                k == m[s as int].len(),
                a <= k,
                forall|a2: int| 0 <= a2 < a ==> dist_shape_ok(#[trigger] m[s as int][a2]),
            decreases k - a,
        {
            let os = match env.transition(s, a) {
                Ok(os) => os,
                Err(_) => unreached(),
            };
            let ghost osq = m[s as int][a as int];
            let cnt = os.len();
            if cnt == 0 {
                proof {
                    assert(!dist_shape_ok(osq));
                }
                return false;
            }
            let mut sum: i64 = 0;
            let mut i: usize = 0;
            while i < cnt
                invariant
                    m == env.model(),
                    n == m.len(),
                    s < n,
                    a < m[s as int].len(),
                    osq == m[s as int][a as int],
                    os@ == osq,
                    cnt == os@.len(),
                    i <= cnt,
                    forall|i2: int| 0 <= i2 < i ==> 0 <= (#[trigger] os@[i2]).prob <= SCALE,
                    forall|i2: int|
                        0 <= i2 < i ==> -REWARD_CAP <= (#[trigger] os@[i2]).reward <= REWARD_CAP,
                    sum == prob_sum(os@.take(i as int)),
                    0 <= sum <= SCALE,
                decreases cnt - i,
            {
                let o = os[i];
                if o.prob < 0 || o.prob > SCALE {
                    proof {
                        assert(!dist_shape_ok(osq));
                    }
                    return false;
                }
                if o.reward < -REWARD_CAP || o.reward > REWARD_CAP {
                    proof {
                        assert(!dist_shape_ok(osq));
                    }
                    return false;
                }
                proof {
                    lemma_prob_sum_take_succ(os@, i as int);
                }
                let newsum = sum + o.prob;
                if newsum > SCALE {
                    proof {
                        assert(!dist_shape_ok(osq)) by {
                            if dist_shape_ok(osq) {
                                lemma_prob_sum_take_le(osq, i as int + 1);
                            }
                        }
                    }
                    return false;
                }
                sum = newsum;
                i = i + 1;
            }
            if sum != SCALE {
                proof {
                    assert(os@.take(cnt as int) =~= os@);
                    assert(!dist_shape_ok(osq));
                }
                return false;
            }
            proof {
                assert(os@.take(cnt as int) =~= os@);
                assert(dist_shape_ok(osq));
            }
            a = a + 1;
        }
        s = s + 1;
    }
    true
}

impl DPSolution {
    /// Computes the action value `q(s, a)` of a legal (state, action) pair
    /// under a given value table, exactly as the solver computes it during
    /// evaluation and improvement.
    pub fn action_value<E: DistEnv>(
        env: &E,
        values: &Vec<i64>,
        gamma: i64,
        s: usize,
        a: usize,
    ) -> (q: i64)
        requires
            model_wf(env.model()),
            s < env.model().len(),
            a < env.model()[s as int].len(),
            values@.len() == env.model().len(),
            vals_bounded(values@, VALUE_CAP as int),
            0 <= gamma <= SCALE,
        ensures
            q == q_val(env.model(), values@, gamma as int, s as int, a as int),
    {
        q_value(env, values, gamma, s, a, Ghost(VALUE_CAP as int))
    }

    /// Solves the environment by policy iteration.
    ///
    /// The run first validates the whole transition model and fails fast on a
    /// defective one: `UnknownState` when some outcome names a state outside
    /// the enumeration, otherwise `MalformedDistribution` when some legal
    /// (state, action) pair has an empty outcome list, a probability outside
    /// `[0, SCALE]`, a reward beyond `REWARD_CAP` in magnitude, or
    /// probabilities that do not sum exactly to `SCALE`.  On a well-formed
    /// model it returns, without fail, exactly the tables that the specified
    /// algorithm (`iterate`, starting from the all-zero value table and the
    /// first-action policy) computes, with status `Converged` exactly when
    /// the policy became stable before the caps ran out; a `Converged`
    /// policy is greedy with respect to the returned values.
    ///
    /// The arithmetic precondition keeps every intermediate fixed-point value
    /// within `i64` range: each evaluation sweep can grow a value by at most
    /// `REWARD_CAP` per state.
    pub fn solve<E: DistEnv>(
        env: &E,
        gamma: i64,
        theta: i64,
        max_evaluation_sweeps: usize,
        max_policy_iterations: usize,
    ) -> (r: Result<DPSolution, SolveError>)
        requires
            env.model().len() >= 1,
            0 <= gamma <= SCALE,
            theta >= 1,
            (max_policy_iterations as int) * (max_evaluation_sweeps as int) * (
            env.model().len() as int) * (REWARD_CAP as int) <= VALUE_CAP,
        ensures
            r is Ok <==> model_wf(env.model()),
            r == Err::<DPSolution, SolveError>(SolveError::UnknownState) <==> !model_nexts_ok(
                env.model(),
            ),
            r == Err::<DPSolution, SolveError>(SolveError::MalformedDistribution) <==> (
            model_nexts_ok(env.model()) && !model_shape_ok(env.model())),
            r matches Ok(sol) ==> {
                let (vf, pf, conv) = iterate(
                    env.model(),
                    zero_values(env.model().len()),
                    init_policy(env.model()),
                    gamma as int,
                    theta as int,
                    max_evaluation_sweeps as nat,
                    max_policy_iterations as nat,
                );
                &&& sol.values@ == vf
                &&& sol.policy@ == pf
                &&& (sol.status == SolveStatus::Converged <==> conv)
            },
            r matches Ok(sol) ==> sol.values@.len() == env.model().len() && policy_wf(
                sol.policy@,
                env.model(),
            ),
            r matches Ok(sol) ==> (sol.status == SolveStatus::Converged ==> sol.policy@
                == greedy_policy(env.model(), sol.values@, gamma as int)),
    {
        let ghost m = env.model();
        if !validate_nexts(env) {
            return Err(SolveError::UnknownState);
        }
        if !validate_shapes(env) {
            return Err(SolveError::MalformedDistribution);
        }
        let ghost n_int = m.len() as int;
        let ghost r_int = REWARD_CAP as int;
        let ghost step = (max_evaluation_sweeps as int) * n_int * r_int;
        proof {
            assert(step >= 0) by (nonlinear_arith)
                requires
                    step == (max_evaluation_sweeps as int) * n_int * r_int,
                    max_evaluation_sweeps as int >= 0,
                    n_int >= 0,
                    r_int > 0,
            ;
            assert((max_policy_iterations as int) * step <= VALUE_CAP) by (nonlinear_arith)
                requires
                    step == (max_evaluation_sweeps as int) * n_int * r_int,
                    (max_policy_iterations as int) * (max_evaluation_sweeps as int) * n_int * r_int
                        <= VALUE_CAP,
            ;
        }
        let states = env.states();
        let n = states.len();
        let mut values = initial_values(n);
        let mut policy = initial_policy(env);
        let ghost v0 = values@;
        let ghost pol0 = policy@;
        let mut it: usize = 0;
        while it < max_policy_iterations
            invariant
                model_wf(m),
                m == env.model(),
                n == m.len(),
                n_int == m.len() as int,
                r_int == REWARD_CAP as int,
                step == (max_evaluation_sweeps as int) * n_int * r_int,
                step >= 0,
                0 <= gamma <= SCALE,
                theta >= 1,
                (max_policy_iterations as int) * step <= VALUE_CAP,
                it <= max_policy_iterations,
                values@.len() == n,
                vals_bounded(values@, (it as int) * step),
                policy_wf(policy@, m),
                v0 == zero_values(m.len()),
                pol0 == init_policy(m),
                iterate(
                    m,
                    v0,
                    pol0,
                    gamma as int,
                    theta as int,
                    max_evaluation_sweeps as nat,
                    max_policy_iterations as nat,
                ) == iterate(
                    m,
                    values@,
                    policy@,
                    gamma as int,
                    theta as int,
                    max_evaluation_sweeps as nat,
                    (max_policy_iterations - it) as nat,
                ),
            decreases max_policy_iterations - it,
        {
            let ghost pre = values@;
            let ghost prepol = policy@;
            let ghost bnd = (it as int) * step;
            proof {
                assert(bnd + step == ((it as int) + 1) * step) by (nonlinear_arith)
                    requires
                        bnd == (it as int) * step,
                ;
                assert(((it as int) + 1) * step <= (max_policy_iterations as int) * step)
                    by (nonlinear_arith)
                    requires
                        (it as int) + 1 <= max_policy_iterations as int,
                        step >= 0,
                ;
                assert(bnd >= 0) by (nonlinear_arith)
                    requires
                        bnd == (it as int) * step,
                        it as int >= 0,
                        step >= 0,
                ;
            }
            let converged = evaluate(
                env,
                &policy,
                &mut values,
                gamma,
                theta,
                max_evaluation_sweeps,
                Ghost(bnd),
            );
            if !converged {
                proof {
                    assert(iterate(
                        m,
                        pre,
                        prepol,
                        gamma as int,
                        theta as int,
                        max_evaluation_sweeps as nat,
                        (max_policy_iterations - it) as nat,
                    ) == (values@, prepol, false));
                }
                return Ok(
                    DPSolution { values, policy, status: SolveStatus::NotConverged },
                );
            }
            let newpol = improve(env, &values, gamma, Ghost(bnd + step));
            let stable = policies_equal(&policy, &newpol);
            if stable {
                proof {
                    assert(iterate(
                        m,
                        pre,
                        prepol,
                        gamma as int,
                        theta as int,
                        max_evaluation_sweeps as nat,
                        (max_policy_iterations - it) as nat,
                    ) == (values@, newpol@, true));
                }
                return Ok(DPSolution { values, policy: newpol, status: SolveStatus::Converged });
            }
            proof {
                assert(iterate(
                    m,
                    pre,
                    prepol,
                    gamma as int,
                    theta as int,
                    max_evaluation_sweeps as nat,
                    (max_policy_iterations - it) as nat,
                ) == iterate(
                    m,
                    values@,
                    newpol@,
                    gamma as int,
                    theta as int,
                    max_evaluation_sweeps as nat,
                    (max_policy_iterations - it - 1) as nat,
                ));
            }
            policy = newpol;
            it = it + 1;
        }
        proof {
            assert(iterate(
                m,
                values@,
                policy@,
                gamma as int,
                theta as int,
                max_evaluation_sweeps as nat,
                0,
            ) == (values@, policy@, false));
        }
        Ok(DPSolution { values, policy, status: SolveStatus::NotConverged })
    }
}

// ------------------------------------------------------------------
// Laws of the algorithm.
// ------------------------------------------------------------------

/// The greedy action's `q` is at least the `q` of any of the first `k`
/// actions.
proof fn lemma_best_action_is_max(
    m: Seq<Seq<Seq<Outcome>>>,
    v: Seq<i64>,
    gamma: int,
    s: int,
    k: int,
    a: int,
)
    requires
        1 <= k,
        0 <= a < k,
    ensures
        q_val(m, v, gamma, s, best_action(m, v, gamma, s, k)) >= q_val(m, v, gamma, s, a),
    decreases k,
{
    if k > 1 && a < k - 1 {
        lemma_best_action_is_max(m, v, gamma, s, k - 1, a);
    }
}

/// Policy improvement never decreases any state's action value: at every
/// state where the previous policy chose an action, the greedy policy's
/// choice has at least that action's `q` under the current value table.
pub proof fn lemma_policy_improvement(
    m: Seq<Seq<Seq<Outcome>>>,
    v: Seq<i64>,
    gamma: int,
    old_pol: Seq<Option<usize>>,
    s: int,
)
    requires
        policy_wf(old_pol, m),
        0 <= s < m.len(),
        m[s].len() <= usize::MAX,
        old_pol[s] is Some,
    ensures
        greedy_policy(m, v, gamma)[s] is Some,
        q_val(m, v, gamma, s, (greedy_policy(m, v, gamma)[s]->0) as int) >= q_val(
            m,
            v,
            gamma,
            s,
            (old_pol[s]->0) as int,
        ),
{
    let k = m[s].len() as int;
    lemma_best_action_range(m, v, gamma, s, k);
    let best = best_action(m, v, gamma, s, k);
    assert((best as usize) as int == best);
    assert(greedy_policy(m, v, gamma)[s] == Some(best as usize));
    lemma_best_action_is_max(m, v, gamma, s, k, (old_pol[s]->0) as int);
}

/// Policy improvement is idempotent: improving a policy that is already
/// stable (greedy with respect to the current value table) yields the
/// identical policy, because the greedy choice, with its deterministic
/// earliest-action tie-break, depends only on the model and the values.
pub proof fn lemma_improvement_idempotent(
    m: Seq<Seq<Seq<Outcome>>>,
    v: Seq<i64>,
    gamma: int,
    pol: Seq<Option<usize>>,
)
    requires
        pol == greedy_policy(m, v, gamma),
    ensures
        greedy_policy(m, v, gamma) == pol,
{
}

/// Two identical tables are at distance zero.
proof fn lemma_max_delta_self(v: Seq<i64>, k: int)
    ensures
        max_delta(v, v, k) == 0,
    decreases (if k >= 0 { k } else { 0 }),
{
    if k > 0 {
        lemma_max_delta_self(v, k - 1);
    }
}

/// Once an evaluation sweep leaves every value unchanged, every further
/// sweep returns the same table, so the sweep-to-sweep change stays at zero
/// from then on.
pub proof fn lemma_sweep_fixed_point(
    m: Seq<Seq<Seq<Outcome>>>,
    pol: Seq<Option<usize>>,
    v: Seq<i64>,
    gamma: int,
)
    requires
        sweep(m, pol, v, gamma) == v,
    ensures
        sweep(m, pol, sweep(m, pol, v, gamma), gamma) == v,
        max_delta(v, sweep(m, pol, v, gamma), m.len() as int) == 0,
{
    lemma_max_delta_self(v, m.len() as int);
}

/// A sweep never touches a state whose policy entry is empty.
proof fn lemma_sweep_upto_preserves_none(
    m: Seq<Seq<Seq<Outcome>>>,
    pol: Seq<Option<usize>>,
    v: Seq<i64>,
    gamma: int,
    k: int,
    s: int,
)
    requires
        0 <= s < v.len(),
        0 <= k <= v.len(),
        pol[s] is None,
    ensures
        sweep_upto(m, pol, v, gamma, k)[s] == v[s],
    decreases k,
{
    if k > 0 {
        lemma_sweep_upto_preserves_none(m, pol, v, gamma, k - 1, s);
        lemma_sweep_upto_frame(m, pol, v, gamma, k - 1);
    }
}

/// The evaluation phase preserves the table's length.
proof fn lemma_eval_phase_len(
    m: Seq<Seq<Seq<Outcome>>>,
    pol: Seq<Option<usize>>,
    v: Seq<i64>,
    gamma: int,
    theta: int,
    sweeps: nat,
)
    requires
        v.len() == m.len(),
    ensures
        eval_phase(m, pol, v, gamma, theta, sweeps).0.len() == m.len(),
    decreases sweeps,
{
    if sweeps != 0 {
        lemma_sweep_upto_frame(m, pol, v, gamma, m.len() as int);
        lemma_eval_phase_len(m, pol, sweep(m, pol, v, gamma), gamma, theta, (sweeps - 1) as nat);
    }
}

/// The whole evaluation phase never touches a state whose policy entry is
/// empty.
proof fn lemma_eval_phase_preserves_none(
    m: Seq<Seq<Seq<Outcome>>>,
    pol: Seq<Option<usize>>,
    v: Seq<i64>,
    gamma: int,
    theta: int,
    sweeps: nat,
    s: int,
)
    requires
        v.len() == m.len(),
        0 <= s < m.len(),
        pol[s] is None,
    ensures
        eval_phase(m, pol, v, gamma, theta, sweeps).0[s] == v[s],
    decreases sweeps,
{
    if sweeps != 0 {
        lemma_sweep_upto_preserves_none(m, pol, v, gamma, m.len() as int, s);
        lemma_sweep_upto_frame(m, pol, v, gamma, m.len() as int);
        lemma_eval_phase_preserves_none(
            m,
            pol,
            sweep(m, pol, v, gamma),
            gamma,
            theta,
            (sweeps - 1) as nat,
            s,
        );
    }
}

/// An absorbing state (one with no legal action) keeps its value through the
/// whole run, and the final policy assigns it no action: neither sweeps nor
/// improvements ever touch it.
pub proof fn lemma_iterate_absorbing(
    m: Seq<Seq<Seq<Outcome>>>,
    v: Seq<i64>,
    pol: Seq<Option<usize>>,
    gamma: int,
    theta: int,
    sweep_cap: nat,
    iters: nat,
    s: int,
)
    requires
        policy_wf(pol, m),
        v.len() == m.len(),
        0 <= s < m.len(),
        m[s].len() == 0,
    ensures
        iterate(m, v, pol, gamma, theta, sweep_cap, iters).0[s] == v[s],
        iterate(m, v, pol, gamma, theta, sweep_cap, iters).1[s] is None,
    decreases iters,
{
    if iters != 0 {
        lemma_eval_phase_preserves_none(m, pol, v, gamma, theta, sweep_cap, s);
        lemma_eval_phase_len(m, pol, v, gamma, theta, sweep_cap);
        let v1 = eval_phase(m, pol, v, gamma, theta, sweep_cap).0;
        let conv = eval_phase(m, pol, v, gamma, theta, sweep_cap).1;
        if conv {
            let pol1 = greedy_policy(m, v1, gamma);
            lemma_greedy_policy_wf(m, v1, gamma);
            if pol1 != pol {
                lemma_iterate_absorbing(m, v1, pol1, gamma, theta, sweep_cap, (iters - 1) as nat, s);
            }
        }
    }
}

} // verus!
