//! The two ways of scoring a freshly reached state: a bounded random playout
//! and a shallow negamax lookahead. Both score the state for the side to move.

use vstd::prelude::*;
use rand::rngs::StdRng;
use crate::env::{Action, Env, MAX_VALUE};
use crate::outside::random_below;

verus! {

/// Longest random playout, in plies; a playout cut short scores as a draw.
pub const ROLLOUT_DEPTH: u64 = 400;

/// Depth of the negamax lookahead, in plies.
pub const MINIMAX_DEPTH: u64 = 2;

/// How a newly expanded node is scored.
#[derive(Clone, Copy, Debug, PartialEq, Eq, Structural)]
pub enum Evaluator {
    /// A random playout of at most `ROLLOUT_DEPTH` plies.
    Rollout,
    /// A negamax search `MINIMAX_DEPTH` plies deep; unfinished lines score 0.
    Minimax,
}

/// The state reached from `start` by playing `line` in order.
pub open spec fn play<E: Env>(start: E, line: Seq<Action>) -> E
    decreases line.len(),
{
    if line.len() == 0 {
        start
    } else {
        play(start, line.drop_last()).after_spec(line.last())
    }
}

/// Whether each move of `line` is legal where it is made, and made before
/// the game is over.
pub open spec fn legal_line<E: Env>(start: E, line: Seq<Action>) -> bool
    decreases line.len(),
{
    if line.len() == 0 {
        true
    } else {
        let before = play(start, line.drop_last());
        legal_line(start, line.drop_last()) && !before.over_spec() && before.legal_spec().contains(
            line.last(),
        )
    }
}

/// The negamax value of `env` for its side to move, `depth` plies deep: the
/// reward at a finished game, 0 at the horizon or without moves, and
/// otherwise the best over the moves of the negated value after the move.
pub open spec fn negamax<E: Env>(env: E, depth: nat) -> int
    decreases depth, 0nat,
{
    if env.over_spec() {
        env.reward_spec(env.turn_spec()) as int
    } else if depth == 0 || env.legal_spec().len() == 0 {
        0
    } else {
        best_reply(env, env.legal_spec(), env.legal_spec().len(), (depth - 1) as nat)
    }
}

/// The best, starting from `-MAX_VALUE`, of the negated `depth`-ply values
/// after each of the first `n` moves of `actions`.
pub open spec fn best_reply<E: Env>(env: E, actions: Seq<Action>, n: nat, depth: nat) -> int
    decreases depth, n,
{
    if n == 0 {
        -MAX_VALUE as int
    } else {
        let rest = best_reply(env, actions, (n - 1) as nat, depth);
        let v = -negamax(env.after_spec(actions[n - 1]), depth);
        if v > rest {
            v
        } else {
            rest
        }
    }
}

/// The playout value of `env` for its side to move: the final reward of a
/// random playout, or 0 when the playout is cut off.
pub fn default_node_value<E: Env>(env: &E, rng: &mut StdRng) -> (v: i64)
    ensures
        -MAX_VALUE <= v <= MAX_VALUE,
        env.over_spec() ==> v == env.reward_spec(env.turn_spec()),
        v == 0 || exists|line: Seq<Action>|
            #![trigger play(*env, line)]
            line.len() <= ROLLOUT_DEPTH && legal_line(*env, line) && play(*env, line).over_spec()
                && v == play(*env, line).reward_spec(env.turn_spec()),
{
    let me = env.turn();
    let ghost mut line: Seq<Action> = Seq::empty();
    let mut s = env.duplicate();
    let mut depth: u64 = 0;
    while depth < ROLLOUT_DEPTH
        invariant
            depth <= ROLLOUT_DEPTH,
            me == env.turn_spec(),
            line.len() == depth,
            legal_line(*env, line),
            s == play(*env, line),
            depth == 0 ==> s == *env,
            depth > 0 ==> !env.over_spec(),
        decreases ROLLOUT_DEPTH - depth,
    {
        if s.is_over() {
            let r = s.reward(me);
            assert(play(*env, line).over_spec());
            return r;
        }
        let actions = s.legal_actions();
        if actions.len() == 0 {
            return 0;
        }
        let k = random_below(rng, actions.len());
        let a = actions[k];
        let ghost mid = s;
        assert(mid.legal_spec()[k as int] == a);
        s.step(&a);
        proof {
            let longer = line.push(a);
            assert(longer.drop_last() =~= line);
            line = longer;
        }
        depth = depth + 1;
    }
    if s.is_over() {
        let r = s.reward(me);
        assert(play(*env, line).over_spec());
        r
    } else {
        0
    }
}

/// The negamax value of `env` for its side to move, looking `depth` plies
/// ahead.
pub fn minimax_value<E: Env>(env: &E, depth: u64) -> (v: i64)
    ensures
        v == negamax(*env, depth as nat),
        -MAX_VALUE <= v <= MAX_VALUE,
    decreases depth,
{
    if env.is_over() {
        let me = env.turn();
        return env.reward(me);
    }
    if depth == 0 {
        return 0;
    }
    let actions: Vec<Action> = env.legal_actions();
    if actions.len() == 0 {
        return 0;
    }
    let mut best: i64 = -MAX_VALUE;
    let mut i: usize = 0;
    while i < actions.len()
        invariant
            -MAX_VALUE <= best <= MAX_VALUE,
            depth > 0,
            actions@ == env.legal_spec(),
            i <= actions@.len(),
            best == best_reply(*env, actions@, i as nat, (depth - 1) as nat),
        decreases actions.len() - i,
    {
        let mut next = env.duplicate();
        next.step(&actions[i]);
        let v = -minimax_value(&next, depth - 1);
        if v > best {
            best = v;
        }
        i = i + 1;
    }
    best
}

/// Scores `env` for its side to move with the chosen evaluator.
pub fn evaluate<E: Env>(evaluator: Evaluator, env: &E, rng: &mut StdRng) -> (v: i64)
    ensures
        -MAX_VALUE <= v <= MAX_VALUE,
        env.over_spec() ==> v == env.reward_spec(env.turn_spec()),
        evaluator == Evaluator::Minimax ==> v == negamax(*env, MINIMAX_DEPTH as nat),
        evaluator == Evaluator::Rollout ==> v == 0 || exists|line: Seq<Action>|
            #![trigger play(*env, line)]
            line.len() <= ROLLOUT_DEPTH && legal_line(*env, line) && play(*env, line).over_spec()
                && v == play(*env, line).reward_spec(env.turn_spec()),
{
    match evaluator {
        Evaluator::Rollout => default_node_value(env, rng),
        Evaluator::Minimax => minimax_value(env, MINIMAX_DEPTH),
    }
}

} // verus!
