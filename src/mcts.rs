//! The search tree and the Monte Carlo tree search over it.
//!
//! Nodes live in an arena addressed by index, with the root always at index 0
//! and every other node after its parent. Moving the root to a child rebuilds
//! the arena from that child's subtree, so the nodes that the game can no
//! longer reach give their slots back; moving it along an unexplored action
//! starts a fresh tree. When the arena is full, a search cycle scores the node
//! it selected instead of expanding it.

use vstd::prelude::*;
use vstd::arithmetic::power2::{lemma2_to64, lemma_pow2_unfold, pow2};
use rand::rngs::StdRng;
use crate::env::{Action, Env, MAX_VALUE};
use crate::evaluate::{evaluate, Evaluator};
use crate::outside::{clock_now, random_below, seeded_rng, time_since, whole_millis};

verus! {

/// Upper bound on the search cycles an engine runs over its lifetime; it keeps
/// every counter and reward sum within its integer type.
pub const VISIT_LIMIT: u64 = 0x100_0000_0000;

/// Arena capacity of an engine made with `MCTS::new`.
pub const DEFAULT_CAPACITY: usize = 1_000_000;

/// Weight of the exploration term of the selection score.
pub const EXPLORATION_WEIGHT: u64 = 1_400_000;

/// The statistics of one search-tree node.
#[derive(Clone, Copy, Debug)]
pub struct Node {
    /// Index of the parent; the root names itself.
    pub parent: usize,
    /// The action that led here from the parent.
    pub action: Action,
    /// The side to move at this node.
    pub player: usize,
    /// How many search cycles passed through this node.
    pub num_visits: u64,
    /// Sum of the values backed up here, for the side that moved into it.
    pub reward: i64,
    /// Search cycles that ended here without expanding: the game was over
    /// or the arena was full.
    pub spilled: u64,
    /// Whether the game is over at this node.
    pub terminal: bool,
}

/// A search engine for one side of a game.
pub struct MCTS<E> {
    /// The side this engine plays.
    pub id: usize,
    /// The arena; index 0 is the root.
    pub nodes: Vec<Node>,
    /// Children of each node, in the order they were expanded.
    pub children: Vec<Vec<usize>>,
    /// Legal actions of each node not yet expanded.
    pub untried: Vec<Vec<Action>>,
    /// Most nodes the arena may hold.
    pub capacity: usize,
    /// The game state at the root.
    pub env: E,
    /// How new nodes are scored.
    pub evaluator: Evaluator,
    /// Source of the random choices.
    pub rng: StdRng,
    /// Whether a search cycle has found the arena full since the tree was
    /// last started afresh.
    pub saturated: bool,
    /// The root's own visit: 1 for the initial root and for a child that
    /// became the root, 0 for a root made for an unexplored action.
    pub root_own: u64,
    /// Visits counted over the engine's lifetime: the initial root's visit
    /// and one per search cycle. No node has more.
    pub total: u64,
}

/// The value range of a node: its reward sum averages within
/// `[-MAX_VALUE, MAX_VALUE]` over its visits.
pub open spec fn reward_in_range(n: Node) -> bool {
    -(MAX_VALUE * n.num_visits) <= n.reward <= MAX_VALUE * n.num_visits
}

/// Whether `k` is the position, among `kids`, of the first child with the
/// most visits.
pub open spec fn first_most_visited(nodes: Seq<Node>, kids: Seq<usize>, k: int) -> bool {
    &&& 0 <= k < kids.len()
    &&& forall|j: int| 0 <= j < kids.len() ==> nodes[kids[j] as int].num_visits
        <= nodes[kids[k] as int].num_visits
    &&& forall|j: int| 0 <= j < k ==> nodes[kids[j] as int].num_visits
        < nodes[kids[k] as int].num_visits
}

/// The selection score of the child at position `j` of `kids`.
pub open spec fn score_at(nodes: Seq<Node>, kids: Seq<usize>, parent_visits: u64, j: int) -> int {
    let n = nodes[kids[j] as int];
    uct_value(parent_visits, n.num_visits, n.reward)
}

/// Whether `k` is the position, among `kids`, of the first child with the
/// highest selection score under a parent with `parent_visits` visits.
pub open spec fn first_best_scored(nodes: Seq<Node>, kids: Seq<usize>, parent_visits: u64, k: int) -> bool {
    &&& 0 <= k < kids.len()
    &&& forall|j: int| 0 <= j < kids.len() ==> score_at(nodes, kids, parent_visits, j) <= score_at(nodes, kids, parent_visits, k)
    &&& forall|j: int| 0 <= j < k ==> score_at(nodes, kids, parent_visits, j) < score_at(nodes, kids, parent_visits, k)
}

/// Whether `k` is the position, among `kids`, of the first child reached by
/// action `a`.
pub open spec fn first_with_action(nodes: Seq<Node>, kids: Seq<usize>, a: Action, k: int) -> bool {
    &&& 0 <= k < kids.len()
    &&& nodes[kids[k] as int].action == a
    &&& forall|j: int| 0 <= j < k ==> nodes[kids[j] as int].action != a
}

/// The arena's shape: parents before children, child lists that agree with
/// the parent links, and statistics within their bounds.
pub open spec fn arena_wf(
    nodes: Seq<Node>,
    children: Seq<Vec<usize>>,
    untried_len: nat,
    total: u64,
) -> bool {
    arena_wf_but(nodes, children, untried_len, total, -1)
}

/// `arena_wf`, except that node `skip` may still be unvisited.
pub open spec fn arena_wf_but(
    nodes: Seq<Node>,
    children: Seq<Vec<usize>>,
    untried_len: nat,
    total: u64,
    skip: int,
) -> bool {
    &&& nodes.len() >= 1
    &&& children.len() == nodes.len()
    &&& untried_len == nodes.len()
    &&& nodes[0].parent == 0
    &&& forall|i: int| 0 < i < nodes.len() ==> #[trigger] nodes[i].parent < i
    &&& forall|i: int, j: int|
        0 <= i < nodes.len() && 0 <= j < children[i]@.len() ==> {
            let c = #[trigger] children[i]@[j];
            &&& i < c < nodes.len()
            &&& nodes[c as int].parent == i
        }
    &&& forall|i: int| 0 <= i < nodes.len() ==> #[trigger] nodes[i].num_visits <= total
    &&& forall|i: int| 0 <= i < nodes.len() ==> reward_in_range(#[trigger] nodes[i])
    &&& forall|i: int| 0 < i < nodes.len() && i != skip ==> #[trigger] nodes[i].num_visits >= 1
}

/// Integer square root: the largest `r` with `r * r <= x`.
pub fn isqrt(x: u64) -> (r: u64)
    requires
        x < 0x100_0000_0000,
    ensures
        r * r <= x < (r + 1) * (r + 1),
{
    let mut lo: u64 = 0;
    let mut hi: u64 = 0x10_0000;
    assert(hi * hi == 0x100_0000_0000) by (nonlinear_arith)
        requires
            hi == 0x10_0000,
    ;
    while lo + 1 < hi
        invariant
            lo < hi <= 0x10_0000,
            lo * lo <= x < hi * hi,
        decreases hi - lo,
    {
        let mid: u64 = lo + (hi - lo) / 2;
        assert(mid * mid <= 0x100_0000_0000) by (nonlinear_arith)
            requires
                mid <= 0x10_0000,
        ;
        if mid * mid <= x {
            lo = mid;
        } else {
            hi = mid;
        }
    }
    lo
}

/// The floor of the base-2 logarithm, with 0 for 0 and 1.
pub open spec fn log2_floor(n: nat) -> nat
    decreases n,
{
    if n <= 1 {
        0
    } else {
        1 + log2_floor(n / 2)
    }
}

proof fn lemma_log2_below(n: nat, k: nat)
    requires
        1 <= k,
        n < pow2(k),
    ensures
        log2_floor(n) < k,
    decreases k,
{
    if n > 1 {
        lemma_pow2_unfold(k);
        if k == 1 {
            assert(pow2(0) == 1) by {
                lemma2_to64();
            }
        } else {
            lemma_log2_below(n / 2, (k - 1) as nat);
        }
    }
}

/// Floor of the base-2 logarithm of `n`, with 0 for 0 and 1.
pub fn ilog2(n: u64) -> (r: u64)
    ensures
        r == log2_floor(n as nat),
        r < 64,
{
    proof {
        lemma2_to64();
        lemma_log2_below(n as nat, 64);
    }
    let mut m: u64 = n;
    let mut r: u64 = 0;
    while m > 1
        invariant
            r + log2_floor(m as nat) == log2_floor(n as nat),
            log2_floor(n as nat) < 64,
        decreases m,
    {
        m = m / 2;
        r = r + 1;
    }
    r
}

/// The square of the exploration bonus, before the root is taken:
/// `EXPLORATION_WEIGHT * log2(parent_visits) / visits`, rounded down.
pub open spec fn exploration_square(parent_visits: u64, visits: u64) -> int {
    (EXPLORATION_WEIGHT * log2_floor(parent_visits as nat)) as int / (visits as int)
}

/// The integer square root: the `b >= 0` with `b * b <= x < (b + 1) * (b + 1)`.
pub open spec fn sqrt_floor(x: int) -> int {
    choose|b: int| #![trigger b * b] 0 <= b && b * b <= x < (b + 1) * (b + 1)
}

/// At most one integer is the square root of `x`.
pub proof fn lemma_sqrt_floor_unique(x: int, b: int)
    requires
        0 <= b,
        b * b <= x < (b + 1) * (b + 1),
    ensures
        sqrt_floor(x) == b,
{
    let c = sqrt_floor(x);
    assert(0 <= c && c * c <= x < (c + 1) * (c + 1));
    if c < b {
        assert((c + 1) * (c + 1) <= b * b) by (nonlinear_arith)
            requires
                0 <= c < b,
        ;
    } else if b < c {
        assert((b + 1) * (b + 1) <= c * c) by (nonlinear_arith)
            requires
                0 <= b < c,
        ;
    }
}

/// The selection score of a child, as `uct_score` computes it.
pub open spec fn uct_value(parent_visits: u64, visits: u64, reward: i64) -> int {
    (reward + MAX_VALUE * visits) / (visits as int) + sqrt_floor(
        exploration_square(parent_visits, visits),
    )
}

/// The upper-confidence score of a child with `visits` visits and reward
/// sum `reward` under a parent with `parent_visits` visits: the mean shifted
/// to be non-negative, plus the exploration bonus
/// `sqrt(EXPLORATION_WEIGHT * log2(parent_visits) / visits)`.
pub fn uct_score(parent_visits: u64, visits: u64, reward: i64) -> (r: u64)
    requires
        1 <= visits <= VISIT_LIMIT,
        -(MAX_VALUE * visits) <= reward <= MAX_VALUE * visits,
    ensures
        r == uct_value(parent_visits, visits, reward),
{
    let span: i64 = 1000 * (visits as i64);
    assert(span == MAX_VALUE * visits);
    assert(0 <= reward + span <= 2 * span);
    let shifted: u64 = (reward + span) as u64;
    let mean: u64 = shifted / visits;
    let lg: u64 = ilog2(parent_visits);
    let bonus: u64 = isqrt(EXPLORATION_WEIGHT * lg / visits);
    proof {
        assert(shifted <= 2000 * visits);
        assert(mean <= 2000) by (nonlinear_arith)
            requires
                mean == shifted / visits,
                shifted <= 2000 * visits,
                visits >= 1,
        ;
        assert(bonus * bonus <= 0x100_0000_0000);
        assert(bonus <= 0x10_0000) by (nonlinear_arith)
            requires
                bonus * bonus <= 0x100_0000_0000,
        ;
    }
    assert(exploration_square(parent_visits, visits) == (EXPLORATION_WEIGHT * lg) as int / (visits as int));
    assert((bonus as int) * (bonus as int) == bonus * bonus);
    proof {
        lemma_sqrt_floor_unique(exploration_square(parent_visits, visits), bonus as int);
    }
    mean + bonus
}

/// Visit conservation: between search cycles, every node with children has
/// exactly one visit more than its children together, once the cycles that
/// ended at it without expanding it (its `spilled` count) are set aside. Such
/// cycles leave a node with children only after the arena was found full, so
/// until then every internal node has one visit more than its children. A
/// root made for an unexplored action counts no visit of its own.
pub proof fn lemma_visit_conservation<E: Env>(e: &MCTS<E>)
    requires
        e.wf(),
    ensures
        forall|i: int|
            0 <= i < e.nodes@.len() && e.children@[i]@.len() > 0 && (i > 0 || e.root_own == 1)
                ==> #[trigger] e.nodes@[i].num_visits == 1 + e.nodes@[i].spilled + kid_visits(
                e.nodes@,
                e.children@[i]@,
            ),
        !e.saturated ==> forall|i: int|
            0 <= i < e.nodes@.len() && e.children@[i]@.len() > 0 && (i > 0 || e.root_own == 1)
                ==> #[trigger] e.nodes@[i].num_visits == 1 + kid_visits(e.nodes@, e.children@[i]@),
{
    assert forall|i: int|
        0 <= i < e.nodes@.len() && e.children@[i]@.len() > 0 && (i > 0 || e.root_own == 1)
            implies #[trigger] e.nodes@[i].num_visits == 1 + e.nodes@[i].spilled + kid_visits(
            e.nodes@,
            e.children@[i]@,
        ) by {
        assert(e.nodes@[i].num_visits + 0 == own_visit(i, e.root_own) + e.nodes@[i].spilled
            + kid_visits(e.nodes@, e.children@[i]@));
    }
    if !e.saturated {
        assert forall|i: int|
            0 <= i < e.nodes@.len() && e.children@[i]@.len() > 0 && (i > 0 || e.root_own == 1)
                implies #[trigger] e.nodes@[i].num_visits == 1 + kid_visits(
                e.nodes@,
                e.children@[i]@,
            ) by {
            assert(e.nodes@[i].num_visits + 0 == own_visit(i, e.root_own) + e.nodes@[i].spilled
                + kid_visits(e.nodes@, e.children@[i]@));
            assert(e.nodes@[i].spilled == 0);
        }
    }
}

/// Value range: in a well-formed engine every visited node's mean value,
/// its reward sum over its visit count, lies within `[-MAX_VALUE, MAX_VALUE]`,
/// whatever searches were run.
pub proof fn lemma_value_range<E: Env>(e: &MCTS<E>)
    requires
        e.wf(),
    ensures
        forall|i: int|
            0 <= i < e.nodes@.len() && e.nodes@[i].num_visits > 0 ==> -MAX_VALUE <= #[trigger] (
            e.nodes@[i].reward as int / e.nodes@[i].num_visits as int) <= MAX_VALUE,
{
    assert forall|i: int|
        0 <= i < e.nodes@.len() && e.nodes@[i].num_visits > 0 implies -MAX_VALUE <= #[trigger] (
        e.nodes@[i].reward as int / e.nodes@[i].num_visits as int) <= MAX_VALUE by {
        let w = e.nodes@[i].reward as int;
        let n = e.nodes@[i].num_visits as int;
        assert(reward_in_range(e.nodes@[i]));
        assert(-1000 <= w / n <= 1000) by (nonlinear_arith)
            requires
                n > 0,
                -(1000 * n) <= w <= 1000 * n,
        ;
    }
}

/// The robust-child choice is a function of the statistics: at most one
/// position is the first child with the most visits, so `best_action`
/// answers the same until the tree changes.
pub proof fn lemma_first_most_visited_unique(nodes: Seq<Node>, kids: Seq<usize>, k1: int, k2: int)
    requires
        first_most_visited(nodes, kids, k1),
        first_most_visited(nodes, kids, k2),
    ensures
        k1 == k2,
{
    if k1 < k2 {
        assert(nodes[kids[k1] as int].num_visits < nodes[kids[k2] as int].num_visits);
    } else if k2 < k1 {
        assert(nodes[kids[k2] as int].num_visits < nodes[kids[k1] as int].num_visits);
    }
}

/// A millisecond count as a `u64`, saturating.
pub fn millis_u64(ms: u128) -> (r: u64)
    ensures
        r == (if ms > u64::MAX as u128 {
            u64::MAX as u128
        } else {
            ms
        }),
{
    if ms > u64::MAX as u128 {
        u64::MAX
    } else {
        ms as u64
    }
}

/// Sum of the visit counts of the nodes at indices `kids`.
pub open spec fn kid_visits(nodes: Seq<Node>, kids: Seq<usize>) -> int
    decreases kids.len(),
{
    if kids.len() == 0 {
        0
    } else {
        kid_visits(nodes, kids.drop_last()) + nodes[kids.last() as int].num_visits
    }
}

/// The visit a node counts for itself: 1, but `root_own` at the root.
pub open spec fn own_visit(i: int, root_own: u64) -> int {
    if i == 0 {
        root_own as int
    } else {
        1
    }
}

/// Whether `kids` is strictly increasing.
pub open spec fn increasing(kids: Seq<usize>) -> bool {
    forall|a: int, b: int| 0 <= a < b < kids.len() ==> kids[a] < kids[b]
}

/// Visit conservation: each node's visits are its own visit, the cycles that
/// ended at it, and its children's visits; but node `skip` is one short.
/// Child lists are increasing and each node other than the root is in its
/// parent's list.
pub open spec fn conserved_but(
    nodes: Seq<Node>,
    children: Seq<Vec<usize>>,
    root_own: u64,
    skip: int,
) -> bool {
    &&& root_own <= 1
    &&& forall|i: int| 0 <= i < nodes.len() ==> increasing(#[trigger] children[i]@)
    &&& forall|i: int|
        0 < i < nodes.len() ==> #[trigger] children[nodes[i].parent as int]@.contains(i as usize)
    &&& forall|i: int|
        0 <= i < nodes.len() ==> #[trigger] nodes[i].num_visits + (if i == skip {
            1int
        } else {
            0
        }) == own_visit(i, root_own) + nodes[i].spilled + kid_visits(nodes, children[i]@)
}

/// Nodes where the game is over have no children, and a cycle ends at a node
/// that could still be expanded only once the arena has been found full.
pub open spec fn spills_wf(
    nodes: Seq<Node>,
    children: Seq<Vec<usize>>,
    untried: Seq<Vec<Action>>,
    saturated: bool,
) -> bool {
    &&& forall|i: int| 0 <= i < nodes.len() && #[trigger] nodes[i].terminal ==> children[i]@.len() == 0
    &&& forall|i: int|
        0 <= i < nodes.len() && #[trigger] nodes[i].spilled > 0 && !saturated ==> children[i]@.len()
            == 0 && (nodes[i].terminal || untried[i]@.len() == 0)
}

/// The children of a node were reached by distinct actions, none of which is
/// still among its untried actions, and those are distinct too.
pub open spec fn distinct_moves(nodes: Seq<Node>, kids: Seq<usize>, untried: Seq<Action>) -> bool {
    &&& forall|a: int, b: int|
        0 <= a < b < kids.len() ==> nodes[#[trigger] kids[a] as int].action != nodes[#[trigger] kids[b] as int].action
    &&& forall|a: int, u: int|
        0 <= a < kids.len() && 0 <= u < untried.len() ==> nodes[#[trigger] kids[a] as int].action != #[trigger] untried[u]
    &&& untried.no_duplicates()
}

/// Whether the arena `nodes`/`children`/`untried` is the subtree of node `c`
/// of the old arena, renumbered: new node `n` is old node `m[n]`, with the
/// same statistics, action, side to move and untried actions, and with the
/// renumbered children of `m[n]` as its children, in order; `c` becomes 0.
pub open spec fn renumbered_subtree(
    old_nodes: Seq<Node>,
    old_children: Seq<Vec<usize>>,
    old_untried: Seq<Vec<Action>>,
    nodes: Seq<Node>,
    children: Seq<Vec<usize>>,
    untried: Seq<Vec<Action>>,
    c: int,
    m: Seq<int>,
) -> bool {
    &&& m.len() == nodes.len()
    &&& nodes.len() >= 1
    &&& m[0] == c
    &&& forall|n: int| 0 <= n < nodes.len() ==> {
        let o = #[trigger] m[n];
        &&& 0 <= o < old_nodes.len()
        &&& nodes[n].num_visits == old_nodes[o].num_visits
        &&& nodes[n].reward == old_nodes[o].reward
        &&& nodes[n].spilled == old_nodes[o].spilled
        &&& nodes[n].action == old_nodes[o].action
        &&& nodes[n].player == old_nodes[o].player
        &&& nodes[n].terminal == old_nodes[o].terminal
        &&& untried[n]@ == old_untried[o]@
        &&& children[n]@.len() == old_children[o]@.len()
        &&& forall|j: int|
            0 <= j < children[n]@.len() ==> m[#[trigger] children[n]@[j] as int]
                == old_children[o]@[j]
    }
}

/// A copy of a list of actions.
pub fn copy_actions(v: &Vec<Action>) -> (r: Vec<Action>)
    ensures
        r@ == v@,
{
    let mut r: Vec<Action> = Vec::new();
    let mut i: usize = 0;
    while i < v.len()
        invariant
            i <= v@.len(),
            r@ == v@.subrange(0, i as int),
        decreases v@.len() - i,
    {
        r.push(v[i]);
        i = i + 1;
        assert(r@ =~= v@.subrange(0, i as int));
    }
    assert(v@.subrange(0, v@.len() as int) =~= v@);
    r
}

/// How the children's visit sum changes when one entry of the arena changes.
pub proof fn lemma_kid_visits_update(nodes: Seq<Node>, kids: Seq<usize>, x: usize, n: Node)
    requires
        0 <= x < nodes.len(),
        increasing(kids),
        forall|j: int| 0 <= j < kids.len() ==> kids[j] < nodes.len(),
    ensures
        kid_visits(nodes.update(x as int, n), kids) == kid_visits(nodes, kids) + (if kids.contains(
            x,
        ) {
            n.num_visits - nodes[x as int].num_visits
        } else {
            0
        }),
    decreases kids.len(),
{
    if kids.len() > 0 {
        let front = kids.drop_last();
        let u = nodes.update(x as int, n);
        let last = kids.last();
        assert(increasing(front));
        lemma_kid_visits_update(nodes, front, x, n);
        assert(kid_visits(u, kids) == kid_visits(u, front) + u[last as int].num_visits);
        assert(kid_visits(nodes, kids) == kid_visits(nodes, front) + nodes[last as int].num_visits);
        if last == x {
            assert(kids.contains(x)) by {
                assert(kids[kids.len() - 1] == x);
            }
            assert(!front.contains(x)) by {
                if front.contains(x) {
                    let j = choose|j: int| 0 <= j < front.len() && front[j] == x;
                    assert(kids[j] < kids[kids.len() - 1]);
                }
            }
        } else {
            assert(u[last as int] == nodes[last as int]);
            assert(front.contains(x) == kids.contains(x)) by {
                if front.contains(x) {
                    let j = choose|j: int| 0 <= j < front.len() && front[j] == x;
                    assert(kids[j] == x);
                }
                if kids.contains(x) {
                    let j = choose|j: int| 0 <= j < kids.len() && kids[j] == x;
                    assert(j < kids.len() - 1);
                    assert(front[j] == x);
                }
            }
        }
    }
}

/// During a rebuild, the new child list of kept node `t` renumbers (by
/// `map`) the entries below `i` of its old list, and these come first.
pub open spec fn kept_prefix(
    old_children: Seq<Vec<usize>>,
    children: Seq<Vec<usize>>,
    map: Seq<usize>,
    t: int,
    i: int,
) -> bool {
    let k = old_children[t]@;
    let nk = children[map[t] as int]@;
    &&& nk.len() <= k.len()
    &&& forall|j: int| 0 <= j < nk.len() ==> nk[j] == map[k[j] as int] && k[j] < i
    &&& forall|j: int| nk.len() <= j < k.len() ==> k[j] >= i
}

/// The children's visits add up to no less than zero.
pub proof fn lemma_kid_visits_nonneg(nodes: Seq<Node>, kids: Seq<usize>)
    ensures
        kid_visits(nodes, kids) >= 0,
    decreases kids.len(),
{
    if kids.len() > 0 {
        lemma_kid_visits_nonneg(nodes, kids.drop_last());
    }
}

/// The children's visits depend only on the visits at the indices listed:
/// two arenas and two index lists that agree entry by entry give one sum.
pub proof fn lemma_kid_visits_same(
    nodes: Seq<Node>,
    kids: Seq<usize>,
    nodes2: Seq<Node>,
    kids2: Seq<usize>,
)
    requires
        kids.len() == kids2.len(),
        forall|j: int|
            0 <= j < kids.len() ==> nodes[kids[j] as int].num_visits == #[trigger] nodes2[kids2[j] as int].num_visits,
    ensures
        kid_visits(nodes, kids) == kid_visits(nodes2, kids2),
    decreases kids.len(),
{
    if kids.len() > 0 {
        let f = kids.drop_last();
        let f2 = kids2.drop_last();
        assert forall|j: int| 0 <= j < f.len() implies nodes[f[j] as int].num_visits == #[trigger] nodes2[f2[j] as int].num_visits by {
            assert(nodes[kids[j] as int].num_visits == nodes2[kids2[j] as int].num_visits);
        }
        lemma_kid_visits_same(nodes, f, nodes2, f2);
        assert(nodes[kids[kids.len() - 1] as int].num_visits == nodes2[kids2[kids.len() - 1] as int].num_visits);
    }
}

impl<E: Env> MCTS<E> {
    /// The engine's invariant.
    pub open spec fn wf(&self) -> bool {
        &&& arena_wf(self.nodes@, self.children@, self.untried@.len(), self.total)
        &&& conserved_but(self.nodes@, self.children@, self.root_own, -1)
        &&& spills_wf(self.nodes@, self.children@, self.untried@, self.saturated)
        &&& forall|i: int|
            0 <= i < self.nodes@.len() ==> distinct_moves(
                self.nodes@,
                #[trigger] self.children@[i]@,
                self.untried@[i]@,
            )
        &&& self.nodes@.len() <= self.capacity
        &&& self.total <= VISIT_LIMIT
    }

    /// The root's visit count.
    pub open spec fn root_visits(&self) -> nat {
        self.nodes@[0].num_visits as nat
    }

    /// A new engine for side `id` at the game's initial state, whose root
    /// counts one visit, with room for `capacity` nodes, scoring with `evaluator` and drawing its random
    /// choices from a generator seeded with `seed`.
    pub fn with_capacity(id: usize, capacity: usize, evaluator: Evaluator, seed: u64) -> (r: Self)
        requires
            capacity >= 1,
        ensures
            r.wf(),
            r.id == id,
            r.capacity == capacity,
            r.total == 1,
            r.nodes@.len() == 1,
            r.root_visits() == 1,
            r.evaluator == evaluator,
            r.root_own == 1,
            !r.saturated,
            r.children@[0]@.len() == 0,
    {
        let env = E::new();
        let mut r = MCTS {
            id,
            nodes: Vec::new(),
            children: Vec::new(),
            untried: Vec::new(),
            capacity,
            env,
            evaluator,
            rng: seeded_rng(seed),
            saturated: false,
            root_own: 1,
            total: 1,
        };
        r.push_root((0, 0), 1);
        r
    }

    /// A new engine for side `id` with room for `DEFAULT_CAPACITY` nodes and
    /// a generator seeded with 0.
    pub fn new(id: usize, evaluator: Evaluator) -> (r: Self)
        ensures
            r.wf(),
            r.id == id,
            r.capacity == DEFAULT_CAPACITY,
            r.total == 1,
            r.nodes@.len() == 1,
            r.root_visits() == 1,
            r.children@[0]@.len() == 0,
            r.evaluator == evaluator,
            r.root_own == 1,
            !r.saturated,
    {
        Self::with_capacity(id, DEFAULT_CAPACITY, evaluator, 0)
    }

    /// Empties the arena and puts a fresh root with `visits` visits for the current
    /// state in it.
    fn push_root(&mut self, action: Action, visits: u64)
        requires
            visits <= 1,
            old(self).capacity >= 1,
            old(self).total <= VISIT_LIMIT,
            visits <= old(self).total,
        ensures
            final(self).wf(),
            final(self).nodes@.len() == 1,
            final(self).nodes@[0].num_visits == visits,
            final(self).nodes@[0].reward == 0,
            final(self).children@[0]@.len() == 0,
            final(self).id == old(self).id,
            final(self).capacity == old(self).capacity,
            final(self).total == old(self).total,
            final(self).root_own == visits,
            !final(self).saturated,
            final(self).evaluator == old(self).evaluator,
            final(self).env == old(self).env,
    {
        let terminal = self.env.is_over();
        let actions = if terminal {
            Vec::new()
        } else {
            self.env.legal_actions()
        };
        let root = Node {
            parent: 0,
            action,
            player: self.env.turn(),
            num_visits: visits,
            reward: 0,
            spilled: 0,
            terminal,
        };
        self.root_own = visits;
        self.saturated = false;
        self.nodes = vec![root];
        self.children = vec![Vec::new()];
        self.untried = vec![actions];
    }

    /// Among the children of `cur`, the first with the highest selection
    /// score.
    fn select_child(&self, cur: usize) -> (c: usize)
        requires
            self.wf(),
            cur < self.nodes@.len(),
            self.children@[cur as int]@.len() > 0,
        ensures
            exists|k: int|
                first_best_scored(self.nodes@, self.children@[cur as int]@, self.nodes@[cur as int].num_visits, k)
                    && c == self.children@[cur as int]@[k],
            cur < c < self.nodes@.len(),
    {
        let kids = &self.children[cur];
        let parent_visits = self.nodes[cur].num_visits;
        let ghost nodes = self.nodes@;
        let mut best: usize = 0;
        let first = self.nodes[kids[0]];
        let mut best_score: u64 = uct_score(parent_visits, first.num_visits, first.reward);
        let mut i: usize = 1;
        while i < kids.len()
            invariant
                self.wf(),
                nodes == self.nodes@,
                cur < self.nodes@.len(),
                kids == self.children@[cur as int],
                parent_visits == nodes[cur as int].num_visits,
                1 <= i <= kids@.len(),
                best < i,
                best_score == score_at(nodes, kids@, parent_visits, best as int),
                forall|j: int| 0 <= j < i ==> score_at(nodes, kids@, parent_visits, j) <= best_score,
                forall|j: int| 0 <= j < best ==> score_at(nodes, kids@, parent_visits, j) < best_score,
            decreases kids@.len() - i,
        {
            let n = self.nodes[kids[i]];
            assert(self.nodes@[kids@[i as int] as int].num_visits >= 1);
            let sc = uct_score(parent_visits, n.num_visits, n.reward);
            if sc > best_score {
                best = i;
                best_score = sc;
            }
            i = i + 1;
        }
        kids[best]
    }

    /// Adds one visit and `value` to `x`, then to each ancestor up to the
    /// root, negating the value at every ply.
    fn backpropagate(&mut self, leaf: usize, value: i64)
        requires
            arena_wf_but(
                old(self).nodes@,
                old(self).children@,
                old(self).untried@.len(),
                old(self).total,
                leaf as int,
            ),
            conserved_but(old(self).nodes@, old(self).children@, old(self).root_own, leaf as int),
            spills_wf(old(self).nodes@, old(self).children@, old(self).untried@, old(self).saturated),
            forall|i: int|
                0 <= i < old(self).nodes@.len() ==> distinct_moves(
                    old(self).nodes@,
                    #[trigger] old(self).children@[i]@,
                    old(self).untried@[i]@,
                ),
            old(self).nodes@.len() <= old(self).capacity,
            old(self).total < VISIT_LIMIT,
            leaf < old(self).nodes@.len(),
            -MAX_VALUE <= value <= MAX_VALUE,
        ensures
            final(self).wf(),
            final(self).total == old(self).total + 1,
            final(self).nodes@.len() == old(self).nodes@.len(),
            final(self).children == old(self).children,
            final(self).untried == old(self).untried,
            final(self).nodes@[0].num_visits == old(self).nodes@[0].num_visits + 1,
            final(self).id == old(self).id,
            final(self).capacity == old(self).capacity,
            final(self).root_own == old(self).root_own,
            final(self).saturated == old(self).saturated,
            final(self).env == old(self).env,
            final(self).evaluator == old(self).evaluator,
    {
        let ghost before = self.total;
        assert(before == old(self).total);
        self.total = self.total + 1;
        let mut x: usize = leaf;
        let mut v: i64 = value;
        loop
            invariant_except_break
                x < self.nodes@.len(),
                conserved_but(self.nodes@, self.children@, self.root_own, x as int),
                x == leaf || self.nodes@[leaf as int].num_visits >= 1,
                forall|i: int|
                    0 < i < self.nodes@.len() && i != x ==> #[trigger] self.nodes@[i].num_visits
                        >= 1,
                forall|i: int| 0 <= i <= x ==> #[trigger] self.nodes@[i].num_visits
                    == old(self).nodes@[i].num_visits,
            invariant
                arena_wf_but(
                    old(self).nodes@,
                    old(self).children@,
                    old(self).untried@.len(),
                    before,
                    leaf as int,
                ),
                x <= leaf,
                leaf < self.nodes@.len(),
                self.nodes@.len() == old(self).nodes@.len(),
                self.children == old(self).children,
                self.untried == old(self).untried,
                self.total == before + 1,
                self.total <= VISIT_LIMIT,
                self.nodes@.len() <= self.capacity,
                self.id == old(self).id,
                self.capacity == old(self).capacity,
                self.root_own == old(self).root_own,
                self.saturated == old(self).saturated,
                self.env == old(self).env,
                self.evaluator == old(self).evaluator,
                forall|i: int| 0 <= i < self.nodes@.len() ==> #[trigger] self.nodes@[i].spilled
                    == old(self).nodes@[i].spilled && self.nodes@[i].terminal == old(self).nodes@[i].terminal,
                -MAX_VALUE <= v <= MAX_VALUE,
                self.nodes@[0].parent == 0,
                forall|i: int| 0 < i < self.nodes@.len() ==> #[trigger] self.nodes@[i].parent
                    == old(self).nodes@[i].parent,
                forall|i: int| 0 <= i < self.nodes@.len() ==> #[trigger] self.nodes@[i].action
                    == old(self).nodes@[i].action,
                forall|i: int|
                    0 <= i < self.nodes@.len() ==> #[trigger] self.nodes@[i].num_visits <= before
                        + 1,
                forall|i: int| 0 <= i < self.nodes@.len() ==> reward_in_range(#[trigger] self.nodes@[i]),
            ensures
                conserved_but(self.nodes@, self.children@, self.root_own, -1),
                forall|i: int| 0 < i < self.nodes@.len() ==> #[trigger] self.nodes@[i].num_visits >= 1,
                self.nodes@[0].num_visits == old(self).nodes@[0].num_visits + 1,
            decreases x,
        {
            let mut n = self.nodes[x];
            assert(n.num_visits == old(self).nodes@[x as int].num_visits);
            assert(old(self).nodes@[x as int].num_visits <= before);
            assert(x > 0 ==> old(self).nodes@[x as int].parent < x);
            assert(x > 0 ==> self.nodes@[x as int].parent == old(self).nodes@[x as int].parent);
            n.num_visits = n.num_visits + 1;
            n.reward = n.reward + v;
            let ghost pre = self.nodes@;
            self.nodes.set(x, n);
            proof {
                let next: int = if x == 0 {
                    -1
                } else {
                    pre[x as int].parent as int
                };
                let kids = self.children@;
                assert forall|i: int|
                    0 <= i < self.nodes@.len() implies #[trigger] self.nodes@[i].num_visits + (
                    if i == next {
                        1int
                    } else {
                        0
                    }) == own_visit(i, self.root_own) + self.nodes@[i].spilled + kid_visits(
                        self.nodes@,
                        kids[i]@,
                    ) by {
                    assert(increasing(kids[i]@));
                    assert forall|j: int| 0 <= j < kids[i]@.len() implies kids[i]@[j]
                        < pre.len() by {
                        assert(old(self).children@[i]@[j] < old(self).nodes@.len());
                    }
                    lemma_kid_visits_update(pre, kids[i]@, x, n);
                    assert(self.nodes@ == pre.update(x as int, n));
                    if kids[i]@.contains(x as usize) {
                        let j = choose|j: int| 0 <= j < kids[i]@.len() && kids[i]@[j] == x as usize;
                        assert(old(self).nodes@[kids[i]@[j] as int].parent == i);
                        assert(i < x);
                    }
                    if x > 0 && i == next {
                        assert(kids[pre[x as int].parent as int]@.contains(x as usize));
                    }
                }
            }
            if x == 0 {
                break;
            }
            x = n.parent;
            v = -v;
        }
        assert forall|i: int| 0 <= i < self.nodes@.len() implies distinct_moves(
            self.nodes@,
            #[trigger] self.children@[i]@,
            self.untried@[i]@,
        ) by {
            let k = self.children@[i]@;
            assert(distinct_moves(old(self).nodes@, old(self).children@[i]@, old(self).untried@[i]@));
            assert forall|a: int| 0 <= a < k.len() implies self.nodes@[k[a] as int].action == old(self).nodes@[k[a] as int].action by {
                assert(old(self).children@[i]@[a] < old(self).nodes@.len());
            }
        }
        assert(spills_wf(self.nodes@, self.children@, self.untried@, self.saturated)) by {
            assert forall|i: int| 0 <= i < self.nodes@.len() && #[trigger] self.nodes@[i].terminal implies self.children@[i]@.len() == 0 by {
                assert(old(self).nodes@[i].terminal);
            }
            assert forall|i: int| 0 <= i < self.nodes@.len() && #[trigger] self.nodes@[i].spilled > 0 && !self.saturated implies self.children@[i]@.len() == 0 && (self.nodes@[i].terminal || self.untried@[i]@.len() == 0) by {
                assert(old(self).nodes@[i].spilled > 0);
            }
        }
        assert(arena_wf(self.nodes@, self.children@, self.untried@.len(), self.total)) by {
            assert forall|i: int, j: int|
                0 <= i < self.nodes@.len() && 0 <= j < self.children@[i]@.len() implies {
                    let c = #[trigger] self.children@[i]@[j];
                    &&& i < c < self.nodes@.len()
                    &&& self.nodes@[c as int].parent == i
                } by {
                let c = self.children@[i]@[j];
                assert(old(self).nodes@[c as int].parent == i);
            }
        }
    }

    /// One search cycle: select a path from the root by score, expand one
    /// untried action at its end when the arena has room, score the node
    /// reached, and back the score up the path.
    fn search_cycle(&mut self)
        requires
            old(self).wf(),
            old(self).total < VISIT_LIMIT,
        ensures
            final(self).wf(),
            final(self).total == old(self).total + 1,
            final(self).nodes@[0].num_visits == old(self).nodes@[0].num_visits + 1,
            final(self).nodes@.len() >= old(self).nodes@.len(),
            final(self).id == old(self).id,
            final(self).capacity == old(self).capacity,
            final(self).env == old(self).env,
            final(self).evaluator == old(self).evaluator,
            final(self).root_own == old(self).root_own,
            final(self).saturated ==> old(self).saturated || final(self).nodes@.len()
                == final(self).capacity,
            final(self).nodes@.len() <= old(self).nodes@.len() + 1,
    {
        let mut state = self.env.duplicate();
        let mut cur: usize = 0;
        while !self.nodes[cur].terminal && self.untried[cur].len() == 0 && self.children[cur].len()
            > 0
            invariant
                self.wf(),
                cur < self.nodes@.len(),
            decreases self.nodes@.len() - cur,
        {
            let c = self.select_child(cur);
            state.step(&self.nodes[c].action);
            cur = c;
        }
        let len = self.nodes.len();
        if !self.nodes[cur].terminal && self.untried[cur].len() > 0 && len < self.capacity {
            let k = random_below(&mut self.rng, self.untried[cur].len());
            let mut rest = copy_actions(&self.untried[cur]);
            let a = rest.swap_remove(k);
            self.untried.set(cur, rest);
            state.step(&a);
            let terminal = state.is_over();
            let actions = if terminal {
                Vec::new()
            } else {
                state.legal_actions()
            };
            let mut kids = self.children[cur].clone();
            assert(kids@ == self.children@[cur as int]@);
            kids.push(len);
            self.children.set(cur, kids);
            self.children.push(Vec::new());
            self.untried.push(actions);
            self.nodes.push(
                Node {
                    parent: cur,
                    action: a,
                    player: state.turn(),
                    num_visits: 0,
                    reward: 0,
                    spilled: 0,
                    terminal,
                },
            );
            let value = evaluate(self.evaluator, &state, &mut self.rng);
            proof {
                let nodes = self.nodes@;
                let children = self.children@;
                assert forall|i: int, j: int|
                    0 <= i < nodes.len() && 0 <= j < children[i]@.len() implies {
                        let c = #[trigger] children[i]@[j];
                        &&& i < c < nodes.len()
                        &&& nodes[c as int].parent == i
                    } by {
                    if i != cur && i < len {
                        assert(children[i] == old(self).children@[i]);
                    }
                }
            }
            proof {
                let nodes = self.nodes@;
                let children = self.children@;
                let pre = old(self).nodes@;
                let pre_kids = old(self).children@;
                assert(nodes == pre.push(nodes[len as int]));
                assert forall|i: int| 0 <= i < nodes.len() implies increasing(
                    #[trigger] children[i]@,
                ) by {
                    if i == cur {
                        assert(children[i]@ == pre_kids[i]@.push(len));
                        assert forall|a: int| 0 <= a < pre_kids[i]@.len() implies pre_kids[i]@[a] < len by {
                            assert(old(self).children@[i]@[a] < old(self).nodes@.len());
                        }
                    } else if i < len {
                        assert(children[i] == pre_kids[i]);
                    } else {
                        assert(children[i]@.len() == 0);
                    }
                }
                assert forall|i: int| 0 < i < nodes.len() implies #[trigger] children[nodes[i].parent as int]@.contains(i as usize) by {
                    if i < len {
                        let p = pre[i].parent as int;
                        assert(pre_kids[p]@.contains(i as usize));
                        let j = choose|j: int| 0 <= j < pre_kids[p]@.len() && pre_kids[p]@[j] == i as usize;
                        if p == cur {
                            assert(children[p]@[j] == i as usize);
                        } else {
                            assert(children[p] == pre_kids[p]);
                        }
                    } else {
                        assert(children[cur as int]@[children[cur as int]@.len() - 1] == len);
                    }
                }
                assert forall|i: int|
                    0 <= i < nodes.len() implies #[trigger] nodes[i].num_visits + (if i == len as int {
                        1int
                    } else {
                        0
                    }) == own_visit(i, self.root_own) + nodes[i].spilled + kid_visits(nodes, children[i]@) by {
                    if i < len {
                        let k = pre_kids[i]@;
                        assert forall|j: int| 0 <= j < k.len() implies pre[k[j] as int].num_visits == #[trigger] nodes[k[j] as int].num_visits by {
                            assert(old(self).children@[i]@[j] < old(self).nodes@.len());
                        }
                        lemma_kid_visits_same(pre, k, nodes, k);
                        if i == cur {
                            assert(children[i]@ == k.push(len));
                            assert(children[i]@.drop_last() == k);
                        } else {
                            assert(children[i] == pre_kids[i]);
                        }
                    } else {
                        assert(children[i]@.len() == 0);
                    }
                }
            }
            self.backpropagate(len, -value);
        } else {
            let value = evaluate(self.evaluator, &state, &mut self.rng);
            let mut n = self.nodes[cur];
            proof {
                lemma_kid_visits_nonneg(self.nodes@, self.children@[cur as int]@);
                assert(n.spilled <= n.num_visits);
                assert(n.num_visits <= self.total);
            }
            n.spilled = n.spilled + 1;
            if len >= self.capacity {
                self.saturated = true;
            }
            let ghost pre = self.nodes@;
            self.nodes.set(cur, n);
            proof {
                let nodes = self.nodes@;
                let children = self.children@;
                assert forall|i: int|
                    0 <= i < nodes.len() implies #[trigger] nodes[i].num_visits + (if i == cur as int {
                        1int
                    } else {
                        0
                    }) == own_visit(i, self.root_own) + nodes[i].spilled + kid_visits(nodes, children[i]@) by {
                    assert forall|j: int| 0 <= j < children[i]@.len() implies children[i]@[j] < pre.len() by {
                        assert(old(self).children@[i]@[j] < old(self).nodes@.len());
                    }
                    assert(increasing(children[i]@));
                    lemma_kid_visits_update(pre, children[i]@, cur, n);
                    assert(nodes == pre.update(cur as int, n));
                }
                assert forall|i: int| 0 < i < nodes.len() implies #[trigger] children[nodes[i].parent as int]@.contains(i as usize) by {
                    assert(nodes[i].parent == pre[i].parent);
                    assert(children[pre[i].parent as int]@.contains(i as usize));
                }
                assert forall|i: int| 0 <= i < nodes.len() implies increasing(#[trigger] children[i]@) by {
                    assert(increasing(old(self).children@[i]@));
                }
                assert forall|i: int| 0 <= i < nodes.len() && #[trigger] nodes[i].terminal implies children[i]@.len() == 0 by {
                    assert(pre[i].terminal);
                }
                assert forall|i: int| 0 <= i < nodes.len() && #[trigger] nodes[i].spilled > 0 && !self.saturated implies children[i]@.len() == 0 && (nodes[i].terminal || self.untried@[i]@.len() == 0) by {
                    if i != cur {
                        assert(pre[i].spilled > 0);
                    } else if !pre[i].terminal {
                        assert(self.untried@[i]@.len() == 0);
                    }
                }
            }
            self.backpropagate(cur, -value);
        }
    }

    /// Runs exactly `count` search cycles; returns `count` and the
    /// milliseconds they took.
    pub fn explore_n(&mut self, count: u64) -> (r: (u64, u64))
        requires
            old(self).wf(),
            old(self).total + count <= VISIT_LIMIT,
        ensures
            final(self).wf(),
            r.0 == count,
            final(self).total == old(self).total + count,
            final(self).root_visits() == old(self).root_visits() + count,
            final(self).nodes@.len() >= old(self).nodes@.len(),
            final(self).nodes@.len() <= old(self).nodes@.len() + count,
            final(self).id == old(self).id,
            final(self).capacity == old(self).capacity,
            final(self).env == old(self).env,
            final(self).evaluator == old(self).evaluator,
            final(self).root_own == old(self).root_own,
            final(self).saturated ==> old(self).saturated || final(self).nodes@.len()
                == final(self).capacity,
    {
        let start = clock_now();
        let mut done: u64 = 0;
        while done < count
            invariant
                self.wf(),
                done <= count,
                self.total == old(self).total + done,
                old(self).total + count <= VISIT_LIMIT,
                self.root_visits() == old(self).root_visits() + done,
                self.nodes@.len() >= old(self).nodes@.len(),
                self.nodes@.len() <= old(self).nodes@.len() + done,
                self.id == old(self).id,
                self.capacity == old(self).capacity,
                self.env == old(self).env,
                self.evaluator == old(self).evaluator,
                self.root_own == old(self).root_own,
                self.saturated ==> old(self).saturated || self.nodes@.len() == self.capacity,
            decreases count - done,
        {
            self.search_cycle();
            done = done + 1;
        }
        (count, millis_u64(whole_millis(&time_since(&start))))
    }

    /// One step of a timed search: when `elapsed_ms` is under `budget_ms` and
    /// the lifetime limit of cycles is not reached, runs one search cycle and
    /// answers `true`; otherwise changes nothing and answers `false`.
    pub fn explore_step(&mut self, elapsed_ms: u64, budget_ms: u64) -> (ran: bool)
        requires
            old(self).wf(),
        ensures
            final(self).wf(),
            ran == (elapsed_ms < budget_ms && old(self).total < VISIT_LIMIT),
            ran ==> final(self).total == old(self).total + 1 && final(self).root_visits()
                == old(self).root_visits() + 1,
            !ran ==> final(self).nodes == old(self).nodes && final(self).total == old(self).total,
            final(self).nodes@.len() >= old(self).nodes@.len(),
            final(self).id == old(self).id,
            final(self).capacity == old(self).capacity,
            final(self).env == old(self).env,
            final(self).evaluator == old(self).evaluator,
            final(self).root_own == old(self).root_own,
            final(self).saturated ==> old(self).saturated || final(self).nodes@.len()
                == final(self).capacity,
    {
        if elapsed_ms < budget_ms && self.total < VISIT_LIMIT {
            self.search_cycle();
            true
        } else {
            false
        }
    }

    /// Runs search cycles until `budget_ms` milliseconds have passed, checking
    /// the clock before each cycle, or until the lifetime limit of cycles is
    /// reached; returns the cycles run and the milliseconds they took. With a
    /// budget of 0 no cycle runs.
    pub fn explore_for(&mut self, budget_ms: u64) -> (r: (u64, u64))
        requires
            old(self).wf(),
        ensures
            final(self).wf(),
            final(self).total == old(self).total + r.0,
            final(self).root_visits() == old(self).root_visits() + r.0,
            budget_ms == 0 || old(self).total >= VISIT_LIMIT ==> r.0 == 0 && final(self).nodes
                == old(self).nodes,
            final(self).nodes@.len() >= old(self).nodes@.len(),
            final(self).id == old(self).id,
            final(self).capacity == old(self).capacity,
            final(self).env == old(self).env,
            final(self).evaluator == old(self).evaluator,
            final(self).root_own == old(self).root_own,
            final(self).saturated ==> old(self).saturated || final(self).nodes@.len()
                == final(self).capacity,
    {
        let start = clock_now();
        let mut done: u64 = 0;
        loop
            invariant
                self.wf(),
                self.total == old(self).total + done,
                self.root_visits() == old(self).root_visits() + done,
                budget_ms == 0 || old(self).total >= VISIT_LIMIT ==> done == 0 && self.nodes
                    == old(self).nodes,
                self.nodes@.len() >= old(self).nodes@.len(),
                self.id == old(self).id,
                self.capacity == old(self).capacity,
                self.env == old(self).env,
                self.evaluator == old(self).evaluator,
                self.root_own == old(self).root_own,
                self.saturated ==> old(self).saturated || self.nodes@.len() == self.capacity,
            decreases VISIT_LIMIT - self.total,
        {
            let elapsed = millis_u64(whole_millis(&time_since(&start)));
            if !self.explore_step(elapsed, budget_ms) {
                break;
            }
            done = done + 1;
        }
        (done, millis_u64(whole_millis(&time_since(&start))))
    }

    /// The action of the root's most visited child, the first one on a tie.
    /// The root must have been expanded.
    pub fn best_action(&self) -> (r: Action)
        requires
            self.wf(),
            self.children@[0]@.len() > 0,
        ensures
            exists|k: int|
                first_most_visited(self.nodes@, self.children@[0]@, k) && r == self.nodes@[self.children@[0]@[k] as int].action,
    {
        let kids = &self.children[0];
        let mut best: usize = 0;
        let mut i: usize = 1;
        while i < kids.len()
            invariant
                self.wf(),
                kids == self.children@[0],
                kids@.len() > 0,
                1 <= i <= kids@.len(),
                best < i,
                forall|j: int| 0 <= j < i ==> self.nodes@[kids@[j] as int].num_visits
                    <= self.nodes@[kids@[best as int] as int].num_visits,
                forall|j: int| 0 <= j < best ==> self.nodes@[kids@[j] as int].num_visits
                    < self.nodes@[kids@[best as int] as int].num_visits,
            decreases kids@.len() - i,
        {
            if self.nodes[kids[i]].num_visits > self.nodes[kids[best]].num_visits {
                best = i;
            }
            i = i + 1;
        }
        assert(first_most_visited(self.nodes@, self.children@[0]@, best as int));
        self.nodes[kids[best]].action
    }

    /// Plays `action` at the root. When a child of the root was reached by
    /// `action`, the tree is rebuilt from that child, which keeps its
    /// statistics; otherwise a fresh, unvisited root is made. `action` must
    /// be legal at the root's state.
    pub fn advance_root(&mut self, action: Action)
        requires
            old(self).wf(),
        ensures
            final(self).wf(),
            final(self).id == old(self).id,
            final(self).capacity == old(self).capacity,
            final(self).total == old(self).total,
            final(self).env == old(self).env.after_spec(action),
            final(self).evaluator == old(self).evaluator,
            forall|k: int|
                0 <= k < old(self).children@[0]@.len() && old(self).nodes@[old(
                    self,
                ).children@[0]@[k] as int].action == action
                    ==> final(self).nodes@[0].num_visits == old(self).nodes@[old(
                    self,
                ).children@[0]@[k] as int].num_visits && final(self).nodes@[0].reward == old(
                    self,
                ).nodes@[old(self).children@[0]@[k] as int].reward && exists|m: Seq<int>|
                    renumbered_subtree(
                        old(self).nodes@,
                        old(self).children@,
                        old(self).untried@,
                        final(self).nodes@,
                        final(self).children@,
                        final(self).untried@,
                        old(self).children@[0]@[k] as int,
                        m,
                    ),
            (forall|k: int|
                0 <= k < old(self).children@[0]@.len() ==> old(self).nodes@[old(
                    self,
                ).children@[0]@[k] as int].action != action) ==> final(self).nodes@.len() == 1
                && final(self).nodes@[0].num_visits == 0 && final(self).nodes@[0].reward == 0
                && final(self).children@[0]@.len() == 0,
    {
        self.env.step(&action);
        let kids = &self.children[0];
        let mut i: usize = 0;
        while i < kids.len()
            invariant
                self.wf(),
                kids == self.children@[0],
                i <= kids@.len(),
                forall|j: int| 0 <= j < i ==> self.nodes@[kids@[j] as int].action != action,
                self.nodes == old(self).nodes,
                self.children == old(self).children,
                self.untried == old(self).untried,
                self.id == old(self).id,
                self.capacity == old(self).capacity,
                self.total == old(self).total,
                self.env == old(self).env.after_spec(action),
                self.evaluator == old(self).evaluator,
            decreases kids@.len() - i,
        {
            let a = self.nodes[kids[i]].action;
            if a.0 == action.0 && a.1 == action.1 {
                assert(first_with_action(self.nodes@, self.children@[0]@, action, i as int));
                assert(distinct_moves(self.nodes@, self.children@[0]@, self.untried@[0]@));
                assert forall|k: int|
                    0 <= k < kids@.len() && self.nodes@[kids@[k] as int].action == action implies k
                        == i by {
                    if k < i as int {
                        assert(self.nodes@[kids@[k] as int].action != self.nodes@[kids@[i as int] as int].action);
                    } else if k > i as int {
                        assert(self.nodes@[kids@[i as int] as int].action != self.nodes@[kids@[k] as int].action);
                    }
                }
                let c = kids[i];
                assert(c == old(self).children@[0]@[i as int]);
                self.rebuild_from(c);
                return;
            }
            i = i + 1;
        }
        self.push_root(action, 0);
    }

    /// Replaces the arena with the subtree of `c`, which becomes the root;
    /// the other nodes are dropped.
    fn rebuild_from(&mut self, c: usize)
        requires
            old(self).wf(),
            0 < c < old(self).nodes@.len(),
        ensures
            final(self).wf(),
            final(self).nodes@[0].num_visits == old(self).nodes@[c as int].num_visits,
            final(self).nodes@[0].reward == old(self).nodes@[c as int].reward,
            final(self).id == old(self).id,
            final(self).capacity == old(self).capacity,
            final(self).total == old(self).total,
            final(self).env == old(self).env,
            final(self).evaluator == old(self).evaluator,
            exists|m: Seq<int>|
                renumbered_subtree(
                    old(self).nodes@,
                    old(self).children@,
                    old(self).untried@,
                    final(self).nodes@,
                    final(self).children@,
                    final(self).untried@,
                    c as int,
                    m,
                ),
    {
        let len = self.nodes.len();
        let none: usize = usize::MAX;
        let mut map: Vec<usize> = Vec::new();
        let mut j: usize = 0;
        while j < c
            invariant
                j <= c,
                map@.len() == j,
                forall|t: int| 0 <= t < j ==> map@[t] == none,
            decreases c - j,
        {
            map.push(none);
            j = j + 1;
        }
        let mut nodes: Vec<Node> = Vec::new();
        let mut children: Vec<Vec<usize>> = Vec::new();
        let mut untried: Vec<Vec<Action>> = Vec::new();
        let ghost mut inv: Seq<int> = Seq::empty();
        let mut i: usize = c;
        while i < len
            invariant
                self.wf(),
                len == self.nodes@.len(),
                0 < c <= i <= len,
                map@.len() == i,
                none == usize::MAX,
                nodes@.len() <= i - c,
                i > c ==> nodes@.len() >= 1,
                children@.len() == nodes@.len(),
                untried@.len() == nodes@.len(),
                inv.len() == nodes@.len(),
                forall|t: int| 0 <= t < c ==> map@[t] == none,
                forall|t: int|
                    c <= t < i && map@[t] != none ==> #[trigger] map@[t] < nodes@.len() && inv[map@[t] as int] == t,
                forall|n: int|
                    0 <= n < nodes@.len() ==> c <= #[trigger] inv[n] < i && map@[inv[n]] == n
                        && nodes@[n].num_visits == self.nodes@[inv[n]].num_visits
                        && nodes@[n].spilled == self.nodes@[inv[n]].spilled
                        && nodes@[n].reward == self.nodes@[inv[n]].reward
                        && nodes@[n].terminal == self.nodes@[inv[n]].terminal
                        && nodes@[n].action == self.nodes@[inv[n]].action
                        && nodes@[n].player == self.nodes@[inv[n]].player
                        && untried@[n]@ == self.untried@[inv[n]]@
                        && untried@[n]@.len() == self.untried@[inv[n]]@.len(),
                forall|t: int|
                    c <= t < i && map@[t] != none ==> #[trigger] kept_prefix(
                        self.children@,
                        children@,
                        map@,
                        t,
                        i as int,
                    ),
                i > c ==> map@[c as int] == 0,
                i > c ==> nodes@[0].parent == 0,
                forall|n: int| 0 < n < nodes@.len() ==> #[trigger] nodes@[n].parent < n,
                forall|n: int, m: int|
                    0 <= n < nodes@.len() && 0 <= m < children@[n]@.len() ==> {
                        let k = #[trigger] children@[n]@[m];
                        &&& n < k < nodes@.len()
                        &&& nodes@[k as int].parent == n
                    },
                forall|n: int| 0 <= n < nodes@.len() ==> increasing(#[trigger] children@[n]@),
                forall|n: int|
                    0 < n < nodes@.len() ==> #[trigger] children@[nodes@[n].parent as int]@.contains(
                        n as usize,
                    ),
                forall|n: int| 0 <= n < nodes@.len() ==> #[trigger] nodes@[n].num_visits
                    <= self.total,
                forall|n: int| 0 <= n < nodes@.len() ==> reward_in_range(#[trigger] nodes@[n]),
                forall|n: int| 0 <= n < nodes@.len() ==> #[trigger] nodes@[n].num_visits >= 1,
            decreases len - i,
        {
            let old_node = self.nodes[i];
            assert(self.nodes@[i as int].num_visits >= 1);
            let p_old = old_node.parent;
            let keep = i == c || (p_old >= c && map[p_old] != none);
            let ghost pre_children = children@;
            let ghost pre_map = map@;
            let ghost pre_nodes = nodes@;
            let ghost pre_inv = inv;
            if keep {
                let ni = nodes.len();
                let p = if i == c {
                    0
                } else {
                    map[p_old]
                };
                map.push(ni);
                untried.push(copy_actions(&self.untried[i]));
                children.push(Vec::new());
                nodes.push(Node { parent: p, ..old_node });
                proof {
                    inv = inv.push(i as int);
                }
                if i != c {
                    let mut kids = children[p].clone();
                    assert(kids@ == children@[p as int]@);
                    kids.push(ni);
                    children.set(p, kids);
                }
                proof {
                    assert forall|n: int, m: int|
                        0 <= n < nodes@.len() && 0 <= m < children@[n]@.len() implies {
                            let k = #[trigger] children@[n]@[m];
                            &&& n < k < nodes@.len()
                            &&& nodes@[k as int].parent == n
                        } by {
                        if n < ni && n != p {
                            assert(children@[n] == pre_children[n]);
                        } else if n < ni && m < pre_children[n]@.len() {
                            assert(children@[n]@[m] == pre_children[n]@[m]);
                        }
                    }
                    assert forall|n: int| 0 <= n < nodes@.len() implies increasing(
                        #[trigger] children@[n]@,
                    ) by {
                        if n < ni && n != p {
                            assert(children@[n] == pre_children[n]);
                        } else if n < ni {
                            assert(children@[n]@ == pre_children[n]@.push(ni));
                            assert forall|a: int| 0 <= a < pre_children[n]@.len() implies pre_children[n]@[a] < ni by {
                                assert(pre_children[n]@[a] < pre_nodes.len());
                            }
                        }
                    }
                    assert forall|n: int| 0 < n < nodes@.len() implies #[trigger] children@[nodes@[n].parent as int]@.contains(n as usize) by {
                        if n < ni {
                            let q = pre_nodes[n].parent as int;
                            assert(pre_children[q]@.contains(n as usize));
                            let j = choose|j: int| 0 <= j < pre_children[q]@.len() && pre_children[q]@[j] == n as usize;
                            if q == p {
                                assert(children@[q]@[j] == n as usize);
                            } else {
                                assert(children@[q] == pre_children[q]);
                            }
                        } else {
                            assert(children@[p as int]@[children@[p as int]@.len() - 1] == ni);
                        }
                    }
                    assert forall|t: int| c <= t < i + 1 && map@[t] != none implies #[trigger] kept_prefix(
                        self.children@,
                        children@,
                        map@,
                        t,
                        i + 1,
                    ) by {
                        self.lemma_prefix_step(pre_children, children@, pre_map, map@, pre_inv, t, i as int, c as int, true);
                    }
                }
            } else {
                map.push(none);
                proof {
                    assert forall|t: int| c <= t < i + 1 && map@[t] != none implies #[trigger] kept_prefix(
                        self.children@,
                        children@,
                        map@,
                        t,
                        i + 1,
                    ) by {
                        self.lemma_prefix_step(pre_children, children@, pre_map, map@, inv, t, i as int, c as int, false);
                    }
                }
            }
            i = i + 1;
        }
        proof {
            let old_nodes = self.nodes@;
            let old_kids = self.children@;
            assert forall|n: int|
                0 <= n < nodes@.len() implies #[trigger] nodes@[n].num_visits + (if n == -1 {
                    1int
                } else {
                    0
                }) == own_visit(n, 1) + nodes@[n].spilled + kid_visits(nodes@, children@[n]@) by {
                let o = inv[n];
                assert(map@[o] == n);
                assert(kept_prefix(old_kids, children@, map@, o, len as int));
                let k = old_kids[o]@;
                let nk = children@[n]@;
                assert(nk.len() == k.len()) by {
                    if nk.len() < k.len() {
                        assert(k[nk.len() as int] < len);
                    }
                }
                assert(untried@[n]@.len() == self.untried@[o]@.len());
                assert forall|j: int| 0 <= j < k.len() implies old_nodes[k[j] as int].num_visits == #[trigger] nodes@[nk[j] as int].num_visits by {
                    assert(nk[j] == map@[k[j] as int]);
                    assert(old_nodes[k[j] as int].parent == o);
                    assert(map@[k[j] as int] != none);
                    assert(inv[map@[k[j] as int] as int] == k[j]);
                }
                lemma_kid_visits_same(old_nodes, k, nodes@, nk);
                assert(old_nodes[o].terminal ==> k.len() == 0);
                assert(old_nodes[o].spilled > 0 && !self.saturated ==> k.len() == 0 && (
                old_nodes[o].terminal || self.untried@[o]@.len() == 0));
                if n > 0 {
                    assert(o != c) by {
                        if o == c {
                            assert(map@[c as int] == 0);
                        }
                    }
                }
            }
        }
        proof {
            assert forall|n: int| 0 <= n < nodes@.len() implies {
                let o = #[trigger] inv[n];
                &&& 0 <= o < self.nodes@.len()
                &&& children@[n]@.len() == self.children@[o]@.len()
                &&& forall|j: int|
                    0 <= j < children@[n]@.len() ==> inv[#[trigger] children@[n]@[j] as int]
                        == self.children@[o]@[j]
            } by {
                let o = inv[n];
                assert(kept_prefix(self.children@, children@, map@, o, len as int));
                assert(map@[o] == n);
                let k = self.children@[o]@;
                let nk = children@[n]@;
                assert(nk.len() == k.len()) by {
                    if nk.len() < k.len() {
                        assert(k[nk.len() as int] < len);
                    }
                }
                assert forall|j: int| 0 <= j < nk.len() implies inv[#[trigger] nk[j] as int] == k[j] by {
                    assert(nk[j] == map@[k[j] as int]);
                    assert(self.nodes@[k[j] as int].parent == o);
                    assert(inv[map@[k[j] as int] as int] == k[j]);
                }
            }
            assert(renumbered_subtree(self.nodes@, self.children@, self.untried@, nodes@, children@, untried@, c as int, inv));
            assert forall|n: int| 0 <= n < nodes@.len() implies distinct_moves(
                nodes@,
                #[trigger] children@[n]@,
                untried@[n]@,
            ) by {
                let o = inv[n];
                assert(kept_prefix(self.children@, children@, map@, o, len as int));
                assert(map@[o] == n);
                let k = self.children@[o]@;
                let nk = children@[n]@;
                assert(distinct_moves(self.nodes@, k, self.untried@[o]@));
                assert(nk.len() == k.len()) by {
                    if nk.len() < k.len() {
                        assert(k[nk.len() as int] < len);
                    }
                }
                assert forall|j: int| 0 <= j < nk.len() implies #[trigger] nodes@[nk[j] as int].action == self.nodes@[k[j] as int].action by {
                    assert(nk[j] == map@[k[j] as int]);
                    assert(self.nodes@[k[j] as int].parent == o);
                    assert(inv[map@[k[j] as int] as int] == k[j]);
                }
                assert forall|a: int, b: int| 0 <= a < b < nk.len() implies nodes@[#[trigger] nk[a] as int].action != nodes@[#[trigger] nk[b] as int].action by {
                    assert(nodes@[nk[a] as int].action == self.nodes@[k[a] as int].action);
                    assert(nodes@[nk[b] as int].action == self.nodes@[k[b] as int].action);
                }
                assert forall|a: int, u: int| 0 <= a < nk.len() && 0 <= u < untried@[n]@.len() implies nodes@[#[trigger] nk[a] as int].action != #[trigger] untried@[n]@[u] by {
                    assert(nodes@[nk[a] as int].action == self.nodes@[k[a] as int].action);
                }
            }
            assert forall|n: int| 0 <= n < nodes@.len() && #[trigger] nodes@[n].terminal implies children@[n]@.len() == 0 by {
                let o = inv[n];
                assert(kept_prefix(self.children@, children@, map@, o, len as int));
                assert(self.nodes@[o].terminal);
                assert(map@[o] == n);
            }
            assert forall|n: int| 0 <= n < nodes@.len() && #[trigger] nodes@[n].spilled > 0 && !self.saturated implies children@[n]@.len() == 0 && (nodes@[n].terminal || untried@[n]@.len() == 0) by {
                let o = inv[n];
                assert(kept_prefix(self.children@, children@, map@, o, len as int));
                assert(self.nodes@[o].spilled > 0);
                assert(map@[o] == n);
            }
        }
        self.nodes = nodes;
        self.children = children;
        self.untried = untried;
        self.root_own = 1;
    }

    #[verifier::spinoff_prover]
    /// One step of the rebuild keeps each kept node's new child list a
    /// renumbered prefix of its old one, reaching past `i`.
    proof fn lemma_prefix_step(
        &self,
        pre_children: Seq<Vec<usize>>,
        children: Seq<Vec<usize>>,
        pre_map: Seq<usize>,
        map: Seq<usize>,
        inv: Seq<int>,
        t: int,
        i: int,
        c: int,
        kept: bool,
    )
        requires
            arena_wf(self.nodes@, self.children@, self.untried@.len(), self.total),
            conserved_but(self.nodes@, self.children@, self.root_own, -1),
            forall|u: int| c <= u < i && pre_map[u] != usize::MAX ==> #[trigger] inv[pre_map[u] as int] == u,
            0 < c <= i < self.nodes@.len(),
            i < usize::MAX,
            pre_map.len() == i,
            map == pre_map.push(map[i]),
            kept <==> map[i] != usize::MAX,
            kept <==> (i == c || (self.nodes@[i].parent >= c && pre_map[self.nodes@[i].parent as int] != usize::MAX)),
            c <= t <= i,
            map[t] != usize::MAX,
            forall|u: int| c <= u < i && pre_map[u] != usize::MAX ==> #[trigger] kept_prefix(self.children@, pre_children, pre_map, u, i),
            forall|u: int| c <= u < i && pre_map[u] != usize::MAX ==> #[trigger] pre_map[u] < pre_children.len(),
            kept ==> map[i] == pre_children.len(),
            kept ==> children.len() == pre_children.len() + 1 && children[map[i] as int]@.len() == 0,
            !kept ==> children == pre_children,
            kept && i != c ==> children[pre_map[self.nodes@[i].parent as int] as int]@ == pre_children[pre_map[self.nodes@[i].parent as int] as int]@.push(map[i]),
            kept ==> forall|q: int| 0 <= q < pre_children.len() && (i == c || q != pre_map[self.nodes@[i].parent as int]) ==> #[trigger] children[q] == pre_children[q],
        ensures
            kept_prefix(self.children@, children, map, t, i + 1),
    {
        let kids = self.children@;
        if t == i {
            let k = kids[t]@;
            assert(kept);
            assert(map[t] == map[i]);
            assert(children[map[t] as int]@.len() == 0);
            assert forall|j: int| 0 <= j < k.len() implies k[j] >= i + 1 by {
                assert(k[j] > t);
            }
        } else {
            assert(kept_prefix(kids, pre_children, pre_map, t, i));
            let k = kids[t]@;
            let q = pre_map[t] as int;
            let nk = pre_children[q]@;
            let par = self.nodes@[i].parent as int;
            assert(map[t] == pre_map[t]);
            if kept && i != c && t == par {
                assert(kids[par]@.contains(i as usize));
                let w = choose|w: int| 0 <= w < k.len() && k[w] == i as usize;
                if w < nk.len() {
                    assert(nk[w] == pre_map[k[w] as int]);
                    assert(k[w] < i);
                }
                assert(increasing(kids[t]@));
                if w > nk.len() {
                    assert(nk.len() <= nk.len() < k.len());
                    assert(k[nk.len() as int] >= i);
                    assert(k[nk.len() as int] < k[w]);
                }
                assert(w == nk.len());
                assert(children[q]@ == nk.push(map[i]));
                assert forall|j: int| 0 <= j < nk.len() + 1 implies #[trigger] children[q]@[j] == map[k[j] as int] && k[j] < i + 1 by {
                    if j < nk.len() {
                        assert(nk[j] == pre_map[k[j] as int]);
                    }
                }
                assert forall|j: int| nk.len() + 1 <= j < k.len() implies k[j] >= i + 1 by {
                    assert(k[nk.len() as int] < k[j]);
                }
                assert(children[map[t] as int]@.len() == nk.len() + 1);
                assert(kept_prefix(kids, children, map, t, i + 1));
            } else {
                if kept {
                    if i != c {
                        assert(par < i);
                        assert(inv[pre_map[t] as int] == t);
                        assert(inv[pre_map[par] as int] == par);
                    }
                    assert(children[q] == pre_children[q]);
                }
                assert(children[map[t] as int]@ == nk);
                assert forall|j: int| nk.len() <= j < k.len() implies k[j] >= i + 1 by {
                    if k[j] == i {
                        assert(self.nodes@[i].parent == t);
                    }
                }
                assert(kept_prefix(kids, children, map, t, i + 1)) by {
                    assert forall|j: int| 0 <= j < nk.len() implies #[trigger] nk[j] == map[k[j] as int] && k[j] < i + 1 by {
                        assert(nk[j] == pre_map[k[j] as int]);
                    }
                }
            }
        }
    }

    /// Bytes taken by the node records in use, saturating at `usize::MAX`.
    pub fn memory_usage(&self) -> (r: usize)
        ensures
            r == (if self.nodes@.len() * vstd::layout::size_of::<Node>() > usize::MAX {
                usize::MAX as int
            } else {
                (self.nodes@.len() * vstd::layout::size_of::<Node>()) as int
            }),
    {
        let size: usize = core::mem::size_of::<Node>();
        let len: usize = self.nodes.len();
        if size > 0 && len > usize::MAX / size {
            proof {
                assert(len * size > usize::MAX) by (nonlinear_arith)
                    requires
                        size > 0,
                        len > usize::MAX / size,
                ;
            }
            usize::MAX
        } else {
            proof {
                assert(len * size <= usize::MAX) by (nonlinear_arith)
                    requires
                        size == 0 || len <= usize::MAX / size,
                ;
            }
            len * size
        }
    }

    /// Nodes in use.
    pub fn len(&self) -> (r: usize)
        ensures
            r == self.nodes@.len(),
    {
        self.nodes.len()
    }

    /// The arena's capacity in nodes.
    pub fn capacity(&self) -> (r: usize)
        ensures
            r == self.capacity,
    {
        self.capacity
    }
}

} // verus!
