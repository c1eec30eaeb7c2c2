//! The Monte Carlo search tree.
//!
//! The tree is an arena: nodes are addressed by stable indices, children
//! always carry larger indices than their parent, and each node stores
//! its parent's index, so backpropagation is an index-following climb and
//! no shared ownership is needed. Statistics are integers: `visits`
//! counts rollouts folded into a node, and `wins_half` counts the
//! accumulated score in half-points (a win credits 2, a tie 1), so
//! `wins_half <= 2 * visits` always holds.
//!
//! The view of a tree is a sequence of [`NodeModel`]s, and every
//! operation is specified as a transformation of that sequence.

use crate::game::{
    rollout_outcome, spec_play, spec_possible_plays, game_wf, lemma_plays_upto_props,
    lemma_plays_upto_update, lemma_plays_upto_nonempty, lemma_possible_play_ok, Game, GameModel,
    GameState, GameTurn,
};
use crate::board::Cell;
use crate::score::{spec_uct, uct};
use vstd::prelude::*;

use rand::Rng;

verus! {

/// A search-tree operation that was invoked on the wrong input: expanding
/// a node that already has children, or backpropagating a classification
/// that is not terminal.
#[derive(Debug, Clone, Copy, PartialEq, Eq, Structural)]
pub enum MctsError {
    AlreadyExpanded,
    InvalidBackpropagationResult,
}

/// Statistics never reach this many visits at any node; the bound leaves
/// headroom so that incrementing visit and win counters cannot overflow.
pub const MAX_VISITS: u64 = 0x4000000000000000;

/// The mathematical value of one tree node: its game position, its
/// parent's index (`None` only for the root), its children's indices in
/// creation order, the move that led here from the parent, and the
/// accumulated statistics.
#[verifier::ext_equal]
pub ghost struct NodeModel {
    pub game: GameModel,
    pub parent: Option<usize>,
    pub children: Seq<usize>,
    pub move_from_parent: Option<(usize, usize)>,
    pub wins_half: u64,
    pub visits: u64,
}

/// The index of node `i`'s parent.
pub open spec fn parent_index(t: Seq<NodeModel>, i: int) -> int {
    t[i].parent->0 as int
}

/// Well-formedness of a tree model: node 0 is the only root, parents
/// precede their children, parent and child links agree, every position
/// is well formed, scores never exceed one point per visit, and a node is
/// never visited more often than its parent.
pub open spec fn wf_nodes(t: Seq<NodeModel>) -> bool {
    &&& t.len() >= 1
    &&& t[0].parent is None
    &&& t[0].move_from_parent is None
    &&& forall|i: int|
        1 <= i < t.len() ==> ((#[trigger] t[i].parent) is Some && t[i].parent->0 < i)
    &&& forall|i: int| 1 <= i < t.len() ==> (#[trigger] t[i].move_from_parent) is Some
    &&& forall|i: int| 0 <= i < t.len() ==> game_wf(#[trigger] t[i].game)
    &&& forall|i: int, k: int|
        0 <= i < t.len() && 0 <= k < t[i].children.len() ==> (i < (#[trigger] t[i].children[k])
            && t[i].children[k] < t.len() && t[t[i].children[k] as int].parent == Some(i as usize))
    &&& forall|i: int| 0 <= i < t.len() ==> (#[trigger] t[i].wins_half) <= 2 * t[i].visits
    &&& forall|i: int|
        1 <= i < t.len() ==> t[i].visits <= t[#[trigger] parent_index(t, i)].visits
}

/// A Monte Carlo search tree over tic-tac-toe positions, stored as an
/// arena of parallel columns; index `i` of every column belongs to node
/// `i`.
pub struct Tree {
    games: Vec<Game>,
    parents: Vec<Option<usize>>,
    children: Vec<Vec<usize>>,
    moves: Vec<Option<(usize, usize)>>,
    wins_half: Vec<u64>,
    visits: Vec<u64>,
}

impl View for Tree {
    type V = Seq<NodeModel>;

    closed spec fn view(&self) -> Seq<NodeModel> {
        Seq::new(
            self.games@.len() as nat,
            |i: int|
                NodeModel {
                    game: self.games@[i]@,
                    parent: self.parents@[i],
                    children: self.children@[i]@,
                    move_from_parent: self.moves@[i],
                    wins_half: self.wins_half@[i],
                    visits: self.visits@[i],
                },
        )
    }
}

/// The tree model after expanding `node`: one fresh child per legal move
/// of `node`'s position, appended at the end in move order, each holding
/// the position after its move and zero statistics; `node`'s child list
/// names exactly the fresh nodes; nothing else changes.
pub open spec fn spec_expand(t: Seq<NodeModel>, node: int) -> Seq<NodeModel> {
    let moves = spec_possible_plays(t[node].game);
    Seq::new(
        t.len() + moves.len(),
        |i: int|
            if i == node {
                NodeModel {
                    children: Seq::new(moves.len(), |k: int| (t.len() + k) as usize),
                    ..t[node]
                }
            } else if i < t.len() {
                t[i]
            } else {
                NodeModel {
                    game: spec_play(t[node].game, moves[i - t.len()].0, moves[i - t.len()].1)->Ok_0,
                    parent: Some(node as usize),
                    children: Seq::empty(),
                    move_from_parent: Some(moves[i - t.len()]),
                    wins_half: 0,
                    visits: 0,
                }
            },
    )
}

/// The half-point credit a node earns when `result` is backpropagated
/// through it: a full win (2 half-points) when the terminal winner is not
/// the player on move at the node (the move into the node was the
/// winner's), half a point (1) for a tie, and nothing when the pending
/// mover is the winner.
pub open spec fn credit_half(result: GameState, turn: GameTurn) -> u64 {
    match result {
        GameState::XWon => if turn is TurnO {
            2
        } else {
            0
        },
        GameState::OWon => if turn is TurnX {
            2
        } else {
            0
        },
        GameState::Tie => 1,
        GameState::Ongoing => 0,
    }
}

/// One statistics update of backpropagation: one more visit, and the
/// credit `result` earns against the node's pending mover.
pub open spec fn bumped(n: NodeModel, result: GameState) -> NodeModel {
    NodeModel {
        visits: (n.visits + 1) as u64,
        wins_half: (n.wins_half + credit_half(result, n.game.turn)) as u64,
        ..n
    }
}

/// Node `a` lies on the path from `d` to the root: it is `d` itself or
/// one of its ancestors.
pub open spec fn on_path(t: Seq<NodeModel>, a: int, d: int) -> bool
    decreases d,
    when 0 <= d < t.len() && wf_nodes(t)
{
    if a == d {
        true
    } else if d <= 0 {
        false
    } else {
        match t[d].parent {
            Some(p) => on_path(t, a, p as int),
            None => false,
        }
    }
}

/// The tree after backpropagating `result` from node `target`: every node
/// on the path from `target` to the root is bumped exactly once; all
/// other nodes are untouched.
pub open spec fn spec_backprop(t: Seq<NodeModel>, target: int, result: GameState) -> Seq<
    NodeModel,
> {
    Seq::new(
        t.len(),
        |i: int|
            if on_path(t, i, target) {
                bumped(t[i], result)
            } else {
                t[i]
            },
    )
}

/// The tree in the middle of a backpropagation climb from `target` that
/// has reached `cur`: the nodes strictly below `cur` on the path are
/// already bumped, `cur` itself and everything above are not.
spec fn backprop_partial(t: Seq<NodeModel>, target: int, cur: int, result: GameState) -> Seq<
    NodeModel,
> {
    Seq::new(
        t.len(),
        |i: int|
            if on_path(t, i, target) && on_path(t, cur, i) && i != cur {
                bumped(t[i], result)
            } else {
                t[i]
            },
    )
}

/// Anything on a path has an index between 0 and the path's start.
pub proof fn lemma_on_path_bounds(t: Seq<NodeModel>, a: int, d: int)
    requires
        wf_nodes(t),
        0 <= d < t.len(),
        on_path(t, a, d),
    ensures
        0 <= a <= d,
    decreases d,
{
    if a != d {
        lemma_on_path_bounds(t, a, t[d].parent->0 as int);
    }
}

/// A node's parent lies on the node's own path.
pub proof fn lemma_on_path_parent(t: Seq<NodeModel>, cur: int)
    requires
        wf_nodes(t),
        1 <= cur < t.len(),
    ensures
        t[cur].parent is Some,
        t[cur].parent->0 < cur,
        on_path(t, t[cur].parent->0 as int, cur),
{
    assert(t[cur].parent is Some && t[cur].parent->0 < cur);
    reveal_with_fuel(on_path, 2);
}

/// Unfolds one step of a path: below the top, the path continues at the
/// parent.
pub proof fn lemma_on_path_unfold(t: Seq<NodeModel>, a: int, d: int)
    requires
        wf_nodes(t),
        0 <= d < t.len(),
        on_path(t, a, d),
        a != d,
    ensures
        1 <= d,
        t[d].parent is Some,
        on_path(t, a, t[d].parent->0 as int),
{
    reveal_with_fuel(on_path, 2);
    if d <= 0 {
        assert(!on_path(t, a, d));
    }
}

/// The root lies on every path.
pub proof fn lemma_on_path_root(t: Seq<NodeModel>, d: int)
    requires
        wf_nodes(t),
        0 <= d < t.len(),
    ensures
        on_path(t, 0, d),
    decreases d,
{
    if d > 0 {
        lemma_on_path_root(t, t[d].parent->0 as int);
    }
}

/// Paths compose: an ancestor of an ancestor is an ancestor.
pub proof fn lemma_on_path_trans(t: Seq<NodeModel>, a: int, b: int, d: int)
    requires
        wf_nodes(t),
        0 <= d < t.len(),
        on_path(t, b, d),
        on_path(t, a, b),
    ensures
        on_path(t, a, d),
    decreases d,
{
    if b != d {
        lemma_on_path_trans(t, a, b, t[d].parent->0 as int);
    }
}

/// Two nodes on one path are ordered: one lies on the other's path.
pub proof fn lemma_on_path_total(t: Seq<NodeModel>, a: int, b: int, d: int)
    requires
        wf_nodes(t),
        0 <= d < t.len(),
        on_path(t, a, d),
        on_path(t, b, d),
    ensures
        on_path(t, a, b) || on_path(t, b, a),
    decreases d,
{
    if a != d && b != d {
        lemma_on_path_total(t, a, b, t[d].parent->0 as int);
    }
}

/// No node is visited more often than the root.
pub proof fn lemma_visits_le_root(t: Seq<NodeModel>, i: int)
    requires
        wf_nodes(t),
        0 <= i < t.len(),
    ensures
        t[i].visits <= t[0].visits,
    decreases i,
{
    if i > 0 {
        assert(t[i].visits <= t[parent_index(t, i)].visits);
        lemma_visits_le_root(t, t[i].parent->0 as int);
    }
}

/// Moving the climb from `cur` to its parent bumps exactly `cur`: the
/// partially-updated trees agree everywhere once `cur` itself is bumped.
#[verifier::rlimit(100)]
proof fn lemma_backprop_partial_step(t: Seq<NodeModel>, target: int, cur: int, i: int)
    requires
        wf_nodes(t),
        0 <= target < t.len(),
        0 <= i < t.len(),
        1 <= cur < t.len(),
        on_path(t, cur, target),
    ensures
        ({
            let p = t[cur].parent->0 as int;
            (on_path(t, i, target) && on_path(t, p, i) && i != p) <==> ((on_path(t, i, target)
                && on_path(t, cur, i) && i != cur) || i == cur)
        }),
{
    let p = t[cur].parent->0 as int;
    lemma_on_path_parent(t, cur);
    lemma_on_path_bounds(t, p, cur);
    if on_path(t, i, target) && on_path(t, p, i) && i != p && i != cur {
        lemma_on_path_total(t, i, cur, target);
        if on_path(t, i, cur) {
            lemma_on_path_unfold(t, i, cur);
            lemma_on_path_bounds(t, i, p);
            lemma_on_path_bounds(t, p, i);
            assert(false);
        }
    }
    if on_path(t, i, target) && on_path(t, cur, i) && i != cur {
        lemma_on_path_trans(t, p, cur, i);
        if i == p {
            lemma_on_path_bounds(t, cur, p);
            assert(false);
        }
    }
    if i == cur {
        lemma_on_path_bounds(t, p, cur);
    }
}

/// Backpropagation preserves well-formedness: it only raises statistics,
/// by one visit and at most two half-points per visited node.
#[verifier::rlimit(100)]
#[verifier::spinoff_prover]
pub proof fn lemma_backprop_wf(t: Seq<NodeModel>, target: int, result: GameState)
    requires
        wf_nodes(t),
        0 <= target < t.len(),
        t[0].visits < MAX_VISITS,
    ensures
        wf_nodes(spec_backprop(t, target, result)),
{
    let t1 = spec_backprop(t, target, result);
    assert forall|i: int| 0 <= i < t1.len() implies (#[trigger] t1[i].wins_half) <= 2
        * t1[i].visits by {
        lemma_visits_le_root(t, i);
    }
    assert forall|i: int|
        1 <= i < t1.len() implies t1[i].visits <= t1[#[trigger] parent_index(t1, i)].visits by {
        lemma_backprop_visits_le_parent(t, target, result, i);
    }
    assert(t1.len() == t.len());
    assert(t1[0].parent is None && t1[0].move_from_parent is None);
    assert forall|i: int|
        1 <= i < t1.len() implies ((#[trigger] t1[i].parent) is Some && t1[i].parent->0 < i) by {
        assert(t1[i].parent == t[i].parent);
    }
    assert forall|i: int| 1 <= i < t1.len() implies (#[trigger] t1[i].move_from_parent)
        is Some by {
        assert(t1[i].move_from_parent == t[i].move_from_parent);
    }
    assert forall|i: int| 0 <= i < t1.len() implies game_wf(#[trigger] t1[i].game) by {
        assert(t1[i].game == t[i].game);
    }
    assert forall|i: int, k: int|
        0 <= i < t1.len() && 0 <= k < t1[i].children.len() implies i < #[trigger] t1[i].children[k]
            && t1[i].children[k] < t1.len() && t1[t1[i].children[k] as int].parent == Some(
            i as usize,
        ) by {
        assert(t1[i].children == t[i].children);
        assert(t1[t[i].children[k] as int].parent == t[t[i].children[k] as int].parent);
    }
}

/// After backpropagation a node is still visited no more often than its
/// parent: a bumped node's parent is bumped too.
proof fn lemma_backprop_visits_le_parent(t: Seq<NodeModel>, target: int, result: GameState, i: int)
    requires
        wf_nodes(t),
        0 <= target < t.len(),
        t[0].visits < MAX_VISITS,
        1 <= i < t.len(),
    ensures
        ({
            let t1 = spec_backprop(t, target, result);
            t1[i].visits <= t1[t1[i].parent->0 as int].visits
        }),
{
    let t1 = spec_backprop(t, target, result);
    let p = t[i].parent->0 as int;
    assert(t1[i].parent == t[i].parent);
    assert(parent_index(t1, i) == p && parent_index(t, i) == p);
    assert(t[i].visits <= t[parent_index(t, i)].visits);
    lemma_visits_le_root(t, i);
    lemma_visits_le_root(t, p);
    if on_path(t, i, target) {
        lemma_on_path_parent(t, i);
        lemma_on_path_trans(t, p, i, target);
        assert(on_path(t, p, target));
    }
}

/// The expansion loop's invariant: the first `m` legal moves of `node`
/// have been turned into fresh children appended at the end, and nothing
/// else differs from the starting tree `t0`.
spec fn expand_partial(t0: Seq<NodeModel>, node: int, m: int, t: Seq<NodeModel>) -> bool {
    let moves = spec_possible_plays(t0[node].game);
    &&& t.len() == t0.len() + m
    &&& t[node] == (NodeModel {
        children: Seq::new(m as nat, |k: int| (t0.len() + k) as usize),
        ..t0[node]
    })
    &&& forall|i: int| 0 <= i < t0.len() && i != node ==> t[i] == t0[i]
    &&& forall|k: int|
        0 <= k < m ==> t[t0.len() + k] == (NodeModel {
            game: spec_play(t0[node].game, moves[k].0, moves[k].1)->Ok_0,
            parent: Some(node as usize),
            children: Seq::<usize>::empty(),
            move_from_parent: Some((moves[k].0, moves[k].1)),
            wins_half: 0,
            visits: 0,
        })
}

/// One pass of the expansion loop keeps its invariant: appending the
/// child for move `m` extends the partial expansion to `m + 1` moves.
#[verifier::rlimit(100)]
proof fn lemma_expand_step(
    t0: Seq<NodeModel>,
    node: int,
    m: int,
    pre: Seq<NodeModel>,
    post: Seq<NodeModel>,
)
    requires
        0 <= node < t0.len(),
        0 <= m < spec_possible_plays(t0[node].game).len(),
        expand_partial(t0, node, m, pre),
        post.len() == pre.len() + 1,
        post[pre.len() as int] == (NodeModel {
            game: spec_play(
                pre[node].game,
                spec_possible_plays(t0[node].game)[m].0,
                spec_possible_plays(t0[node].game)[m].1,
            )->Ok_0,
            parent: Some(node as usize),
            children: Seq::<usize>::empty(),
            move_from_parent: Some(
                (
                    spec_possible_plays(t0[node].game)[m].0,
                    spec_possible_plays(t0[node].game)[m].1,
                ),
            ),
            wins_half: 0,
            visits: 0,
        }),
        post[node] == (NodeModel {
            children: pre[node].children.push(pre.len() as usize),
            ..pre[node]
        }),
        forall|i: int| 0 <= i < pre.len() && i != node ==> post[i] == pre[i],
    ensures
        expand_partial(t0, node, m + 1, post),
{
    let moves = spec_possible_plays(t0[node].game);
    assert(pre[node].game == t0[node].game);
    assert(post[node].children =~= Seq::new((m + 1) as nat, |k: int| (t0.len() + k) as usize));
    assert(post[node] =~= NodeModel {
        children: Seq::new((m + 1) as nat, |k: int| (t0.len() + k) as usize),
        ..t0[node]
    });
    assert forall|k: int| 0 <= k < m + 1 implies post[t0.len() + k] == (NodeModel {
        game: spec_play(t0[node].game, moves[k].0, moves[k].1)->Ok_0,
        parent: Some(node as usize),
        children: Seq::<usize>::empty(),
        move_from_parent: Some((moves[k].0, moves[k].1)),
        wins_half: 0,
        visits: 0,
    }) by {
        if k < m {
            assert(post[t0.len() + k] == pre[t0.len() + k]);
        } else {
            assert(post[t0.len() + k] == post[pre.len() as int]);
            assert(moves[k] == (moves[k].0, moves[k].1));
        }
    }
}

/// A tree that holds the expansion loop's final state is exactly
/// `spec_expand` of the starting tree.
#[verifier::rlimit(100)]
proof fn lemma_expand_post(t0: Seq<NodeModel>, node: int, t1: Seq<NodeModel>)
    requires
        wf_nodes(t0),
        0 <= node < t0.len(),
        expand_partial(t0, node, spec_possible_plays(t0[node].game).len() as int, t1),
    ensures
        t1 == spec_expand(t0, node),
{
    let moves = spec_possible_plays(t0[node].game);
    let te = spec_expand(t0, node);
    assert forall|i: int| 0 <= i < t1.len() implies t1[i] == te[i] by {
        if i == node {
        } else if i < t0.len() {
        } else {
            assert(t1[i] == t1[t0.len() + (i - t0.len())]);
            assert(te[i].move_from_parent == Some(moves[i - t0.len()]));
            assert(moves[i - t0.len()] == (moves[i - t0.len()].0, moves[i - t0.len()].1));
        }
    }
    assert(t1 =~= te);
}

/// The UCT score of child `c` under a parent with `pv` visits.
pub open spec fn child_score(t: Seq<NodeModel>, pv: int, c: int) -> int {
    spec_uct(pv, t[c].wins_half as int, t[c].visits as int)
}

/// Selection's left-to-right walk over a child list, from position `k`
/// with running best `cur` scoring `best`: a child that was never
/// visited has an undefined score and is skipped; any other child
/// replaces the running best exactly when its score strictly exceeds it.
pub open spec fn scan_children(
    t: Seq<NodeModel>,
    pv: int,
    cs: Seq<usize>,
    k: int,
    cur: Option<usize>,
    best: int,
) -> Option<usize>
    decreases cs.len() - k,
{
    if k < 0 || k >= cs.len() {
        cur
    } else {
        let c = cs[k] as int;
        if t[c].visits > 0 && child_score(t, pv, c) > best {
            scan_children(t, pv, cs, k + 1, Some(cs[k]), child_score(t, pv, c))
        } else {
            scan_children(t, pv, cs, k + 1, cur, best)
        }
    }
}

/// The child selection steps into from node `i`: the first child whose
/// UCT score strictly exceeds every earlier defined score, starting from
/// a running maximum of zero; none when no visited child scores
/// positively.
pub open spec fn spec_pick(t: Seq<NodeModel>, i: int) -> Option<usize> {
    scan_children(t, t[i].visits as int, t[i].children, 0, None, 0)
}

/// A scan lands on its starting best or on one of the scanned children.
pub proof fn lemma_scan_membership(
    t: Seq<NodeModel>,
    pv: int,
    cs: Seq<usize>,
    k: int,
    cur: Option<usize>,
    best: int,
)
    ensures
        ({
            let r = scan_children(t, pv, cs, k, cur, best);
            r == cur || exists|j: int| k <= j < cs.len() && r == Some(cs[j])
        }),
    decreases cs.len() - k,
{
    if 0 <= k < cs.len() {
        let c = cs[k] as int;
        if t[c].visits > 0 && child_score(t, pv, c) > best {
            lemma_scan_membership(t, pv, cs, k + 1, Some(cs[k]), child_score(t, pv, c));
        } else {
            lemma_scan_membership(t, pv, cs, k + 1, cur, best);
        }
    }
}

/// Where selection starting at node `i` stops: it descends through the
/// picked child as long as there is one, and stops at a node without
/// children, or at one none of whose children scores positively.
pub open spec fn spec_select(t: Seq<NodeModel>, i: int) -> int
    decreases t.len() - i,
    when 0 <= i < t.len() && wf_nodes(t)
    via spec_select_decreases
{
    if t[i].children.len() == 0 {
        i
    } else {
        match spec_pick(t, i) {
            Some(c) => spec_select(t, c as int),
            None => i,
        }
    }
}

#[via_fn]
proof fn spec_select_decreases(t: Seq<NodeModel>, i: int) {
    if 0 <= i < t.len() && wf_nodes(t) && t[i].children.len() > 0 {
        match spec_pick(t, i) {
            Some(c) => {
                lemma_scan_membership(t, t[i].visits as int, t[i].children, 0, None, 0);
            },
            None => {},
        }
    }
}

/// Scanning a child list by visit count, keeping the earlier child on
/// ties: the running best `cur` is replaced exactly when a later child
/// has strictly more visits.
pub open spec fn best_visits_from(t: Seq<NodeModel>, cs: Seq<usize>, k: int, cur: usize) -> usize
    decreases cs.len() - k,
{
    if k < 0 || k >= cs.len() {
        cur
    } else if t[cs[k] as int].visits > t[cur as int].visits {
        best_visits_from(t, cs, k + 1, cs[k])
    } else {
        best_visits_from(t, cs, k + 1, cur)
    }
}

/// The recommended move: the move that leads to the root child with the
/// highest visit count, the earliest such child on ties; none while the
/// root has no children.
pub open spec fn spec_recommend(t: Seq<NodeModel>) -> Option<(usize, usize)> {
    if t[0].children.len() == 0 {
        None
    } else {
        t[best_visits_from(t, t[0].children, 1, t[0].children[0]) as int].move_from_parent
    }
}

/// Backpropagates `results[0]` from node `first`, `results[1]` from node
/// `first + 1`, and so on.
pub open spec fn fold_backprops(t: Seq<NodeModel>, first: int, results: Seq<GameState>) -> Seq<
    NodeModel,
>
    decreases results.len(),
{
    if results.len() == 0 {
        t
    } else {
        fold_backprops(spec_backprop(t, first, results[0]), first + 1, results.drop_first())
    }
}

/// Appending one more rollout result to a backpropagation fold is one
/// more backpropagation on the folded tree.
proof fn lemma_fold_backprops_push(
    t: Seq<NodeModel>,
    first: int,
    results: Seq<GameState>,
    r: GameState,
)
    ensures
        fold_backprops(t, first, results.push(r)) == spec_backprop(
            fold_backprops(t, first, results),
            first + results.len(),
            r,
        ),
    decreases results.len(),
{
    let rs = results.push(r);
    if results.len() == 0 {
        assert(rs[0] == r);
        assert(rs.drop_first() =~= Seq::<GameState>::empty());
        assert(fold_backprops(spec_backprop(t, first, r), first + 1, rs.drop_first())
            == spec_backprop(t, first, r));
        assert(fold_backprops(t, first, results) == t);
    } else {
        assert(rs[0] == results[0]);
        assert(rs.drop_first() =~= results.drop_first().push(r));
        lemma_fold_backprops_push(spec_backprop(t, first, results[0]), first + 1,
            results.drop_first(), r);
    }
}

/// One search iteration, as a relation between the tree before, the tree
/// after, and the terminal results the rollouts happened to produce:
/// selection finds a node; if its position has ended, its classification
/// is backpropagated from it once; otherwise the node is expanded and
/// one rollout result is backpropagated from each fresh child in order.
pub open spec fn spec_run_iteration(
    t0: Seq<NodeModel>,
    t1: Seq<NodeModel>,
    results: Seq<GameState>,
) -> bool {
    let leaf = spec_select(t0, 0);
    if t0[leaf].game.state != GameState::Ongoing {
        &&& results.len() == 1
        &&& results[0] == t0[leaf].game.state
        &&& t1 == spec_backprop(t0, leaf, results[0])
    } else {
        &&& results.len() == spec_possible_plays(t0[leaf].game).len()
        &&& (forall|j: int| 0 <= j < results.len() ==> (#[trigger] results[j])
            != GameState::Ongoing)
        &&& (forall|j: int|
            0 <= j < results.len() ==> rollout_outcome(
                spec_expand(t0, leaf)[t0.len() + j].game,
                #[trigger] results[j],
            ))
        &&& t1 == fold_backprops(spec_expand(t0, leaf), t0.len() as int, results)
    }
}

/// Relies on rand's `Rng::gen_range` over the thread-local generator:
/// sampling the half-open range `0..bound` yields a value below `bound`;
/// nothing more is assumed of the draw.
#[verifier::external_body]
fn random_below(bound: usize) -> (r: usize)
    requires
        bound > 0,
    ensures
        r < bound,
{
    rand::thread_rng().gen_range(0..bound)
}

impl Tree {
    /// All parallel columns have one entry per node.
    pub closed spec fn lens_ok(&self) -> bool {
        &&& self.parents@.len() == self.games@.len()
        &&& self.children@.len() == self.games@.len()
        &&& self.moves@.len() == self.games@.len()
        &&& self.wins_half@.len() == self.games@.len()
        &&& self.visits@.len() == self.games@.len()
    }

    /// A well-formed tree: the columns line up and the model is well
    /// formed.
    pub open spec fn wf(&self) -> bool {
        self.lens_ok() && wf_nodes(self@)
    }

    /// Returns a fresh single-node tree whose root holds a copy of
    /// `game_state` and zero statistics.
    pub fn new(game_state: &Game) -> (t: Tree)
        requires
            game_state.wf(),
        ensures
            t.wf(),
            t@.len() == 1,
            t@[0] == (NodeModel {
                game: game_state@,
                parent: None,
                children: Seq::<usize>::empty(),
                move_from_parent: None,
                wins_half: 0,
                visits: 0,
            }),
    {
        let mut games: Vec<Game> = Vec::new();
        games.push(game_state.clone());
        let mut parents: Vec<Option<usize>> = Vec::new();
        parents.push(None);
        let mut children: Vec<Vec<usize>> = Vec::new();
        children.push(Vec::new());
        let mut moves: Vec<Option<(usize, usize)>> = Vec::new();
        moves.push(None);
        let mut wins_half: Vec<u64> = Vec::new();
        wins_half.push(0);
        let mut visits: Vec<u64> = Vec::new();
        visits.push(0);
        let t = Tree { games, parents, children, moves, wins_half, visits };
        proof {
            assert(t@[0].children =~= Seq::<usize>::empty());
        }
        t
    }

    /// The number of nodes in the tree.
    pub fn num_nodes(&self) -> (n: usize)
        ensures
            n == self@.len(),
    {
        self.games.len()
    }

    /// Plays the move (`play_row_index`, `play_col_index`) from `parent`'s
    /// position, which must be legal there, and appends the resulting
    /// position as a fresh child of `parent` with zero statistics.
    #[verifier::rlimit(100)]
    pub fn play(&mut self, parent: usize, play_row_index: usize, play_col_index: usize)
        requires
            old(self).wf(),
            parent < old(self)@.len(),
            spec_play(old(self)@[parent as int].game, play_row_index, play_col_index) is Ok,
        ensures
            final(self).wf(),
            final(self)@.len() == old(self)@.len() + 1,
            final(self)@[old(self)@.len() as int] == (NodeModel {
                game: spec_play(old(self)@[parent as int].game, play_row_index, play_col_index)->Ok_0,
                parent: Some(parent),
                children: Seq::<usize>::empty(),
                move_from_parent: Some((play_row_index, play_col_index)),
                wins_half: 0,
                visits: 0,
            }),
            final(self)@[parent as int] == (NodeModel {
                children: old(self)@[parent as int].children.push(old(self)@.len() as usize),
                ..old(self)@[parent as int]
            }),
            forall|i: int|
                0 <= i < old(self)@.len() && i != parent ==> final(self)@[i] == old(self)@[i],
    {
        let child_index = self.games.len();
        let child_game = match self.games[parent].get_played(play_row_index, play_col_index) {
            Ok(g) => g,
            Err(_) => {
                proof {
                    assert(false);
                }
                Game::new()
            },
        };
        self.games.push(child_game);
        self.parents.push(Some(parent));
        self.children.push(Vec::new());
        self.moves.push(Some((play_row_index, play_col_index)));
        self.wins_half.push(0);
        self.visits.push(0);
        self.children[parent].push(child_index);
        proof {
            let t0 = old(self)@;
            let t1 = self@;
            assert(t1[child_index as int].children =~= Seq::<usize>::empty());
            assert(t1[parent as int].children =~= t0[parent as int].children.push(
                child_index as usize,
            ));
            assert forall|i: int| 0 <= i < t0.len() && i != parent implies t1[i] == t0[i] by {
                assert(t1[i].children =~= t0[i].children);
            }
            assert(t1[parent as int] =~= NodeModel {
                children: t0[parent as int].children.push(child_index as usize),
                ..t0[parent as int]
            });
            assert(wf_nodes(t1)) by {
                assert forall|i: int, k: int|
                    0 <= i < t1.len() && 0 <= k < t1[i].children.len() implies (i < (
                    #[trigger] t1[i].children[k]) && t1[i].children[k] < t1.len()
                    && t1[t1[i].children[k] as int].parent == Some(i as usize)) by {
                    if i == parent && k == t1[i].children.len() - 1 {
                    } else {
                        assert(t1[i].children[k] == t0[i].children[k]);
                    }
                }
                assert forall|i: int|
                    1 <= i < t1.len() implies t1[i].visits <= t1[#[trigger] parent_index(
                    t1,
                    i,
                )].visits by {
                    if i < t0.len() {
                        assert(t1[i].visits == t0[i].visits);
                        assert(parent_index(t1, i) == parent_index(t0, i));
                        assert(t0[i].visits <= t0[parent_index(t0, i)].visits);
                        assert(t1[parent_index(t0, i)].visits == t0[parent_index(t0, i)].visits);
                    } else {
                        assert(t1[i].visits == 0);
                    }
                }
            }
        }
    }

    /// Expands a leaf: creates one child per legal move of `node`'s
    /// position, in move order. A position with no legal moves (a
    /// terminal one) gains no children. Expanding a node that already has
    /// children fails with `AlreadyExpanded` and changes nothing.
    #[verifier::rlimit(100)]
    pub fn expand_node(&mut self, node: usize) -> (r: Result<(), MctsError>)
        requires
            old(self).wf(),
            node < old(self)@.len(),
        ensures
            final(self).wf(),
            old(self)@[node as int].children.len() > 0 ==> (r matches Err(e) && e
                == MctsError::AlreadyExpanded && final(self)@ == old(self)@),
            old(self)@[node as int].children.len() == 0 ==> (r matches Ok(u) && final(self)@
                == spec_expand(old(self)@, node as int)),
    {
        if self.child_count(node) > 0 {
            return Err(MctsError::AlreadyExpanded);
        }
        let possible_plays = self.games[node].get_possible_plays();
        proof {
            lemma_plays_upto_props(self@[node as int].game.board, 9);
        }
        let ghost t0 = self@;
        let ghost moves = spec_possible_plays(t0[node as int].game);
        let mut m: usize = 0;
        proof {
            assert(Seq::new(0nat, |k: int| (t0.len() + k) as usize) =~= Seq::<usize>::empty());
            assert(t0[node as int].children =~= Seq::<usize>::empty());
            assert(t0[node as int] =~= NodeModel {
                children: Seq::new(0nat, |k: int| (t0.len() + k) as usize),
                ..t0[node as int]
            });
            assert(expand_partial(t0, node as int, 0, self@));
        }
        while m < possible_plays.len()
            invariant
                self.wf(),
                wf_nodes(t0),
                node < t0.len(),
                t0[node as int].children.len() == 0,
                moves == spec_possible_plays(t0[node as int].game),
                possible_plays@ == moves,
                m <= moves.len(),
                expand_partial(t0, node as int, m as int, self@),
            decreases moves.len() - m,
        {
            let (play_row_index, play_col_index) = possible_plays[m];
            proof {
                lemma_possible_play_ok(t0[node as int].game, m as int);
                assert(self@[node as int].game == t0[node as int].game);
                assert(moves[m as int] == (play_row_index, play_col_index));
            }
            let ghost pre = self@;
            self.play(node, play_row_index, play_col_index);
            proof {
                lemma_expand_step(t0, node as int, m as int, pre, self@);
            }
            m = m + 1;
        }
        proof {
            lemma_expand_post(t0, node as int, self@);
        }
        Ok(())
    }

    /// Pushes the terminal classification `game_result` from `node` up to
    /// the root: every node on that path, `node` and the root included,
    /// gains one visit and the credit the result earns against its own
    /// pending mover; no other node changes. A non-terminal
    /// classification is rejected and changes nothing.
    #[verifier::rlimit(100)]
    pub fn backpropagate(&mut self, node: usize, game_result: GameState) -> (r: Result<
        (),
        MctsError,
    >)
        requires
            old(self).wf(),
            node < old(self)@.len(),
            old(self)@[0].visits < MAX_VISITS,
        ensures
            final(self).wf(),
            final(self)@.len() == old(self)@.len(),
            game_result == GameState::Ongoing ==> (r matches Err(e) && e
                == MctsError::InvalidBackpropagationResult && final(self)@ == old(self)@),
            game_result != GameState::Ongoing ==> (r matches Ok(u) && final(self)@
                == spec_backprop(old(self)@, node as int, game_result)),
            game_result != GameState::Ongoing ==> final(self)@[0].visits == old(self)@[0].visits
                + 1,
    {
        match game_result {
            GameState::Ongoing => {
                return Err(MctsError::InvalidBackpropagationResult);
            },
            _ => {},
        }
        let ghost t0 = self@;
        let mut cur = node;
        proof {
            assert forall|i: int| 0 <= i < t0.len() implies self@[i] == backprop_partial(
                t0,
                node as int,
                node as int,
                game_result,
            )[i] by {
                if on_path(t0, i, node as int) && on_path(t0, node as int, i) {
                    lemma_on_path_bounds(t0, i, node as int);
                    lemma_on_path_bounds(t0, node as int, i);
                }
            }
            assert(self@ =~= backprop_partial(t0, node as int, cur as int, game_result));
        }
        loop
            invariant_except_break
                self@ == backprop_partial(t0, node as int, cur as int, game_result),
            invariant
                game_result != GameState::Ongoing,
                self.lens_ok(),
                wf_nodes(t0),
                self@.len() == t0.len(),
                cur < t0.len(),
                node < t0.len(),
                on_path(t0, cur as int, node as int),
                t0[0].visits < MAX_VISITS,
            ensures
                self.lens_ok(),
                self@ == spec_backprop(t0, node as int, game_result),
            decreases cur,
        {
            let turn = self.games[cur].get_turn();
            let credit: u64 = match (game_result, turn) {
                (GameState::XWon, GameTurn::TurnX) => 0,
                (GameState::XWon, GameTurn::TurnO) => 2,
                (GameState::OWon, GameTurn::TurnX) => 2,
                (GameState::OWon, GameTurn::TurnO) => 0,
                (GameState::Tie, _) => 1,
                (GameState::Ongoing, _) => 0,
            };
            proof {
                assert(self@[cur as int] == t0[cur as int]);
                lemma_visits_le_root(t0, cur as int);
                assert(credit == credit_half(game_result, t0[cur as int].game.turn));
            }
            let ghost pre = self@;
            let v = self.visits[cur];
            self.visits[cur] = v + 1;
            let w = self.wins_half[cur];
            self.wins_half[cur] = w + credit;
            proof {
                assert(self@ =~= pre.update(cur as int, bumped(t0[cur as int], game_result)));
            }
            let parent_opt = self.parents[cur];
            proof {
                assert(parent_opt == t0[cur as int].parent);
            }
            match parent_opt {
                Some(p) => {
                    proof {
                        assert(cur >= 1);
                        lemma_on_path_parent(t0, cur as int);
                        lemma_on_path_trans(t0, p as int, cur as int, node as int);
                        assert forall|i: int| 0 <= i < t0.len() implies self@[i]
                            == backprop_partial(t0, node as int, p as int, game_result)[i] by {
                            lemma_backprop_partial_step(t0, node as int, cur as int, i);
                        }
                        assert(self@ =~= backprop_partial(
                            t0,
                            node as int,
                            p as int,
                            game_result,
                        ));
                    }
                    cur = p;
                },
                None => {
                    proof {
                        assert(cur == 0);
                        assert forall|i: int| 0 <= i < t0.len() implies self@[i] == spec_backprop(
                            t0,
                            node as int,
                            game_result,
                        )[i] by {
                            lemma_on_path_root(t0, i);
                        }
                        assert(self@ =~= spec_backprop(t0, node as int, game_result));
                    }
                    break;
                },
            }
        }
        proof {
            lemma_on_path_root(t0, node as int);
            lemma_backprop_wf(t0, node as int, game_result);
        }
        Ok(())
    }

    /// The child selection steps into from `node`: scans the children
    /// left to right, skipping any that were never visited, and keeps
    /// the first child whose UCT score strictly exceeds every earlier
    /// defined score and zero.
    fn pick_child(&self, node: usize) -> (r: Option<usize>)
        requires
            self.wf(),
            node < self@.len(),
        ensures
            r == spec_pick(self@, node as int),
            r matches Some(c) ==> node < c < self@.len(),
    {
        let parent_visits = self.visits[node];
        let n = self.children[node].len();
        let mut best_child: Option<usize> = None;
        let mut best: u64 = 0;
        let mut k: usize = 0;
        while k < n
            invariant
                self.wf(),
                node < self@.len(),
                n == self@[node as int].children.len(),
                parent_visits == self@[node as int].visits,
                k <= n,
                scan_children(
                    self@,
                    parent_visits as int,
                    self@[node as int].children,
                    k as int,
                    best_child,
                    best as int,
                ) == spec_pick(self@, node as int),
                best_child matches Some(c) ==> node < c < self@.len(),
            decreases n - k,
        {
            let c = self.children[node][k];
            proof {
                assert(self@[node as int].children[k as int] == c);
            }
            let child_visits = self.visits[c];
            if child_visits > 0 {
                let score = uct(parent_visits, self.wins_half[c], child_visits);
                if score > best {
                    best_child = Some(c);
                    best = score;
                }
            }
            k = k + 1;
        }
        best_child
    }

    /// Navigates from `node` toward a leaf by the UCT policy: at every
    /// node with children, steps into the picked child; stops at a node
    /// without children, or at one where no visited child scores above
    /// zero.
    pub fn select_node(&self, node: usize) -> (r: usize)
        requires
            self.wf(),
            node < self@.len(),
        ensures
            r < self@.len(),
            r == spec_select(self@, node as int),
    {
        let mut cur = node;
        loop
            invariant
                self.wf(),
                cur < self@.len(),
                spec_select(self@, cur as int) == spec_select(self@, node as int),
            ensures
                cur < self@.len(),
                cur == spec_select(self@, node as int),
            decreases self@.len() - cur,
        {
            if self.child_count(cur) == 0 {
                break;
            }
            match self.pick_child(cur) {
                Some(c) => {
                    cur = c;
                },
                None => {
                    break;
                },
            }
        }
        cur
    }

    /// Plays random moves from a copy of `node`'s position until the
    /// game ends, and returns the terminal classification, which is
    /// never `Ongoing` and always a possible rollout outcome of the
    /// node's position: the classification of a terminal position
    /// reachable from it by legal play. The tree itself is untouched,
    /// and a position that has already ended is classified as it
    /// stands, without drawing a single move.
    pub fn simulate_playout(&self, node: usize) -> (r: GameState)
        requires
            self.wf(),
            node < self@.len(),
        ensures
            r != GameState::Ongoing,
            rollout_outcome(self@[node as int].game, r),
            self@[node as int].game.state != GameState::Ongoing ==> r == self@[node as int].game.state,
    {
        let ghost start = self@[node as int].game;
        let mut cloned_game = self.games[node].clone();
        while !cloned_game.is_over()
            invariant
                cloned_game.wf(),
                game_wf(start),
                start.state != GameState::Ongoing ==> cloned_game@ == start,
                forall|r0: GameState| #[trigger]
                    rollout_outcome(cloned_game@, r0) ==> rollout_outcome(start, r0),
            decreases crate::game::plays_upto(cloned_game@.board, 9).len(),
        {
            let possible_plays = cloned_game.get_possible_plays();
            proof {
                assert(!crate::game::board_full(cloned_game@.board));
                let i = choose|i: int| 0 <= i < 9 && !(cloned_game@.board[i] != Cell::Empty);
                assert(cloned_game@.board[i] == Cell::Empty);
                lemma_plays_upto_nonempty(cloned_game@.board, i, 9);
            }
            let idx = random_below(possible_plays.len());
            let (rnd_row_idx, rnd_col_idx) = possible_plays[idx];
            let ghost pre = cloned_game@;
            proof {
                lemma_possible_play_ok(cloned_game@, idx as int);
                lemma_plays_upto_props(pre.board, 9);
            }
            let played = cloned_game.play(rnd_row_idx, rnd_col_idx);
            proof {
                assert(played is Ok);
                let cell = 3 * rnd_row_idx + rnd_col_idx;
                assert(cloned_game@.board == pre.board.update(cell as int, crate::game::mark_of(
                    pre.turn,
                )));
                lemma_plays_upto_update(pre.board, cell as int, crate::game::mark_of(pre.turn), 9);
                assert forall|r0: GameState| #[trigger]
                    rollout_outcome(cloned_game@, r0) implies rollout_outcome(start, r0) by {
                    assert(spec_possible_plays(pre)[idx as int] == (rnd_row_idx, rnd_col_idx));
                    assert(spec_play(pre, rnd_row_idx, rnd_col_idx)->Ok_0 == cloned_game@);
                    assert(rollout_outcome(
                        spec_play(
                            pre,
                            spec_possible_plays(pre)[idx as int].0,
                            spec_possible_plays(pre)[idx as int].1,
                        )->Ok_0,
                        r0,
                    ));
                    assert(rollout_outcome(pre, r0));
                }
            }
        }
        proof {
            assert(rollout_outcome(cloned_game@, cloned_game@.state));
        }
        cloned_game.get_state()
    }

    /// Performs one round of the Monte Carlo tree search update:
    /// selects a node by the UCT policy; if its position has ended,
    /// backpropagates that classification from it; otherwise expands it
    /// and, for each fresh child, simulates one random playout and
    /// backpropagates the result from that child to the root. Fails only
    /// when selection stops at an already-expanded node.
    #[verifier::rlimit(100)]
    pub fn run_iteration(&mut self) -> (r: Result<(), MctsError>)
        requires
            old(self).wf(),
            old(self)@[0].visits + 9 < MAX_VISITS,
        ensures
            final(self).wf(),
            r matches Ok(u) ==> exists|results: Seq<GameState>|
                spec_run_iteration(old(self)@, final(self)@, results),
            r matches Err(e) ==> e == MctsError::AlreadyExpanded && final(self)@ == old(self)@,
            (r is Err) <==> (old(self)@[spec_select(old(self)@, 0)].game.state
                == GameState::Ongoing && old(self)@[spec_select(old(self)@, 0)].children.len()
                > 0),
    {
        let ghost t0 = self@;
        let leaf = self.select_node(0);
        let leaf_state = self.games[leaf].get_state();
        match leaf_state {
            GameState::Ongoing => {},
            _ => {
                let game_result = self.simulate_playout(leaf);
                proof {
                    lemma_visits_le_root(t0, leaf as int);
                }
                let propagated = self.backpropagate(leaf, game_result);
                proof {
                    assert(propagated is Ok);
                    let results = seq![game_result];
                    assert(spec_run_iteration(t0, self@, results));
                }
                return Ok(());
            },
        }
        let first_child = self.num_nodes();
        match self.expand_node(leaf) {
            Err(e) => {
                return Err(e);
            },
            Ok(u) => {},
        }
        let ghost te = self@;
        let total = self.num_nodes();
        proof {
            lemma_plays_upto_props(t0[leaf as int].game.board, 9);
            assert(total - first_child <= 9);
        }
        let ghost mut results = Seq::<GameState>::empty();
        let mut j = first_child;
        while j < total
            invariant
                self.wf(),
                wf_nodes(te),
                first_child <= j <= total,
                total == te.len(),
                first_child == t0.len(),
                te[0].visits + (total - first_child) < MAX_VISITS,
                results.len() == j - first_child,
                forall|q: int| 0 <= q < results.len() ==> (#[trigger] results[q])
                    != GameState::Ongoing,
                forall|q: int|
                    0 <= q < results.len() ==> rollout_outcome(
                        te[first_child + q].game,
                        #[trigger] results[q],
                    ),
                self@ == fold_backprops(te, first_child as int, results),
                self@.len() == te.len(),
                forall|q: int| 0 <= q < te.len() ==> (#[trigger] self@[q]).game == te[q].game,
                self@[0].visits == te[0].visits + (j - first_child),
            decreases total - j,
        {
            let game_result = self.simulate_playout(j);
            proof {
                assert(rollout_outcome(te[j as int].game, game_result));
            }
            let ghost pre_t = self@;
            let propagated = self.backpropagate(j, game_result);
            proof {
                assert(propagated is Ok);
                assert forall|q: int|
                    0 <= q < te.len() implies (#[trigger] self@[q]).game == te[q].game by {
                    assert(self@[q] == spec_backprop(pre_t, j as int, game_result)[q]);
                    assert(pre_t[q].game == te[q].game);
                }
                lemma_fold_backprops_push(te, first_child as int, results, game_result);
                results = results.push(game_result);
            }
            j = j + 1;
        }
        proof {
            assert(spec_run_iteration(t0, self@, results));
        }
        Ok(())
    }

    /// The move this search recommends: the one leading to the root
    /// child with the highest visit count, the earliest such child on
    /// ties; none while the root has no children.
    pub fn recommend_move(&self) -> (r: Option<(usize, usize)>)
        requires
            self.wf(),
        ensures
            r == spec_recommend(self@),
    {
        let n = self.child_count(0);
        if n == 0 {
            return None;
        }
        let mut best = self.child_at(0, 0);
        let mut k: usize = 1;
        while k < n
            invariant
                self.wf(),
                n == self@[0].children.len(),
                1 <= k <= n,
                best < self@.len(),
                best_visits_from(self@, self@[0].children, k as int, best) == best_visits_from(
                    self@,
                    self@[0].children,
                    1,
                    self@[0].children[0],
                ),
            decreases n - k,
        {
            let c = self.child_at(0, k);
            if self.visits[c] > self.visits[best] {
                best = c;
            }
            k = k + 1;
        }
        self.moves[best]
    }

    /// The number of children of `node`.
    pub fn child_count(&self, node: usize) -> (n: usize)
        requires
            self.wf(),
            node < self@.len(),
        ensures
            n == self@[node as int].children.len(),
    {
        self.children[node].len()
    }

    /// The index of the `k`-th child of `node`, in creation order.
    pub fn child_at(&self, node: usize, k: usize) -> (c: usize)
        requires
            self.wf(),
            node < self@.len(),
            k < self@[node as int].children.len(),
        ensures
            c == self@[node as int].children[k as int],
            node < c < self@.len(),
    {
        self.children[node][k]
    }

    /// The number of rollouts folded into `node`.
    pub fn visits_of(&self, node: usize) -> (v: u64)
        requires
            self.wf(),
            node < self@.len(),
        ensures
            v == self@[node as int].visits,
    {
        self.visits[node]
    }

    /// The accumulated score of `node`, in half-points: a full win
    /// credits 2, a tie 1.
    pub fn wins_half_of(&self, node: usize) -> (w: u64)
        requires
            self.wf(),
            node < self@.len(),
        ensures
            w == self@[node as int].wins_half,
    {
        self.wins_half[node]
    }

    /// A copy of the position held by `node`.
    pub fn game_of(&self, node: usize) -> (g: Game)
        requires
            self.wf(),
            node < self@.len(),
        ensures
            g@ == self@[node as int].game,
            g.wf(),
    {
        self.games[node].clone()
    }
}

} // verus!
