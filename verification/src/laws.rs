//! Laws of the search tree, stated and proved once over the tree model.
//!
//! Each proof function here states a property of the engine as a whole —
//! across several operations or arbitrarily many calls — rather than of a
//! single call, and is exported so that callers can rely on it.

use crate::board::Cell;
use crate::game::{
    lemma_one_mark_ongoing, lemma_plays_upto_full, lemma_plays_upto_update,
    lemma_possible_play_ok, game_wf, spec_play, spec_possible_plays, GameState, GameTurn,
};
use crate::mcts::{
    bumped, child_score, lemma_backprop_wf, lemma_on_path_bounds, lemma_on_path_root,
    lemma_on_path_parent, lemma_on_path_unfold, lemma_scan_membership, lemma_visits_le_root, on_path, scan_children,
    spec_backprop, spec_expand, spec_pick, spec_recommend, wf_nodes, NodeModel, MAX_VISITS,
};
use vstd::prelude::*;

verus! {

/// Expanding a fresh root of a new game fans out fully: nine children,
/// one per empty cell. Every child's position has exactly eight legal
/// moves left, is still ongoing, and has the opponent on move; and the
/// nine child positions are pairwise distinct.
pub proof fn lemma_expansion_fan_out(t: Seq<NodeModel>)
    requires
        wf_nodes(t),
        t.len() == 1,
        t[0].children.len() == 0,
        t[0].game.turn == GameTurn::TurnX,
        forall|i: int| 0 <= i < 9 ==> t[0].game.board[i] == Cell::Empty,
    ensures
        spec_expand(t, 0).len() == 10,
        spec_expand(t, 0)[0].children.len() == 9,
        forall|k: int|
            1 <= k < 10 ==> spec_possible_plays((#[trigger] spec_expand(t, 0)[k]).game).len() == 8,
        forall|k: int|
            1 <= k < 10 ==> (#[trigger] spec_expand(t, 0)[k]).game.state == GameState::Ongoing,
        forall|k: int|
            1 <= k < 10 ==> (#[trigger] spec_expand(t, 0)[k]).game.turn == GameTurn::TurnO,
        forall|k1: int, k2: int|
            1 <= k1 < k2 < 10 ==> (#[trigger] spec_expand(t, 0)[k1]).game != (#[trigger] spec_expand(
                t,
                0,
            )[k2]).game,
{
    let g = t[0].game;
    let b = g.board;
    assert(game_wf(g));
    assert(g.state == GameState::Ongoing);
    let moves = spec_possible_plays(g);
    lemma_plays_upto_full(b, 9);
    assert(moves.len() == 9);
    let te = spec_expand(t, 0);
    assert(te.len() == 10);
    assert(te[0].children.len() == 9);
    assert forall|k: int|
        1 <= k < 10 implies (spec_possible_plays((#[trigger] te[k]).game).len() == 8
        && te[k].game.state == GameState::Ongoing && te[k].game.turn == GameTurn::TurnO
        && te[k].game.board == b.update(k - 1, Cell::X)) by {
        let m = moves[k - 1];
        assert(m.0 == (k - 1) / 3 && m.1 == (k - 1) % 3);
        let cell = 3 * (m.0 as int) + (m.1 as int);
        assert(cell == k - 1);
        lemma_possible_play_ok(g, k - 1);
        let cg = te[k].game;
        assert(cg == spec_play(g, m.0, m.1)->Ok_0);
        assert(cg.board == b.update(cell, Cell::X));
        lemma_one_mark_ongoing(b, cell, Cell::X);
        assert(cg.state == GameState::Ongoing);
        lemma_plays_upto_update(b, cell, Cell::X, 9);
        assert(spec_possible_plays(cg).len() == 8);
    }
    assert forall|k1: int, k2: int|
        1 <= k1 < k2 < 10 implies (#[trigger] te[k1]).game != (#[trigger] te[k2]).game by {
        assert(te[k1].game.board == b.update(k1 - 1, Cell::X));
        assert(te[k2].game.board == b.update(k2 - 1, Cell::X));
        assert(te[k1].game.board[k2 - 1] == Cell::Empty);
        assert(te[k2].game.board[k2 - 1] == Cell::X);
    }
}

/// A sequence of backpropagation calls, applied in order; each entry
/// names the node backpropagated from and the terminal result pushed up.
pub open spec fn apply_backprops(t: Seq<NodeModel>, calls: Seq<(int, GameState)>) -> Seq<NodeModel>
    decreases calls.len(),
{
    if calls.len() == 0 {
        t
    } else {
        apply_backprops(spec_backprop(t, calls[0].0, calls[0].1), calls.drop_first())
    }
}

/// How many of the calls pass through node `i`: those backpropagated
/// from `i` itself or from any node below it.
pub open spec fn count_backprops_through(
    t: Seq<NodeModel>,
    calls: Seq<(int, GameState)>,
    i: int,
) -> int
    decreases calls.len(),
{
    if calls.len() == 0 {
        0
    } else {
        (if on_path(t, i, calls[0].0) {
            1int
        } else {
            0
        }) + count_backprops_through(t, calls.drop_first(), i)
    }
}

/// Backpropagation changes no structure, so paths are what they were.
proof fn lemma_backprop_preserves_paths(
    t: Seq<NodeModel>,
    target: int,
    result: GameState,
    a: int,
    d: int,
)
    requires
        wf_nodes(t),
        0 <= target < t.len(),
        t[0].visits < MAX_VISITS,
        0 <= d < t.len(),
    ensures
        on_path(spec_backprop(t, target, result), a, d) == on_path(t, a, d),
    decreases d,
{
    let t1 = spec_backprop(t, target, result);
    lemma_backprop_wf(t, target, result);
    assert(t1[d].parent == t[d].parent);
    if d > 0 && a != d {
        match t[d].parent {
            Some(p) => {
                lemma_backprop_preserves_paths(t, target, result, a, p as int);
            },
            None => {},
        }
    }
}

/// One earlier backpropagation does not change how many later calls pass
/// through a node.
proof fn lemma_count_preserved(
    t: Seq<NodeModel>,
    target: int,
    result: GameState,
    calls: Seq<(int, GameState)>,
    i: int,
)
    requires
        wf_nodes(t),
        0 <= target < t.len(),
        t[0].visits < MAX_VISITS,
        0 <= i < t.len(),
        forall|q: int| 0 <= q < calls.len() ==> 0 <= (#[trigger] calls[q]).0 < t.len(),
    ensures
        count_backprops_through(spec_backprop(t, target, result), calls, i)
            == count_backprops_through(t, calls, i),
    decreases calls.len(),
{
    if calls.len() > 0 {
        lemma_backprop_preserves_paths(t, target, result, i, calls[0].0);
        assert(forall|q: int|
            0 <= q < calls.drop_first().len() ==> 0 <= (#[trigger] calls.drop_first()[q]).0
                < t.len());
        lemma_count_preserved(t, target, result, calls.drop_first(), i);
    }
}

/// Visit monotonicity: after any sequence of backpropagation calls,
/// every node's visit count has grown by exactly the number of calls
/// whose path passes through it — one per call backpropagated from the
/// node itself or from any node below it — and the score bound
/// `wins_half <= 2 * visits` holds everywhere in the resulting tree.
pub proof fn lemma_visit_monotonicity(t: Seq<NodeModel>, calls: Seq<(int, GameState)>)
    requires
        wf_nodes(t),
        forall|q: int| 0 <= q < calls.len() ==> 0 <= (#[trigger] calls[q]).0 < t.len(),
        t[0].visits + calls.len() <= MAX_VISITS,
    ensures
        apply_backprops(t, calls).len() == t.len(),
        wf_nodes(apply_backprops(t, calls)),
        forall|i: int|
            0 <= i < t.len() ==> (#[trigger] apply_backprops(t, calls)[i]).visits == t[i].visits
                + count_backprops_through(t, calls, i),
        forall|i: int|
            0 <= i < t.len() ==> (#[trigger] apply_backprops(t, calls)[i]).wins_half <= 2
                * apply_backprops(t, calls)[i].visits,
    decreases calls.len(),
{
    let tn = apply_backprops(t, calls);
    if calls.len() == 0 {
    } else {
        let t1 = spec_backprop(t, calls[0].0, calls[0].1);
        lemma_backprop_wf(t, calls[0].0, calls[0].1);
        lemma_on_path_root(t, calls[0].0);
        assert(t1[0].visits == t[0].visits + 1);
        assert(forall|q: int|
            0 <= q < calls.drop_first().len() ==> 0 <= (#[trigger] calls.drop_first()[q]).0
                < t1.len());
        lemma_visit_monotonicity(t1, calls.drop_first());
        assert forall|i: int|
            0 <= i < t.len() implies (#[trigger] tn[i]).visits == t[i].visits
            + count_backprops_through(t, calls, i) by {
            lemma_visits_le_root(t, i);
            lemma_count_preserved(t, calls[0].0, calls[0].1, calls.drop_first(), i);
            assert(tn[i].visits == t1[i].visits + count_backprops_through(
                t1,
                calls.drop_first(),
                i,
            ));
        }
    }
}

/// A grandchild backpropagation touches exactly three nodes — the
/// grandchild, its parent, and the root — bumping each exactly once,
/// with the credit computed independently per node against the same
/// terminal classification.
pub proof fn lemma_two_level_backprop(t: Seq<NodeModel>, d: int, result: GameState)
    requires
        wf_nodes(t),
        0 < d < t.len(),
        t[d].parent matches Some(p) && 0 < p && t[p as int].parent == Some(0usize),
    ensures
        ({
            let p = t[d].parent->0 as int;
            let t1 = spec_backprop(t, d, result);
            &&& t1[d] == bumped(t[d], result)
            &&& t1[p] == bumped(t[p], result)
            &&& t1[0] == bumped(t[0], result)
            &&& forall|i: int| 0 <= i < t.len() && i != d && i != p && i != 0 ==> t1[i] == t[i]
        }),
{
    let p = t[d].parent->0 as int;
    lemma_on_path_root(t, d);
    lemma_on_path_root(t, p);
    lemma_on_path_parent(t, d);
    assert forall|i: int| 0 <= i < t.len() && i != d && i != p && i != 0 implies !on_path(
        t,
        i,
        d,
    ) by {
        if on_path(t, i, d) {
            lemma_on_path_unfold(t, i, d);
            lemma_on_path_unfold(t, i, p);
            lemma_on_path_bounds(t, i, 0);
        }
    }
}

/// What one scan over a child list guarantees about what it returns.
proof fn lemma_scan_children_max(
    t: Seq<NodeModel>,
    pv: int,
    cs: Seq<usize>,
    k: int,
    cur: Option<usize>,
    best: int,
)
    requires
        0 <= k <= cs.len(),
        cur is None ==> best == 0,
        cur matches Some(c0) ==> (t[c0 as int].visits > 0 && best == child_score(t, pv, c0 as int)
            && best > 0),
    ensures
        ({
            let r = scan_children(t, pv, cs, k, cur, best);
            &&& (cur is Some ==> r is Some)
            &&& (r is None ==> (forall|j: int|
                k <= j < cs.len() && t[(#[trigger] cs[j]) as int].visits > 0 ==> child_score(
                    t,
                    pv,
                    cs[j] as int,
                ) <= 0))
            &&& (r matches Some(c) ==> (t[c as int].visits > 0 && child_score(t, pv, c as int) > 0
                && child_score(t, pv, c as int) >= best && (forall|j: int|
                k <= j < cs.len() && t[(#[trigger] cs[j]) as int].visits > 0 ==> child_score(
                    t,
                    pv,
                    cs[j] as int,
                ) <= child_score(t, pv, c as int))))
        }),
    decreases cs.len() - k,
{
    if k < cs.len() {
        let c = cs[k] as int;
        if t[c].visits > 0 && child_score(t, pv, c) > best {
            lemma_scan_children_max(t, pv, cs, k + 1, Some(cs[k]), child_score(t, pv, c));
        } else {
            lemma_scan_children_max(t, pv, cs, k + 1, cur, best);
        }
    }
}

/// Selection prefers the higher UCT score: the picked child has been
/// visited, scores positively, and scores at least as high as every
/// visited sibling; no child is picked exactly when no visited child
/// scores above zero. A child that was never visited has an undefined
/// score and never competes.
pub proof fn lemma_selection_prefers_higher_uct(t: Seq<NodeModel>, i: int)
    requires
        wf_nodes(t),
        0 <= i < t.len(),
    ensures
        spec_pick(t, i) matches Some(c) ==> ((exists|k: int|
            0 <= k < t[i].children.len() && t[i].children[k] == c) && t[c as int].visits > 0
            && child_score(t, t[i].visits as int, c as int) > 0 && (forall|k: int|
            0 <= k < t[i].children.len() && t[(#[trigger] t[i].children[k]) as int].visits > 0
                ==> child_score(t, t[i].visits as int, t[i].children[k] as int) <= child_score(
                t,
                t[i].visits as int,
                c as int,
            ))),
        spec_pick(t, i) is None ==> (forall|k: int|
            0 <= k < t[i].children.len() && t[(#[trigger] t[i].children[k]) as int].visits > 0
                ==> child_score(t, t[i].visits as int, t[i].children[k] as int) <= 0),
{
    let pv = t[i].visits as int;
    let cs = t[i].children;
    lemma_scan_children_max(t, pv, cs, 0, None, 0);
    lemma_scan_membership(t, pv, cs, 0, None, 0);
}

/// Recommending a move is idempotent: two recommendations taken from the
/// same tree, with no iteration in between, are the same move.
pub proof fn lemma_recommend_idempotent(
    t: Seq<NodeModel>,
    first: Option<(usize, usize)>,
    second: Option<(usize, usize)>,
)
    requires
        first == spec_recommend(t),
        second == spec_recommend(t),
    ensures
        first == second,
{
}

} // verus!
