//! Plain minimax, and how the pruned search relates to it.
use vstd::prelude::*;
use crate::ai::{best_move, children_states, lemma_best_from, max_fold, min_fold, first_best_root, root_value, search_value};
use crate::eval::{evaluation, lemma_evaluation_fits, moves_of};
use crate::reversi::{apply_move, is_player, legal_moves, BoardState};
use crate::score::{
    lemma_lt_transitive, lt, max_score, min_score, neg_infinity, pos_infinity, Score,
};

verus! {

/// `a` is at most `b`.
pub open spec fn le(a: Score, b: Score) -> bool {
    !lt(b, a)
}

/// `a` and `b` are the same rational value.
pub open spec fn same_value(a: Score, b: Score) -> bool {
    !lt(a, b) && !lt(b, a)
}

/// The minimax value of `s` searched `depth` plies deep, without pruning.
pub open spec fn minimax(s: BoardState, depth: nat, maximizing: bool) -> Score
    decreases depth, 0int,
{
    if depth == 0 || legal_moves(s, s.current).len() == 0 {
        evaluation(s, s.current)
    } else if maximizing {
        minimax_max(children_states(s), 0, (depth - 1) as nat, neg_infinity())
    } else {
        minimax_min(children_states(s), 0, (depth - 1) as nat, pos_infinity())
    }
}

pub open spec fn minimax_max(ch: Seq<BoardState>, i: int, d: nat, value: Score) -> Score
    decreases d, ch.len() - i,
{
    if i < 0 || i >= ch.len() {
        value
    } else {
        minimax_max(ch, i + 1, d, max_score(value, minimax(ch[i], d, false)))
    }
}

pub open spec fn minimax_min(ch: Seq<BoardState>, i: int, d: nat, value: Score) -> Score
    decreases d, ch.len() - i,
{
    if i < 0 || i >= ch.len() {
        value
    } else {
        minimax_min(ch, i + 1, d, min_score(value, minimax(ch[i], d, true)))
    }
}

broadcast proof fn lemma_lt_lt(a: Score, b: Score, c: Score)
    requires
        a.wf(),
        b.wf(),
        c.wf(),
    ensures
        #![trigger lt(a, b), lt(b, c)]
        lt(a, b) && lt(b, c) ==> lt(a, c),
{
    lemma_lt_transitive(a, b, c);
}

broadcast proof fn lemma_lt_le(a: Score, b: Score, c: Score)
    requires
        a.wf(),
        b.wf(),
        c.wf(),
    ensures
        #![trigger lt(a, b), lt(c, b)]
        lt(a, b) && !lt(c, b) ==> lt(a, c),
{
    lemma_lt_transitive(a, b, c);
}

broadcast proof fn lemma_le_lt(a: Score, b: Score, c: Score)
    requires
        a.wf(),
        b.wf(),
        c.wf(),
    ensures
        #![trigger lt(b, a), lt(b, c)]
        !lt(b, a) && lt(b, c) ==> lt(a, c),
{
    lemma_lt_transitive(a, b, c);
}

broadcast proof fn lemma_le_le(a: Score, b: Score, c: Score)
    requires
        a.wf(),
        b.wf(),
        c.wf(),
    ensures
        #![trigger lt(b, a), lt(c, b)]
        !lt(b, a) && !lt(c, b) ==> !lt(c, a),
{
    lemma_lt_transitive(a, b, c);
}

proof fn lemma_children_players(s: BoardState, i: int)
    requires
        is_player(s.current),
        0 <= i < children_states(s).len(),
    ensures
        is_player(children_states(s)[i].current),
        children_states(s).len() == legal_moves(s, s.current).len(),
{
    let m = legal_moves(s, s.current)[i];
    assert(children_states(s)[i] == apply_move(s, m.0, m.1));
}

/// The bounds a window search gives: a result at or below `alpha` bounds
/// the minimax value from above, one at or above `beta` bounds it from below,
/// and one strictly inside the window is the minimax value.
pub proof fn lemma_search_bounds(s: BoardState, depth: nat, alpha: Score, beta: Score, maximizing: bool)
    requires
        is_player(s.current),
        alpha.wf(),
        beta.wf(),
        le(alpha, beta),
        le(neg_infinity(), alpha),
        le(beta, pos_infinity()),
    ensures
        search_value(s, depth, alpha, beta, maximizing).wf(),
        minimax(s, depth, maximizing).wf(),
        le(search_value(s, depth, alpha, beta, maximizing), alpha) ==> le(minimax(s, depth, maximizing), search_value(s, depth, alpha, beta, maximizing)),
        lt(alpha, search_value(s, depth, alpha, beta, maximizing)) && lt(search_value(s, depth, alpha, beta, maximizing), beta)
            ==> same_value(minimax(s, depth, maximizing), search_value(s, depth, alpha, beta, maximizing)),
        le(beta, search_value(s, depth, alpha, beta, maximizing)) ==> le(search_value(s, depth, alpha, beta, maximizing), minimax(s, depth, maximizing)),
    decreases depth, 0int,
{
    broadcast use lemma_lt_lt, lemma_lt_le, lemma_le_lt, lemma_le_le;
    if depth == 0 || legal_moves(s, s.current).len() == 0 {
        lemma_evaluation_fits(s, s.current);
    } else if maximizing {
        lemma_max_fold_bounds(s, 0, (depth - 1) as nat, neg_infinity(), alpha, alpha, beta, neg_infinity());
    } else {
        lemma_min_fold_bounds(s, 0, (depth - 1) as nat, pos_infinity(), alpha, beta, beta, pos_infinity());
    }
}

proof fn lemma_max_fold_bounds(s: BoardState, i: int, d: nat, value: Score, a: Score, alpha: Score, beta: Score, mv: Score)
    requires
        is_player(s.current),
        0 <= i <= children_states(s).len(),
        value.wf(),
        a.wf(),
        alpha.wf(),
        beta.wf(),
        mv.wf(),
        le(alpha, beta),
        le(neg_infinity(), alpha),
        le(beta, pos_infinity()),
        le(alpha, a),
        le(value, a),
        same_value(a, alpha) || same_value(a, value),
        le(a, beta),
        le(value, beta),
        le(value, alpha) ==> le(mv, value),
        lt(alpha, value) && lt(value, beta) ==> same_value(mv, value),
        le(beta, value) ==> le(value, mv),
    ensures
        max_fold(children_states(s), i, d, value, a, beta).wf(),
        minimax_max(children_states(s), i, d, mv).wf(),
        le(mv, minimax_max(children_states(s), i, d, mv)),
        ({
            let r = max_fold(children_states(s), i, d, value, a, beta);
            let v = minimax_max(children_states(s), i, d, mv);
            &&& le(r, alpha) ==> le(v, r)
            &&& lt(alpha, r) && lt(r, beta) ==> same_value(v, r)
            &&& le(beta, r) ==> le(r, v)
        }),
    decreases d, children_states(s).len() - i,
{
    broadcast use lemma_lt_lt, lemma_lt_le, lemma_le_lt, lemma_le_le;
    let ch = children_states(s);
    if i < ch.len() {
        lemma_children_players(s, i);
        let c = ch[i];
        lemma_search_bounds(c, d, a, beta, false);
        let ri = search_value(c, d, a, beta, false);
        let vi = minimax(c, d, false);
        let v2 = max_score(value, ri);
        let mv2 = max_score(mv, vi);
        if lt(beta, v2) {
            lemma_max_monotone(s, i + 1, d, mv2);
        } else {
            let a2 = max_score(a, v2);
            lemma_max_fold_bounds(s, i + 1, d, v2, a2, alpha, beta, mv2);
        }
    }
}

proof fn lemma_min_fold_bounds(s: BoardState, i: int, d: nat, value: Score, alpha: Score, b: Score, beta: Score, mv: Score)
    requires
        is_player(s.current),
        0 <= i <= children_states(s).len(),
        value.wf(),
        b.wf(),
        alpha.wf(),
        beta.wf(),
        mv.wf(),
        le(alpha, beta),
        le(neg_infinity(), alpha),
        le(beta, pos_infinity()),
        le(b, beta),
        le(b, value),
        same_value(b, beta) || same_value(b, value),
        le(alpha, b),
        le(alpha, value),
        le(beta, value) ==> le(value, mv),
        lt(alpha, value) && lt(value, beta) ==> same_value(mv, value),
        le(value, alpha) ==> le(mv, value),
    ensures
        min_fold(children_states(s), i, d, value, alpha, b).wf(),
        minimax_min(children_states(s), i, d, mv).wf(),
        le(minimax_min(children_states(s), i, d, mv), mv),
        ({
            let r = min_fold(children_states(s), i, d, value, alpha, b);
            let v = minimax_min(children_states(s), i, d, mv);
            &&& le(r, alpha) ==> le(v, r)
            &&& lt(alpha, r) && lt(r, beta) ==> same_value(v, r)
            &&& le(beta, r) ==> le(r, v)
        }),
    decreases d, children_states(s).len() - i,
{
    broadcast use lemma_lt_lt, lemma_lt_le, lemma_le_lt, lemma_le_le;
    let ch = children_states(s);
    if i < ch.len() {
        lemma_children_players(s, i);
        let c = ch[i];
        lemma_search_bounds(c, d, alpha, b, true);
        let ri = search_value(c, d, alpha, b, true);
        let vi = minimax(c, d, true);
        let v2 = min_score(value, ri);
        let mv2 = min_score(mv, vi);
        if lt(v2, alpha) {
            lemma_min_monotone(s, i + 1, d, mv2);
        } else {
            let b2 = min_score(b, v2);
            lemma_min_fold_bounds(s, i + 1, d, v2, alpha, b2, beta, mv2);
        }
    }
}

proof fn lemma_max_monotone(s: BoardState, i: int, d: nat, mv: Score)
    requires
        is_player(s.current),
        0 <= i <= children_states(s).len(),
        mv.wf(),
    ensures
        minimax_max(children_states(s), i, d, mv).wf(),
        le(mv, minimax_max(children_states(s), i, d, mv)),
    decreases children_states(s).len() - i,
{
    broadcast use lemma_lt_lt, lemma_lt_le, lemma_le_lt, lemma_le_le;
    let ch = children_states(s);
    if i < ch.len() {
        lemma_children_players(s, i);
        lemma_minimax_fits(ch[i], d, false);
        let mv2 = max_score(mv, minimax(ch[i], d, false));
        lemma_max_monotone(s, i + 1, d, mv2);
    }
}

proof fn lemma_min_monotone(s: BoardState, i: int, d: nat, mv: Score)
    requires
        is_player(s.current),
        0 <= i <= children_states(s).len(),
        mv.wf(),
    ensures
        minimax_min(children_states(s), i, d, mv).wf(),
        le(minimax_min(children_states(s), i, d, mv), mv),
    decreases children_states(s).len() - i,
{
    broadcast use lemma_lt_lt, lemma_lt_le, lemma_le_lt, lemma_le_le;
    let ch = children_states(s);
    if i < ch.len() {
        lemma_children_players(s, i);
        lemma_minimax_fits(ch[i], d, true);
        let mv2 = min_score(mv, minimax(ch[i], d, true));
        lemma_min_monotone(s, i + 1, d, mv2);
    }
}

proof fn lemma_minimax_fits(s: BoardState, depth: nat, maximizing: bool)
    requires
        is_player(s.current),
    ensures
        minimax(s, depth, maximizing).wf(),
    decreases depth, 0int, 0int,
{
    if depth == 0 || legal_moves(s, s.current).len() == 0 {
        lemma_evaluation_fits(s, s.current);
    } else if maximizing {
        lemma_max_monotone_fits(s, 0, (depth - 1) as nat, neg_infinity());
    } else {
        lemma_min_monotone_fits(s, 0, (depth - 1) as nat, pos_infinity());
    }
}

proof fn lemma_max_monotone_fits(s: BoardState, i: int, d: nat, mv: Score)
    requires
        is_player(s.current),
        0 <= i <= children_states(s).len(),
        mv.wf(),
    ensures
        minimax_max(children_states(s), i, d, mv).wf(),
    decreases d, 1int, children_states(s).len() - i,
{
    let ch = children_states(s);
    if i < ch.len() {
        lemma_children_players(s, i);
        lemma_minimax_fits(ch[i], d, false);
        lemma_max_monotone_fits(s, i + 1, d, max_score(mv, minimax(ch[i], d, false)));
    }
}

proof fn lemma_min_monotone_fits(s: BoardState, i: int, d: nat, mv: Score)
    requires
        is_player(s.current),
        0 <= i <= children_states(s).len(),
        mv.wf(),
    ensures
        minimax_min(children_states(s), i, d, mv).wf(),
    decreases d, 1int, children_states(s).len() - i,
{
    let ch = children_states(s);
    if i < ch.len() {
        lemma_children_players(s, i);
        lemma_minimax_fits(ch[i], d, true);
        lemma_min_monotone_fits(s, i + 1, d, min_score(mv, minimax(ch[i], d, true)));
    }
}

/// `a` lies strictly between minus and plus infinity.
pub open spec fn finite(a: Score) -> bool {
    lt(neg_infinity(), a) && lt(a, pos_infinity())
}

proof fn lemma_evaluation_finite(s: BoardState)
    requires
        is_player(s.current),
    ensures
        finite(evaluation(s, s.current)),
{
    lemma_evaluation_fits(s, s.current);
    let e = evaluation(s, s.current);
    if moves_of(s, s.current) > 0 {
        assert((-100_000_000_000_000int) * (e.den as int) < e.num as int
            && (e.num as int) < 100_000_000_000_000int * (e.den as int)) by (nonlinear_arith)
            requires
                e.den as int >= 2000,
                -1_000_000_000_000_000 <= e.num as int <= 1_000_000_000_000_000,
        ;
    }
}

proof fn lemma_minimax_finite(s: BoardState, depth: nat, maximizing: bool)
    requires
        is_player(s.current),
    ensures
        finite(minimax(s, depth, maximizing)),
        minimax(s, depth, maximizing).wf(),
    decreases depth, 0int, 0int,
{
    lemma_minimax_fits(s, depth, maximizing);
    if depth == 0 || legal_moves(s, s.current).len() == 0 {
        lemma_evaluation_finite(s);
    } else if maximizing {
        lemma_max_finite(s, 0, (depth - 1) as nat, neg_infinity());
    } else {
        lemma_min_finite(s, 0, (depth - 1) as nat, pos_infinity());
    }
}

proof fn lemma_max_finite(s: BoardState, i: int, d: nat, mv: Score)
    requires
        is_player(s.current),
        0 <= i <= children_states(s).len(),
        mv.wf(),
        le(neg_infinity(), mv),
        lt(mv, pos_infinity()),
        i < children_states(s).len() || lt(neg_infinity(), mv),
    ensures
        finite(minimax_max(children_states(s), i, d, mv)),
    decreases d, 1int, children_states(s).len() - i,
{
    broadcast use lemma_lt_lt, lemma_lt_le, lemma_le_lt, lemma_le_le;
    let ch = children_states(s);
    if i < ch.len() {
        lemma_children_players(s, i);
        lemma_minimax_finite(ch[i], d, false);
        lemma_max_finite(s, i + 1, d, max_score(mv, minimax(ch[i], d, false)));
    }
}

proof fn lemma_min_finite(s: BoardState, i: int, d: nat, mv: Score)
    requires
        is_player(s.current),
        0 <= i <= children_states(s).len(),
        mv.wf(),
        lt(neg_infinity(), mv),
        le(mv, pos_infinity()),
        i < children_states(s).len() || lt(mv, pos_infinity()),
    ensures
        finite(minimax_min(children_states(s), i, d, mv)),
    decreases d, 1int, children_states(s).len() - i,
{
    broadcast use lemma_lt_lt, lemma_lt_le, lemma_le_lt, lemma_le_le;
    let ch = children_states(s);
    if i < ch.len() {
        lemma_children_players(s, i);
        lemma_minimax_finite(ch[i], d, true);
        lemma_min_finite(s, i + 1, d, min_score(mv, minimax(ch[i], d, true)));
    }
}

/// With the full window the pruned search loses nothing: it gives the
/// minimax value.
pub proof fn lemma_full_window_is_minimax(s: BoardState, depth: nat, maximizing: bool)
    requires
        is_player(s.current),
    ensures
        same_value(search_value(s, depth, neg_infinity(), pos_infinity(), maximizing), minimax(s, depth, maximizing)),
        search_value(s, depth, neg_infinity(), pos_infinity(), maximizing).wf(),
        finite(search_value(s, depth, neg_infinity(), pos_infinity(), maximizing)),
{
    broadcast use lemma_lt_lt, lemma_lt_le, lemma_le_lt, lemma_le_le;
    lemma_search_bounds(s, depth, neg_infinity(), pos_infinity(), maximizing);
    lemma_minimax_finite(s, depth, maximizing);
}

/// The minimax value of child `i`, the opponent to move, `d` plies deep.
pub open spec fn child_minimax(s: BoardState, d: nat, i: int) -> Score {
    minimax(children_states(s)[i], d, false)
}

/// The move the search picks leads to the child with the greatest minimax
/// value `depth - 1` plies deeper, the first such child in move order.
pub proof fn lemma_best_move_is_minimax_choice(s: BoardState, depth: nat)
    requires
        is_player(s.current),
        depth >= 1,
        legal_moves(s, s.current).len() > 0,
    ensures
        exists|k: int| {
            &&& 0 <= k < legal_moves(s, s.current).len()
            &&& best_move(s, depth) == legal_moves(s, s.current)[k]
            &&& forall|j: int| 0 <= j < legal_moves(s, s.current).len() ==> le(#[trigger] child_minimax(s, (depth - 1) as nat, j), child_minimax(s, (depth - 1) as nat, k))
            &&& forall|j: int| 0 <= j < k ==> lt(#[trigger] child_minimax(s, (depth - 1) as nat, j), child_minimax(s, (depth - 1) as nat, k))
        },
{
    broadcast use lemma_lt_lt, lemma_lt_le, lemma_le_lt, lemma_le_le;
    let d = (depth - 1) as nat;
    let n = legal_moves(s, s.current).len();
    assert forall|j: int| 0 <= j < n implies (#[trigger] root_value(s, d, j)).wf() && lt(neg_infinity(), root_value(s, d, j))
        && same_value(root_value(s, d, j), child_minimax(s, d, j)) && child_minimax(s, d, j).wf() by {
        lemma_children_players(s, j);
        lemma_full_window_is_minimax(children_states(s)[j], d, false);
        lemma_minimax_finite(children_states(s)[j], d, false);
    }
    lemma_best_from(s, d, 0, neg_infinity(), (0, 0));
    let k = choose|k: int| first_best_root(s, d, k) && best_move(s, depth) == legal_moves(s, s.current)[k];
    assert forall|j: int| 0 <= j < n implies le(#[trigger] child_minimax(s, d, j), child_minimax(s, d, k)) by {
        assert(!lt(root_value(s, d, k), root_value(s, d, j)));
    }
    assert forall|j: int| 0 <= j < k implies lt(#[trigger] child_minimax(s, d, j), child_minimax(s, d, k)) by {
        assert(lt(root_value(s, d, j), root_value(s, d, k)));
    }
}

} // verus!
