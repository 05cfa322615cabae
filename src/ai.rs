//! Alpha-beta minimax search over copies of the board.
use vstd::prelude::*;
use crate::eval::{evaluation, lemma_evaluation_fits, moves_of};
use crate::reversi::{apply_move, is_player, legal_moves, lemma_legal_moves, BoardState, ReversiBoard};
use crate::score::{
    get_max_util, get_min_util, lemma_lt_transitive, lt, max_score, min_score, neg_infinity, pos_infinity, Score,
};

verus! {

/// The boards reached by each legal move of the player to move, in move order.
pub open spec fn children_states(s: BoardState) -> Seq<BoardState> {
    legal_moves(s, s.current).map_values(|m: (usize, usize)| apply_move(s, m.0, m.1))
}

/// The value the search gives `s`: the evaluation for the player to move at
/// depth 0 or when that player has no move; otherwise the running maximum
/// (or minimum) over the children, cut off once it passes `beta` (or `alpha`).
pub open spec fn search_value(s: BoardState, depth: nat, alpha: Score, beta: Score, maximizing: bool) -> Score
    decreases depth, 0int,
{
    if depth == 0 || legal_moves(s, s.current).len() == 0 {
        evaluation(s, s.current)
    } else if maximizing {
        max_fold(children_states(s), 0, (depth - 1) as nat, neg_infinity(), alpha, beta)
    } else {
        min_fold(children_states(s), 0, (depth - 1) as nat, pos_infinity(), alpha, beta)
    }
}

/// The maximising loop from child `i` on, with running `value` and `alpha`.
pub open spec fn max_fold(ch: Seq<BoardState>, i: int, d: nat, value: Score, alpha: Score, beta: Score) -> Score
    decreases d, ch.len() - i,
{
    if i < 0 || i >= ch.len() {
        value
    } else {
        let v = max_score(value, search_value(ch[i], d, alpha, beta, false));
        if lt(beta, v) {
            v
        } else {
            max_fold(ch, i + 1, d, v, max_score(alpha, v), beta)
        }
    }
}

/// The minimising loop from child `i` on, with running `value` and `beta`.
pub open spec fn min_fold(ch: Seq<BoardState>, i: int, d: nat, value: Score, alpha: Score, beta: Score) -> Score
    decreases d, ch.len() - i,
{
    if i < 0 || i >= ch.len() {
        value
    } else {
        let v = min_score(value, search_value(ch[i], d, alpha, beta, true));
        if lt(v, alpha) {
            v
        } else {
            min_fold(ch, i + 1, d, v, alpha, min_score(beta, v))
        }
    }
}

/// The choice among the moves from index `i` on, given the best value and
/// move so far: a move replaces the best only with a strictly greater value.
pub open spec fn best_from(s: BoardState, d: nat, i: int, best_val: Score, best: (usize, usize)) -> (usize, usize)
    decreases legal_moves(s, s.current).len() - i,
{
    if i < 0 || i >= legal_moves(s, s.current).len() {
        best
    } else {
        let v = search_value(children_states(s)[i], d, neg_infinity(), pos_infinity(), false);
        if lt(best_val, v) {
            best_from(s, d, i + 1, v, legal_moves(s, s.current)[i])
        } else {
            best_from(s, d, i + 1, best_val, best)
        }
    }
}

/// The move the search picks for the player to move in `s`, looking `depth` plies ahead.
pub open spec fn best_move(s: BoardState, depth: nat) -> (usize, usize) {
    best_from(s, (depth - 1) as nat, 0, neg_infinity(), (0, 0))
}

/// The search is a function of the board and the depth: two searches of equal
/// boards to the same depth pick the same move.
pub proof fn lemma_best_move_deterministic(a: ReversiBoard, b: ReversiBoard, depth: nat)
    requires
        a@ == b@,
    ensures
        best_move(a@, depth) == best_move(b@, depth),
{
}

/// The evaluation of child `i` for its player to move.
pub open spec fn child_eval(s: BoardState, i: int) -> Score {
    evaluation(children_states(s)[i], children_states(s)[i].current)
}

/// The value the search gives child `i` at the root, `d` plies deeper.
pub open spec fn root_value(s: BoardState, d: nat, i: int) -> Score {
    search_value(children_states(s)[i], d, neg_infinity(), pos_infinity(), false)
}

/// Child `k` has the greatest root value, and is the first child that has it.
pub open spec fn first_best_root(s: BoardState, d: nat, k: int) -> bool {
    &&& 0 <= k < legal_moves(s, s.current).len()
    &&& forall|j: int| 0 <= j < legal_moves(s, s.current).len() ==> !lt(root_value(s, d, k), #[trigger] root_value(s, d, j))
    &&& forall|j: int| 0 <= j < k ==> lt(#[trigger] root_value(s, d, j), root_value(s, d, k))
}

/// Child `k` has the greatest evaluation, and is the first child that has it.
pub open spec fn first_best_child(s: BoardState, k: int) -> bool {
    &&& 0 <= k < legal_moves(s, s.current).len()
    &&& forall|j: int| 0 <= j < legal_moves(s, s.current).len() ==> !lt(child_eval(s, k), #[trigger] child_eval(s, j))
    &&& forall|j: int| 0 <= j < k ==> lt(#[trigger] child_eval(s, j), child_eval(s, k))
}

proof fn lemma_child_eval(s: BoardState, i: int)
    requires
        is_player(s.current),
        0 <= i < legal_moves(s, s.current).len(),
    ensures
        root_value(s, 0, i) == child_eval(s, i),
        child_eval(s, i).wf(),
        lt(neg_infinity(), child_eval(s, i)),
{
    let c = children_states(s)[i];
    let m = legal_moves(s, s.current)[i];
    assert(c == apply_move(s, m.0, m.1));
    assert(is_player(c.current));
    lemma_evaluation_fits(c, c.current);
    let e = child_eval(s, i);
    if moves_of(c, c.current) > 0 {
        assert((-100_000_000_000_000int) * (e.den as int) < e.num as int) by (nonlinear_arith)
            requires
                e.den as int >= 2000,
                e.num as int >= -1_000_000_000_000_000,
        ;
    }
}

/// The root loop keeps the first child with the greatest root value, given
/// that every root value is a proper score above minus infinity.
pub proof fn lemma_best_from(s: BoardState, d: nat, i: int, best_val: Score, best: (usize, usize))
    requires
        0 <= i <= legal_moves(s, s.current).len(),
        legal_moves(s, s.current).len() > 0,
        forall|j: int| 0 <= j < legal_moves(s, s.current).len() ==> (#[trigger] root_value(s, d, j)).wf()
            && lt(neg_infinity(), root_value(s, d, j)),
        best_val.wf(),
        i == 0 ==> best_val == neg_infinity(),
        i > 0 ==> exists|k: int| 0 <= k < i && best == legal_moves(s, s.current)[k] && best_val == root_value(s, d, k)
            && (forall|j: int| 0 <= j < k ==> lt(#[trigger] root_value(s, d, j), root_value(s, d, k)))
            && (forall|j: int| 0 <= j < i ==> !lt(root_value(s, d, k), #[trigger] root_value(s, d, j))),
    ensures
        exists|k: int| first_best_root(s, d, k) && best_from(s, d, i, best_val, best) == legal_moves(s, s.current)[k],
    decreases legal_moves(s, s.current).len() - i,
{
    let n = legal_moves(s, s.current).len() as int;
    if i == n {
        let k = choose|k: int| 0 <= k < i && best == legal_moves(s, s.current)[k] && best_val == root_value(s, d, k)
            && (forall|j: int| 0 <= j < k ==> lt(#[trigger] root_value(s, d, j), root_value(s, d, k)))
            && (forall|j: int| 0 <= j < i ==> !lt(root_value(s, d, k), #[trigger] root_value(s, d, j)));
        assert(first_best_root(s, d, k));
    } else {
        let v = root_value(s, d, i);
        if lt(best_val, v) {
            assert forall|j: int| 0 <= j < i implies lt(#[trigger] root_value(s, d, j), v) by {
                let k = choose|k: int| 0 <= k < i && best == legal_moves(s, s.current)[k] && best_val == root_value(s, d, k)
                    && (forall|j: int| 0 <= j < k ==> lt(#[trigger] root_value(s, d, j), root_value(s, d, k)))
                    && (forall|j: int| 0 <= j < i ==> !lt(root_value(s, d, k), #[trigger] root_value(s, d, j)));
                lemma_lt_transitive(root_value(s, d, j), best_val, v);
            }
            assert forall|j: int| 0 <= j < i + 1 implies !lt(v, #[trigger] root_value(s, d, j)) by {
                if j < i {
                    lemma_lt_transitive(root_value(s, d, j), v, v);
                }
            }
            lemma_best_from(s, d, i + 1, v, legal_moves(s, s.current)[i]);
        } else {
            assert(i > 0);
            let k = choose|k: int| 0 <= k < i && best == legal_moves(s, s.current)[k] && best_val == root_value(s, d, k)
                && (forall|j: int| 0 <= j < k ==> lt(#[trigger] root_value(s, d, j), root_value(s, d, k)))
                && (forall|j: int| 0 <= j < i ==> !lt(root_value(s, d, k), #[trigger] root_value(s, d, j)));
            assert(forall|j: int| 0 <= j < i + 1 ==> !lt(root_value(s, d, k), #[trigger] root_value(s, d, j)));
            lemma_best_from(s, d, i + 1, best_val, best);
        }
    }
}

/// Searching one ply deep ranks the children by their evaluation alone: the
/// move picked leads to the child with the greatest evaluation, the first
/// such child in move order.
pub proof fn lemma_depth_one_picks_best_evaluation(s: BoardState)
    requires
        is_player(s.current),
        legal_moves(s, s.current).len() > 0,
    ensures
        exists|k: int| first_best_child(s, k) && best_move(s, 1) == legal_moves(s, s.current)[k],
{
    assert forall|j: int| 0 <= j < legal_moves(s, s.current).len() implies (#[trigger] root_value(s, 0, j)).wf()
        && lt(neg_infinity(), root_value(s, 0, j)) by {
        lemma_child_eval(s, j);
    }
    lemma_best_from(s, 0, 0, neg_infinity(), (0, 0));
    let k = choose|k: int| first_best_root(s, 0, k) && best_move(s, 1) == legal_moves(s, s.current)[k];
    assert forall|j: int| 0 <= j < legal_moves(s, s.current).len() implies root_value(s, 0, j) == #[trigger] child_eval(s, j) by {
        lemma_child_eval(s, j);
    }
    assert(first_best_child(s, k));
}

/// Alpha-beta search: the value of `node` searched `depth` plies deep within
/// the window `alpha`..`beta`, for the maximising side or the minimising one.
pub fn alpha_beta(node: ReversiBoard, depth: usize, alpha: Score, beta: Score, maximizing_player: bool) -> (r: Score)
    requires
        node.wf(),
        alpha.wf(),
        beta.wf(),
    ensures
        r == search_value(node@, depth as nat, alpha, beta, maximizing_player),
        r.wf(),
    decreases depth,
{
    if depth == 0 || node.is_board_terminal(node.current_player) {
        return node.get_board_eval(node.current_player);
    }
    let children = node.get_children_nodes();
    let ghost ch = children_states(node@);
    let ghost d = (depth - 1) as nat;
    proof {
        lemma_legal_moves(node@, node.current_player);
    }
    let mut i: usize = 0;
    if maximizing_player {
        let mut value = Score::neg_infinity();
        let mut a = alpha;
        while i < children.len()
            invariant
                depth > 0,
                d == depth - 1,
                i <= children@.len(),
                children@.len() == ch.len(),
                forall|j: int| 0 <= j < children@.len() ==> #[trigger] children@[j]@ == ch[j] && children@[j].wf(),
                maximizing_player,
                value.wf(),
                a.wf(),
                beta.wf(),
                search_value(node@, depth as nat, alpha, beta, true) == max_fold(ch, i as int, d, value, a, beta),
            decreases children@.len() - i,
        {
            let child = children[i];
            assert(children@[i as int]@ == ch[i as int]);
            let v = alpha_beta(child, depth - 1, a, beta, false);
            value = get_max_util(value, v);
            if beta.less_than(&value) {
                return value;
            }
            a = get_max_util(a, value);
            i = i + 1;
        }
        value
    } else {
        let mut value = Score::pos_infinity();
        let mut b = beta;
        while i < children.len()
            invariant
                depth > 0,
                d == depth - 1,
                i <= children@.len(),
                children@.len() == ch.len(),
                forall|j: int| 0 <= j < children@.len() ==> #[trigger] children@[j]@ == ch[j] && children@[j].wf(),
                !maximizing_player,
                value.wf(),
                alpha.wf(),
                b.wf(),
                search_value(node@, depth as nat, alpha, beta, false) == min_fold(ch, i as int, d, value, alpha, b),
            decreases children@.len() - i,
        {
            let child = children[i];
            assert(children@[i as int]@ == ch[i as int]);
            let v = alpha_beta(child, depth - 1, alpha, b, true);
            value = get_min_util(value, v);
            if value.less_than(&alpha) {
                return value;
            }
            b = get_min_util(b, value);
            i = i + 1;
        }
        value
    }
}

/// The move for the player to move: the first child, in move order, with the
/// greatest search value `depth - 1` plies deeper, from the opponent's side.
pub fn get_best_move(node: ReversiBoard, depth: usize) -> (r: (usize, usize))
    requires
        node.wf(),
        depth >= 1,
        legal_moves(node@, node.current_player).len() > 0,
    ensures
        r == best_move(node@, depth as nat),
{
    let mut best_val = Score::neg_infinity();
    let mut best: (usize, usize) = (0, 0);
    let children = node.get_children_nodes();
    let ghost s = node@;
    let ghost d = (depth - 1) as nat;
    let mut i: usize = 0;
    while i < children.len()
        invariant
            node.wf(),
            s == node@,
            d == depth - 1,
            i <= children@.len(),
            children@.len() == legal_moves(s, s.current).len(),
            forall|j: int| 0 <= j < children@.len() ==> {
                let m = legal_moves(s, s.current)[j];
                &&& #[trigger] children@[j]@ == apply_move(s, m.0, m.1)
                &&& children@[j].wf()
            },
            best_val.wf(),
            best_move(s, depth as nat) == best_from(s, d, i as int, best_val, best),
        decreases children@.len() - i,
    {
        let child = children[i];
        assert(children@[i as int]@ == apply_move(s, legal_moves(s, s.current)[i as int].0, legal_moves(s, s.current)[i as int].1));
        let move_val = alpha_beta(child, depth - 1, Score::neg_infinity(), Score::pos_infinity(), false);
        assert(child@ == children_states(s)[i as int]);
        if best_val.less_than(&move_val) {
            best = match child.last_move {
                Some(m) => m,
                None => best,
            };
            best_val = move_val;
        }
        i = i + 1;
    }
    best
}

} // verus!
