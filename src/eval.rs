//! The static evaluation of a board from one player's point of view.
use vstd::prelude::*;
use crate::reversi::{
    at, count, is_dir, is_player, legal_moves, lemma_legal_moves, lemma_row_count_bounds,
    lemma_rows_count_bounds, opp, opponent, row_count, rows_count, BoardState, CellState,
    ReversiBoard,
};
use crate::score::{neg, Score, WIN_NUM, NUM_BOUND, DEN_BOUND};

verus! {

/// Folds a coordinate onto the top-left quarter of the board.
pub open spec fn fold(i: int) -> int {
    if i < 4 {
        i
    } else {
        7 - i
    }
}

/// The positional weight of a cell: corners are worth most, the cells next
/// to corners are penalised.
pub open spec fn weight(x: int, y: int) -> int {
    let a = fold(x);
    let b = fold(y);
    let lo = if a <= b { a } else { b };
    let hi = if a <= b { b } else { a };
    if lo == 0 {
        if hi == 0 { 20 } else if hi == 1 { -3 } else if hi == 2 { 11 } else { 8 }
    } else if lo == 1 {
        if hi == 1 { -7 } else if hi == 2 { -4 } else { 1 }
    } else if lo == 2 {
        2
    } else {
        -3
    }
}

/// The weights of the cells holding `c` in row `y`, columns `0..n`.
pub open spec fn row_weight(s: BoardState, c: CellState, y: int, n: int) -> int
    decreases n,
{
    if n <= 0 {
        0
    } else {
        row_weight(s, c, y, n - 1) + if at(s, n - 1, y) == c { weight(n - 1, y) } else { 0 }
    }
}

/// The weights of the cells holding `c` in rows `0..m`.
pub open spec fn rows_weight(s: BoardState, c: CellState, m: int) -> int
    decreases m,
{
    if m <= 0 {
        0
    } else {
        rows_weight(s, c, m - 1) + row_weight(s, c, m - 1, 8)
    }
}

/// Some of the eight neighbours of `(x, y)` is occupied.
pub open spec fn has_occupied_neighbor(s: BoardState, x: int, y: int) -> bool {
    exists|dx: int, dy: int| is_dir(dx, dy) && #[trigger] at(s, x + dx, y + dy) != CellState::Empty
}

/// The frontier pieces of `c` in row `y`, columns `0..n`.
pub open spec fn row_frontier(s: BoardState, c: CellState, y: int, n: int) -> int
    decreases n,
{
    if n <= 0 {
        0
    } else {
        row_frontier(s, c, y, n - 1) + if at(s, n - 1, y) == c && has_occupied_neighbor(s, n - 1, y) { 1int } else { 0 }
    }
}

/// The frontier pieces of `c` in rows `0..m`.
pub open spec fn rows_frontier(s: BoardState, c: CellState, m: int) -> int
    decreases m,
{
    if m <= 0 {
        0
    } else {
        rows_frontier(s, c, m - 1) + row_frontier(s, c, m - 1, 8)
    }
}

pub open spec fn holds(s: BoardState, x: int, y: int, c: CellState) -> int {
    if at(s, x, y) == c {
        1
    } else {
        0
    }
}

/// The corners held by `c`.
pub open spec fn corners(s: BoardState, c: CellState) -> int {
    holds(s, 0, 0, c) + holds(s, 7, 0, c) + holds(s, 0, 7, c) + holds(s, 7, 7, c)
}

/// The pieces of `c` next to the corner `(x, y)` (one step `sx`, `sy` inwards), if it is empty.
pub open spec fn near_corner(s: BoardState, c: CellState, x: int, y: int, sx: int, sy: int) -> int {
    if at(s, x, y) == CellState::Empty {
        holds(s, x + sx, y, c) + holds(s, x + sx, y + sy, c) + holds(s, x, y + sy, c)
    } else {
        0
    }
}

/// The pieces of `c` next to empty corners.
pub open spec fn near_corners(s: BoardState, c: CellState) -> int {
    near_corner(s, c, 0, 0, 1, 1) + near_corner(s, c, 7, 0, -1, 1) + near_corner(s, c, 0, 7, 1, -1)
        + near_corner(s, c, 7, 7, -1, -1)
}

/// Numerator of the lead score of `a` over `b`: `100 * (a - b) / (a + b)`.
pub open spec fn lead_num(a: int, b: int) -> int {
    100 * (a - b)
}

/// Numerator of the share score of `a` against `b`: `100 * max / (a + b)`,
/// positive when `a` leads, negative when `b` leads, zero on a tie.
pub open spec fn share_num(a: int, b: int) -> int {
    if a > b {
        100 * a
    } else if b > a {
        -100 * b
    } else {
        0
    }
}

/// Denominator of the lead and share scores: `a + b`, or 1 when both are zero.
pub open spec fn share_den(a: int, b: int) -> int {
    if a + b == 0 {
        1
    } else {
        a + b
    }
}

/// The weighted sum of the five terms, times `2000 * pd * md * fd`.
/// Terms: piece lead `p / pd`, corner occupancy `occ`, corner closeness
/// `cn / 2`, mobility lead `m / md`, frontier share `f / fd`, positional `diff`.
/// Weights: 10, 801.724, 382.026, 78.922, 74.396, 10.
pub open spec fn combined_num(p: int, pd: int, occ: int, cn: int, m: int, md: int, f: int, fd: int, diff: int) -> int {
    20000 * p * md * fd + 1603448 * occ * pd * md * fd + 382026 * cn * pd * md * fd + 157844 * m * pd * fd
        + 148792 * f * pd * md + 20000 * diff * pd * md * fd
}

pub open spec fn combined_den(pd: int, md: int, fd: int) -> int {
    2000 * pd * md * fd
}

pub open spec fn moves_of(s: BoardState, c: CellState) -> int {
    legal_moves(s, c).len() as int
}

pub open spec fn frontier(s: BoardState, c: CellState) -> int {
    rows_frontier(s, c, 8)
}

pub open spec fn weights(s: BoardState, c: CellState) -> int {
    rows_weight(s, c, 8)
}

/// Numerator of the evaluation of `s` for `c`. When `c` has no legal move the
/// position counts as decided: a win, a loss, or 0 by the piece counts.
pub open spec fn eval_num(s: BoardState, c: CellState) -> int {
    let o = opp(c);
    if moves_of(s, c) == 0 {
        if count(s, c) > count(s, o) {
            WIN_NUM as int
        } else if count(s, c) < count(s, o) {
            -WIN_NUM
        } else {
            0
        }
    } else {
        combined_num(
            lead_num(count(s, c), count(s, o)),
            share_den(count(s, c), count(s, o)),
            25 * (corners(s, c) - corners(s, o)),
            -25 * (near_corners(s, c) - near_corners(s, o)),
            lead_num(moves_of(s, c), moves_of(s, o)),
            share_den(moves_of(s, c), moves_of(s, o)),
            -share_num(frontier(s, c), frontier(s, o)),
            share_den(frontier(s, c), frontier(s, o)),
            weights(s, c) - weights(s, o),
        )
    }
}

/// Denominator of the evaluation of `s` for `c`.
pub open spec fn eval_den(s: BoardState, c: CellState) -> int {
    let o = opp(c);
    if moves_of(s, c) == 0 {
        1
    } else {
        combined_den(
            share_den(count(s, c), count(s, o)),
            share_den(moves_of(s, c), moves_of(s, o)),
            share_den(frontier(s, c), frontier(s, o)),
        )
    }
}

/// The evaluation of `s` for `c` as a score.
pub open spec fn evaluation(s: BoardState, c: CellState) -> Score {
    Score { num: eval_num(s, c) as i128, den: eval_den(s, c) as i128 }
}

pub proof fn lemma_row_weight_bounds(s: BoardState, c: CellState, y: int, n: int)
    requires
        0 <= n <= 8,
    ensures
        -20 * n <= row_weight(s, c, y, n) <= 20 * n,
    decreases n,
{
    if n > 0 {
        lemma_row_weight_bounds(s, c, y, n - 1);
    }
}

pub proof fn lemma_rows_weight_bounds(s: BoardState, c: CellState, m: int)
    requires
        0 <= m <= 8,
    ensures
        -160 * m <= rows_weight(s, c, m) <= 160 * m,
    decreases m,
{
    if m > 0 {
        lemma_rows_weight_bounds(s, c, m - 1);
        lemma_row_weight_bounds(s, c, m - 1, 8);
    }
}

pub proof fn lemma_row_frontier_bounds(s: BoardState, c: CellState, y: int, n: int)
    requires
        0 <= n <= 8,
    ensures
        0 <= row_frontier(s, c, y, n) <= n,
    decreases n,
{
    if n > 0 {
        lemma_row_frontier_bounds(s, c, y, n - 1);
    }
}

pub proof fn lemma_rows_frontier_bounds(s: BoardState, c: CellState, m: int)
    requires
        0 <= m <= 8,
    ensures
        0 <= rows_frontier(s, c, m) <= 8 * m,
    decreases m,
{
    if m > 0 {
        lemma_rows_frontier_bounds(s, c, m - 1);
        lemma_row_frontier_bounds(s, c, m - 1, 8);
    }
}

/// The positional weight of the cell at `(x, y)`.
fn weight_at(x: usize, y: usize) -> (r: i64)
    requires
        x < 8,
        y < 8,
    ensures
        r == weight(x as int, y as int),
{
    let a: usize = if x < 4 { x } else { 7 - x };
    let b: usize = if y < 4 { y } else { 7 - y };
    let lo: usize = if a <= b { a } else { b };
    let hi: usize = if a <= b { b } else { a };
    if lo == 0 {
        if hi == 0 { 20 } else if hi == 1 { -3 } else if hi == 2 { 11 } else { 8 }
    } else if lo == 1 {
        if hi == 1 { -7 } else if hi == 2 { -4 } else { 1 }
    } else if lo == 2 {
        2
    } else {
        -3
    }
}

/// The lead score of `a` over `b` as a score.
fn lead(a: i128, b: i128) -> (r: Score)
    requires
        0 <= a <= 64,
        0 <= b <= 64,
    ensures
        r.num == lead_num(a as int, b as int),
        r.den == share_den(a as int, b as int),
{
    let den: i128 = if a + b == 0 { 1 } else { a + b };
    Score { num: 100 * (a - b), den }
}

/// The share score of `a` against `b` as a score.
fn share(a: i128, b: i128) -> (r: Score)
    requires
        0 <= a <= 64,
        0 <= b <= 64,
    ensures
        r.num == share_num(a as int, b as int),
        r.den == share_den(a as int, b as int),
{
    let num: i128 = if a > b {
        100 * a
    } else if b > a {
        0 - 100 * b
    } else {
        0
    };
    let den: i128 = if a + b == 0 { 1 } else { a + b };
    Score { num, den }
}

proof fn lemma_mul(a: int, b: int, ba: int, bb: int)
    requires
        -ba <= a <= ba,
        -bb <= b <= bb,
    ensures
        -ba * bb <= a * b <= ba * bb,
{
    assert(-ba * bb <= a * b <= ba * bb) by (nonlinear_arith)
        requires
            -ba <= a <= ba,
            -bb <= b <= bb,
    ;
}

/// Every partial product of the combined score fits its machine type.
proof fn lemma_combined_fits(p: int, pd: int, occ: int, cn: int, m: int, md: int, f: int, fd: int, diff: int)
    requires
        -6400 <= p <= 6400,
        -6400 <= m <= 6400,
        -6400 <= f <= 6400,
        1 <= pd <= 128,
        1 <= md <= 128,
        1 <= fd <= 128,
        -100 <= occ <= 100,
        -300 <= cn <= 300,
        -2560 <= diff <= 2560,
    ensures
        -2_000_000_000_000_000 <= 20000 * p * md <= 2_000_000_000_000_000,
        -100_000_000_000_000 <= 20000 * p * md * fd <= 100_000_000_000_000,
        -2_000_000_000_000_000 <= 1603448 * occ * pd <= 2_000_000_000_000_000,
        -2_000_000_000_000_000 <= 1603448 * occ * pd * md <= 2_000_000_000_000_000,
        -400_000_000_000_000 <= 1603448 * occ * pd * md * fd <= 400_000_000_000_000,
        -2_000_000_000_000_000 <= 382026 * cn * pd <= 2_000_000_000_000_000,
        -2_000_000_000_000_000 <= 382026 * cn * pd * md <= 2_000_000_000_000_000,
        -300_000_000_000_000 <= 382026 * cn * pd * md * fd <= 300_000_000_000_000,
        -2_000_000_000_000_000 <= 157844 * m * pd <= 2_000_000_000_000_000,
        -20_000_000_000_000 <= 157844 * m * pd * fd <= 20_000_000_000_000,
        -2_000_000_000_000_000 <= 148792 * f * pd <= 2_000_000_000_000_000,
        -20_000_000_000_000 <= 148792 * f * pd * md <= 20_000_000_000_000,
        -2_000_000_000_000_000 <= 20000 * diff * pd <= 2_000_000_000_000_000,
        -2_000_000_000_000_000 <= 20000 * diff * pd * md <= 2_000_000_000_000_000,
        -120_000_000_000_000 <= 20000 * diff * pd * md * fd <= 120_000_000_000_000,
        -NUM_BOUND <= combined_num(p, pd, occ, cn, m, md, f, fd, diff) <= NUM_BOUND,
        2000 * pd <= 256000,
        2000 * pd * md <= 32768000,
        1 <= combined_den(pd, md, fd) <= DEN_BOUND,
{
    lemma_mul(20000 * p, md, (128000000) as int, 128);
    lemma_mul(20000 * p * md, fd, (128000000 * 128) as int, 128);
    lemma_mul(1603448 * occ, pd, (160344800) as int, 128);
    lemma_mul(1603448 * occ * pd, md, (160344800 * 128) as int, 128);
    lemma_mul(1603448 * occ * pd * md, fd, (160344800 * 128 * 128) as int, 128);
    lemma_mul(382026 * cn, pd, (114607800) as int, 128);
    lemma_mul(382026 * cn * pd, md, (114607800 * 128) as int, 128);
    lemma_mul(382026 * cn * pd * md, fd, (114607800 * 128 * 128) as int, 128);
    lemma_mul(157844 * m, pd, (1010201600) as int, 128);
    lemma_mul(157844 * m * pd, fd, (1010201600 * 128) as int, 128);
    lemma_mul(148792 * f, pd, (952268800) as int, 128);
    lemma_mul(148792 * f * pd, md, (952268800 * 128) as int, 128);
    lemma_mul(20000 * diff, pd, (51200000) as int, 128);
    lemma_mul(20000 * diff * pd, md, (51200000 * 128) as int, 128);
    lemma_mul(20000 * diff * pd * md, fd, (51200000 * 128 * 128) as int, 128);
    lemma_mul(2000 * pd, md, (256000) as int, 128);
    lemma_mul(2000 * pd * md, fd, (256000 * 128) as int, 128);
    assert(1 <= 2000 * pd * md * fd) by (nonlinear_arith)
        requires
            1 <= pd,
            1 <= md,
            1 <= fd,
    ;
}

/// The numerator and denominator of an evaluation fit a score, and a position
/// where `c` can move has a denominator of at least 2000.
pub proof fn lemma_evaluation_fits(s: BoardState, c: CellState)
    requires
        is_player(c),
    ensures
        -NUM_BOUND <= eval_num(s, c) <= NUM_BOUND,
        1 <= eval_den(s, c) <= DEN_BOUND,
        moves_of(s, c) > 0 ==> eval_den(s, c) >= 2000,
        evaluation(s, c).num == eval_num(s, c),
        evaluation(s, c).den == eval_den(s, c),
        evaluation(s, c).wf(),
{
    let o = opp(c);
    lemma_rows_count_bounds(s, c, 8);
    lemma_rows_count_bounds(s, o, 8);
    lemma_rows_frontier_bounds(s, c, 8);
    lemma_rows_frontier_bounds(s, o, 8);
    lemma_rows_weight_bounds(s, c, 8);
    lemma_rows_weight_bounds(s, o, 8);
    lemma_legal_moves(s, c);
    lemma_legal_moves(s, o);
    let pd = share_den(count(s, c), count(s, o));
    let md = share_den(moves_of(s, c), moves_of(s, o));
    let fd = share_den(frontier(s, c), frontier(s, o));
    lemma_combined_fits(
        lead_num(count(s, c), count(s, o)),
        pd,
        25 * (corners(s, c) - corners(s, o)),
        -25 * (near_corners(s, c) - near_corners(s, o)),
        lead_num(moves_of(s, c), moves_of(s, o)),
        md,
        -share_num(frontier(s, c), frontier(s, o)),
        fd,
        weights(s, c) - weights(s, o),
    );
    assert(2000 <= 2000 * pd * md * fd) by (nonlinear_arith)
        requires
            1 <= pd,
            1 <= md,
            1 <= fd,
    ;
}

proof fn lemma_neg_product2(k: int, a: int, x: int, y: int)
    ensures
        k * (-a) * x * y == -(k * a * x * y),
{
    assert(k * (-a) * x * y == -(k * a * x * y)) by (nonlinear_arith);
}

proof fn lemma_neg_product3(k: int, a: int, x: int, y: int, z: int)
    ensures
        k * (-a) * x * y * z == -(k * a * x * y * z),
{
    assert(k * (-a) * x * y * z == -(k * a * x * y * z)) by (nonlinear_arith);
}

proof fn lemma_combined_antisymmetric(p: int, pd: int, occ: int, cn: int, m: int, md: int, f: int, fd: int, diff: int)
    ensures
        combined_num(-p, pd, -occ, -cn, -m, md, -f, fd, -diff) == -combined_num(p, pd, occ, cn, m, md, f, fd, diff),
{
    lemma_neg_product2(20000, p, md, fd);
    lemma_neg_product3(1603448, occ, pd, md, fd);
    lemma_neg_product3(382026, cn, pd, md, fd);
    lemma_neg_product2(157844, m, pd, fd);
    lemma_neg_product2(148792, f, pd, md);
    lemma_neg_product3(20000, diff, pd, md, fd);
}

/// The evaluation is zero-sum: on a board where both sides can move, or
/// neither can, Black's evaluation is the negation of White's.
pub proof fn lemma_evaluation_symmetric(s: BoardState)
    requires
        (moves_of(s, CellState::Black) == 0) == (moves_of(s, CellState::White) == 0),
    ensures
        eval_num(s, CellState::Black) == -eval_num(s, CellState::White),
        eval_den(s, CellState::Black) == eval_den(s, CellState::White),
        evaluation(s, CellState::Black) == neg(evaluation(s, CellState::White)),
{
    let b = CellState::Black;
    let w = CellState::White;
    lemma_evaluation_fits(s, b);
    lemma_evaluation_fits(s, w);
    if moves_of(s, b) > 0 {
        lemma_combined_antisymmetric(
            lead_num(count(s, w), count(s, b)),
            share_den(count(s, w), count(s, b)),
            25 * (corners(s, w) - corners(s, b)),
            -25 * (near_corners(s, w) - near_corners(s, b)),
            lead_num(moves_of(s, w), moves_of(s, b)),
            share_den(moves_of(s, w), moves_of(s, b)),
            -share_num(frontier(s, w), frontier(s, b)),
            share_den(frontier(s, w), frontier(s, b)),
            weights(s, w) - weights(s, b),
        );
    }
}

/// Whether `color` holds the cell at `(x, y)`, as 0 or 1.
fn holds_at(b: &ReversiBoard, x: usize, y: usize, color: CellState) -> (r: i64)
    requires
        x < 8,
        y < 8,
    ensures
        r == holds(b@, x as int, y as int, color),
{
    if b.board[y][x] == color {
        1
    } else {
        0
    }
}

/// The pieces of `color` next to the corner `(x, y)` if it is empty; its
/// neighbours are `(nx, y)`, `(nx, ny)` and `(x, ny)`.
fn near_corner_at(b: &ReversiBoard, color: CellState, x: usize, y: usize, nx: usize, ny: usize) -> (r: i64)
    requires
        x < 8,
        y < 8,
        nx < 8,
        ny < 8,
    ensures
        r == near_corner(b@, color, x as int, y as int, nx - x, ny - y),
{
    if b.board[y][x] == CellState::Empty {
        holds_at(b, nx, y, color) + holds_at(b, nx, ny, color) + holds_at(b, x, ny, color)
    } else {
        0
    }
}

impl ReversiBoard {
    /// Whether some neighbour of `(x, y)` is occupied.
    fn has_occupied_neighbor(&self, x: usize, y: usize) -> (r: bool)
        requires
            x < 8,
            y < 8,
        ensures
            r == has_occupied_neighbor(self@, x as int, y as int),
    {
        let mut dx: i8 = -1;
        while dx <= 1
            invariant
                -1 <= dx <= 2,
                x < 8,
                y < 8,
                forall|ex: int, ey: int| is_dir(ex, ey) && ex < dx ==> #[trigger] at(self@, x + ex, y + ey) == CellState::Empty,
            decreases 2 - dx,
        {
            let mut dy: i8 = -1;
            while dy <= 1
                invariant
                    -1 <= dx <= 1,
                    -1 <= dy <= 2,
                    x < 8,
                    y < 8,
                    forall|ex: int, ey: int| is_dir(ex, ey) && (ex < dx || (ex == dx && ey < dy)) ==> #[trigger] at(self@, x + ex, y + ey) == CellState::Empty,
                decreases 2 - dy,
            {
                if dx != 0 || dy != 0 {
                    let nx: i64 = x as i64 + dx as i64;
                    let ny: i64 = y as i64 + dy as i64;
                    if 0 <= nx && nx < 8 && 0 <= ny && ny < 8 && self.board[ny as usize][nx as usize] != CellState::Empty {
                        assert(at(self@, x + dx, y + dy) != CellState::Empty);
                        return true;
                    }
                }
                dy = dy + 1;
            }
            dx = dx + 1;
        }
        false
    }

    /// The positional score, the piece lead and the frontier score of `color`.
    fn get_piece_diff_frontier_scores(&self, color: CellState) -> (r: (i64, Score, Score))
        requires
            is_player(color),
        ensures
            r.0 == weights(self@, color) - weights(self@, opp(color)),
            r.1.num == lead_num(count(self@, color), count(self@, opp(color))),
            r.1.den == share_den(count(self@, color), count(self@, opp(color))),
            r.2.num == -share_num(frontier(self@, color), frontier(self@, opp(color))),
            r.2.den == share_den(frontier(self@, color), frontier(self@, opp(color))),
    {
        let ghost s = self@;
        let opp_color = opponent(color);
        let mut my_pieces: i64 = 0;
        let mut opp_pieces: i64 = 0;
        let mut my_weight: i64 = 0;
        let mut opp_weight: i64 = 0;
        let mut my_front: i64 = 0;
        let mut opp_front: i64 = 0;
        let mut y: usize = 0;
        while y < 8
            invariant
                y <= 8,
                s == self@,
                is_player(color),
                opp_color == opp(color),
                my_pieces == rows_count(s, color, y as int),
                opp_pieces == rows_count(s, opp_color, y as int),
                my_weight == rows_weight(s, color, y as int),
                opp_weight == rows_weight(s, opp_color, y as int),
                my_front == rows_frontier(s, color, y as int),
                opp_front == rows_frontier(s, opp_color, y as int),
            decreases 8 - y,
        {
            proof {
                lemma_rows_count_bounds(s, color, y as int);
                lemma_rows_count_bounds(s, opp_color, y as int);
                lemma_rows_weight_bounds(s, color, y as int);
                lemma_rows_weight_bounds(s, opp_color, y as int);
                lemma_rows_frontier_bounds(s, color, y as int);
                lemma_rows_frontier_bounds(s, opp_color, y as int);
            }
            let mut x: usize = 0;
            while x < 8
                invariant
                    y < 8,
                    x <= 8,
                    s == self@,
                    is_player(color),
                    opp_color == opp(color),
                    -160 * y <= rows_weight(s, color, y as int) <= 160 * y,
                    -160 * y <= rows_weight(s, opp_color, y as int) <= 160 * y,
                    0 <= rows_count(s, color, y as int) <= 8 * y,
                    0 <= rows_count(s, opp_color, y as int) <= 8 * y,
                    0 <= rows_frontier(s, color, y as int) <= 8 * y,
                    0 <= rows_frontier(s, opp_color, y as int) <= 8 * y,
                    my_pieces == rows_count(s, color, y as int) + row_count(s, color, y as int, x as int),
                    opp_pieces == rows_count(s, opp_color, y as int) + row_count(s, opp_color, y as int, x as int),
                    my_weight == rows_weight(s, color, y as int) + row_weight(s, color, y as int, x as int),
                    opp_weight == rows_weight(s, opp_color, y as int) + row_weight(s, opp_color, y as int, x as int),
                    my_front == rows_frontier(s, color, y as int) + row_frontier(s, color, y as int, x as int),
                    opp_front == rows_frontier(s, opp_color, y as int) + row_frontier(s, opp_color, y as int, x as int),
                decreases 8 - x,
            {
                proof {
                    lemma_row_count_bounds(s, color, y as int, x as int);
                    lemma_row_count_bounds(s, opp_color, y as int, x as int);
                    lemma_row_weight_bounds(s, color, y as int, x as int);
                    lemma_row_weight_bounds(s, opp_color, y as int, x as int);
                    lemma_row_frontier_bounds(s, color, y as int, x as int);
                    lemma_row_frontier_bounds(s, opp_color, y as int, x as int);
                }
                let cell = self.board[y][x];
                assert(cell == at(s, x as int, y as int));
                if cell == color {
                    my_weight = my_weight + weight_at(x, y);
                    my_pieces = my_pieces + 1;
                } else if cell == opp_color {
                    opp_weight = opp_weight + weight_at(x, y);
                    opp_pieces = opp_pieces + 1;
                }
                if cell != CellState::Empty {
                    if self.has_occupied_neighbor(x, y) {
                        if cell == color {
                            my_front = my_front + 1;
                        } else {
                            opp_front = opp_front + 1;
                        }
                    }
                }
                x = x + 1;
            }
            y = y + 1;
        }
        proof {
            lemma_rows_count_bounds(s, color, 8);
            lemma_rows_count_bounds(s, opp_color, 8);
            lemma_rows_frontier_bounds(s, color, 8);
            lemma_rows_frontier_bounds(s, opp_color, 8);
            lemma_rows_weight_bounds(s, color, 8);
            lemma_rows_weight_bounds(s, opp_color, 8);
        }
        let piece_score = lead(my_pieces as i128, opp_pieces as i128);
        let front = share(my_front as i128, opp_front as i128);
        let frontier_score = Score { num: -front.num, den: front.den };
        (my_weight - opp_weight, piece_score, frontier_score)
    }

    /// The mobility score of `color`: its lead in legal moves over the opponent,
    /// as a percentage of the legal moves of both sides.
    fn get_mobility_score(&self, color: CellState) -> (r: Score)
        requires
            is_player(color),
        ensures
            r.num == lead_num(moves_of(self@, color), moves_of(self@, opp(color))),
            r.den == share_den(moves_of(self@, color), moves_of(self@, opp(color))),
    {
        let opp_color = opponent(color);
        let my_moves = self.get_possible_moves(color).len();
        let opp_moves = self.get_possible_moves(opp_color).len();
        proof {
            lemma_legal_moves(self@, color);
            lemma_legal_moves(self@, opp_color);
        }
        lead(my_moves as i128, opp_moves as i128)
    }

    /// The corner occupancy score of `color`: 25 per corner held, minus 25 per
    /// corner the opponent holds.
    fn get_corner_occupancy_score(&self, color: CellState) -> (r: i64)
        requires
            is_player(color),
        ensures
            r == 25 * (corners(self@, color) - corners(self@, opp(color))),
    {
        let opp_color = opponent(color);
        let mine = holds_at(self, 0, 0, color) + holds_at(self, 7, 0, color) + holds_at(self, 0, 7, color)
            + holds_at(self, 7, 7, color);
        let theirs = holds_at(self, 0, 0, opp_color) + holds_at(self, 7, 0, opp_color) + holds_at(self, 0, 7, opp_color)
            + holds_at(self, 7, 7, opp_color);
        25 * (mine - theirs)
    }

    /// The corner closeness score of `color`: -12.5 per piece of `color` next to
    /// an empty corner, +12.5 per such piece of the opponent.
    fn get_corner_closeness_score(&self, color: CellState) -> (r: Score)
        requires
            is_player(color),
        ensures
            r.num == -25 * (near_corners(self@, color) - near_corners(self@, opp(color))),
            r.den == 2,
    {
        let opp_color = opponent(color);
        let mine = near_corner_at(self, color, 0, 0, 1, 1) + near_corner_at(self, color, 7, 0, 6, 1)
            + near_corner_at(self, color, 0, 7, 1, 6) + near_corner_at(self, color, 7, 7, 6, 6);
        let theirs = near_corner_at(self, opp_color, 0, 0, 1, 1) + near_corner_at(self, opp_color, 7, 0, 6, 1)
            + near_corner_at(self, opp_color, 0, 7, 1, 6) + near_corner_at(self, opp_color, 7, 7, 6, 6);
        Score { num: -25 * (mine - theirs) as i128, den: 2 }
    }

    /// The evaluation of this board for `color`. With no legal move for
    /// `color` the position is judged by the piece counts alone: a win scores
    /// `WIN_NUM`, a loss `-WIN_NUM`, a tie 0. Otherwise it is the weighted sum
    /// of the piece lead, corner occupancy, corner closeness, mobility,
    /// frontier and positional scores.
    pub fn get_board_eval(&self, color: CellState) -> (r: Score)
        requires
            is_player(color),
        ensures
            r == evaluation(self@, color),
            r.num == eval_num(self@, color),
            r.den == eval_den(self@, color),
            r.wf(),
    {
        let ghost s = self@;
        let opp_color = opponent(color);
        if self.get_possible_moves(color).len() == 0 {
            let mine = self.get_piece_count(color);
            let theirs = self.get_piece_count(opp_color);
            if mine > theirs {
                return Score { num: WIN_NUM, den: 1 };
            } else if mine < theirs {
                return Score { num: -WIN_NUM, den: 1 };
            } else {
                return Score { num: 0, den: 1 };
            }
        }
        let (diff_score, piece_score, frontier_score) = self.get_piece_diff_frontier_scores(color);
        let corner_occupancy_score = self.get_corner_occupancy_score(color);
        let corner_closeness_score = self.get_corner_closeness_score(color);
        let mobility_score = self.get_mobility_score(color);
        proof {
            lemma_rows_count_bounds(s, color, 8);
            lemma_rows_count_bounds(s, opp_color, 8);
            lemma_rows_frontier_bounds(s, color, 8);
            lemma_rows_frontier_bounds(s, opp_color, 8);
            lemma_rows_weight_bounds(s, color, 8);
            lemma_rows_weight_bounds(s, opp_color, 8);
            lemma_legal_moves(s, color);
            lemma_legal_moves(s, opp_color);
            lemma_combined_fits(
                piece_score.num as int,
                piece_score.den as int,
                corner_occupancy_score as int,
                corner_closeness_score.num as int,
                mobility_score.num as int,
                mobility_score.den as int,
                frontier_score.num as int,
                frontier_score.den as int,
                diff_score as int,
            );
        }
        let a = piece_score.den;
        let b = mobility_score.den;
        let c = frontier_score.den;
        let t1 = 20000 * piece_score.num * b * c;
        let t2 = 1603448 * (corner_occupancy_score as i128) * a * b * c;
        let t3 = 382026 * corner_closeness_score.num * a * b * c;
        let t4 = 157844 * mobility_score.num * a * c;
        let t5 = 148792 * frontier_score.num * a * b;
        let t6 = 20000 * (diff_score as i128) * a * b * c;
        Score { num: t1 + t2 + t3 + t4 + t5 + t6, den: 2000 * a * b * c }
    }
}

} // verus!
