use reversi::score::{get_max_util, get_min_util};
use reversi::{alpha_beta, get_best_move, CellState, ReversiBoard, Score};

fn less(a: &Score, b: &Score) -> bool {
    a.num * b.den < b.num * a.den
}

#[test]
fn initial_evaluation_is_zero() {
    let b = ReversiBoard::new();
    assert_eq!(b.get_board_eval(CellState::Black), Score { num: 0, den: 256000 });
    assert_eq!(b.get_board_eval(CellState::White), Score { num: 0, den: 256000 });
}

#[test]
fn evaluation_after_first_move() {
    let mut b = ReversiBoard::new();
    assert!(b.make_move(2, 3));
    let w = b.get_board_eval(CellState::White);
    assert_eq!(w, Score { num: 1617504000, den: 300000 });
    let k = b.get_board_eval(CellState::Black);
    assert_eq!(k, Score { num: -1617504000, den: 300000 });
}

#[test]
fn evaluation_of_stuck_side() {
    let mut b = ReversiBoard::new();
    for i in 0..8 {
        for j in 0..8 {
            b.board[i][j] = CellState::Black;
        }
    }
    b.board[0][0] = CellState::Empty;
    b.board[7][6] = CellState::White;
    assert_eq!(b.get_board_eval(CellState::White), Score { num: -10_000_000_000_000, den: 1 });
    assert_eq!(b.get_board_eval(CellState::Black), Score { num: 10_000_000_000_000, den: 1 });
    for i in 0..8 {
        for j in 0..8 {
            b.board[i][j] = if (i + j) % 2 == 0 { CellState::Black } else { CellState::White };
        }
    }
    assert_eq!(b.get_board_eval(CellState::White), Score { num: 0, den: 1 });
}

#[test]
fn evaluation_is_zero_sum() {
    let mut b = ReversiBoard::new();
    for _ in 0..8 {
        let k = b.get_board_eval(CellState::Black);
        let w = b.get_board_eval(CellState::White);
        assert_eq!(k.num, -w.num);
        assert_eq!(k.den, w.den);
        let moves = b.get_possible_moves(b.current_player);
        if moves.is_empty() {
            break;
        }
        let (x, y) = moves[0];
        assert!(b.make_move(x, y));
    }
}

#[test]
fn depth_zero_search_is_evaluation() {
    let mut b = ReversiBoard::new();
    assert!(b.make_move(2, 3));
    let v = alpha_beta(b, 0, Score::neg_infinity(), Score::pos_infinity(), true);
    assert_eq!(v, b.get_board_eval(CellState::White));
}

#[test]
fn search_values_by_depth() {
    let b = ReversiBoard::new();
    let max1 = alpha_beta(b, 1, Score::neg_infinity(), Score::pos_infinity(), true);
    let min1 = alpha_beta(b, 1, Score::neg_infinity(), Score::pos_infinity(), false);
    // The four opening replies are symmetric, so the maximum and minimum agree.
    assert_eq!(max1, min1);
    let mut c = b;
    assert!(c.make_move(2, 3));
    assert_eq!(max1, c.get_board_eval(CellState::White));
}

#[test]
fn opening_best_move_is_first_of_equals() {
    let b = ReversiBoard::new();
    assert_eq!(get_best_move(b, 1), (2, 3));
    assert_eq!(get_best_move(b, 2), (2, 3));
}

#[test]
fn best_move_is_deterministic() {
    let mut b = ReversiBoard::new();
    assert!(b.make_move(2, 3));
    assert!(b.make_move(2, 2));
    let first = get_best_move(b, 3);
    let second = get_best_move(b, 3);
    assert_eq!(first, second);
    assert!(b.get_possible_moves(b.current_player).contains(&first));
}

#[test]
fn depth_one_picks_best_child_evaluation() {
    let mut b = ReversiBoard::new();
    assert!(b.make_move(2, 3));
    assert!(b.make_move(2, 2));
    assert!(b.make_move(3, 2));
    let children = b.get_children_nodes();
    let mut best = children[0].get_board_eval(children[0].current_player);
    let mut best_move = children[0].last_move.unwrap();
    for child in children.iter().skip(1) {
        let v = child.get_board_eval(child.current_player);
        if less(&best, &v) {
            best = v;
            best_move = child.last_move.unwrap();
        }
    }
    assert_eq!(get_best_move(b, 1), best_move);
}

#[test]
fn score_utilities_keep_ties_on_second() {
    let a = Score { num: 1, den: 2 };
    let b = Score { num: 2, den: 4 };
    assert_eq!(get_max_util(a, b), b);
    assert_eq!(get_min_util(a, b), b);
    let c = Score { num: 3, den: 4 };
    assert_eq!(get_max_util(a, c), c);
    assert_eq!(get_min_util(a, c), a);
    assert!(a.less_than(&c));
    assert!(!c.less_than(&a));
    assert!(!a.less_than(&b));
}
