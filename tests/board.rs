use reversi::{CellState, ReversiBoard};

fn counts(b: &ReversiBoard) -> (usize, usize, usize) {
    (
        b.get_piece_count(CellState::Black),
        b.get_piece_count(CellState::White),
        b.get_piece_count(CellState::Empty),
    )
}

fn same_board(a: &ReversiBoard, b: &ReversiBoard) -> bool {
    a.board == b.board && a.current_player == b.current_player && a.last_move == b.last_move
}

#[test]
fn new_board_layout() {
    let b = ReversiBoard::new();
    assert_eq!(b.get_cell(3, 3), CellState::White);
    assert_eq!(b.get_cell(4, 4), CellState::White);
    assert_eq!(b.get_cell(4, 3), CellState::Black);
    assert_eq!(b.get_cell(3, 4), CellState::Black);
    assert_eq!(b.get_cell(0, 0), CellState::Empty);
    assert_eq!(counts(&b), (2, 2, 60));
    assert_eq!(b.current_player, CellState::Black);
    assert_eq!(b.last_move, None);
}

#[test]
fn initial_legal_moves_in_scan_order() {
    let b = ReversiBoard::new();
    assert_eq!(b.get_possible_moves(CellState::Black), vec![(2, 3), (3, 2), (4, 5), (5, 4)]);
    assert_eq!(b.get_possible_moves(CellState::White), vec![(2, 4), (3, 5), (4, 2), (5, 3)]);
}

#[test]
fn black_first_move_flips_one_piece() {
    let mut b = ReversiBoard::new();
    assert!(b.make_move(2, 3));
    assert_eq!(b.get_cell(2, 3), CellState::Black);
    assert_eq!(b.get_cell(3, 3), CellState::Black);
    assert_eq!(b.get_cell(4, 4), CellState::White);
    assert_eq!(counts(&b), (4, 1, 59));
    assert_eq!(b.current_player, CellState::White);
    assert_eq!(b.last_move, Some((2, 3)));
}

#[test]
fn move_flips_in_several_directions() {
    let mut b = ReversiBoard::new();
    for i in 0..8 {
        for j in 0..8 {
            b.board[i][j] = CellState::Empty;
        }
    }
    b.board[0][0] = CellState::Black;
    b.board[0][1] = CellState::White;
    b.board[1][1] = CellState::White;
    b.board[2][2] = CellState::Black;
    b.board[1][0] = CellState::White;
    b.board[2][0] = CellState::Black;
    b.board[0][3] = CellState::White;
    b.board[0][4] = CellState::Black;
    b.board[0][5] = CellState::White;
    b.current_player = CellState::Black;
    // Black at column 2, row 0 brackets (1,0) to the left, (3,0) to the right
    // and (1,1) down-left; (0,1) is on no line through (2,0) and stays.
    assert!(b.check_if_move_valid(2, 0, CellState::Black));
    assert!(b.make_move(2, 0));
    assert_eq!(b.get_cell(1, 0), CellState::Black);
    assert_eq!(b.get_cell(3, 0), CellState::Black);
    assert_eq!(b.get_cell(5, 0), CellState::White);
    assert_eq!(b.get_cell(1, 1), CellState::Black);
    assert_eq!(b.get_cell(0, 1), CellState::White);
    assert_eq!(counts(&b), (8, 2, 54));
}

#[test]
fn illegal_moves_change_nothing() {
    let b = ReversiBoard::new();
    for &(x, y) in &[(0, 0), (3, 3), (8, 0), (0, 8), (100, 100), (2, 2), (5, 5)] {
        let mut c = b;
        assert!(!c.make_move(x, y));
        assert!(same_board(&b, &c));
    }
}

#[test]
fn move_validity_per_color() {
    let b = ReversiBoard::new();
    assert!(b.check_if_move_valid(2, 3, CellState::Black));
    assert!(!b.check_if_move_valid(2, 3, CellState::White));
    assert!(b.check_if_move_valid(2, 4, CellState::White));
    assert!(!b.check_if_move_valid(3, 3, CellState::Black));
    assert!(!b.check_if_move_valid(9, 3, CellState::Black));
}

#[test]
fn cell_counts_always_total_64() {
    let mut b = ReversiBoard::new();
    for _ in 0..10 {
        let moves = b.get_possible_moves(b.current_player);
        if moves.is_empty() {
            break;
        }
        let (x, y) = moves[moves.len() / 2];
        assert!(b.make_move(x, y));
        let (k, w, e) = counts(&b);
        assert_eq!(k + w + e, 64);
    }
}

#[test]
fn every_listed_move_succeeds() {
    let mut b = ReversiBoard::new();
    assert!(b.make_move(2, 3));
    assert!(b.make_move(2, 2));
    let before = b;
    let player = b.current_player;
    let moves = b.get_possible_moves(player);
    assert!(!moves.is_empty());
    assert_eq!(b.is_board_terminal(player), moves.is_empty());
    for &(x, y) in &moves {
        let mut c = b;
        assert!(c.make_move(x, y));
        assert_ne!(c.current_player, player);
        assert_eq!(c.last_move, Some((x, y)));
    }
    for x in 0..8 {
        for y in 0..8 {
            if !moves.contains(&(x, y)) {
                let mut c = b;
                assert!(!c.make_move(x, y));
            }
        }
    }
    assert!(same_board(&before, &b));
}

#[test]
fn stuck_side_is_terminal() {
    let mut b = ReversiBoard::new();
    for i in 0..8 {
        for j in 0..8 {
            b.board[i][j] = CellState::Black;
        }
    }
    b.board[0][0] = CellState::Empty;
    b.current_player = CellState::White;
    assert!(b.is_board_terminal(CellState::White));
    assert!(b.get_possible_moves(CellState::White).is_empty());
    assert!(b.is_board_terminal(CellState::Black));
    assert_eq!(b.get_winner(), CellState::Black);
    let mut c = b;
    assert!(!c.make_move(0, 0));
}

#[test]
fn winner_by_piece_count() {
    let mut b = ReversiBoard::new();
    assert_eq!(b.get_winner(), CellState::Empty);
    assert!(b.make_move(2, 3));
    assert_eq!(b.get_winner(), CellState::Black);
    b.board[3][2] = CellState::White;
    b.board[3][3] = CellState::White;
    b.board[3][4] = CellState::White;
    assert_eq!(b.get_winner(), CellState::White);
}

#[test]
fn children_follow_move_order() {
    let b = ReversiBoard::new();
    let children = b.get_children_nodes();
    let moves = b.get_possible_moves(CellState::Black);
    assert_eq!(children.len(), moves.len());
    for (child, &(x, y)) in children.iter().zip(moves.iter()) {
        let mut expected = b;
        assert!(expected.make_move(x, y));
        assert!(same_board(child, &expected));
        assert_eq!(child.current_player, CellState::White);
    }
    assert_eq!(counts(&b), (2, 2, 60));
}

#[test]
fn cell_symbols() {
    assert_eq!(CellState::Empty.symbol(), ' ');
    assert_eq!(CellState::Black.symbol(), 'B');
    assert_eq!(CellState::White.symbol(), 'W');
}

#[test]
fn render_initial_board() {
    let b = ReversiBoard::new();
    let text: String = b.render().into_iter().collect();
    let expected = "  +----------------+\n\
                    1 |                |\n\
                    2 |                |\n\
                    3 |                |\n\
                    4 |      W B       |\n\
                    5 |      B W       |\n\
                    6 |                |\n\
                    7 |                |\n\
                    8 |                |\n\
                    \x20 +----------------+\n";
    assert_eq!(text, expected);
}
