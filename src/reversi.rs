//! The board model: cells, legality of a move, applying a move, enumerating moves.
use vstd::prelude::*;

verus! {

/// The state of one cell; `Black` and `White` also name the two players.
#[derive(Clone, Copy, PartialEq, Eq, Debug, Structural)]
pub enum CellState {
    Empty,
    Black,
    White,
}

/// The other player; `Empty` has no opponent and stays `Empty`.
pub open spec fn opp(c: CellState) -> CellState {
    match c {
        CellState::Black => CellState::White,
        CellState::White => CellState::Black,
        CellState::Empty => CellState::Empty,
    }
}

pub open spec fn is_player(c: CellState) -> bool {
    c != CellState::Empty
}

/// The other player.
pub fn opponent(c: CellState) -> (r: CellState)
    ensures
        r == opp(c),
{
    match c {
        CellState::Black => CellState::White,
        CellState::White => CellState::Black,
        CellState::Empty => CellState::Empty,
    }
}

/// The character that shows a cell: ' ', 'B' or 'W'.
pub open spec fn symbol_of(c: CellState) -> char {
    match c {
        CellState::Empty => ' ',
        CellState::Black => 'B',
        CellState::White => 'W',
    }
}

impl CellState {
    /// The character that shows this cell: ' ', 'B' or 'W'.
    pub fn symbol(&self) -> (r: char)
        ensures
            r == symbol_of(*self),
    {
        match self {
            CellState::Empty => ' ',
            CellState::Black => 'B',
            CellState::White => 'W',
        }
    }
}

/// The mathematical value of a board: rows of cells (`cells[y][x]`), the
/// player to move, and the last move applied as `(column, row)`.
pub struct BoardState {
    pub cells: Seq<Seq<CellState>>,
    pub current: CellState,
    pub last: Option<(usize, usize)>,
}

/// An 8x8 Reversi board. `board[y][x]` is the cell at column `x`, row `y`.
#[derive(Clone, Copy, PartialEq, Eq, Debug)]
pub struct ReversiBoard {
    pub board: [[CellState; 8]; 8],
    pub current_player: CellState,
    pub last_move: Option<(usize, usize)>,
}

impl View for ReversiBoard {
    type V = BoardState;

    open spec fn view(&self) -> BoardState {
        BoardState {
            cells: self.board@.map_values(|row: [CellState; 8]| row@),
            current: self.current_player,
            last: self.last_move,
        }
    }
}

pub open spec fn on_board(x: int, y: int) -> bool {
    0 <= x < 8 && 0 <= y < 8
}

/// The cell at column `x`, row `y`; off the board every cell reads as empty.
pub open spec fn at(s: BoardState, x: int, y: int) -> CellState {
    if on_board(x, y) {
        s.cells[y][x]
    } else {
        CellState::Empty
    }
}

/// One of the eight compass directions.
pub open spec fn is_dir(dx: int, dy: int) -> bool {
    -1 <= dx <= 1 && -1 <= dy <= 1 && !(dx == 0 && dy == 0)
}

/// The coordinate `k` steps from `x` in direction `d` (`d` in -1..=1).
pub open spec fn ray(x: int, d: int, k: int) -> int {
    if d == 0 {
        x
    } else if d > 0 {
        x + k
    } else {
        x - k
    }
}

/// Seen from `(x, y)` in direction `(dx, dy)`, the cells 1..k-1 hold the
/// opponent of `color` and cell `k` (with k >= 2) holds `color`.
pub open spec fn closes_at(s: BoardState, x: int, y: int, dx: int, dy: int, color: CellState, k: int) -> bool {
    &&& 2 <= k
    &&& at(s, ray(x, dx, k), ray(y, dy, k)) == color
    &&& forall|j: int| 1 <= j < k ==> #[trigger] at(s, ray(x, dx, j), ray(y, dy, j)) == opp(color)
}

/// A piece of `color` placed at `(x, y)` brackets opponents in direction `(dx, dy)`.
pub open spec fn dir_flanks(s: BoardState, x: int, y: int, dx: int, dy: int, color: CellState) -> bool {
    exists|k: int| closes_at(s, x, y, dx, dy, color, k)
}

/// `color` may play at `(x, y)`: the cell is on the board and empty, and some
/// direction brackets opponents.
pub open spec fn valid_move(s: BoardState, x: int, y: int, color: CellState) -> bool {
    &&& on_board(x, y)
    &&& at(s, x, y) == CellState::Empty
    &&& exists|dx: int, dy: int| is_dir(dx, dy) && #[trigger] dir_flanks(s, x, y, dx, dy, color)
}

pub open spec fn abs(v: int) -> int {
    if v < 0 {
        -v
    } else {
        v
    }
}

pub open spec fn sgn(v: int) -> int {
    if v < 0 {
        -1
    } else if v > 0 {
        1
    } else {
        0
    }
}

/// Placing `color` at `(x, y)` flips the piece at `(cx, cy)`: the cell lies on
/// a straight line from `(x, y)`, strictly before the bracketing piece.
pub open spec fn flipped(s: BoardState, x: int, y: int, color: CellState, cx: int, cy: int) -> bool {
    let ex = cx - x;
    let ey = cy - y;
    &&& on_line(ex, ey)
    &&& dist(ex, ey) >= 1
    &&& exists|k: int| dist(ex, ey) < k && #[trigger] closes_at(s, x, y, sgn(ex), sgn(ey), color, k)
}

/// The offset `(ex, ey)` is along a row, a column or a diagonal.
pub open spec fn on_line(ex: int, ey: int) -> bool {
    ex == 0 || ey == 0 || abs(ex) == abs(ey)
}

/// The number of king steps across the offset `(ex, ey)`.
pub open spec fn dist(ex: int, ey: int) -> int {
    if abs(ex) >= abs(ey) {
        abs(ex)
    } else {
        abs(ey)
    }
}

/// The cell `(cx, cy)` once `color` has been placed at `(x, y)`.
pub open spec fn post_cell(s: BoardState, x: int, y: int, color: CellState, cx: int, cy: int) -> CellState {
    if (cx == x && cy == y) || flipped(s, x, y, color, cx, cy) {
        color
    } else {
        at(s, cx, cy)
    }
}

/// The board after the player to move plays at `(x, y)`.
pub open spec fn apply_move(s: BoardState, x: usize, y: usize) -> BoardState {
    BoardState {
        cells: Seq::new(8, |r: int| Seq::new(8, |c: int| post_cell(s, x as int, y as int, s.current, c, r))),
        current: opp(s.current),
        last: Some((x, y)),
    }
}

/// At most one distance closes a direction.
pub proof fn lemma_closes_unique(s: BoardState, x: int, y: int, dx: int, dy: int, color: CellState, k1: int, k2: int)
    requires
        is_player(color),
        closes_at(s, x, y, dx, dy, color, k1),
        closes_at(s, x, y, dx, dy, color, k2),
    ensures
        k1 == k2,
{
    if k1 < k2 {
        assert(at(s, ray(x, dx, k1), ray(y, dy, k1)) == opp(color));
    } else if k2 < k1 {
        assert(at(s, ray(x, dx, k2), ray(y, dy, k2)) == opp(color));
    }
}

/// The directions handled before `(dx, dy)`, in the order `dx` outer, `dy` inner.
pub open spec fn dir_before(ex: int, ey: int, dx: int, dy: int) -> bool {
    sgn(ex) < dx || (sgn(ex) == dx && sgn(ey) < dy)
}

/// The legal moves of `color` in column `x`, rows `0..n`, in row order.
pub open spec fn column_moves(s: BoardState, color: CellState, x: int, n: int) -> Seq<(usize, usize)>
    decreases n,
{
    if n <= 0 {
        seq![]
    } else {
        column_moves(s, color, x, n - 1) + if valid_move(s, x, n - 1, color) {
            seq![(x as usize, (n - 1) as usize)]
        } else {
            seq![]
        }
    }
}

/// The legal moves of `color` in columns `0..m`, column by column.
pub open spec fn moves_through(s: BoardState, color: CellState, m: int) -> Seq<(usize, usize)>
    decreases m,
{
    if m <= 0 {
        seq![]
    } else {
        moves_through(s, color, m - 1) + column_moves(s, color, m - 1, 8)
    }
}

/// Every legal move of `color`, scanning columns 0..7 and, within each, rows 0..7.
pub open spec fn legal_moves(s: BoardState, color: CellState) -> Seq<(usize, usize)> {
    moves_through(s, color, 8)
}

/// The number of cells holding `c` in row `y`, columns `0..n`.
pub open spec fn row_count(s: BoardState, c: CellState, y: int, n: int) -> int
    decreases n,
{
    if n <= 0 {
        0
    } else {
        row_count(s, c, y, n - 1) + if at(s, n - 1, y) == c { 1int } else { 0 }
    }
}

/// The number of cells holding `c` in rows `0..m`.
pub open spec fn rows_count(s: BoardState, c: CellState, m: int) -> int
    decreases m,
{
    if m <= 0 {
        0
    } else {
        rows_count(s, c, m - 1) + row_count(s, c, m - 1, 8)
    }
}

/// The number of cells of the board holding `c`.
pub open spec fn count(s: BoardState, c: CellState) -> int {
    rows_count(s, c, 8)
}

/// The side with more pieces, or `Empty` on a tie.
pub open spec fn winner(s: BoardState) -> CellState {
    if count(s, CellState::Black) > count(s, CellState::White) {
        CellState::Black
    } else if count(s, CellState::White) > count(s, CellState::Black) {
        CellState::White
    } else {
        CellState::Empty
    }
}

/// The starting position: White at (3,3) and (4,4), Black at (4,3) and (3,4).
pub open spec fn initial_cell(x: int, y: int) -> CellState {
    if (x == 3 && y == 3) || (x == 4 && y == 4) {
        CellState::White
    } else if (x == 4 && y == 3) || (x == 3 && y == 4) {
        CellState::Black
    } else {
        CellState::Empty
    }
}

pub proof fn lemma_row_count_bounds(s: BoardState, c: CellState, y: int, n: int)
    requires
        0 <= n <= 8,
    ensures
        0 <= row_count(s, c, y, n) <= n,
    decreases n,
{
    if n > 0 {
        lemma_row_count_bounds(s, c, y, n - 1);
    }
}

pub proof fn lemma_rows_count_bounds(s: BoardState, c: CellState, m: int)
    requires
        0 <= m <= 8,
    ensures
        0 <= rows_count(s, c, m) <= 8 * m,
    decreases m,
{
    if m > 0 {
        lemma_rows_count_bounds(s, c, m - 1);
        lemma_row_count_bounds(s, c, m - 1, 8);
    }
}

pub proof fn lemma_column_moves(s: BoardState, color: CellState, x: int, n: int)
    requires
        0 <= x < 8,
        0 <= n <= 8,
    ensures
        column_moves(s, color, x, n).len() <= n,
        forall|i: int| 0 <= i < column_moves(s, color, x, n).len() ==> {
            let p = #[trigger] column_moves(s, color, x, n)[i];
            p.0 == x && p.1 < n && valid_move(s, p.0 as int, p.1 as int, color)
        },
        forall|y: int| 0 <= y < n && valid_move(s, x, y, color) ==> column_moves(s, color, x, n).contains((x as usize, y as usize)),
    decreases n,
{
    if n > 0 {
        lemma_column_moves(s, color, x, n - 1);
        let prev = column_moves(s, color, x, n - 1);
        let cur = column_moves(s, color, x, n);
        assert forall|y: int| 0 <= y < n && valid_move(s, x, y, color) implies cur.contains((x as usize, y as usize)) by {
            if y < n - 1 {
                let i = choose|i: int| 0 <= i < prev.len() && prev[i] == (x as usize, y as usize);
                assert(cur[i] == prev[i]);
            } else {
                assert(cur[cur.len() - 1] == (x as usize, y as usize));
            }
        }
    }
}

pub proof fn lemma_moves_through(s: BoardState, color: CellState, m: int)
    requires
        0 <= m <= 8,
    ensures
        moves_through(s, color, m).len() <= 8 * m,
        forall|i: int| 0 <= i < moves_through(s, color, m).len() ==> {
            let p = #[trigger] moves_through(s, color, m)[i];
            p.0 < m && p.1 < 8 && valid_move(s, p.0 as int, p.1 as int, color)
        },
        forall|x: int, y: int| 0 <= x < m && 0 <= y < 8 && valid_move(s, x, y, color) ==> moves_through(s, color, m).contains((x as usize, y as usize)),
    decreases m,
{
    if m > 0 {
        lemma_moves_through(s, color, m - 1);
        lemma_column_moves(s, color, m - 1, 8);
        let prev = moves_through(s, color, m - 1);
        let col = column_moves(s, color, m - 1, 8);
        let cur = moves_through(s, color, m);
        assert forall|i: int| 0 <= i < cur.len() implies {
            let p = #[trigger] cur[i];
            p.0 < m && p.1 < 8 && valid_move(s, p.0 as int, p.1 as int, color)
        } by {
            if i >= prev.len() {
                assert(cur[i] == col[i - prev.len()]);
            }
        }
        assert forall|x: int, y: int| 0 <= x < m && 0 <= y < 8 && valid_move(s, x, y, color) implies cur.contains((x as usize, y as usize)) by {
            if x < m - 1 {
                let i = choose|i: int| 0 <= i < prev.len() && prev[i] == (x as usize, y as usize);
                assert(cur[i] == prev[i]);
            } else {
                let i = choose|i: int| 0 <= i < col.len() && col[i] == (x as usize, y as usize);
                assert(cur[prev.len() + i] == col[i]);
            }
        }
    }
}

/// The moves listed are exactly the legal ones: each listed move is legal,
/// each legal move is listed, and the list is empty exactly when no move is legal.
pub proof fn lemma_legal_moves(s: BoardState, color: CellState)
    ensures
        legal_moves(s, color).len() <= 64,
        forall|i: int| 0 <= i < legal_moves(s, color).len() ==> {
            let p = #[trigger] legal_moves(s, color)[i];
            valid_move(s, p.0 as int, p.1 as int, color)
        },
        forall|x: int, y: int| valid_move(s, x, y, color) ==> legal_moves(s, color).contains((x as usize, y as usize)),
        legal_moves(s, color).len() == 0 <==> !exists|x: int, y: int| valid_move(s, x, y, color),
{
    lemma_moves_through(s, color, 8);
    let l = legal_moves(s, color);
    if l.len() > 0 {
        let p = l[0];
        assert(valid_move(s, p.0 as int, p.1 as int, color));
    }
    if exists|x: int, y: int| valid_move(s, x, y, color) {
        let (x, y) = choose|x: int, y: int| valid_move(s, x, y, color);
        assert(l.contains((x as usize, y as usize)));
    }
}

proof fn lemma_row_total(s: BoardState, y: int, n: int)
    requires
        0 <= n <= 8,
    ensures
        row_count(s, CellState::Black, y, n) + row_count(s, CellState::White, y, n) + row_count(s, CellState::Empty, y, n) == n,
    decreases n,
{
    if n > 0 {
        lemma_row_total(s, y, n - 1);
    }
}

proof fn lemma_rows_total(s: BoardState, m: int)
    requires
        0 <= m <= 8,
    ensures
        rows_count(s, CellState::Black, m) + rows_count(s, CellState::White, m) + rows_count(s, CellState::Empty, m) == 8 * m,
    decreases m,
{
    if m > 0 {
        lemma_rows_total(s, m - 1);
        lemma_row_total(s, m - 1, 8);
    }
}

/// On every board the black, white and empty cells number 64 together.
pub proof fn lemma_cell_counts_total(s: BoardState)
    ensures
        count(s, CellState::Black) + count(s, CellState::White) + count(s, CellState::Empty) == 64,
{
    lemma_rows_total(s, 8);
}

/// The digit for a row number from 1 to 8.
pub open spec fn row_label(n: int) -> char {
    if n == 1 { '1' } else if n == 2 { '2' } else if n == 3 { '3' } else if n == 4 { '4' }
    else if n == 5 { '5' } else if n == 6 { '6' } else if n == 7 { '7' } else { '8' }
}

/// The frame line above and below the grid: `  +----------------+` and a newline.
pub open spec fn frame_line() -> Seq<char> {
    Seq::new(21, |i: int| if i < 2 { ' ' } else if i == 2 || i == 19 { '+' } else if i == 20 { '\n' } else { '-' })
}

/// The cells of row `y` in columns `0..n`, each followed by a space.
pub open spec fn cells_text(s: BoardState, y: int, n: int) -> Seq<char>
    decreases n,
{
    if n <= 0 {
        seq![]
    } else {
        cells_text(s, y, n - 1) + seq![symbol_of(at(s, n - 1, y)), ' ']
    }
}

/// Row `y` as shown: its number, a border, its cells, a border and a newline.
pub open spec fn row_text(s: BoardState, y: int) -> Seq<char> {
    seq![row_label(y + 1), ' ', '|'] + cells_text(s, y, 8) + seq!['|', '\n']
}

/// Rows `0..m` as shown.
pub open spec fn rows_text(s: BoardState, m: int) -> Seq<char>
    decreases m,
{
    if m <= 0 {
        seq![]
    } else {
        rows_text(s, m - 1) + row_text(s, m - 1)
    }
}

/// The whole board as shown: the frame, the eight rows, the frame.
pub open spec fn rendering(s: BoardState) -> Seq<char> {
    frame_line() + rows_text(s, 8) + frame_line()
}

/// Appends the frame line.
fn push_frame(out: &mut Vec<char>)
    ensures
        final(out)@ == old(out)@ + frame_line(),
{
    out.push(' ');
    out.push(' ');
    out.push('+');
    let mut i: usize = 0;
    while i < 16
        invariant
            i <= 16,
            out@ == old(out)@ + frame_line().subrange(0, 3 + i as int),
        decreases 16 - i,
    {
        out.push('-');
        i = i + 1;
        assert(out@ =~= old(out)@ + frame_line().subrange(0, 3 + i as int));
    }
    out.push('+');
    out.push('\n');
    assert(out@ =~= old(out)@ + frame_line());
}

/// The digit for a row number from 1 to 8.
fn row_label_char(n: usize) -> (r: char)
    requires
        1 <= n <= 8,
    ensures
        r == row_label(n as int),
{
    if n == 1 { '1' } else if n == 2 { '2' } else if n == 3 { '3' } else if n == 4 { '4' }
    else if n == 5 { '5' } else if n == 6 { '6' } else if n == 7 { '7' } else { '8' }
}

impl ReversiBoard {
    /// The player to move is Black or White.
    pub open spec fn wf(&self) -> bool {
        is_player(self.current_player)
    }

    /// The cell at `(x, y)` given as signed coordinates; off the board it is empty.
    fn cell_at(&self, x: i64, y: i64) -> (r: CellState)
        ensures
            r == at(self@, x as int, y as int),
    {
        if 0 <= x && x < 8 && 0 <= y && y < 8 {
            self.board[y as usize][x as usize]
        } else {
            CellState::Empty
        }
    }

    /// How far from `(x, y)` in direction `(dx, dy)` the bracketing piece of
    /// `color` stands, if there is one.
    fn closing_distance(&self, x: usize, y: usize, dx: i8, dy: i8, color: CellState) -> (r: Option<i64>)
        requires
            x < 8,
            y < 8,
            is_dir(dx as int, dy as int),
            is_player(color),
        ensures
            r matches Some(k) ==> closes_at(self@, x as int, y as int, dx as int, dy as int, color, k as int)
                && k <= 7,
            r is None ==> !dir_flanks(self@, x as int, y as int, dx as int, dy as int, color),
    {
        let ghost s = self@;
        let opp_color = opponent(color);
        let mut cx: i64 = x as i64 + dx as i64;
        let mut cy: i64 = y as i64 + dy as i64;
        let first = self.cell_at(cx, cy);
        if first != opp_color {
            proof {
                assert forall|k: int| !closes_at(s, x as int, y as int, dx as int, dy as int, color, k) by {
                    if closes_at(s, x as int, y as int, dx as int, dy as int, color, k) {
                        assert(at(s, ray(x as int, dx as int, 1), ray(y as int, dy as int, 1)) == opp(color));
                    }
                }
            }
            return None;
        }
        let mut i: i64 = 1;
        while i < 8
            invariant
                1 <= i <= 8,
                x < 8,
                y < 8,
                is_dir(dx as int, dy as int),
                is_player(color),
                opp_color == opp(color),
                s == self@,
                cx == ray(x as int, dx as int, i as int),
                cy == ray(y as int, dy as int, i as int),
                forall|j: int| 1 <= j <= i ==> #[trigger] at(s, ray(x as int, dx as int, j), ray(y as int, dy as int, j)) == opp(color),
            decreases 8 - i,
        {
            cx = cx + dx as i64;
            cy = cy + dy as i64;
            i = i + 1;
            let c = self.cell_at(cx, cy);
            if c == color {
                return Some(i);
            }
            if c != opp_color {
                proof {
                    assert forall|k: int| !closes_at(s, x as int, y as int, dx as int, dy as int, color, k) by {
                        if closes_at(s, x as int, y as int, dx as int, dy as int, color, k) {
                            if k > i {
                                assert(at(s, ray(x as int, dx as int, i as int), ray(y as int, dy as int, i as int)) == opp(color));
                            }
                        }
                    }
                }
                return None;
            }
        }
        proof {
            let j: int = 8;
            assert(at(s, ray(x as int, dx as int, j), ray(y as int, dy as int, j)) == opp(color));
        }
        None
    }

    /// Whether `color` may play at column `x`, row `y`.
    pub fn check_if_move_valid(&self, x: usize, y: usize, color: CellState) -> (r: bool)
        requires
            is_player(color),
        ensures
            r == valid_move(self@, x as int, y as int, color),
    {
        if x > 7 || y > 7 {
            return false;
        }
        if self.cell_at(x as i64, y as i64) != CellState::Empty {
            return false;
        }
        let mut dx: i8 = -1;
        while dx <= 1
            invariant
                -1 <= dx <= 2,
                x < 8,
                y < 8,
                is_player(color),
                at(self@, x as int, y as int) == CellState::Empty,
                forall|ex: int, ey: int| is_dir(ex, ey) && ex < dx ==> !#[trigger] dir_flanks(self@, x as int, y as int, ex, ey, color),
            decreases 2 - dx,
        {
            let mut dy: i8 = -1;
            while dy <= 1
                invariant
                    -1 <= dx <= 1,
                    -1 <= dy <= 2,
                    x < 8,
                    y < 8,
                    is_player(color),
                    at(self@, x as int, y as int) == CellState::Empty,
                    forall|ex: int, ey: int| is_dir(ex, ey) && (ex < dx || (ex == dx && ey < dy)) ==> !#[trigger] dir_flanks(self@, x as int, y as int, ex, ey, color),
                decreases 2 - dy,
            {
                if dx != 0 || dy != 0 {
                    if let Some(k) = self.closing_distance(x, y, dx, dy, color) {
                        assert(dir_flanks(self@, x as int, y as int, dx as int, dy as int, color));
                        return true;
                    }
                }
                dy = dy + 1;
            }
            dx = dx + 1;
        }
        false
    }

    /// Writes `c` into the cell at `(x, y)`.
    fn set_cell(&mut self, x: usize, y: usize, c: CellState)
        requires
            x < 8,
            y < 8,
        ensures
            forall|cx: int, cy: int| #[trigger] at(final(self)@, cx, cy) == if cx == x && cy == y { c } else { at(old(self)@, cx, cy) },
            final(self).current_player == old(self).current_player,
            final(self).last_move == old(self).last_move,
    {
        let mut row = self.board[y];
        row[x] = c;
        self.board[y] = row;
    }

    /// Flips the run of `k - 1` pieces next to `(x, y)` in direction `(dx, dy)`.
    fn flip_run(&mut self, x: usize, y: usize, dx: i8, dy: i8, k: i64, color: CellState, Ghost(s): Ghost<BoardState>)
        requires
            x < 8,
            y < 8,
            is_dir(dx as int, dy as int),
            is_player(color),
            2 <= k <= 7,
            closes_at(s, x as int, y as int, dx as int, dy as int, color, k as int),
            forall|cx: int, cy: int| #[trigger] at(old(self)@, cx, cy) == if (cx == x && cy == y) || (flipped(s, x as int, y as int, color, cx, cy) && dir_before(cx - x, cy - y, dx as int, dy as int)) { color } else { at(s, cx, cy) },
        ensures
            forall|cx: int, cy: int| #[trigger] at(final(self)@, cx, cy) == if (cx == x && cy == y) || (flipped(s, x as int, y as int, color, cx, cy) && dir_before(cx - x, cy - y, dx as int, dy as int + 1)) { color } else { at(s, cx, cy) },
            final(self).current_player == old(self).current_player,
            final(self).last_move == old(self).last_move,
    {
        let mut j: i64 = 1;
        let mut cx: i64 = x as i64 + dx as i64;
        let mut cy: i64 = y as i64 + dy as i64;
        while j < k
            invariant
                1 <= j <= k,
                k <= 7,
                x < 8,
                y < 8,
                is_dir(dx as int, dy as int),
                is_player(color),
                closes_at(s, x as int, y as int, dx as int, dy as int, color, k as int),
                cx == ray(x as int, dx as int, j as int),
                cy == ray(y as int, dy as int, j as int),
                self.current_player == old(self).current_player,
                self.last_move == old(self).last_move,
                forall|px: int, py: int| #[trigger] at(self@, px, py) == if (px == x && py == y)
                    || (flipped(s, x as int, y as int, color, px, py) && dir_before(px - x, py - y, dx as int, dy as int))
                    || (sgn(px - x) == dx && sgn(py - y) == dy && on_line(px - x, py - y) && dist(px - x, py - y) < j) { color } else { at(s, px, py) },
            decreases k - j,
        {
            assert(at(s, ray(x as int, dx as int, j as int), ray(y as int, dy as int, j as int)) == opp(color));
            self.set_cell(cx as usize, cy as usize, color);
            j = j + 1;
            cx = cx + dx as i64;
            cy = cy + dy as i64;
        }
        proof {
            assert forall|px: int, py: int| sgn(px - x) == dx && sgn(py - y) == dy implies
                (flipped(s, x as int, y as int, color, px, py) <==> (on_line(px - x, py - y) && dist(px - x, py - y) < k)) by {
                if flipped(s, x as int, y as int, color, px, py) {
                    let k2 = choose|k2: int| dist(px - x, py - y) < k2 && closes_at(s, x as int, y as int, dx as int, dy as int, color, k2);
                    lemma_closes_unique(s, x as int, y as int, dx as int, dy as int, color, k as int, k2);
                }
                if on_line(px - x, py - y) && dist(px - x, py - y) < k {
                    assert(closes_at(s, x as int, y as int, sgn(px - x), sgn(py - y), color, k as int));
                }
            }
        }
    }

    /// Plays the player to move at column `x`, row `y`. On a legal move, places
    /// the piece, flips every bracketed run, passes the turn and records the
    /// move, and returns `true`; otherwise changes nothing and returns `false`.
    pub fn make_move(&mut self, x: usize, y: usize) -> (r: bool)
        requires
            old(self).wf(),
        ensures
            r == valid_move(old(self)@, x as int, y as int, old(self).current_player),
            r ==> final(self)@ == apply_move(old(self)@, x, y),
            !r ==> *final(self) == *old(self),
            r ==> final(self).current_player != old(self).current_player,
            r ==> final(self).last_move == Some((x, y)),
            final(self).wf(),
    {
        let color = self.current_player;
        if !self.check_if_move_valid(x, y, color) {
            return false;
        }
        let orig = *self;
        let ghost s = orig@;
        self.set_cell(x, y, color);
        let mut dx: i8 = -1;
        while dx <= 1
            invariant
                -1 <= dx <= 2,
                x < 8,
                y < 8,
                is_player(color),
                s == orig@,
                self.current_player == orig.current_player,
                self.last_move == orig.last_move,
                forall|cx: int, cy: int| #[trigger] at(self@, cx, cy) == if (cx == x && cy == y) || (flipped(s, x as int, y as int, color, cx, cy) && dir_before(cx - x, cy - y, dx as int, -1)) { color } else { at(s, cx, cy) },
            decreases 2 - dx,
        {
            let mut dy: i8 = -1;
            while dy <= 1
                invariant
                    -1 <= dx <= 1,
                    -1 <= dy <= 2,
                    x < 8,
                    y < 8,
                    is_player(color),
                    s == orig@,
                    self.current_player == orig.current_player,
                    self.last_move == orig.last_move,
                    forall|cx: int, cy: int| #[trigger] at(self@, cx, cy) == if (cx == x && cy == y) || (flipped(s, x as int, y as int, color, cx, cy) && dir_before(cx - x, cy - y, dx as int, dy as int)) { color } else { at(s, cx, cy) },
                decreases 2 - dy,
            {
                if dx != 0 || dy != 0 {
                    if let Some(k) = orig.closing_distance(x, y, dx, dy, color) {
                        self.flip_run(x, y, dx, dy, k, color, Ghost(s));
                    } else {
                        proof {
                            assert forall|cx: int, cy: int| sgn(cx - x) == dx && sgn(cy - y) == dy implies !flipped(s, x as int, y as int, color, cx, cy) by {
                                if flipped(s, x as int, y as int, color, cx, cy) {
                                    let k2 = choose|k2: int| closes_at(s, x as int, y as int, dx as int, dy as int, color, k2);
                                }
                            }
                        }
                    }
                }
                dy = dy + 1;
            }
            dx = dx + 1;
        }
        let ghost mid = self@;
        self.current_player = opponent(color);
        self.last_move = Some((x, y));
        proof {
            assert(mid.cells == self@.cells);
            let t = apply_move(s, x, y);
            assert forall|r: int| 0 <= r < 8 implies self@.cells[r] =~= t.cells[r] by {
                assert forall|c: int| 0 <= c < 8 implies self@.cells[r][c] == t.cells[r][c] by {
                    assert(at(mid, c, r) == post_cell(s, x as int, y as int, color, c, r));
                }
            }
            assert(self@.cells =~= t.cells);
        }
        true
    }

    /// The starting position, Black to move, no move made yet.
    pub fn new() -> (r: ReversiBoard)
        ensures
            forall|x: int, y: int| on_board(x, y) ==> #[trigger] at(r@, x, y) == initial_cell(x, y),
            r.current_player == CellState::Black,
            r.last_move is None,
            r.wf(),
    {
        let row: [CellState; 8] = [CellState::Empty; 8];
        let mut r = ReversiBoard {
            board: [row; 8],
            current_player: CellState::Black,
            last_move: None,
        };
        proof {
            assert forall|x: int, y: int| on_board(x, y) implies #[trigger] at(r@, x, y) == CellState::Empty by {
                assert(r.board@[y] == row);
                assert(row@[x] == CellState::Empty);
            }
        }
        r.set_cell(3, 3, CellState::White);
        r.set_cell(4, 3, CellState::Black);
        r.set_cell(3, 4, CellState::Black);
        r.set_cell(4, 4, CellState::White);
        r
    }

    /// The cell at column `x`, row `y`.
    pub fn get_cell(&self, x: usize, y: usize) -> (r: CellState)
        requires
            x < 8,
            y < 8,
        ensures
            r == at(self@, x as int, y as int),
    {
        self.board[y][x]
    }

    /// The legal moves of `color` as `(column, row)`, columns in order and,
    /// within a column, rows in order.
    pub fn get_possible_moves(&self, color: CellState) -> (r: Vec<(usize, usize)>)
        requires
            is_player(color),
        ensures
            r@ == legal_moves(self@, color),
    {
        let mut moves: Vec<(usize, usize)> = Vec::new();
        let mut x: usize = 0;
        while x < 8
            invariant
                x <= 8,
                is_player(color),
                moves@ == moves_through(self@, color, x as int),
            decreases 8 - x,
        {
            let mut y: usize = 0;
            while y < 8
                invariant
                    x < 8,
                    y <= 8,
                    is_player(color),
                    moves@ == moves_through(self@, color, x as int) + column_moves(self@, color, x as int, y as int),
                decreases 8 - y,
            {
                if self.check_if_move_valid(x, y, color) {
                    moves.push((x, y));
                }
                proof {
                    assert(moves_through(self@, color, x as int) + column_moves(self@, color, x as int, y + 1)
                        =~= moves@);
                }
                y = y + 1;
            }
            proof {
                assert(moves_through(self@, color, x + 1) =~= moves_through(self@, color, x as int) + column_moves(self@, color, x as int, 8));
            }
            x = x + 1;
        }
        moves
    }

    /// The number of cells holding `color` (`Empty` counts the empty cells).
    pub fn get_piece_count(&self, color: CellState) -> (r: usize)
        ensures
            r == count(self@, color),
    {
        let mut total: usize = 0;
        let mut y: usize = 0;
        while y < 8
            invariant
                y <= 8,
                total == rows_count(self@, color, y as int),
            decreases 8 - y,
        {
            proof {
                lemma_rows_count_bounds(self@, color, y as int);
            }
            let mut x: usize = 0;
            while x < 8
                invariant
                    y < 8,
                    x <= 8,
                    total == rows_count(self@, color, y as int) + row_count(self@, color, y as int, x as int),
                    rows_count(self@, color, y as int) <= 8 * y,
                decreases 8 - x,
            {
                proof {
                    lemma_row_count_bounds(self@, color, y as int, x as int);
                }
                if self.board[y][x] == color {
                    total = total + 1;
                }
                x = x + 1;
            }
            y = y + 1;
        }
        total
    }

    /// Whether `color` has no legal move.
    pub fn is_board_terminal(&self, color: CellState) -> (r: bool)
        requires
            is_player(color),
        ensures
            r == (legal_moves(self@, color).len() == 0),
    {
        self.get_possible_moves(color).len() == 0
    }

    /// One board per legal move of the player to move, in move order, each a
    /// copy of this board with that move played.
    pub fn get_children_nodes(&self) -> (r: Vec<ReversiBoard>)
        requires
            self.wf(),
        ensures
            r@.len() == legal_moves(self@, self.current_player).len(),
            forall|i: int| 0 <= i < r@.len() ==> {
                let m = legal_moves(self@, self.current_player)[i];
                &&& #[trigger] r@[i]@ == apply_move(self@, m.0, m.1)
                &&& r@[i].wf()
            },
    {
        let moves = self.get_possible_moves(self.current_player);
        let mut children: Vec<ReversiBoard> = Vec::new();
        let mut i: usize = 0;
        proof {
            lemma_legal_moves(self@, self.current_player);
        }
        while i < moves.len()
            invariant
                self.wf(),
                i <= moves@.len(),
                moves@ == legal_moves(self@, self.current_player),
                children@.len() == i,
                forall|k: int| 0 <= k < moves@.len() ==> {
                    let p = #[trigger] moves@[k];
                    valid_move(self@, p.0 as int, p.1 as int, self.current_player)
                },
                forall|j: int| 0 <= j < i ==> {
                    let m = moves@[j];
                    &&& #[trigger] children@[j]@ == apply_move(self@, m.0, m.1)
                    &&& children@[j].wf()
                },
            decreases moves@.len() - i,
        {
            let (mx, my) = moves[i];
            let mut child = *self;
            let ok = child.make_move(mx, my);
            assert(ok) by {
                let p = moves@[i as int];
            }
            children.push(child);
            i = i + 1;
        }
        children
    }

    /// The side with more pieces, or `Empty` on a tie.
    pub fn get_winner(&self) -> (r: CellState)
        ensures
            r == winner(self@),
    {
        let black_count = self.get_piece_count(CellState::Black);
        let white_count = self.get_piece_count(CellState::White);
        if black_count > white_count {
            CellState::Black
        } else if white_count > black_count {
            CellState::White
        } else {
            CellState::Empty
        }
    }

    /// The board as text: a framed grid, one numbered line per row, each cell
    /// shown by its symbol and a space.
    pub fn render(&self) -> (r: Vec<char>)
        ensures
            r@ == rendering(self@),
    {
        let mut out: Vec<char> = Vec::new();
        push_frame(&mut out);
        let mut y: usize = 0;
        while y < 8
            invariant
                y <= 8,
                out@ == frame_line() + rows_text(self@, y as int),
            decreases 8 - y,
        {
            out.push(row_label_char(y + 1));
            out.push(' ');
            out.push('|');
            let mut x: usize = 0;
            while x < 8
                invariant
                    y < 8,
                    x <= 8,
                    out@ == frame_line() + rows_text(self@, y as int) + seq![row_label(y + 1), ' ', '|'] + cells_text(self@, y as int, x as int),
                decreases 8 - x,
            {
                out.push(self.board[y][x].symbol());
                out.push(' ');
                assert(self.board[y as int][x as int] == at(self@, x as int, y as int));
                assert(out@ =~= frame_line() + rows_text(self@, y as int) + seq![row_label(y + 1), ' ', '|'] + cells_text(self@, y as int, x + 1));
                x = x + 1;
            }
            out.push('|');
            out.push('\n');
            assert(out@ =~= frame_line() + rows_text(self@, y + 1));
            y = y + 1;
        }
        push_frame(&mut out);
        out
    }
}

} // verus!
