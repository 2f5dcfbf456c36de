use vstd::prelude::*;

verus! {

/// One of the two sides.
#[derive(Clone, Copy, Debug, PartialEq, Eq, Structural)]
pub enum Player {
    Black,
    White,
}

/// What a cell of the 9 by 9 grid holds. The cells marked `OutOfBounds` carve
/// the hexagonal playing surface out of the square grid.
#[derive(Clone, Copy, Debug, PartialEq, Eq, Structural)]
pub enum Space {
    Occupied(Player),
    Empty,
    OutOfBounds,
}

/// A move of the side to act.
///
/// `Inline` pushes the line that begins at `start` one step along `dir`.
/// `Broadside` side-steps the two or three pieces between `start` and `stop`
/// (with `mid` between them when there are three) one step along `dir`.
#[derive(Clone, Copy, Debug)]
pub enum Move {
    Broadside {
        start: (usize, usize),
        mid: Option<(usize, usize)>,
        stop: (usize, usize),
        dir: (i8, i8),
    },
    Inline { start: (usize, usize), dir: (i8, i8) },
}

/// A position of the game.
#[derive(Clone, Copy, Debug)]
pub struct Game {
    pub board: [[Space; 9]; 9],
    pub player: Player,
    pub winner: Option<Player>,
    pub game_over: bool,
    pub move_number: i16,
    pub white_pieces: i16,
    pub black_pieces: i16,
}

/// The mathematical model of a `Game`: the cells as a map from grid
/// coordinates, the counters as unbounded integers.
#[verifier::ext_equal]
pub struct Position {
    pub cells: Map<(int, int), Space>,
    pub player: Player,
    pub winner: Option<Player>,
    pub game_over: bool,
    pub move_number: int,
    pub white_pieces: int,
    pub black_pieces: int,
}

/// Number of pieces a side starts with.
pub const START_PIECES: i16 = 14;

/// A side that is down to this many pieces has lost.
pub const LOSING_PIECES: i16 = 8;

/// Once the move counter exceeds this, the game ends without a winner.
pub const MOVE_CAP: i16 = 1000;

/// Whether `(x, y)` lies on the 9 by 9 grid.
pub open spec fn on_grid(x: int, y: int) -> bool {
    0 <= x < 9 && 0 <= y < 9
}

/// Whether the grid cell `(x, y)` lies outside the hexagonal playing surface.
pub open spec fn off_hexagon(x: int, y: int) -> bool {
    (y < 4 && x > 4 + y) || (y > 4 && x < y - 4)
}

/// The six directions of the board, by index.
pub open spec fn dir_vec(d: int) -> (int, int) {
    if d == 0 {
        (1, 0)
    } else if d == 1 {
        (1, 1)
    } else if d == 2 {
        (0, 1)
    } else if d == 3 {
        (0, -1)
    } else if d == 4 {
        (-1, -1)
    } else {
        (-1, 0)
    }
}

/// The index of the direction `(dx, dy)`, or -1 where it is none of the six.
pub open spec fn dir_index(dx: int, dy: int) -> int {
    if dx == 1 && dy == 0 {
        0
    } else if dx == 1 && dy == 1 {
        1
    } else if dx == 0 && dy == 1 {
        2
    } else if dx == 0 && dy == -1 {
        3
    } else if dx == -1 && dy == -1 {
        4
    } else if dx == -1 && dy == 0 {
        5
    } else {
        -1
    }
}

/// The direction with index `d`.
pub fn direction(d: usize) -> (v: (i8, i8))
    requires
        d < 6,
    ensures
        v.0 == dir_vec(d as int).0,
        v.1 == dir_vec(d as int).1,
{
    if d == 0 {
        (1, 0)
    } else if d == 1 {
        (1, 1)
    } else if d == 2 {
        (0, 1)
    } else if d == 3 {
        (0, -1)
    } else if d == 4 {
        (-1, -1)
    } else {
        (-1, 0)
    }
}

/// Whether `(x, y)` lies on the 9 by 9 grid.
pub fn in_bounds(x: i8, y: i8) -> (r: bool)
    ensures
        r == on_grid(x as int, y as int),
{
    x >= 0 && x <= 8 && y >= 0 && y <= 8
}

/// A side that is down to eight pieces has lost: unless the move cap was
/// passed, the game is over and the other side has won. For White this
/// holds where Black is not down to eight pieces too.
pub proof fn lemma_eight_pieces_lose(p: Position)
    requires
        p.status_ok(),
        p.move_number <= MOVE_CAP,
    ensures
        p.black_pieces == LOSING_PIECES ==> p.game_over && p.winner == Some(Player::White),
        p.white_pieces == LOSING_PIECES && p.black_pieces != LOSING_PIECES ==> p.game_over
            && p.winner == Some(Player::Black),
{
}

/// Past the move cap the game is over and nobody has won.
pub proof fn lemma_move_cap_ends(p: Position)
    requires
        p.status_ok(),
        p.move_number > MOVE_CAP,
    ensures
        p.game_over,
        p.winner is None,
{
}

impl Player {
    /// The other side.
    pub open spec fn other(self) -> Player {
        match self {
            Player::Black => Player::White,
            Player::White => Player::Black,
        }
    }

    /// The other side.
    pub fn opponent(self) -> (r: Player)
        ensures
            r == self.other(),
    {
        match self {
            Player::Black => Player::White,
            Player::White => Player::Black,
        }
    }
}

impl View for Game {
    type V = Position;

    open spec fn view(&self) -> Position {
        Position {
            cells: Map::new(
                |c: (int, int)| on_grid(c.0, c.1),
                |c: (int, int)| self.board[c.0][c.1],
            ),
            player: self.player,
            winner: self.winner,
            game_over: self.game_over,
            move_number: self.move_number as int,
            white_pieces: self.white_pieces as int,
            black_pieces: self.black_pieces as int,
        }
    }
}

impl Position {
    /// What the cell `(x, y)` holds; everything off the grid is out of bounds.
    pub open spec fn cell(self, x: int, y: int) -> Space {
        if on_grid(x, y) {
            self.cells[(x, y)]
        } else {
            Space::OutOfBounds
        }
    }

    /// 1 where `(x, y)` holds a piece of `who`, else 0.
    pub open spec fn holds(self, who: Player, x: int, y: int) -> int {
        if self.cell(x, y) == Space::Occupied(who) {
            1
        } else {
            0
        }
    }

    /// The pieces of `who` among the first `n` cells of row `x`.
    pub open spec fn row_count(self, who: Player, x: int, n: int) -> int
        decreases n,
    {
        if n <= 0 {
            0
        } else {
            self.row_count(who, x, n - 1) + self.holds(who, x, n - 1)
        }
    }

    /// The pieces of `who` in the first `n` rows.
    pub open spec fn rows_count(self, who: Player, n: int) -> int
        decreases n,
    {
        if n <= 0 {
            0
        } else {
            self.rows_count(who, n - 1) + self.row_count(who, n - 1, 9)
        }
    }

    /// The pieces of `who` on the board.
    pub open spec fn count(self, who: Player) -> int {
        self.rows_count(who, 9)
    }

    /// The cells are those of the grid, and the two piece counters agree with
    /// the board.
    pub open spec fn counts_ok(self) -> bool {
        &&& self.cells.dom() =~= Set::new(|c: (int, int)| on_grid(c.0, c.1))
        &&& self.white_pieces == self.count(Player::White)
        &&& self.black_pieces == self.count(Player::Black)
    }

    /// The terminal flag and the winner agree with the counters: past the move
    /// cap the game is over without a winner; else a side that is down to
    /// eight pieces has lost, and where both are, Black has.
    pub open spec fn status_ok(self) -> bool {
        &&& self.move_number > MOVE_CAP ==> self.game_over && self.winner is None
        &&& self.move_number <= MOVE_CAP && self.black_pieces == LOSING_PIECES ==> self.game_over
            && self.winner == Some(Player::White)
        &&& self.move_number <= MOVE_CAP && self.black_pieces != LOSING_PIECES && self.white_pieces
            == LOSING_PIECES ==> self.game_over && self.winner == Some(Player::Black)
    }

    /// A position as the constructors make it and moves keep it.
    pub open spec fn wf(self) -> bool {
        self.counts_ok() && self.status_ok()
    }

    /// The board with no piece on it, White to move.
    pub open spec fn empty() -> Position {
        Position {
            cells: Map::new(
                |c: (int, int)| on_grid(c.0, c.1),
                |c: (int, int)|
                    if off_hexagon(c.0, c.1) {
                        Space::OutOfBounds
                    } else {
                        Space::Empty
                    },
            ),
            player: Player::White,
            winner: None,
            game_over: false,
            move_number: 0,
            white_pieces: 0,
            black_pieces: 0,
        }
    }

    /// The board of the opening `o`: Black where the layout says, White
    /// mirrored, fourteen pieces a side, White to move.
    pub open spec fn opening(o: Opening) -> Position {
        Position {
            cells: Map::new(
                |c: (int, int)| on_grid(c.0, c.1),
                |c: (int, int)|
                    if o.black_at(c.0, c.1) {
                        Space::Occupied(Player::Black)
                    } else if o.black_at(c.1, c.0) {
                        Space::Occupied(Player::White)
                    } else {
                        Position::empty().cell(c.0, c.1)
                    },
            ),
            white_pieces: START_PIECES as int,
            black_pieces: START_PIECES as int,
            ..Position::empty()
        }
    }
}

/// The starting layouts.
#[derive(Clone, Copy, Debug, PartialEq, Eq, Structural)]
pub enum Opening {
    Basic,
    GermanDaisy,
    BelgianDaisy,
}

impl Opening {
    /// Whether Black starts on `(x, y)`. White starts on the mirrored cells,
    /// those `(x, y)` for which Black starts on `(y, x)`.
    pub open spec fn black_at(self, x: int, y: int) -> bool {
        match self {
            Opening::Basic => {
                ||| x == 0 && 3 <= y <= 4
                ||| x == 1 && 4 <= y <= 5
                ||| x == 2 && 4 <= y <= 6
                ||| x == 3 && 5 <= y <= 7
                ||| x == 4 && 6 <= y <= 8
                ||| x == 5 && y == 8
            },
            Opening::GermanDaisy => {
                ||| x == 0 && 2 <= y <= 3
                ||| x == 1 && 2 <= y <= 4
                ||| x == 2 && 3 <= y <= 4
                ||| x == 6 && 4 <= y <= 5
                ||| x == 7 && 4 <= y <= 6
                ||| x == 8 && 5 <= y <= 6
            },
            Opening::BelgianDaisy => {
                ||| x == 0 && 3 <= y <= 4
                ||| x == 1 && 3 <= y <= 5
                ||| x == 2 && 4 <= y <= 5
                ||| x == 6 && 3 <= y <= 4
                ||| x == 7 && 3 <= y <= 5
                ||| x == 8 && 4 <= y <= 5
            },
        }
    }

    /// Whether Black starts on `(x, y)`.
    pub fn starts_black(self, x: usize, y: usize) -> (r: bool)
        ensures
            r == self.black_at(x as int, y as int),
    {
        match self {
            Opening::Basic => {
                (x == 0 && 3 <= y && y <= 4) || (x == 1 && 4 <= y && y <= 5) || (x == 2 && 4 <= y
                    && y <= 6) || (x == 3 && 5 <= y && y <= 7) || (x == 4 && 6 <= y && y <= 8) || (x
                    == 5 && y == 8)
            },
            Opening::GermanDaisy => {
                (x == 0 && 2 <= y && y <= 3) || (x == 1 && 2 <= y && y <= 4) || (x == 2 && 3 <= y
                    && y <= 4) || (x == 6 && 4 <= y && y <= 5) || (x == 7 && 4 <= y && y <= 6) || (x
                    == 8 && 5 <= y && y <= 6)
            },
            Opening::BelgianDaisy => {
                (x == 0 && 3 <= y && y <= 4) || (x == 1 && 3 <= y && y <= 5) || (x == 2 && 4 <= y
                    && y <= 5) || (x == 6 && 3 <= y && y <= 4) || (x == 7 && 3 <= y && y <= 5) || (x
                    == 8 && 4 <= y && y <= 5)
            },
        }
    }
}

/// The empty board holds no piece.
pub proof fn lemma_empty_counts(who: Player)
    ensures
        Position::empty().count(who) == 0,
        Position::empty().wf(),
{
    let p = Position::empty();
    reveal_with_fuel(Position::row_count, 10);
    reveal_with_fuel(Position::rows_count, 10);
    assert forall|x: int| 0 <= x < 9 implies p.row_count(Player::White, x, 9) == 0 && p.row_count(
        Player::Black,
        x,
        9,
    ) == 0 by {}
    assert(p.count(Player::White) == 0);
    assert(p.count(Player::Black) == 0);
}

/// Every opening holds fourteen pieces of each side.
pub proof fn lemma_opening_counts(o: Opening)
    ensures
        Position::opening(o).count(Player::White) == 14,
        Position::opening(o).count(Player::Black) == 14,
        Position::opening(o).wf(),
{
    let p = Position::opening(o);
    reveal_with_fuel(Position::row_count, 10);
    reveal_with_fuel(Position::rows_count, 10);
    assert(p.count(Player::White) == 14);
    assert(p.count(Player::Black) == 14);
}

/// Two positions that agree on row `x` hold the same pieces there.
pub proof fn lemma_row_count_same(p: Position, q: Position, who: Player, x: int, n: int)
    requires
        forall|j: int| 0 <= j < n ==> p.cell(x, j) == q.cell(x, j),
    ensures
        p.row_count(who, x, n) == q.row_count(who, x, n),
    decreases n,
{
    if n > 0 {
        lemma_row_count_same(p, q, who, x, n - 1);
    }
}

/// A row that differs in the one cell `(x, y)` differs in its count by what
/// that cell held and holds.
pub proof fn lemma_row_count_update(p: Position, q: Position, who: Player, x: int, y: int, n: int)
    requires
        0 <= y,
        forall|j: int| 0 <= j < n && j != y ==> p.cell(x, j) == q.cell(x, j),
    ensures
        q.row_count(who, x, n) == p.row_count(who, x, n) + if y < n {
            q.holds(who, x, y) - p.holds(who, x, y)
        } else {
            0
        },
    decreases n,
{
    if n > 0 {
        lemma_row_count_update(p, q, who, x, y, n - 1);
    }
}

/// Two positions that differ in the one cell `(x, y)` differ in their count
/// of `who` by what that cell held and holds.
pub proof fn lemma_count_update(p: Position, q: Position, who: Player, x: int, y: int)
    requires
        on_grid(x, y),
        forall|i: int, j: int|
            on_grid(i, j) && !(i == x && j == y) ==> p.cell(i, j) == q.cell(i, j),
    ensures
        q.count(who) == p.count(who) - p.holds(who, x, y) + q.holds(who, x, y),
{
    lemma_rows_count_update(p, q, who, x, y, 9);
}

proof fn lemma_rows_count_update(p: Position, q: Position, who: Player, x: int, y: int, n: int)
    requires
        on_grid(x, y),
        0 <= n <= 9,
        forall|i: int, j: int|
            on_grid(i, j) && !(i == x && j == y) ==> p.cell(i, j) == q.cell(i, j),
    ensures
        q.rows_count(who, n) == p.rows_count(who, n) + if x < n {
            q.holds(who, x, y) - p.holds(who, x, y)
        } else {
            0
        },
    decreases n,
{
    if n > 0 {
        lemma_rows_count_update(p, q, who, x, y, n - 1);
        if n - 1 == x {
            lemma_row_count_update(p, q, who, x, y, 9);
        } else {
            lemma_row_count_same(p, q, who, n - 1, 9);
        }
    }
}

impl Game {
    /// The board with no piece on it.
    pub fn new_game() -> (game: Game)
        ensures
            game@ == Position::empty(),
            game@.wf(),
    {
        let mut game = Game {
            board: [[Space::Empty; 9]; 9],
            player: Player::White,
            winner: None,
            move_number: 0,
            game_over: false,
            white_pieces: 0,
            black_pieces: 0,
        };
        let mut x: usize = 0;
        while x < 9
            invariant
                x <= 9,
                game.player == Player::White,
                game.winner is None,
                !game.game_over,
                game.move_number == 0,
                game.white_pieces == 0,
                game.black_pieces == 0,
                forall|i: int, j: int|
                    0 <= i < 9 && 0 <= j < 9 ==> #[trigger] game.board[i][j] == if i < x
                        && off_hexagon(i, j) {
                        Space::OutOfBounds
                    } else {
                        Space::Empty
                    },
            decreases 9 - x,
        {
            let mut y: usize = 0;
            while y < 9
                invariant
                    x < 9,
                    y <= 9,
                    game.player == Player::White,
                    game.winner is None,
                    !game.game_over,
                    game.move_number == 0,
                    game.white_pieces == 0,
                    game.black_pieces == 0,
                    forall|i: int, j: int|
                        0 <= i < 9 && 0 <= j < 9 ==> #[trigger] game.board[i][j] == if (i < x || (i
                            == x && j < y)) && off_hexagon(i, j) {
                            Space::OutOfBounds
                        } else {
                            Space::Empty
                        },
                decreases 9 - y,
            {
                if y < 4 && x > 4 + y {
                    game.board[x][y] = Space::OutOfBounds;
                } else if y > 4 && x < y - 4 {
                    game.board[x][y] = Space::OutOfBounds;
                }
                y += 1;
            }
            x += 1;
        }
        proof {
            assert(game@.cells =~= Position::empty().cells);
            lemma_empty_counts(Player::White);
        }
        game
    }

    /// The board of the opening `o`.
    pub fn new_opening(o: Opening) -> (game: Game)
        ensures
            game@ == Position::opening(o),
            game@.wf(),
    {
        let mut game = Game::new_game();
        game.white_pieces = START_PIECES;
        game.black_pieces = START_PIECES;
        let ghost blank = game@;
        let mut x: usize = 0;
        while x < 9
            invariant
                x <= 9,
                blank == (Position { white_pieces: 14, black_pieces: 14, ..Position::empty() }),
                game@ == (Position { cells: game@.cells, ..blank }),
                forall|i: int, j: int|
                    0 <= i < 9 && 0 <= j < 9 ==> #[trigger] game.board[i][j] == if i < x {
                        Position::opening(o).cell(i, j)
                    } else {
                        blank.cell(i, j)
                    },
            decreases 9 - x,
        {
            let mut y: usize = 0;
            while y < 9
                invariant
                    x < 9,
                    y <= 9,
                    blank == (Position { white_pieces: 14, black_pieces: 14, ..Position::empty() }),
                    game@ == (Position { cells: game@.cells, ..blank }),
                    forall|i: int, j: int|
                        0 <= i < 9 && 0 <= j < 9 ==> #[trigger] game.board[i][j] == if i < x || (i
                            == x && j < y) {
                            Position::opening(o).cell(i, j)
                        } else {
                            blank.cell(i, j)
                        },
                decreases 9 - y,
            {
                if o.starts_black(x, y) {
                    game.board[x][y] = Space::Occupied(Player::Black);
                } else if o.starts_black(y, x) {
                    game.board[x][y] = Space::Occupied(Player::White);
                }
                y += 1;
            }
            x += 1;
        }
        proof {
            assert(game@.cells =~= Position::opening(o).cells);
            lemma_opening_counts(o);
        }
        game
    }

    /// The basic opening.
    pub fn new_basic() -> (game: Game)
        ensures
            game@ == Position::opening(Opening::Basic),
            game@.wf(),
    {
        Game::new_opening(Opening::Basic)
    }

    /// The German daisy opening.
    pub fn new_german_daisy() -> (game: Game)
        ensures
            game@ == Position::opening(Opening::GermanDaisy),
            game@.wf(),
    {
        Game::new_opening(Opening::GermanDaisy)
    }

    /// The Belgian daisy opening.
    pub fn new_belgian_daisy() -> (game: Game)
        ensures
            game@ == Position::opening(Opening::BelgianDaisy),
            game@.wf(),
    {
        Game::new_opening(Opening::BelgianDaisy)
    }

    /// Whether the position is well formed: the counters agree with the
    /// board, and the status agrees with the counters.
    pub fn is_well_formed(&self) -> (ok: bool)
        ensures
            ok == self@.wf(),
    {
        let decided = if self.move_number > MOVE_CAP {
            self.game_over && self.winner.is_none()
        } else if self.black_pieces == LOSING_PIECES {
            self.game_over && match self.winner {
                Some(Player::White) => true,
                _ => false,
            }
        } else if self.white_pieces == LOSING_PIECES {
            self.game_over && match self.winner {
                Some(Player::Black) => true,
                _ => false,
            }
        } else {
            true
        };
        decided && self.validate_state()
    }

    /// Counts the pieces on the board and says whether both counters agree
    /// with it.
    pub fn validate_state(&self) -> (ok: bool)
        ensures
            ok == self@.counts_ok(),
    {
        let mut white_seen: i16 = 0;
        let mut black_seen: i16 = 0;
        let mut x: usize = 0;
        while x < 9
            invariant
                x <= 9,
                white_seen == self@.rows_count(Player::White, x as int),
                black_seen == self@.rows_count(Player::Black, x as int),
                0 <= white_seen <= 9 * x,
                0 <= black_seen <= 9 * x,
            decreases 9 - x,
        {
            let mut y: usize = 0;
            let mut white_row: i16 = 0;
            let mut black_row: i16 = 0;
            while y < 9
                invariant
                    x < 9,
                    y <= 9,
                    white_row == self@.row_count(Player::White, x as int, y as int),
                    black_row == self@.row_count(Player::Black, x as int, y as int),
                    0 <= white_row <= y,
                    0 <= black_row <= y,
                decreases 9 - y,
            {
                match self.board[x][y] {
                    Space::Occupied(Player::Black) => black_row += 1,
                    Space::Occupied(Player::White) => white_row += 1,
                    _ => (),
                }
                y += 1;
            }
            white_seen += white_row;
            black_seen += black_row;
            x += 1;
        }
        black_seen == self.black_pieces && white_seen == self.white_pieces
    }
}

} // verus!
