use crate::game::{
    dir_index, lemma_count_update, on_grid, Game, Move, Player, Position, Space, LOSING_PIECES,
    MOVE_CAP,
};
use crate::movegen::scaled;
use vstd::prelude::*;

verus! {

impl Position {
    /// How many pieces lie in line from `(x, y)` along `(dx, dy)`, the piece
    /// at `(x, y)` included, counted up to six.
    pub open spec fn line_len(self, x: int, y: int, dx: int, dy: int) -> int {
        if !(self.ahead(x, y, dx, dy, 1) is Occupied) {
            1
        } else if !(self.ahead(x, y, dx, dy, 2) is Occupied) {
            2
        } else if !(self.ahead(x, y, dx, dy, 3) is Occupied) {
            3
        } else if !(self.ahead(x, y, dx, dy, 4) is Occupied) {
            4
        } else if !(self.ahead(x, y, dx, dy, 5) is Occupied) {
            5
        } else {
            6
        }
    }

    /// How many steps (one to five) along `(dx, dy)` lead from `(x, y)` to
    /// `(a, b)`; 0 where none does.
    pub open spec fn steps_to(x: int, y: int, dx: int, dy: int, a: int, b: int) -> int {
        if a == x + dx && b == y + dy {
            1
        } else if a == x + 2 * dx && b == y + 2 * dy {
            2
        } else if a == x + 3 * dx && b == y + 3 * dy {
            3
        } else if a == x + 4 * dx && b == y + 4 * dy {
            4
        } else if a == x + 5 * dx && b == y + 5 * dy {
            5
        } else {
            0
        }
    }

    /// Whether pushing the line from `(x, y)` along `(dx, dy)` moves its last
    /// piece off the playing surface.
    pub open spec fn pushes_off(self, x: int, y: int, dx: int, dy: int) -> bool {
        self.ahead(x, y, dx, dy, self.line_len(x, y, dx, dy)) == Space::OutOfBounds
    }

    /// Whether `m` takes a piece off the board. A broadside never does.
    pub open spec fn captures(self, m: Move) -> bool {
        match m {
            Move::Inline { start, dir } => self.pushes_off(
                start.0 as int,
                start.1 as int,
                dir.0 as int,
                dir.1 as int,
            ),
            Move::Broadside { .. } => false,
        }
    }

    /// What `(a, b)` holds after the line from `(x, y)` was pushed along
    /// `(dx, dy)`: the start is left empty, every cell of the playing surface
    /// that the line reaches takes the piece from the cell behind it, and
    /// every other cell keeps what it held.
    pub open spec fn pushed_cell(self, x: int, y: int, dx: int, dy: int, a: int, b: int) -> Space {
        let k = Position::steps_to(x, y, dx, dy, a, b);
        if a == x && b == y {
            Space::Empty
        } else if 1 <= k <= self.line_len(x, y, dx, dy) && self.cell(a, b) != Space::OutOfBounds {
            self.ahead(x, y, dx, dy, k - 1)
        } else {
            self.cell(a, b)
        }
    }

    /// What `(a, b)` holds after the pieces at `start`, `stop` and (where
    /// there is one) `mid` side-stepped along `dir`: their cells are left
    /// empty, the cells beside them hold pieces of the side that moved, and
    /// every other cell keeps what it held.
    pub open spec fn sidestepped_cell(
        self,
        start: (int, int),
        mid: Option<(int, int)>,
        stop: (int, int),
        dir: (int, int),
        a: int,
        b: int,
    ) -> Space {
        let c = (a, b);
        let beside_mid = match mid {
            Some(at) => Some((at.0 + dir.0, at.1 + dir.1)),
            None => None,
        };
        if c == start || c == stop || Some(c) == mid {
            Space::Empty
        } else if c == (start.0 + dir.0, start.1 + dir.1) || c == (stop.0 + dir.0, stop.1 + dir.1)
            || Some(c) == beside_mid {
            self.own()
        } else {
            self.cell(a, b)
        }
    }

    /// What `(a, b)` holds after the move `m`.
    pub open spec fn moved_cell(self, m: Move, a: int, b: int) -> Space {
        match m {
            Move::Inline { start, dir } => self.pushed_cell(
                start.0 as int,
                start.1 as int,
                dir.0 as int,
                dir.1 as int,
                a,
                b,
            ),
            Move::Broadside { start, mid, stop, dir } => self.sidestepped_cell(
                (start.0 as int, start.1 as int),
                match mid {
                    Some(c) => Some((c.0 as int, c.1 as int)),
                    None => None,
                },
                (stop.0 as int, stop.1 as int),
                (dir.0 as int, dir.1 as int),
                a,
                b,
            ),
        }
    }

    /// The position after the legal move `m`: the other side is to move, the
    /// move counter is one higher, the board is moved, a captured piece is
    /// taken off the count of the side that did not move, and the status is
    /// set anew: past the move cap the game is over without a winner; else a
    /// side that is down to eight pieces has lost, and where both are, Black
    /// has; else the status stays.
    pub open spec fn apply(self, m: Move) -> Position {
        let taken: int = if self.captures(m) {
            1
        } else {
            0
        };
        let white = if self.player == Player::Black {
            self.white_pieces - taken
        } else {
            self.white_pieces
        };
        let black = if self.player == Player::White {
            self.black_pieces - taken
        } else {
            self.black_pieces
        };
        let number = self.move_number + 1;
        Position {
            cells: Map::new(
                |c: (int, int)| on_grid(c.0, c.1),
                |c: (int, int)| self.moved_cell(m, c.0, c.1),
            ),
            player: self.player.other(),
            winner: if number > MOVE_CAP {
                None
            } else if black == LOSING_PIECES {
                Some(Player::White)
            } else if white == LOSING_PIECES {
                Some(Player::Black)
            } else {
                self.winner
            },
            game_over: self.game_over || white == LOSING_PIECES || black == LOSING_PIECES || number
                > MOVE_CAP,
            move_number: number,
            white_pieces: white,
            black_pieces: black,
        }
    }

    /// Whether the rules allow the side to move to play `m`.
    ///
    /// An inline move starts on an own piece, goes along one of the six
    /// directions, and pushes a line that can be pushed.
    ///
    /// A broadside names two or three own pieces in line: `start` at the
    /// line's lower end, from which the line runs along one of the first
    /// three directions, `mid` where there are three, and `stop` last. It
    /// goes along one of the six directions, but neither along the line nor
    /// against it, and each of the pieces has an empty cell beside it in that
    /// direction.
    pub open spec fn is_legal(self, m: Move) -> bool {
        match m {
            Move::Inline { start, dir } => {
                &&& on_grid(start.0 as int, start.1 as int)
                &&& self.cell(start.0 as int, start.1 as int) == self.own()
                &&& dir_index(dir.0 as int, dir.1 as int) >= 0
                &&& self.can_push(start.0 as int, start.1 as int, dir.0 as int, dir.1 as int)
            },
            Move::Broadside { start, mid, stop, dir } => {
                let x = start.0 as int;
                let y = start.1 as int;
                let run: int = if mid is Some {
                    3
                } else {
                    2
                };
                let next = match mid {
                    Some(c) => c,
                    None => stop,
                };
                let ex = next.0 - x;
                let ey = next.1 - y;
                let sx = dir.0 as int;
                let sy = dir.1 as int;
                &&& on_grid(x, y)
                &&& 0 <= dir_index(ex, ey) < 3
                &&& stop.0 == x + scaled(run - 1, ex) && stop.1 == y + scaled(run - 1, ey)
                &&& dir_index(sx, sy) >= 0
                &&& !(sx == ex && sy == ey)
                &&& !(sx == -ex && sy == -ey)
                &&& self.cell(x, y) == self.own()
                &&& self.cell(x + ex, y + ey) == self.own()
                &&& self.cell(stop.0 as int, stop.1 as int) == self.own()
                &&& self.cell(x + sx, y + sy) == Space::Empty
                &&& self.cell(x + ex + sx, y + ey + sy) == Space::Empty
                &&& self.cell(stop.0 + sx, stop.1 + sy) == Space::Empty
            },
        }
    }

    /// This position with the cell `(x, y)` holding `v`.
    pub open spec fn with_cell(self, x: int, y: int, v: Space) -> Position {
        Position { cells: self.cells.insert((x, y), v), ..self }
    }

    /// This position after the start of a pushed line was cleared and the
    /// first `k` cells ahead of it took the pieces behind them.
    pub open spec fn pushed(self, x: int, y: int, dx: int, dy: int, k: int) -> Position
        decreases k,
    {
        if k <= 0 {
            self.with_cell(x, y, Space::Empty)
        } else {
            self.pushed(x, y, dx, dy, k - 1).with_cell(
                x + scaled(k, dx),
                y + scaled(k, dy),
                self.ahead(x, y, dx, dy, k - 1),
            )
        }
    }
}

/// Positions with the same cells hold the same pieces.
pub proof fn lemma_count_same(p: Position, q: Position, who: Player)
    requires
        forall|i: int, j: int| on_grid(i, j) ==> p.cell(i, j) == q.cell(i, j),
    ensures
        p.count(who) == q.count(who),
{
    lemma_count_update(p, q, who, 0, 0);
}

/// Writing one cell changes the count of `who` by what the cell held and
/// holds.
pub proof fn lemma_with_cell(p: Position, x: int, y: int, v: Space, who: Player)
    requires
        on_grid(x, y),
    ensures
        p.with_cell(x, y, v).count(who) == p.count(who) - p.holds(who, x, y) + if v
            == Space::Occupied(who) {
            1int
        } else {
            0int
        },
        forall|a: int, b: int|
            on_grid(a, b) ==> #[trigger] p.with_cell(x, y, v).cell(a, b) == if a == x && b == y {
                v
            } else {
                p.cell(a, b)
            },
{
    lemma_count_update(p, p.with_cell(x, y, v), who, x, y);
}

/// What a partly pushed line looks like, and how many pieces of `who` the
/// board then holds: each piece written ahead makes up for the one it
/// overwrote, but for the last.
pub proof fn lemma_pushed(p: Position, x: int, y: int, dx: int, dy: int, k: int, who: Player)
    requires
        dir_index(dx, dy) >= 0,
        0 <= k <= 5,
        forall|i: int| 0 <= i <= k ==> on_grid(x + #[trigger] scaled(i, dx), y + scaled(i, dy)),
    ensures
        p.pushed(x, y, dx, dy, k).count(who) == p.count(who) - if p.ahead(x, y, dx, dy, k)
            == Space::Occupied(who) {
            1int
        } else {
            0int
        },
        forall|a: int, b: int|
            on_grid(a, b) ==> #[trigger] p.pushed(x, y, dx, dy, k).cell(a, b) == if a == x && b
                == y {
                Space::Empty
            } else if 1 <= Position::steps_to(x, y, dx, dy, a, b) <= k {
                p.ahead(x, y, dx, dy, Position::steps_to(x, y, dx, dy, a, b) - 1)
            } else {
                p.cell(a, b)
            },
    decreases k,
{
    assert(on_grid(x + scaled(0, dx), y + scaled(0, dy)));
    if k <= 0 {
        lemma_with_cell(p, x, y, Space::Empty, who);
    } else {
        lemma_pushed(p, x, y, dx, dy, k - 1, who);
        let q = p.pushed(x, y, dx, dy, k - 1);
        assert(on_grid(x + scaled(k, dx), y + scaled(k, dy)));
        lemma_with_cell(
            q,
            x + scaled(k, dx),
            y + scaled(k, dy),
            p.ahead(x, y, dx, dy, k - 1),
            who,
        );
        assert(Position::steps_to(x, y, dx, dy, x + scaled(k, dx), y + scaled(k, dy)) == k);
    }
}

/// No count is negative.
pub proof fn lemma_count_nonnegative(p: Position, who: Player)
    ensures
        p.count(who) >= 0,
{
    lemma_rows_nonnegative(p, who, 9);
}

proof fn lemma_row_nonnegative(p: Position, who: Player, x: int, n: int)
    ensures
        p.row_count(who, x, n) >= 0,
    decreases n,
{
    if n > 0 {
        lemma_row_nonnegative(p, who, x, n - 1);
    }
}

proof fn lemma_rows_nonnegative(p: Position, who: Player, n: int)
    ensures
        p.rows_count(who, n) >= 0,
    decreases n,
{
    if n > 0 {
        lemma_rows_nonnegative(p, who, n - 1);
        lemma_row_nonnegative(p, who, n - 1, 9);
    }
}

/// What a legal inline move looks like: its line is one to five pieces long
/// and ends before an empty cell or before the edge; where it ends before
/// the edge, its last piece is of the other side.
pub proof fn lemma_inline_shape(p: Position, x: int, y: int, dx: int, dy: int)
    requires
        on_grid(x, y),
        p.cell(x, y) == p.own(),
        dir_index(dx, dy) >= 0,
        p.can_push(x, y, dx, dy),
    ensures
        1 <= p.line_len(x, y, dx, dy) <= 5,
        p.ahead(x, y, dx, dy, p.line_len(x, y, dx, dy)) == Space::Empty || p.pushes_off(
            x,
            y,
            dx,
            dy,
        ),
        p.pushes_off(x, y, dx, dy) ==> p.line_len(x, y, dx, dy) >= 2 && p.ahead(
            x,
            y,
            dx,
            dy,
            p.line_len(x, y, dx, dy) - 1,
        ) == p.foe(),
        forall|i: int|
            0 <= i < p.line_len(x, y, dx, dy) ==> on_grid(
                x + #[trigger] scaled(i, dx),
                y + scaled(i, dy),
            ),
        !p.pushes_off(x, y, dx, dy) ==> on_grid(
            x + scaled(p.line_len(x, y, dx, dy), dx),
            y + scaled(p.line_len(x, y, dx, dy), dy),
        ),
{
}

/// How far a legal push writes ahead of its start: up to the empty cell
/// that ends the line, or up to the line's last cell where its last piece
/// leaves the board.
pub open spec fn push_reach(p: Position, x: int, y: int, dx: int, dy: int) -> int {
    if p.pushes_off(x, y, dx, dy) {
        p.line_len(x, y, dx, dy) - 1
    } else {
        p.line_len(x, y, dx, dy)
    }
}

/// The board after a legal push is the board written cell by cell, and it
/// holds the pieces of before, but for a piece that left the board.
proof fn lemma_push_board(p: Position, x: int, y: int, dx: int, dy: int, who: Player)
    requires
        on_grid(x, y),
        p.cell(x, y) == p.own(),
        dir_index(dx, dy) >= 0,
        p.can_push(x, y, dx, dy),
    ensures
        forall|a: int, b: int|
            on_grid(a, b) ==> #[trigger] p.pushed_cell(x, y, dx, dy, a, b) == p.pushed(
                x,
                y,
                dx,
                dy,
                push_reach(p, x, y, dx, dy),
            ).cell(a, b),
        p.pushed(x, y, dx, dy, push_reach(p, x, y, dx, dy)).count(who) == p.count(who) - if p.pushes_off(
            x,
            y,
            dx,
            dy,
        ) && who == p.player.other() {
            1int
        } else {
            0int
        },
{
    let n = p.line_len(x, y, dx, dy);
    let k = push_reach(p, x, y, dx, dy);
    lemma_inline_shape(p, x, y, dx, dy);
    assert forall|i: int| 0 <= i <= k implies on_grid(
        x + #[trigger] scaled(i, dx),
        y + scaled(i, dy),
    ) by {}
    lemma_pushed(p, x, y, dx, dy, k, who);
    let q = p.pushed(x, y, dx, dy, k);
    assert forall|a: int, b: int| on_grid(a, b) implies #[trigger] p.pushed_cell(
        x,
        y,
        dx,
        dy,
        a,
        b,
    ) == q.cell(a, b) by {
        let t = Position::steps_to(x, y, dx, dy, a, b);
        if 1 <= t <= n {
            assert(a == x + scaled(t, dx) && b == y + scaled(t, dy));
            assert(p.cell(a, b) == p.ahead(x, y, dx, dy, t));
        }
    }
}

/// A legal inline move keeps the counters in step with the board.
proof fn lemma_push_keeps_counts(p: Position, m: Move)
    requires
        p.counts_ok(),
        p.is_legal(m),
        m is Inline,
    ensures
        p.apply(m).counts_ok(),
{
    let x = m->Inline_start.0 as int;
    let y = m->Inline_start.1 as int;
    let dx = m->Inline_dir.0 as int;
    let dy = m->Inline_dir.1 as int;
    let q = p.pushed(x, y, dx, dy, push_reach(p, x, y, dx, dy));
    let r = p.apply(m);
    assert forall|who: Player| #[trigger] r.count(who) == q.count(who) by {
        lemma_push_board(p, x, y, dx, dy, who);
        assert forall|a: int, b: int| on_grid(a, b) implies r.cell(a, b) == q.cell(a, b) by {
            assert(r.cell(a, b) == p.pushed_cell(x, y, dx, dy, a, b));
        }
        lemma_count_same(r, q, who);
    }
    lemma_push_board(p, x, y, dx, dy, Player::White);
    lemma_push_board(p, x, y, dx, dy, Player::Black);
    assert(r.count(Player::White) == q.count(Player::White));
    assert(r.count(Player::Black) == q.count(Player::Black));
}

/// This position after a broadside was written cell by cell: the cells of
/// `start` and `stop` cleared, the cells beside them filled, and the same
/// for `mid` where there is one.
pub open spec fn sidestepped(
    p: Position,
    start: (int, int),
    mid: Option<(int, int)>,
    stop: (int, int),
    dir: (int, int),
) -> Position {
    let ends = p.with_cell(start.0, start.1, Space::Empty).with_cell(
        stop.0,
        stop.1,
        Space::Empty,
    ).with_cell(start.0 + dir.0, start.1 + dir.1, p.cell(start.0, start.1)).with_cell(
        stop.0 + dir.0,
        stop.1 + dir.1,
        p.cell(stop.0, stop.1),
    );
    match mid {
        Some(at) => ends.with_cell(at.0, at.1, Space::Empty).with_cell(
            at.0 + dir.0,
            at.1 + dir.1,
            p.cell(at.0, at.1),
        ),
        None => ends,
    }
}

/// The parts of a broadside as integers.
pub open spec fn broadside_parts(m: Move) -> ((int, int), Option<(int, int)>, (int, int), (int, int)) {
    (
        (m->Broadside_start.0 as int, m->Broadside_start.1 as int),
        match m->Broadside_mid {
            Some(c) => Some((c.0 as int, c.1 as int)),
            None => None,
        },
        (m->Broadside_stop.0 as int, m->Broadside_stop.1 as int),
        (m->Broadside_dir.0 as int, m->Broadside_dir.1 as int),
    )
}

/// What a legal broadside looks like: every cell it names and every cell
/// beside them lies on the grid, the cells it names hold own pieces, and the
/// cells beside them are empty.
pub proof fn lemma_broadside_shape(p: Position, m: Move)
    requires
        p.is_legal(m),
        m is Broadside,
    ensures
        ({
            let (start, mid, stop, dir) = broadside_parts(m);
            &&& on_grid(start.0, start.1) && p.cell(start.0, start.1) == p.own()
            &&& on_grid(stop.0, stop.1) && p.cell(stop.0, stop.1) == p.own()
            &&& start != stop
            &&& -1 <= dir.0 <= 1 && -1 <= dir.1 <= 1
            &&& on_grid(start.0 + dir.0, start.1 + dir.1) && p.cell(start.0 + dir.0, start.1 + dir.1)
                == Space::Empty
            &&& on_grid(stop.0 + dir.0, stop.1 + dir.1) && p.cell(stop.0 + dir.0, stop.1 + dir.1)
                == Space::Empty
            &&& mid matches Some(at) ==> {
                &&& on_grid(at.0, at.1) && p.cell(at.0, at.1) == p.own()
                &&& at != start && at != stop
                &&& on_grid(at.0 + dir.0, at.1 + dir.1) && p.cell(at.0 + dir.0, at.1 + dir.1)
                    == Space::Empty
            }
        }),
{
}

/// The board after a legal broadside is the board written cell by cell, and
/// it holds the pieces of before.
proof fn lemma_sidestep_board(p: Position, m: Move, who: Player)
    requires
        p.is_legal(m),
        m is Broadside,
    ensures
        ({
            let (start, mid, stop, dir) = broadside_parts(m);
            &&& forall|a: int, b: int|
                on_grid(a, b) ==> #[trigger] p.moved_cell(m, a, b) == sidestepped(
                    p,
                    start,
                    mid,
                    stop,
                    dir,
                ).cell(a, b)
            &&& sidestepped(p, start, mid, stop, dir).count(who) == p.count(who)
        }),
{
    lemma_broadside_shape(p, m);
    let (start, mid, stop, dir) = broadside_parts(m);
    let (x, y) = start;
    let (ex, ey) = stop;
    let (sx, sy) = dir;
    let q1 = p.with_cell(x, y, Space::Empty);
    let q2 = q1.with_cell(ex, ey, Space::Empty);
    let q3 = q2.with_cell(x + sx, y + sy, p.own());
    let q4 = q3.with_cell(ex + sx, ey + sy, p.own());
    lemma_with_cell(p, x, y, Space::Empty, who);
    lemma_with_cell(q1, ex, ey, Space::Empty, who);
    lemma_with_cell(q2, x + sx, y + sy, p.own(), who);
    lemma_with_cell(q3, ex + sx, ey + sy, p.own(), who);
    match mid {
        Some(at) => {
            let q5 = q4.with_cell(at.0, at.1, Space::Empty);
            let q6 = q5.with_cell(at.0 + sx, at.1 + sy, p.own());
            lemma_with_cell(q4, at.0, at.1, Space::Empty, who);
            lemma_with_cell(q5, at.0 + sx, at.1 + sy, p.own(), who);
            assert(q6 == sidestepped(p, start, mid, stop, dir));
            assert forall|a: int, b: int| on_grid(a, b) implies #[trigger] p.moved_cell(m, a, b)
                == q6.cell(a, b) by {}
        },
        None => {
            assert(q4 == sidestepped(p, start, mid, stop, dir));
            assert forall|a: int, b: int| on_grid(a, b) implies #[trigger] p.moved_cell(m, a, b)
                == q4.cell(a, b) by {}
        },
    }
}

/// A legal broadside keeps the counters in step with the board.
proof fn lemma_sidestep_keeps_counts(p: Position, m: Move)
    requires
        p.counts_ok(),
        p.is_legal(m),
        m is Broadside,
    ensures
        p.apply(m).counts_ok(),
{
    let (start, mid, stop, dir) = broadside_parts(m);
    let q = sidestepped(p, start, mid, stop, dir);
    let r = p.apply(m);
    assert forall|who: Player| #[trigger] r.count(who) == p.count(who) by {
        lemma_sidestep_board(p, m, who);
        assert forall|a: int, b: int| on_grid(a, b) implies r.cell(a, b) == q.cell(a, b) by {
            assert(r.cell(a, b) == p.moved_cell(m, a, b));
        }
        lemma_count_same(r, q, who);
    }
    assert(r.count(Player::White) == p.count(Player::White));
    assert(r.count(Player::Black) == p.count(Player::Black));
}

/// After every legal move the number of cells that hold a piece of a side
/// is that side's counter, as it was before.
pub proof fn lemma_apply_keeps_counts(p: Position, m: Move)
    requires
        p.counts_ok(),
        p.is_legal(m),
    ensures
        p.apply(m).counts_ok(),
{
    match m {
        Move::Inline { .. } => lemma_push_keeps_counts(p, m),
        Move::Broadside { .. } => lemma_sidestep_keeps_counts(p, m),
    }
}

/// A legal move changes the count of the pieces on the board only by a
/// capture: a push that moves a piece off the board takes exactly one piece
/// of the side that did not move and none of the side that moved, and every
/// other move takes none.
pub proof fn lemma_capture_takes_one(p: Position, m: Move)
    requires
        p.counts_ok(),
        p.is_legal(m),
    ensures
        p.apply(m).count(p.player) == p.count(p.player),
        p.apply(m).count(p.player.other()) == p.count(p.player.other()) - if p.captures(m) {
            1int
        } else {
            0int
        },
        m is Broadside ==> !p.captures(m),
        p.apply(m).white_pieces == p.apply(m).count(Player::White),
        p.apply(m).black_pieces == p.apply(m).count(Player::Black),
        p.apply(m).white_pieces <= p.white_pieces,
        p.apply(m).black_pieces <= p.black_pieces,
        m is Broadside ==> p.apply(m).white_pieces == p.white_pieces && p.apply(m).black_pieces
            == p.black_pieces,
{
    lemma_apply_keeps_counts(p, m);
}

/// A legal move leads from a well-formed position to a well-formed position.
pub proof fn lemma_apply_keeps_wf(p: Position, m: Move)
    requires
        p.counts_ok(),
        p.is_legal(m),
    ensures
        p.apply(m).wf(),
        p.apply(m).player == p.player.other(),
        p.apply(m).move_number == p.move_number + 1,
{
    lemma_apply_keeps_counts(p, m);
}

/// A legal move leaves the rim of the playing surface as it is: a cell is
/// out of bounds after the move exactly if it was before.
pub proof fn lemma_apply_keeps_rim(p: Position, m: Move)
    requires
        p.is_legal(m),
    ensures
        forall|a: int, b: int|
            (#[trigger] p.apply(m).cell(a, b) == Space::OutOfBounds) == (p.cell(a, b)
                == Space::OutOfBounds),
{
    assert forall|a: int, b: int|
        (#[trigger] p.apply(m).cell(a, b) == Space::OutOfBounds) == (p.cell(a, b)
            == Space::OutOfBounds) by {
        if on_grid(a, b) {
            match m {
                Move::Inline { start, dir } => {
                    let x = start.0 as int;
                    let y = start.1 as int;
                    let dx = dir.0 as int;
                    let dy = dir.1 as int;
                    lemma_inline_shape(p, x, y, dx, dy);
                    let t = Position::steps_to(x, y, dx, dy, a, b);
                    if 1 <= t <= p.line_len(x, y, dx, dy) {
                        assert(a == x + scaled(t, dx) && b == y + scaled(t, dy));
                        assert(p.ahead(x, y, dx, dy, t - 1) is Occupied);
                    }
                },
                Move::Broadside { .. } => {
                    lemma_broadside_shape(p, m);
                },
            }
        }
    }
}

/// A legal push leaves an own piece on every cell that held one, but for
/// its start.
proof fn lemma_push_keeps_own(p: Position, x: int, y: int, dx: int, dy: int, a: int, b: int)
    requires
        on_grid(x, y),
        p.cell(x, y) == p.own(),
        dir_index(dx, dy) >= 0,
        p.can_push(x, y, dx, dy),
        on_grid(a, b),
        p.cell(a, b) == p.own(),
        !(a == x && b == y),
    ensures
        p.pushed_cell(x, y, dx, dy, a, b) == p.own(),
{
    let t = Position::steps_to(x, y, dx, dy, a, b);
    if 1 <= t <= p.line_len(x, y, dx, dy) {
        assert(a == x + scaled(t, dx) && b == y + scaled(t, dy));
        assert(p.cell(a, b) == p.ahead(x, y, dx, dy, t));
    }
}

/// How many own pieces stand at the head of the line from `(x, y)` along
/// `(dx, dy)`, counted up to three.
pub open spec fn own_len(p: Position, x: int, y: int, dx: int, dy: int) -> int {
    if p.ahead(x, y, dx, dy, 1) != p.own() {
        1
    } else if p.ahead(x, y, dx, dy, 2) != p.own() {
        2
    } else {
        3
    }
}

/// A legal push puts an own piece on the cell behind its own pieces, a cell
/// of the grid that held none.
proof fn lemma_push_front(p: Position, x: int, y: int, dx: int, dy: int)
    requires
        on_grid(x, y),
        p.cell(x, y) == p.own(),
        dir_index(dx, dy) >= 0,
        p.can_push(x, y, dx, dy),
    ensures
        ({
            let k = own_len(p, x, y, dx, dy);
            let a = x + scaled(k, dx);
            let b = y + scaled(k, dy);
            &&& 1 <= k <= 3
            &&& on_grid(a, b)
            &&& p.cell(a, b) != p.own()
            &&& p.pushed_cell(x, y, dx, dy, a, b) == p.own()
        }),
{
    let k = own_len(p, x, y, dx, dy);
    let a = x + scaled(k, dx);
    let b = y + scaled(k, dy);
    assert(p.cell(a, b) == p.ahead(x, y, dx, dy, k));
    assert(Position::steps_to(x, y, dx, dy, a, b) == k);
}

/// Two legal pushes lead to different boards: a cell of the grid on which
/// the boards after them differ.
proof fn lemma_pushes_apart(p: Position, m1: Move, m2: Move) -> (c: (int, int))
    requires
        p.is_legal(m1),
        p.is_legal(m2),
        m1 is Inline,
        m2 is Inline,
        m1 != m2,
    ensures
        on_grid(c.0, c.1),
        p.moved_cell(m1, c.0, c.1) != p.moved_cell(m2, c.0, c.1),
{
    let x1 = m1->Inline_start.0 as int;
    let y1 = m1->Inline_start.1 as int;
    let dx1 = m1->Inline_dir.0 as int;
    let dy1 = m1->Inline_dir.1 as int;
    let x2 = m2->Inline_start.0 as int;
    let y2 = m2->Inline_start.1 as int;
    let dx2 = m2->Inline_dir.0 as int;
    let dy2 = m2->Inline_dir.1 as int;
    if x1 == x2 && y1 == y2 {
        lemma_push_front(p, x1, y1, dx1, dy1);
        let k = own_len(p, x1, y1, dx1, dy1);
        let a = x1 + scaled(k, dx1);
        let b = y1 + scaled(k, dy1);
        assert(!(dx1 == dx2 && dy1 == dy2));
        assert(Position::steps_to(x2, y2, dx2, dy2, a, b) == 0);
        (a, b)
    } else {
        lemma_push_keeps_own(p, x2, y2, dx2, dy2, x1, y1);
        (x1, y1)
    }
}

/// A legal broadside leaves an own piece on every cell that held one, but
/// for the cells it names, which it leaves empty; and it puts one on every
/// cell beside them.
proof fn lemma_sidestep_cells(p: Position, m: Move, a: int, b: int)
    requires
        p.is_legal(m),
        m is Broadside,
        on_grid(a, b),
    ensures
        ({
            let (start, mid, stop, dir) = broadside_parts(m);
            let named = (a, b) == start || (a, b) == stop || Some((a, b)) == mid;
            let beside = (a, b) == (start.0 + dir.0, start.1 + dir.1) || (a, b) == (
                stop.0 + dir.0,
                stop.1 + dir.1,
            ) || (mid matches Some(at) && (a, b) == (at.0 + dir.0, at.1 + dir.1));
            &&& named ==> p.cell(a, b) == p.own() && p.moved_cell(m, a, b) == Space::Empty
            &&& beside ==> p.cell(a, b) == Space::Empty && p.moved_cell(m, a, b) == p.own()
            &&& !named && !beside ==> p.moved_cell(m, a, b) == p.cell(a, b)
        }),
{
    lemma_broadside_shape(p, m);
}

/// A legal push and a legal broadside lead to different boards.
proof fn lemma_push_sidestep_apart(p: Position, push: Move, side: Move) -> (c: (int, int))
    requires
        p.is_legal(push),
        p.is_legal(side),
        push is Inline,
        side is Broadside,
    ensures
        on_grid(c.0, c.1),
        p.moved_cell(push, c.0, c.1) != p.moved_cell(side, c.0, c.1),
{
    let x = push->Inline_start.0 as int;
    let y = push->Inline_start.1 as int;
    let dx = push->Inline_dir.0 as int;
    let dy = push->Inline_dir.1 as int;
    let (start, mid, stop, dir) = broadside_parts(side);
    lemma_broadside_shape(p, side);
    let c = if start == (x, y) {
        stop
    } else {
        start
    };
    lemma_sidestep_cells(p, side, c.0, c.1);
    lemma_push_keeps_own(p, x, y, dx, dy, c.0, c.1);
    c
}

/// Whether the broadside `m` names the cell `c`.
pub open spec fn names(m: Move, c: (int, int)) -> bool {
    let (start, mid, stop, dir) = broadside_parts(m);
    c == start || c == stop || Some(c) == mid
}

/// Two legal broadsides that name the same pieces name them alike.
proof fn lemma_same_pieces(p: Position, m1: Move, m2: Move)
    requires
        p.is_legal(m1),
        p.is_legal(m2),
        m1 is Broadside,
        m2 is Broadside,
        names(m2, broadside_parts(m1).0),
        names(m2, broadside_parts(m1).2),
        names(m1, broadside_parts(m2).0),
        names(m1, broadside_parts(m2).2),
    ensures
        m1->Broadside_start == m2->Broadside_start,
        m1->Broadside_mid == m2->Broadside_mid,
        m1->Broadside_stop == m2->Broadside_stop,
{
    lemma_broadside_shape(p, m1);
    lemma_broadside_shape(p, m2);
}

/// Two legal broadsides lead to different boards.
proof fn lemma_sidesteps_apart(p: Position, m1: Move, m2: Move) -> (c: (int, int))
    requires
        p.is_legal(m1),
        p.is_legal(m2),
        m1 is Broadside,
        m2 is Broadside,
        m1 != m2,
    ensures
        on_grid(c.0, c.1),
        p.moved_cell(m1, c.0, c.1) != p.moved_cell(m2, c.0, c.1),
{
    let (start1, mid1, stop1, dir1) = broadside_parts(m1);
    let (start2, mid2, stop2, dir2) = broadside_parts(m2);
    lemma_broadside_shape(p, m1);
    lemma_broadside_shape(p, m2);
    let c = if !names(m2, start1) {
        start1
    } else if !names(m2, stop1) {
        stop1
    } else if !names(m1, start2) {
        start2
    } else if !names(m1, stop2) {
        stop2
    } else {
        lemma_same_pieces(p, m1, m2);
        assert(dir1 != dir2);
        let first = (start1.0 + dir1.0, start1.1 + dir1.1);
        let last = (stop1.0 + dir1.0, stop1.1 + dir1.1);
        lemma_sidestep_cells(p, m2, first.0, first.1);
        lemma_sidestep_cells(p, m2, last.0, last.1);
        if p.moved_cell(m2, first.0, first.1) != p.own() {
            first
        } else {
            last
        }
    };
    lemma_sidestep_cells(p, m1, c.0, c.1);
    lemma_sidestep_cells(p, m2, c.0, c.1);
    c
}

/// No two legal moves lead to the same board: after two different legal
/// moves the boards differ in a cell.
pub proof fn lemma_moves_lead_apart(p: Position, m1: Move, m2: Move)
    requires
        p.is_legal(m1),
        p.is_legal(m2),
        m1 != m2,
    ensures
        exists|a: int, b: int|
            on_grid(a, b) && #[trigger] p.apply(m1).cell(a, b) != p.apply(m2).cell(a, b),
        p.apply(m1).cells != p.apply(m2).cells,
{
    let c = match (m1, m2) {
        (Move::Inline { .. }, Move::Inline { .. }) => lemma_pushes_apart(p, m1, m2),
        (Move::Inline { .. }, Move::Broadside { .. }) => lemma_push_sidestep_apart(p, m1, m2),
        (Move::Broadside { .. }, Move::Inline { .. }) => lemma_push_sidestep_apart(p, m2, m1),
        (Move::Broadside { .. }, Move::Broadside { .. }) => lemma_sidesteps_apart(p, m1, m2),
    };
    assert(p.apply(m1).cell(c.0, c.1) == p.moved_cell(m1, c.0, c.1));
    assert(p.apply(m2).cell(c.0, c.1) == p.moved_cell(m2, c.0, c.1));
    assert(p.apply(m1).cells[c] != p.apply(m2).cells[c]);
}

impl Game {
    /// Writes `v` into the cell `(x, y)`.
    fn put(&mut self, x: usize, y: usize, v: Space)
        requires
            x < 9,
            y < 9,
        ensures
            final(self)@ == old(self)@.with_cell(x as int, y as int, v),
    {
        self.board[x][y] = v;
        assert(self@.cells =~= old(self)@.with_cell(x as int, y as int, v).cells);
    }

    /// This position with the line from `start` pushed along `dir`, and a
    /// piece that left the board taken off its side's count. The side to
    /// move, the move counter and the status are as before.
    fn with_line_pushed(&self, start: (usize, usize), dir: (i8, i8)) -> (next: Game)
        requires
            self@.counts_ok(),
            self@.is_legal(Move::Inline { start, dir }),
        ensures
            forall|a: int, b: int|
                on_grid(a, b) ==> #[trigger] next@.cell(a, b) == self@.pushed_cell(
                    start.0 as int,
                    start.1 as int,
                    dir.0 as int,
                    dir.1 as int,
                    a,
                    b,
                ),
            next.player == self.player,
            next.move_number == self.move_number,
            next.winner == self.winner,
            next.game_over == self.game_over,
            next.white_pieces == self.white_pieces - if self@.captures(Move::Inline { start, dir })
                && self.player == Player::Black {
                1int
            } else {
                0int
            },
            next.black_pieces == self.black_pieces - if self@.captures(Move::Inline { start, dir })
                && self.player == Player::White {
                1int
            } else {
                0int
            },
    {
        let mut new_state = *self;
        let ghost p = self@;
        let ghost sx = start.0 as int;
        let ghost sy = start.1 as int;
        let ghost dx = dir.0 as int;
        let ghost dy = dir.1 as int;
        let ghost reach = push_reach(p, sx, sy, dx, dy);
        proof {
            lemma_count_nonnegative(p, Player::White);
            lemma_count_nonnegative(p, Player::Black);
            lemma_inline_shape(p, sx, sy, dx, dy);
            assert(on_grid(sx + scaled(0, dx), sy + scaled(0, dy)));
            assert(on_grid(sx + scaled(1, dx), sy + scaled(1, dy)));
            reveal_with_fuel(Position::pushed, 2);
        }
        let mut x: i8 = start.0 as i8;
        let mut y: i8 = start.1 as i8;
        let mut new_x: i8 = x + dir.0;
        let mut new_y: i8 = y + dir.1;
        new_state.put(x as usize, y as usize, Space::Empty);
        new_state.put(new_x as usize, new_y as usize, self.board[start.0][start.1]);
        x = new_x;
        y = new_y;
        new_x = x + dir.0;
        new_y = y + dir.1;
        let ghost mut k: int = 1;
        loop
            invariant_except_break
                new_state.white_pieces == self.white_pieces,
                new_state.black_pieces == self.black_pieces,
                x == sx + scaled(k, dx),
                y == sy + scaled(k, dy),
                new_x == sx + scaled(k + 1, dx),
                new_y == sy + scaled(k + 1, dy),
            invariant
                p == self@,
                dx == dir.0,
                dy == dir.1,
                -1 <= dx <= 1,
                -1 <= dy <= 1,
                self.white_pieces >= 0,
                self.black_pieces >= 0,
                1 <= k <= reach <= 5,
                reach == push_reach(p, sx, sy, dx, dy),
                forall|i: int|
                    0 <= i <= reach ==> on_grid(sx + #[trigger] scaled(i, dx), sy + scaled(i, dy)),
                forall|i: int| 0 <= i < reach ==> #[trigger] p.ahead(sx, sy, dx, dy, i) is Occupied,
                p.pushes_off(sx, sy, dx, dy) ==> p.ahead(sx, sy, dx, dy, reach) == p.foe() && p.ahead(
                    sx,
                    sy,
                    dx,
                    dy,
                    reach + 1,
                ) == Space::OutOfBounds,
                !p.pushes_off(sx, sy, dx, dy) ==> p.ahead(sx, sy, dx, dy, reach) == Space::Empty,
                new_state@.cells == p.pushed(sx, sy, dx, dy, k).cells,
                new_state.player == self.player,
                new_state.move_number == self.move_number,
                new_state.winner == self.winner,
                new_state.game_over == self.game_over,
            ensures
                k == reach,
                new_state.white_pieces == self.white_pieces - if p.pushes_off(sx, sy, dx, dy)
                    && p.player == Player::Black {
                    1int
                } else {
                    0int
                },
                new_state.black_pieces == self.black_pieces - if p.pushes_off(sx, sy, dx, dy)
                    && p.player == Player::White {
                    1int
                } else {
                    0int
                },
            decreases 6 - k,
        {
            proof {
                assert(on_grid(sx + scaled(k, dx), sy + scaled(k, dy)));
                assert(p.cell(x as int, y as int) == p.ahead(sx, sy, dx, dy, k));
            }
            match self.board[x as usize][y as usize] {
                Space::Occupied(moved_off) => {
                    proof {
                        assert(p.cell(new_x as int, new_y as int) == p.ahead(sx, sy, dx, dy, k + 1));
                        if k < reach {
                            assert(on_grid(sx + scaled(k + 1, dx), sy + scaled(k + 1, dy)));
                            assert(p.ahead(sx, sy, dx, dy, k + 1) != Space::OutOfBounds) by {
                                if k + 1 < reach {
                                    assert(p.ahead(sx, sy, dx, dy, k + 1) is Occupied);
                                }
                            }
                        }
                    }
                    match self.space_at(new_x, new_y) {
                        Space::OutOfBounds => {
                            match moved_off {
                                Player::White => {
                                    new_state.white_pieces -= 1;
                                },
                                Player::Black => {
                                    new_state.black_pieces -= 1;
                                },
                            }
                            break;
                        },
                        _ => {},
                    }
                    new_state.put(
                        new_x as usize,
                        new_y as usize,
                        self.board[x as usize][y as usize],
                    );
                    x = new_x;
                    y = new_y;
                    new_x = x + dir.0;
                    new_y = y + dir.1;
                    proof {
                        k = k + 1;
                    }
                },
                _ => {
                    break;
                },
            }
        }
        proof {
            lemma_push_board(p, sx, sy, dx, dy, Player::White);
        }
        new_state
    }

    /// This position with the pieces at `start`, `stop` and (where there is
    /// one) `mid` moved one step along `dir`. The counters, the side to move
    /// and the status are as before.
    fn with_side_step(
        &self,
        start: (usize, usize),
        mid: Option<(usize, usize)>,
        stop: (usize, usize),
        dir: (i8, i8),
    ) -> (next: Game)
        requires
            self@.is_legal(Move::Broadside { start, mid, stop, dir }),
        ensures
            forall|a: int, b: int|
                on_grid(a, b) ==> #[trigger] next@.cell(a, b) == self@.moved_cell(
                    Move::Broadside { start, mid, stop, dir },
                    a,
                    b,
                ),
            next.player == self.player,
            next.move_number == self.move_number,
            next.winner == self.winner,
            next.game_over == self.game_over,
            next.white_pieces == self.white_pieces,
            next.black_pieces == self.black_pieces,
    {
        let ghost m = Move::Broadside { start, mid, stop, dir };
        proof {
            lemma_broadside_shape(self@, m);
            lemma_sidestep_board(self@, m, Player::White);
        }
        let mut new_state = *self;
        new_state.put(start.0, start.1, Space::Empty);
        new_state.put(stop.0, stop.1, Space::Empty);
        new_state.put(
            (start.0 as i8 + dir.0) as usize,
            (start.1 as i8 + dir.1) as usize,
            self.board[start.0][start.1],
        );
        new_state.put(
            (stop.0 as i8 + dir.0) as usize,
            (stop.1 as i8 + dir.1) as usize,
            self.board[stop.0][stop.1],
        );
        if let Some(at) = mid {
            new_state.put(at.0, at.1, Space::Empty);
            new_state.put(
                (at.0 as i8 + dir.0) as usize,
                (at.1 as i8 + dir.1) as usize,
                self.board[at.0][at.1],
            );
        }
        assert(new_state@ == sidestepped(
            self@,
            broadside_parts(m).0,
            broadside_parts(m).1,
            broadside_parts(m).2,
            broadside_parts(m).3,
        ));
        new_state
    }

    /// The position after the legal move `next_move`.
    ///
    /// The counters stay in step with the board and the status follows the
    /// counters. The side to move changes and the move counter goes up by
    /// one. A push that moves a piece off the board takes one piece off the
    /// count of the side that did not move; no count ever goes up, and a
    /// broadside changes none. The rim of the playing surface stays.
    pub fn make_move(&self, next_move: &Move) -> (next: Game)
        requires
            self@.counts_ok(),
            self@.is_legal(*next_move),
            self.move_number < i16::MAX,
        ensures
            next@ == self@.apply(*next_move),
            next@.counts_ok(),
            next@.status_ok(),
            next@.player == self@.player.other(),
            next@.move_number == self@.move_number + 1,
            next@.white_pieces <= self@.white_pieces,
            next@.black_pieces <= self@.black_pieces,
            next@.white_pieces + next@.black_pieces == self@.white_pieces + self@.black_pieces
                - if self@.captures(*next_move) {
                1int
            } else {
                0int
            },
            *next_move is Broadside ==> next@.white_pieces == self@.white_pieces
                && next@.black_pieces == self@.black_pieces,
            forall|a: int, b: int|
                (#[trigger] next@.cell(a, b) == Space::OutOfBounds) == (self@.cell(a, b)
                    == Space::OutOfBounds),
    {
        let ghost p = self@;
        let mut new_state = match *next_move {
            Move::Inline { start, dir } => self.with_line_pushed(start, dir),
            Move::Broadside { start, mid, stop, dir } => self.with_side_step(start, mid, stop, dir),
        };
        let ghost moved = new_state@;
        new_state.move_number = self.move_number + 1;
        new_state.player = self.player.opponent();
        if new_state.white_pieces == LOSING_PIECES {
            new_state.winner = Some(Player::Black);
            new_state.game_over = true;
        }
        if new_state.black_pieces == LOSING_PIECES {
            new_state.winner = Some(Player::White);
            new_state.game_over = true;
        }
        if new_state.move_number > MOVE_CAP {
            new_state.winner = None;
            new_state.game_over = true;
        }
        proof {
            lemma_apply_keeps_counts(p, *next_move);
            lemma_apply_keeps_rim(p, *next_move);
            assert forall|c: (int, int)| on_grid(c.0, c.1) implies #[trigger] new_state@.cells[c]
                == p.moved_cell(*next_move, c.0, c.1) by {
                assert(moved.cell(c.0, c.1) == p.moved_cell(*next_move, c.0, c.1));
            }
            assert(new_state@.cells =~= p.apply(*next_move).cells);
        }
        new_state
    }
}

} // verus!
