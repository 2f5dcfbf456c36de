use crate::apply::lemma_moves_lead_apart;
use crate::game::{dir_index, dir_vec, direction, in_bounds, on_grid, Game, Move, Position, Space};
use vstd::prelude::*;

verus! {

/// `k` times `v`. The rules look at most six cells along a line, and for
/// those the product is written out.
pub open spec fn scaled(k: int, v: int) -> int {
    if k == 0 {
        0
    } else if k == 1 {
        v
    } else if k == 2 {
        2 * v
    } else if k == 3 {
        3 * v
    } else if k == 4 {
        4 * v
    } else if k == 5 {
        5 * v
    } else if k == 6 {
        6 * v
    } else {
        k * v
    }
}

/// The direction opposite to direction `d`.
pub open spec fn opposite(d: int) -> int {
    5 - d
}

/// Number of scan slots of a position: 81 cells, six directions each.
pub open spec fn slots() -> int {
    486
}

impl Position {
    /// The cell `k` steps from `(x, y)` along `(dx, dy)`.
    pub open spec fn ahead(self, x: int, y: int, dx: int, dy: int, k: int) -> Space {
        self.cell(x + scaled(k, dx), y + scaled(k, dy))
    }

    /// A piece of the side to move.
    pub open spec fn own(self) -> Space {
        Space::Occupied(self.player)
    }

    /// A piece of the other side.
    pub open spec fn foe(self) -> Space {
        Space::Occupied(self.player.other())
    }

    /// Whether the line that starts on the own piece at `(x, y)` can be pushed
    /// along `(dx, dy)`: one to three own pieces, then strictly fewer pieces of
    /// the other side, then an empty cell, or the edge where at least one
    /// piece of the other side is pushed.
    pub open spec fn can_push(self, x: int, y: int, dx: int, dy: int) -> bool {
        let c1 = self.ahead(x, y, dx, dy, 1);
        let c2 = self.ahead(x, y, dx, dy, 2);
        let c3 = self.ahead(x, y, dx, dy, 3);
        let c4 = self.ahead(x, y, dx, dy, 4);
        let c5 = self.ahead(x, y, dx, dy, 5);
        let me = self.own();
        let foe = self.foe();
        ||| c1 == Space::Empty
        ||| c1 == me && c2 == Space::Empty
        ||| c1 == me && c2 == foe && (c3 == Space::Empty || c3 == Space::OutOfBounds)
        ||| c1 == me && c2 == me && c3 == Space::Empty
        ||| c1 == me && c2 == me && c3 == foe && (c4 == Space::Empty || c4 == Space::OutOfBounds)
        ||| c1 == me && c2 == me && c3 == foe && c4 == foe && (c5 == Space::Empty || c5
            == Space::OutOfBounds)
    }

    /// The inline move from `(x, y)` along direction `d`.
    pub open spec fn inline_move(x: int, y: int, d: int) -> Move {
        Move::Inline {
            start: (x as usize, y as usize),
            dir: (dir_vec(d).0 as i8, dir_vec(d).1 as i8),
        }
    }

    /// The inline move from `(x, y)` along direction `d`, where the rules
    /// allow it.
    pub open spec fn inline_moves(self, x: int, y: int, d: int) -> Seq<Move> {
        if self.can_push(x, y, dir_vec(d).0, dir_vec(d).1) {
            seq![Position::inline_move(x, y, d)]
        } else {
            Seq::empty()
        }
    }

    /// Whether the `run` (two or three) own pieces that lie from `(x, y)`
    /// along direction `d` can side-step along direction `s`: each of them has
    /// an empty cell beside it.
    pub open spec fn can_sidestep(self, x: int, y: int, d: int, run: int, s: int) -> bool {
        let (dx, dy) = dir_vec(d);
        let (sx, sy) = dir_vec(s);
        &&& self.ahead(x, y, dx, dy, 1) == self.own()
        &&& run == 3 ==> self.ahead(x, y, dx, dy, 2) == self.own()
        &&& self.cell(x + sx, y + sy) == Space::Empty
        &&& self.cell(x + scaled(run - 1, dx) + sx, y + scaled(run - 1, dy) + sy) == Space::Empty
        &&& run == 3 ==> self.cell(x + dx + sx, y + dy + sy) == Space::Empty
    }

    /// The broadside move of the `run` pieces from `(x, y)` along direction
    /// `d`, side-stepping along direction `s`.
    pub open spec fn broadside_move(x: int, y: int, d: int, run: int, s: int) -> Move {
        let (dx, dy) = dir_vec(d);
        Move::Broadside {
            start: (x as usize, y as usize),
            mid: if run == 3 {
                Some(((x + dx) as usize, (y + dy) as usize))
            } else {
                None
            },
            stop: ((x + scaled(run - 1, dx)) as usize, (y + scaled(run - 1, dy)) as usize),
            dir: (dir_vec(s).0 as i8, dir_vec(s).1 as i8),
        }
    }

    /// Whether the rules allow the `run` own pieces that lie from `(x, y)`
    /// along direction `d` to side-step along direction `s`. The line runs
    /// along one of the first three directions, so that every line is named
    /// from one end only; `s` is neither the line's direction nor the
    /// opposite one; and each of the pieces has an empty cell beside it.
    pub open spec fn sidestep_ok(self, x: int, y: int, d: int, run: int, s: int) -> bool {
        &&& 0 <= d < 3
        &&& 0 <= s < 6
        &&& s != d
        &&& s != opposite(d)
        &&& self.can_sidestep(x, y, d, run, s)
    }

    /// The broadside move of `run` pieces from `(x, y)` along direction `d`,
    /// side-stepping along direction `s`, where the rules allow it.
    pub open spec fn broadside_moves(self, x: int, y: int, d: int, run: int, s: int) -> Seq<Move> {
        if self.sidestep_ok(x, y, d, run, s) {
            seq![Position::broadside_move(x, y, d, run, s)]
        } else {
            Seq::empty()
        }
    }

    /// The broadside moves of `run` pieces from `(x, y)` along direction `d`
    /// that side-step along the directions before `n`, in the directions'
    /// order.
    pub open spec fn broadsides_before(self, x: int, y: int, d: int, run: int, n: int) -> Seq<Move>
        decreases n,
    {
        if n <= 0 {
            Seq::empty()
        } else {
            self.broadsides_before(x, y, d, run, n - 1) + self.broadside_moves(x, y, d, run, n - 1)
        }
    }

    /// The moves that the own piece at `(x, y)` begins along direction `d`,
    /// in the order in which they are generated: the broadsides of two
    /// pieces, those of three, then the inline move.
    pub open spec fn dir_moves(self, x: int, y: int, d: int) -> Seq<Move> {
        self.broadsides_before(x, y, d, 2, 6) + self.broadsides_before(x, y, d, 3, 6)
            + self.inline_moves(x, y, d)
    }

    /// The moves of scan slot `s`: slot `(9 x + y) 6 + d` holds the moves
    /// that the cell `(x, y)` begins along direction `d`, none where the cell
    /// holds no piece of the side to move.
    pub open spec fn slot_moves(self, s: int) -> Seq<Move> {
        let x = s / 54;
        let y = (s / 6) % 9;
        let d = s % 6;
        if self.cell(x, y) == self.own() {
            self.dir_moves(x, y, d)
        } else {
            Seq::empty()
        }
    }

    /// The moves of the scan slots before `s`, in order.
    pub open spec fn moves_before(self, s: int) -> Seq<Move>
        decreases s,
    {
        if s <= 0 {
            Seq::empty()
        } else {
            self.moves_before(s - 1) + self.slot_moves(s - 1)
        }
    }

    /// The legal moves of the side to move, in generation order.
    pub open spec fn legal_moves(self) -> Seq<Move> {
        self.moves_before(slots())
    }

    /// Whether no two of `moves` lead to the same board: the boards after
    /// any two of them differ.
    pub open spec fn lead_apart(self, moves: Seq<Move>) -> bool {
        forall|i: int, j: int|
            #![trigger self.apply(moves[i]), self.apply(moves[j])]
            0 <= i < j < moves.len() ==> self.apply(moves[i]).cells != self.apply(moves[j]).cells
    }
}

/// A slot of a cell that holds no piece of the side to move adds nothing.
proof fn lemma_idle_slot(p: Position, x: int, y: int, d: int)
    requires
        on_grid(x, y),
        0 <= d < 6,
        p.cell(x, y) != p.own(),
    ensures
        p.moves_before((9 * x + y) * 6 + d + 1) == p.moves_before((9 * x + y) * 6 + d),
{
    let s = (9 * x + y) * 6 + d;
    assert(s / 54 == x);
    assert((s / 6) % 9 == y);
    assert(p.slot_moves(s) =~= Seq::<Move>::empty());
    assert(p.moves_before(s + 1) =~= p.moves_before(s));
}

/// The six slots of a cell that holds no piece of the side to move add
/// nothing.
proof fn lemma_skip_cell(p: Position, x: int, y: int)
    requires
        on_grid(x, y),
        p.cell(x, y) != p.own(),
    ensures
        p.moves_before((9 * x + y) * 6 + 6) == p.moves_before((9 * x + y) * 6),
{
    lemma_idle_slot(p, x, y, 0);
    lemma_idle_slot(p, x, y, 1);
    lemma_idle_slot(p, x, y, 2);
    lemma_idle_slot(p, x, y, 3);
    lemma_idle_slot(p, x, y, 4);
    lemma_idle_slot(p, x, y, 5);
}

/// One slot of a cell that holds a piece of the side to move adds the moves
/// along its direction.
proof fn lemma_scan_slot(p: Position, x: int, y: int, d: int)
    requires
        on_grid(x, y),
        0 <= d < 6,
        p.cell(x, y) == p.own(),
    ensures
        p.moves_before((9 * x + y) * 6 + d + 1) == p.moves_before((9 * x + y) * 6 + d)
            + p.dir_moves(x, y, d),
{
    let s = (9 * x + y) * 6 + d;
    assert(s / 54 == x);
    assert((s / 6) % 9 == y);
    assert(s % 6 == d);
}

/// A move is in two lists joined where it is in one of them.
proof fn lemma_joined_contains(a: Seq<Move>, b: Seq<Move>, m: Move)
    ensures
        (a + b).contains(m) <==> a.contains(m) || b.contains(m),
{
    if a.contains(m) {
        let i = choose|i: int| 0 <= i < a.len() && a[i] == m;
        assert((a + b)[i] == m);
    }
    if b.contains(m) {
        let i = choose|i: int| 0 <= i < b.len() && b[i] == m;
        assert((a + b)[a.len() + i] == m);
    }
    if (a + b).contains(m) {
        let i = choose|i: int| 0 <= i < (a + b).len() && (a + b)[i] == m;
        if i < a.len() {
            assert(a[i] == m);
        } else {
            assert(b[i - a.len()] == m);
        }
    }
}

/// The moves before slot `n` are the moves of the slots before `n`.
proof fn lemma_moves_before_contains(p: Position, n: int, m: Move)
    requires
        0 <= n,
    ensures
        p.moves_before(n).contains(m) <==> exists|s: int|
            0 <= s < n && #[trigger] p.slot_moves(s).contains(m),
    decreases n,
{
    if n > 0 {
        lemma_moves_before_contains(p, n - 1, m);
        lemma_joined_contains(p.moves_before(n - 1), p.slot_moves(n - 1), m);
        if p.moves_before(n).contains(m) {
            if p.slot_moves(n - 1).contains(m) {
            } else {
                let s = choose|s: int| 0 <= s < n - 1 && #[trigger] p.slot_moves(s).contains(m);
                assert(0 <= s < n && p.slot_moves(s).contains(m));
            }
        }
        if exists|s: int| 0 <= s < n && #[trigger] p.slot_moves(s).contains(m) {
            let s = choose|s: int| 0 <= s < n && #[trigger] p.slot_moves(s).contains(m);
            if s < n - 1 {
                assert(0 <= s < n - 1 && p.slot_moves(s).contains(m));
            }
        }
    }
}

/// A list of one move, or of none, holds that move and no other.
proof fn lemma_one_or_none(allowed: bool, only: Move, m: Move)
    ensures
        (if allowed {
            seq![only]
        } else {
            Seq::<Move>::empty()
        }).contains(m) <==> allowed && m == only,
{
    if allowed {
        assert(seq![only][0] == only);
    }
}

/// The broadsides along the side directions before `n` are those of each of
/// these directions.
proof fn lemma_broadsides_contains(p: Position, x: int, y: int, d: int, run: int, n: int, m: Move)
    requires
        0 <= n,
    ensures
        p.broadsides_before(x, y, d, run, n).contains(m) <==> exists|s: int|
            0 <= s < n && p.sidestep_ok(x, y, d, run, s) && m == #[trigger] Position::broadside_move(
                x,
                y,
                d,
                run,
                s,
            ),
    decreases n,
{
    if n > 0 {
        lemma_broadsides_contains(p, x, y, d, run, n - 1, m);
        lemma_joined_contains(
            p.broadsides_before(x, y, d, run, n - 1),
            p.broadside_moves(x, y, d, run, n - 1),
            m,
        );
        lemma_one_or_none(
            p.sidestep_ok(x, y, d, run, n - 1),
            Position::broadside_move(x, y, d, run, n - 1),
            m,
        );
        if p.broadsides_before(x, y, d, run, n).contains(m) {
            if p.broadside_moves(x, y, d, run, n - 1).contains(m) {
                assert(m == Position::broadside_move(x, y, d, run, n - 1));
            } else {
                let s = choose|s: int|
                    0 <= s < n - 1 && p.sidestep_ok(x, y, d, run, s) && m
                        == #[trigger] Position::broadside_move(x, y, d, run, s);
                assert(0 <= s < n && m == Position::broadside_move(x, y, d, run, s));
            }
        }
        if exists|s: int|
            0 <= s < n && p.sidestep_ok(x, y, d, run, s) && m == #[trigger] Position::broadside_move(
                x,
                y,
                d,
                run,
                s,
            ) {
            let s = choose|s: int|
                0 <= s < n && p.sidestep_ok(x, y, d, run, s) && m
                    == #[trigger] Position::broadside_move(x, y, d, run, s);
            if s < n - 1 {
                assert(0 <= s < n - 1 && m == Position::broadside_move(x, y, d, run, s));
            }
        }
    }
}

/// The moves along one direction are the push and the broadsides that the
/// rules allow there.
proof fn lemma_dir_moves_contains(p: Position, x: int, y: int, d: int, m: Move)
    ensures
        p.dir_moves(x, y, d).contains(m) <==> {
            ||| p.can_push(x, y, dir_vec(d).0, dir_vec(d).1) && m == Position::inline_move(x, y, d)
            ||| exists|run: int, s: int|
                (run == 2 || run == 3) && p.sidestep_ok(x, y, d, run, s) && m
                    == #[trigger] Position::broadside_move(x, y, d, run, s)
        },
{
    let b2 = p.broadsides_before(x, y, d, 2, 6);
    let b3 = p.broadsides_before(x, y, d, 3, 6);
    let push = p.inline_moves(x, y, d);
    lemma_joined_contains(b2, b3, m);
    lemma_joined_contains(b2 + b3, push, m);
    lemma_broadsides_contains(p, x, y, d, 2, 6, m);
    lemma_broadsides_contains(p, x, y, d, 3, 6, m);
    lemma_one_or_none(
        p.can_push(x, y, dir_vec(d).0, dir_vec(d).1),
        Position::inline_move(x, y, d),
        m,
    );
    if b2.contains(m) {
        let s = choose|s: int|
            0 <= s < 6 && p.sidestep_ok(x, y, d, 2, s) && m == #[trigger] Position::broadside_move(
                x,
                y,
                d,
                2,
                s,
            );
        assert(p.sidestep_ok(x, y, d, 2, s) && m == Position::broadside_move(x, y, d, 2, s));
    }
    if b3.contains(m) {
        let s = choose|s: int|
            0 <= s < 6 && p.sidestep_ok(x, y, d, 3, s) && m == #[trigger] Position::broadside_move(
                x,
                y,
                d,
                3,
                s,
            );
        assert(p.sidestep_ok(x, y, d, 3, s) && m == Position::broadside_move(x, y, d, 3, s));
    }
    if exists|run: int, s: int|
        (run == 2 || run == 3) && p.sidestep_ok(x, y, d, run, s) && m
            == #[trigger] Position::broadside_move(x, y, d, run, s) {
        let (run, s) = choose|run: int, s: int|
            (run == 2 || run == 3) && p.sidestep_ok(x, y, d, run, s) && m
                == #[trigger] Position::broadside_move(x, y, d, run, s);
        assert(0 <= s < 6 && p.sidestep_ok(x, y, d, run, s) && m == Position::broadside_move(
            x,
            y,
            d,
            run,
            s,
        ));
    }
}

/// Without a second own piece in line there is no broadside, and without a
/// third none of three.
proof fn lemma_short_line(p: Position, x: int, y: int, d: int, run: int, n: int)
    requires
        run == 2 || run == 3,
        p.ahead(x, y, dir_vec(d).0, dir_vec(d).1, 1) != p.own() || (run == 3 && p.ahead(
            x,
            y,
            dir_vec(d).0,
            dir_vec(d).1,
            2,
        ) != p.own()),
    ensures
        p.broadsides_before(x, y, d, run, n) == Seq::<Move>::empty(),
    decreases n,
{
    if n > 0 {
        lemma_short_line(p, x, y, d, run, n - 1);
        assert(p.broadsides_before(x, y, d, run, n) =~= Seq::<Move>::empty());
    }
}

/// The push that is generated from an own piece is legal.
proof fn lemma_generated_push_legal(p: Position, x: int, y: int, d: int)
    requires
        on_grid(x, y),
        0 <= d < 6,
        p.cell(x, y) == p.own(),
        p.can_push(x, y, dir_vec(d).0, dir_vec(d).1),
    ensures
        p.is_legal(Position::inline_move(x, y, d)),
{
    let m = Position::inline_move(x, y, d);
    assert(m->Inline_start.0 == x && m->Inline_start.1 == y);
    assert(m->Inline_dir.0 == dir_vec(d).0 && m->Inline_dir.1 == dir_vec(d).1);
    assert(dir_index(dir_vec(d).0, dir_vec(d).1) == d);
}

/// A broadside that is generated from an own piece is legal.
proof fn lemma_generated_sidestep_legal(p: Position, x: int, y: int, d: int, run: int, s: int)
    requires
        on_grid(x, y),
        run == 2 || run == 3,
        p.cell(x, y) == p.own(),
        p.sidestep_ok(x, y, d, run, s),
    ensures
        p.is_legal(Position::broadside_move(x, y, d, run, s)),
{
    let m = Position::broadside_move(x, y, d, run, s);
    let (dx, dy) = dir_vec(d);
    assert(on_grid(x + dx, y + dy));
    assert(on_grid(x + scaled(run - 1, dx), y + scaled(run - 1, dy)));
    assert(m->Broadside_start.0 == x && m->Broadside_start.1 == y);
    assert(m->Broadside_dir.0 == dir_vec(s).0 && m->Broadside_dir.1 == dir_vec(s).1);
    assert(dir_index(dir_vec(s).0, dir_vec(s).1) == s);
    assert(dir_index(dx, dy) == d);
    let next = match m->Broadside_mid {
        Some(c) => c,
        None => m->Broadside_stop,
    };
    assert(next.0 - x == dx && next.1 - y == dy);
    assert(m->Broadside_stop.0 == x + scaled(run - 1, dx));
    assert(m->Broadside_stop.1 == y + scaled(run - 1, dy));
}

/// Every move of a scan slot is legal.
proof fn lemma_slot_moves_legal(p: Position, s: int, m: Move)
    requires
        0 <= s < slots(),
        p.slot_moves(s).contains(m),
    ensures
        p.is_legal(m),
{
    let x = s / 54;
    let y = (s / 6) % 9;
    let d = s % 6;
    assert(on_grid(x, y) && 0 <= d < 6);
    assert(p.cell(x, y) == p.own());
    assert(p.dir_moves(x, y, d).contains(m));
    lemma_dir_moves_contains(p, x, y, d, m);
    if p.can_push(x, y, dir_vec(d).0, dir_vec(d).1) && m == Position::inline_move(x, y, d) {
        lemma_generated_push_legal(p, x, y, d);
    } else {
        let (run, side) = choose|run: int, side: int|
            (run == 2 || run == 3) && p.sidestep_ok(x, y, d, run, side) && m
                == #[trigger] Position::broadside_move(x, y, d, run, side);
        lemma_generated_sidestep_legal(p, x, y, d, run, side);
    }
}

/// The slot `(9 x + y) 6 + d` is the slot of the cell `(x, y)` and the
/// direction `d`.
proof fn lemma_slot_of(p: Position, x: int, y: int, d: int)
    requires
        on_grid(x, y),
        0 <= d < 6,
        p.cell(x, y) == p.own(),
    ensures
        0 <= (9 * x + y) * 6 + d < slots(),
        p.slot_moves((9 * x + y) * 6 + d) == p.dir_moves(x, y, d),
{
    let s = (9 * x + y) * 6 + d;
    assert(s / 54 == x);
    assert((s / 6) % 9 == y);
    assert(s % 6 == d);
}

/// Every legal push is a move of the scan slot of its start and direction.
proof fn lemma_legal_push_in_slot(p: Position, m: Move) -> (s: int)
    requires
        p.is_legal(m),
        m is Inline,
    ensures
        0 <= s < slots(),
        p.slot_moves(s).contains(m),
{
    let x = m->Inline_start.0 as int;
    let y = m->Inline_start.1 as int;
    let d = dir_index(m->Inline_dir.0 as int, m->Inline_dir.1 as int);
    assert(dir_vec(d).0 == m->Inline_dir.0 && dir_vec(d).1 == m->Inline_dir.1);
    assert(m == Position::inline_move(x, y, d));
    lemma_slot_of(p, x, y, d);
    lemma_dir_moves_contains(p, x, y, d, m);
    (9 * x + y) * 6 + d
}

/// A legal broadside is the generated broadside of its start, of the
/// direction of its line and of its own direction.
pub proof fn lemma_legal_sidestep_parts(p: Position, m: Move) -> (w: (int, int, int))
    requires
        p.is_legal(m),
        m is Broadside,
    ensures
        w.0 == 2 || w.0 == 3,
        (w.0 == 3) == (m->Broadside_mid is Some),
        on_grid(m->Broadside_start.0 as int, m->Broadside_start.1 as int),
        p.cell(m->Broadside_start.0 as int, m->Broadside_start.1 as int) == p.own(),
        p.sidestep_ok(m->Broadside_start.0 as int, m->Broadside_start.1 as int, w.1, w.0, w.2),
        m == Position::broadside_move(
            m->Broadside_start.0 as int,
            m->Broadside_start.1 as int,
            w.1,
            w.0,
            w.2,
        ),
        dir_vec(w.2).0 == m->Broadside_dir.0 && dir_vec(w.2).1 == m->Broadside_dir.1,
{
    let x = m->Broadside_start.0 as int;
    let y = m->Broadside_start.1 as int;
    let next = match m->Broadside_mid {
        Some(c) => c,
        None => m->Broadside_stop,
    };
    let run: int = if m->Broadside_mid is Some {
        3
    } else {
        2
    };
    let d = dir_index(next.0 - x, next.1 - y);
    let side = dir_index(m->Broadside_dir.0 as int, m->Broadside_dir.1 as int);
    assert(dir_vec(d).0 == next.0 - x && dir_vec(d).1 == next.1 - y);
    assert(dir_vec(side).0 == m->Broadside_dir.0 && dir_vec(side).1 == m->Broadside_dir.1);
    assert(side != d && side != opposite(d));
    assert(p.can_sidestep(x, y, d, run, side));
    assert(m == Position::broadside_move(x, y, d, run, side));
    (run, d, side)
}

/// Every legal broadside is a move of the scan slot of its start and of the
/// direction of its line.
proof fn lemma_legal_sidestep_in_slot(p: Position, m: Move) -> (s: int)
    requires
        p.is_legal(m),
        m is Broadside,
    ensures
        0 <= s < slots(),
        p.slot_moves(s).contains(m),
{
    let x = m->Broadside_start.0 as int;
    let y = m->Broadside_start.1 as int;
    let (run, d, side) = lemma_legal_sidestep_parts(p, m);
    lemma_slot_of(p, x, y, d);
    lemma_dir_moves_contains(p, x, y, d, m);
    (9 * x + y) * 6 + d
}

/// The generated moves are the legal moves: a move is in the list of legal
/// moves if and only if the rules allow the side to move to play it.
pub proof fn lemma_legal_moves_complete(p: Position, m: Move)
    ensures
        p.legal_moves().contains(m) <==> p.is_legal(m),
{
    lemma_moves_before_contains(p, slots(), m);
    if p.legal_moves().contains(m) {
        let s = choose|s: int| 0 <= s < slots() && #[trigger] p.slot_moves(s).contains(m);
        lemma_slot_moves_legal(p, s, m);
    }
    if p.is_legal(m) {
        let s = match m {
            Move::Inline { .. } => lemma_legal_push_in_slot(p, m),
            Move::Broadside { .. } => lemma_legal_sidestep_in_slot(p, m),
        };
        assert(0 <= s < slots() && p.slot_moves(s).contains(m));
    }
}

/// The scan slot that a move belongs to: that of its start and of its
/// direction, which for a broadside is the direction of its line.
pub open spec fn slot_of(m: Move) -> int {
    match m {
        Move::Inline { start, dir } => (9 * start.0 + start.1) * 6 + dir_index(
            dir.0 as int,
            dir.1 as int,
        ),
        Move::Broadside { start, mid, stop, dir } => {
            let next = match mid {
                Some(c) => c,
                None => stop,
            };
            (9 * start.0 + start.1) * 6 + dir_index(next.0 - start.0, next.1 - start.1)
        },
    }
}

/// Two lists without a repeated move and without a move in common join to a
/// list without a repeated move.
proof fn lemma_joined_distinct(a: Seq<Move>, b: Seq<Move>)
    requires
        a.no_duplicates(),
        b.no_duplicates(),
        forall|m: Move| a.contains(m) ==> !b.contains(m),
    ensures
        (a + b).no_duplicates(),
{
    assert forall|i: int, j: int| 0 <= i < (a + b).len() && 0 <= j < (a + b).len() && i != j implies (
    a + b)[i] != (a + b)[j] by {
        if i < a.len() && j >= a.len() {
            assert(a.contains(a[i]));
            assert(b.contains(b[j - a.len()]));
        }
        if j < a.len() && i >= a.len() {
            assert(a.contains(a[j]));
            assert(b.contains(b[i - a.len()]));
        }
    }
}

/// The broadsides of a line along the side directions before `n` are all
/// different.
proof fn lemma_broadsides_distinct(p: Position, x: int, y: int, d: int, run: int, n: int)
    requires
        0 <= n <= 6,
    ensures
        p.broadsides_before(x, y, d, run, n).no_duplicates(),
    decreases n,
{
    if n > 0 {
        lemma_broadsides_distinct(p, x, y, d, run, n - 1);
        let before = p.broadsides_before(x, y, d, run, n - 1);
        let here = p.broadside_moves(x, y, d, run, n - 1);
        assert forall|m: Move| #[trigger] before.contains(m) implies !here.contains(m) by {
            lemma_broadsides_contains(p, x, y, d, run, n - 1, m);
            let s = choose|s: int|
                0 <= s < n - 1 && p.sidestep_ok(x, y, d, run, s) && m
                    == #[trigger] Position::broadside_move(x, y, d, run, s);
            lemma_one_or_none(
                p.sidestep_ok(x, y, d, run, n - 1),
                Position::broadside_move(x, y, d, run, n - 1),
                m,
            );
            assert(dir_vec(s) != dir_vec(n - 1));
        }
        lemma_joined_distinct(before, here);
    }
}

/// The moves of a cell along one direction are all different.
proof fn lemma_dir_moves_distinct(p: Position, x: int, y: int, d: int)
    requires
        0 <= d < 6,
    ensures
        p.dir_moves(x, y, d).no_duplicates(),
{
    let b2 = p.broadsides_before(x, y, d, 2, 6);
    let b3 = p.broadsides_before(x, y, d, 3, 6);
    let push = p.inline_moves(x, y, d);
    lemma_broadsides_distinct(p, x, y, d, 2, 6);
    lemma_broadsides_distinct(p, x, y, d, 3, 6);
    assert forall|m: Move| true implies {
        &&& #[trigger] b2.contains(m) ==> m is Broadside && m->Broadside_mid is None
        &&& b3.contains(m) ==> m is Broadside && m->Broadside_mid is Some
        &&& (b2 + b3).contains(m) ==> m is Broadside
        &&& push.contains(m) ==> m is Inline
    } by {
        lemma_broadsides_contains(p, x, y, d, 2, 6, m);
        lemma_broadsides_contains(p, x, y, d, 3, 6, m);
        lemma_joined_contains(b2, b3, m);
        lemma_one_or_none(
            p.can_push(x, y, dir_vec(d).0, dir_vec(d).1),
            Position::inline_move(x, y, d),
            m,
        );
    }
    assert forall|m: Move| b2.contains(m) implies !b3.contains(m) by {
        assert(b2.contains(m) ==> m->Broadside_mid is None);
    }
    lemma_joined_distinct(b2, b3);
    assert forall|m: Move| (b2 + b3).contains(m) implies !push.contains(m) by {
        assert(b2.contains(m) ==> m is Broadside);
    }
    lemma_joined_distinct(b2 + b3, push);
}

/// A move of a scan slot belongs to that slot by its start and direction.
proof fn lemma_slot_moves_slot(p: Position, s: int, m: Move)
    requires
        0 <= s < slots(),
        p.slot_moves(s).contains(m),
    ensures
        slot_of(m) == s,
{
    let x = s / 54;
    let y = (s / 6) % 9;
    let d = s % 6;
    assert(on_grid(x, y) && 0 <= d < 6);
    assert(s == (9 * x + y) * 6 + d);
    lemma_dir_moves_contains(p, x, y, d, m);
    let (dx, dy) = dir_vec(d);
    assert(dir_index(dx, dy) == d);
    if m is Broadside {
        assert(on_grid(x + dx, y + dy));
        let run: int = if m->Broadside_mid is Some {
            3
        } else {
            2
        };
        assert(on_grid(x + scaled(run - 1, dx), y + scaled(run - 1, dy)));
    }
}

/// The moves before a scan slot are all different.
proof fn lemma_moves_before_distinct(p: Position, n: int)
    requires
        0 <= n <= slots(),
    ensures
        p.moves_before(n).no_duplicates(),
    decreases n,
{
    if n > 0 {
        lemma_moves_before_distinct(p, n - 1);
        let s = n - 1;
        if p.cell(s / 54, (s / 6) % 9) == p.own() {
            lemma_dir_moves_distinct(p, s / 54, (s / 6) % 9, s % 6);
        }
        let before = p.moves_before(n - 1);
        let here = p.slot_moves(n - 1);
        assert forall|m: Move| #[trigger] before.contains(m) implies !here.contains(m) by {
            lemma_moves_before_contains(p, n - 1, m);
            let earlier = choose|e: int| 0 <= e < n - 1 && #[trigger] p.slot_moves(e).contains(m);
            lemma_slot_moves_slot(p, earlier, m);
            if p.slot_moves(n - 1).contains(m) {
                lemma_slot_moves_slot(p, n - 1, m);
            }
        }
        lemma_joined_distinct(p.moves_before(n - 1), p.slot_moves(n - 1));
    }
}

/// No move is generated twice.
pub proof fn lemma_legal_moves_distinct(p: Position)
    ensures
        p.legal_moves().no_duplicates(),
{
    lemma_moves_before_distinct(p, slots());
}

/// No two of the generated moves lead to the same board.
pub proof fn lemma_legal_moves_apart(p: Position)
    ensures
        p.lead_apart(p.legal_moves()),
{
    let moves = p.legal_moves();
    lemma_legal_moves_distinct(p);
    assert forall|i: int, j: int|
        #![trigger p.apply(moves[i]), p.apply(moves[j])]
        0 <= i < j < moves.len() implies p.apply(moves[i]).cells != p.apply(moves[j]).cells by {
        assert(moves.contains(moves[i]) && moves.contains(moves[j]));
        lemma_legal_moves_complete(p, moves[i]);
        lemma_legal_moves_complete(p, moves[j]);
        lemma_moves_lead_apart(p, moves[i], moves[j]);
    }
}

impl Game {
    /// The broadside move of the `run` own pieces from `(x, y)` along
    /// direction `dir_index`, side-stepping along direction `side`, where the
    /// rules allow it.
    fn probe_broadside(&self, x: usize, y: usize, dir_index: usize, run: usize, side: usize) -> (m:
        Option<Move>)
        requires
            x < 9,
            y < 9,
            dir_index < 6,
            side < 6,
            run == 2 || run == 3,
            self@.ahead(
                x as int,
                y as int,
                dir_vec(dir_index as int).0,
                dir_vec(dir_index as int).1,
                1,
            ) == self@.own(),
            run == 3 ==> self@.ahead(
                x as int,
                y as int,
                dir_vec(dir_index as int).0,
                dir_vec(dir_index as int).1,
                2,
            ) == self@.own(),
        ensures
            self@.broadside_moves(x as int, y as int, dir_index as int, run as int, side as int)
                == match m {
                Some(found) => seq![found],
                None => Seq::empty(),
            },
    {
        if dir_index >= 3 || side == dir_index || side == 5 - dir_index {
            return None;
        }
        let (x_off, y_off) = direction(dir_index);
        let (x_side, y_side) = direction(side);
        let first_x: i8 = x as i8;
        let first_y: i8 = y as i8;
        let mid_x: i8 = first_x + x_off;
        let mid_y: i8 = first_y + y_off;
        let last_x: i8 = if run == 3 {
            mid_x + x_off
        } else {
            mid_x
        };
        let last_y: i8 = if run == 3 {
            mid_y + y_off
        } else {
            mid_y
        };
        if !self.is_empty_at(last_x + x_side, last_y + y_side) {
            return None;
        }
        if !self.is_empty_at(first_x + x_side, first_y + y_side) {
            return None;
        }
        if run == 3 {
            if !self.is_empty_at(mid_x + x_side, mid_y + y_side) {
                return None;
            }
            Some(
                Move::Broadside {
                    start: (x, y),
                    mid: Some((mid_x as usize, mid_y as usize)),
                    stop: (last_x as usize, last_y as usize),
                    dir: (x_side, y_side),
                },
            )
        } else {
            Some(
                Move::Broadside {
                    start: (x, y),
                    mid: None,
                    stop: (last_x as usize, last_y as usize),
                    dir: (x_side, y_side),
                },
            )
        }
    }

    /// Appends the broadside moves of the `run` own pieces from `(x, y)`
    /// along direction `dir_index`, side direction by side direction.
    fn push_broadsides(&self, moves: &mut Vec<Move>, x: usize, y: usize, dir_index: usize, run: usize)
        requires
            x < 9,
            y < 9,
            dir_index < 6,
            run == 2 || run == 3,
            self@.ahead(
                x as int,
                y as int,
                dir_vec(dir_index as int).0,
                dir_vec(dir_index as int).1,
                1,
            ) == self@.own(),
            run == 3 ==> self@.ahead(
                x as int,
                y as int,
                dir_vec(dir_index as int).0,
                dir_vec(dir_index as int).1,
                2,
            ) == self@.own(),
        ensures
            final(moves)@ == old(moves)@ + self@.broadsides_before(
                x as int,
                y as int,
                dir_index as int,
                run as int,
                6,
            ),
    {
        let ghost p = self@;
        let ghost before = moves@;
        let mut side: usize = 0;
        assert(moves@ =~= before + p.broadsides_before(
            x as int,
            y as int,
            dir_index as int,
            run as int,
            0,
        ));
        while side < 6
            invariant
                p == self@,
                x < 9,
                y < 9,
                dir_index < 6,
                run == 2 || run == 3,
                side <= 6,
                p.ahead(
                    x as int,
                    y as int,
                    dir_vec(dir_index as int).0,
                    dir_vec(dir_index as int).1,
                    1,
                ) == p.own(),
                run == 3 ==> p.ahead(
                    x as int,
                    y as int,
                    dir_vec(dir_index as int).0,
                    dir_vec(dir_index as int).1,
                    2,
                ) == p.own(),
                moves@ == before + p.broadsides_before(
                    x as int,
                    y as int,
                    dir_index as int,
                    run as int,
                    side as int,
                ),
            decreases 6 - side,
        {
            let ghost so_far = moves@;
            match self.probe_broadside(x, y, dir_index, run, side) {
                Some(found) => moves.push(found),
                None => (),
            }
            assert(moves@ =~= so_far + p.broadside_moves(
                x as int,
                y as int,
                dir_index as int,
                run as int,
                side as int,
            ));
            assert(moves@ =~= before + p.broadsides_before(
                x as int,
                y as int,
                dir_index as int,
                run as int,
                side + 1,
            ));
            side += 1;
        }
    }

    /// Whether `(x, y)` is an empty cell of the grid.
    pub(crate) fn is_empty_at(&self, x: i8, y: i8) -> (r: bool)
        ensures
            r == (self@.cell(x as int, y as int) == Space::Empty),
    {
        if !in_bounds(x, y) {
            return false;
        }
        match self.board[x as usize][y as usize] {
            Space::Empty => true,
            _ => false,
        }
    }

    /// What `(x, y)` holds; everything off the grid is out of bounds.
    pub(crate) fn space_at(&self, x: i8, y: i8) -> (r: Space)
        ensures
            r == self@.cell(x as int, y as int),
    {
        if !in_bounds(x, y) {
            return Space::OutOfBounds;
        }
        self.board[x as usize][y as usize]
    }

    /// The moves that the own piece at `(x, y)` begins along direction
    /// `dir_index`.
    fn search_along_dir(&self, x: usize, y: usize, dir_index: usize) -> (moves: Vec<Move>)
        requires
            x < 9,
            y < 9,
            dir_index < 6,
            self@.cell(x as int, y as int) == self@.own(),
        ensures
            moves@ == self@.dir_moves(x as int, y as int, dir_index as int),
    {
        let mut moves: Vec<Move> = Vec::new();
        let mut sumito: usize = 1;
        let mut opp_sumito: usize = 0;
        let (x_off, y_off) = direction(dir_index);
        let push = Move::Inline { start: (x, y), dir: (x_off, y_off) };
        let mut new_x: i8 = x as i8 + x_off;
        let mut new_y: i8 = y as i8 + y_off;
        let ghost p = self@;
        let ghost gx = x as int;
        let ghost gy = y as int;
        let ghost d = dir_index as int;
        let ghost dx = dir_vec(d).0;
        let ghost dy = dir_vec(d).1;
        assert(push == Position::inline_move(gx, gy, d));
        proof {
            if p.ahead(gx, gy, dx, dy, 1) != p.own() {
                lemma_short_line(p, gx, gy, d, 2, 6);
                lemma_short_line(p, gx, gy, d, 3, 6);
            } else if p.ahead(gx, gy, dx, dy, 2) != p.own() {
                lemma_short_line(p, gx, gy, d, 3, 6);
            }
        }

        match self.space_at(new_x, new_y) {
            Space::Empty => {
                moves.push(push);
                assert(moves@ =~= p.dir_moves(gx, gy, d));
                return moves;
            },
            Space::OutOfBounds => {
                assert(moves@ =~= p.dir_moves(gx, gy, d));
                return moves;
            },
            _ => (),
        }

        loop
            invariant
                x < 9,
                y < 9,
                dir_index < 6,
                p == self@,
                gx == x,
                gy == y,
                d == dir_index,
                dx == dir_vec(d).0,
                dy == dir_vec(d).1,
                x_off == dx,
                y_off == dy,
                push == Position::inline_move(gx, gy, d),
                p.cell(gx, gy) == p.own(),
                1 <= sumito <= 3,
                opp_sumito < sumito,
                new_x == gx + scaled(sumito + opp_sumito, dx),
                new_y == gy + scaled(sumito + opp_sumito, dy),
                p.ahead(gx, gy, dx, dy, 1) is Occupied,
                p.ahead(gx, gy, dx, dy, 1) != p.own() ==> p.broadsides_before(gx, gy, d, 2, 6)
                    == Seq::<Move>::empty(),
                p.ahead(gx, gy, dx, dy, 1) != p.own() || p.ahead(gx, gy, dx, dy, 2) != p.own()
                    ==> p.broadsides_before(gx, gy, d, 3, 6) == Seq::<Move>::empty(),
                sumito >= 2 ==> p.ahead(gx, gy, dx, dy, 1) == p.own(),
                sumito >= 3 ==> p.ahead(gx, gy, dx, dy, 2) == p.own(),
                opp_sumito >= 1 ==> p.ahead(gx, gy, dx, dy, sumito as int) == p.foe(),
                opp_sumito >= 2 ==> p.ahead(gx, gy, dx, dy, sumito + 1) == p.foe(),
                moves@ == if sumito == 1 {
                    Seq::<Move>::empty()
                } else if sumito == 2 {
                    p.broadsides_before(gx, gy, d, 2, 6)
                } else {
                    p.broadsides_before(gx, gy, d, 2, 6) + p.broadsides_before(gx, gy, d, 3, 6)
                },
            decreases 6 - sumito - opp_sumito,
        {
            match self.space_at(new_x, new_y) {
                Space::Occupied(player) => {
                    if player == self.player {
                        if opp_sumito != 0 {
                            assert(moves@ =~= p.dir_moves(gx, gy, d));
                            return moves;
                        }
                        sumito += 1;
                        if sumito > 3 {
                            assert(moves@ =~= p.dir_moves(gx, gy, d));
                            return moves;
                        }
                        let ghost before = moves@;
                        self.push_broadsides(&mut moves, x, y, dir_index, sumito);
                        assert(moves@ =~= before + p.broadsides_before(
                            gx,
                            gy,
                            d,
                            sumito as int,
                            6,
                        ));
                    } else {
                        opp_sumito += 1;
                        if opp_sumito == sumito {
                            assert(moves@ =~= p.dir_moves(gx, gy, d));
                            return moves;
                        }
                    }
                },
                Space::Empty => {
                    moves.push(push);
                    assert(moves@ =~= p.dir_moves(gx, gy, d));
                    return moves;
                },
                Space::OutOfBounds => {
                    if opp_sumito != 0 {
                        moves.push(push);
                    }
                    assert(moves@ =~= p.dir_moves(gx, gy, d));
                    return moves;
                },
            }
            new_x += x_off;
            new_y += y_off;
        }
    }

    /// The legal moves of the side to move, in generation order: cell by
    /// cell, and for each cell direction by direction. The list holds every
    /// move that the rules allow and no other, none of them twice, and no
    /// two of them lead to the same board.
    pub fn get_legal_moves(&self) -> (moves: Vec<Move>)
        ensures
            moves@ == self@.legal_moves(),
            moves@.no_duplicates(),
            forall|m: Move| moves@.contains(m) <==> self@.is_legal(m),
            self@.lead_apart(moves@),
    {
        let mut moves: Vec<Move> = Vec::new();
        let ghost p = self@;
        proof {
            lemma_legal_moves_distinct(p);
            assert forall|m: Move| p.legal_moves().contains(m) <==> p.is_legal(m) by {
                lemma_legal_moves_complete(p, m);
            }
            lemma_legal_moves_apart(p);
        }
        let mut x: usize = 0;
        while x < 9
            invariant
                x <= 9,
                p == self@,
                moves@ == p.moves_before(54 * x),
            decreases 9 - x,
        {
            let mut y: usize = 0;
            while y < 9
                invariant
                    x < 9,
                    y <= 9,
                    p == self@,
                    moves@ == p.moves_before((9 * x + y) * 6),
                decreases 9 - y,
            {
                let mine = match self.board[x][y] {
                    Space::Occupied(player) => player == self.player,
                    _ => false,
                };
                if mine {
                    let mut dir_index: usize = 0;
                    while dir_index < 6
                        invariant
                            x < 9,
                            y < 9,
                            dir_index <= 6,
                            p == self@,
                            p.cell(x as int, y as int) == p.own(),
                            moves@ == p.moves_before((9 * x + y) * 6 + dir_index),
                        decreases 6 - dir_index,
                    {
                        let mut found = self.search_along_dir(x, y, dir_index);
                        moves.append(&mut found);
                        proof {
                            lemma_scan_slot(p, x as int, y as int, dir_index as int);
                        }
                        dir_index += 1;
                    }
                } else {
                    proof {
                        lemma_skip_cell(p, x as int, y as int);
                    }
                }
                y += 1;
            }
            x += 1;
        }
        moves
    }
}

impl Move {
    /// Whether the two moves are the same.
    pub fn same(&self, other: &Move) -> (r: bool)
        ensures
            r == (*self == *other),
    {
        match (*self, *other) {
            (Move::Inline { start: a, dir: d }, Move::Inline { start: b, dir: e }) => {
                a.0 == b.0 && a.1 == b.1 && d.0 == e.0 && d.1 == e.1
            },
            (
                Move::Broadside { start: a, mid: am, stop: az, dir: d },
                Move::Broadside { start: b, mid: bm, stop: bz, dir: e },
            ) => {
                let mids = match (am, bm) {
                    (Some(u), Some(v)) => u.0 == v.0 && u.1 == v.1,
                    (None, None) => true,
                    _ => false,
                };
                a.0 == b.0 && a.1 == b.1 && mids && az.0 == bz.0 && az.1 == bz.1 && d.0 == e.0
                    && d.1 == e.1
            },
            _ => false,
        }
    }
}

impl Game {
    /// Whether the rules allow the side to move to play `m`.
    pub fn allows(&self, m: &Move) -> (ok: bool)
        ensures
            ok == self@.is_legal(*m),
    {
        let moves = self.get_legal_moves();
        proof {
            lemma_legal_moves_complete(self@, *m);
        }
        let mut i: usize = 0;
        while i < moves.len()
            invariant
                i <= moves.len(),
                moves@.contains(*m) <==> self@.is_legal(*m),
                forall|j: int| 0 <= j < i ==> moves[j] != *m,
            decreases moves.len() - i,
        {
            if moves[i].same(m) {
                assert(moves@[i as int] == *m);
                return true;
            }
            i += 1;
        }
        false
    }
}

} // verus!
