use crate::chance::pick_move;
use crate::game::{Game, Move, Player, Position, MOVE_CAP};
use crate::movegen::lemma_legal_moves_complete;
use rand::rngs::StdRng;
use vstd::prelude::*;

verus! {

impl Position {
    /// Whether `m` takes a piece off the board: after it a side has fewer
    /// pieces than before.
    pub open spec fn takes(self, m: Move) -> bool {
        self.apply(m).black_pieces < self.black_pieces || self.apply(m).white_pieces
            < self.white_pieces
    }

    /// Whether the greedy policy may play `m`: the first legal move that
    /// takes a piece, or any legal move where none takes a piece.
    pub open spec fn greedy_allows(self, m: Move) -> bool {
        let moves = self.legal_moves();
        exists|i: int|
            0 <= i < moves.len() && #[trigger] moves[i] == m && (forall|j: int|
                0 <= j < i ==> !self.takes(#[trigger] moves[j])) && (self.takes(m) || forall|j: int|
                0 <= j < moves.len() ==> !self.takes(#[trigger] moves[j]))
    }

    /// Whether a playout may play `m` here: under the greedy policy what that
    /// policy allows, else any legal move.
    pub open spec fn policy_allows(self, greedy: bool, m: Move) -> bool {
        if greedy {
            self.greedy_allows(m)
        } else {
            self.legal_moves().contains(m)
        }
    }

    /// The position after the moves `steps` were played from this one.
    pub open spec fn played(self, steps: Seq<Move>) -> Position
        decreases steps.len(),
    {
        if steps.len() == 0 {
            self
        } else {
            self.played(steps.drop_last()).apply(steps.last())
        }
    }

    /// Whether `steps` is the course of a playout from this position: every
    /// move is one that the policy allows where it is played, and after the
    /// first move no move is played once the game is over.
    pub open spec fn plays_out(self, greedy: bool, steps: Seq<Move>) -> bool
        decreases steps.len(),
    {
        steps.len() == 0 || {
            let before = steps.drop_last();
            &&& self.plays_out(greedy, before)
            &&& before.len() == 0 || !self.played(before).game_over
            &&& self.played(before).policy_allows(greedy, steps.last())
        }
    }

    /// Whether a playout from this position can end with `outcome`: some
    /// course of play leads to a position where the game is over, and the
    /// outcome is its winner; or to one where the side to move has no legal
    /// move, and the outcome is that error.
    pub open spec fn can_end_with(
        self,
        greedy: bool,
        outcome: Result<Option<Player>, PlayoutError>,
    ) -> bool {
        exists|steps: Seq<Move>| #[trigger]
            self.plays_out(greedy, steps) && {
                let end = self.played(steps);
                ||| steps.len() > 0 && end.game_over && outcome == Ok::<
                    Option<Player>,
                    PlayoutError,
                >(end.winner)
                ||| (steps.len() == 0 || !end.game_over) && end.legal_moves().len() == 0
                    && outcome == Err::<Option<Player>, PlayoutError>(PlayoutError::NoLegalMove)
            }
    }
}

/// Why a playout did not reach the end of the game.
#[derive(Clone, Copy, Debug, PartialEq, Eq, Structural)]
pub enum PlayoutError {
    /// The side to move has no legal move.
    NoLegalMove,
}

/// Play counts the moves and ends by the move cap, whatever the moves: after
/// `steps` the move counter is higher by their number; once it is past the
/// cap the game is over without a winner; and a game that is over stays
/// over.
pub proof fn lemma_play_ends_by_cap(p: Position, steps: Seq<Move>)
    ensures
        p.played(steps).move_number == p.move_number + steps.len(),
        steps.len() > 0 && p.move_number + steps.len() > MOVE_CAP ==> p.played(steps).game_over
            && p.played(steps).winner is None,
        p.game_over ==> p.played(steps).game_over,
    decreases steps.len(),
{
    if steps.len() > 0 {
        lemma_play_ends_by_cap(p, steps.drop_last());
    }
}

/// A game that is over after the first `k` of `steps` is over after all of
/// them.
pub proof fn lemma_over_stays_over(p: Position, steps: Seq<Move>, k: int)
    requires
        0 <= k <= steps.len(),
        p.played(steps.take(k)).game_over,
    ensures
        p.played(steps).game_over,
    decreases steps.len() - k,
{
    if k == steps.len() {
        assert(steps.take(k) =~= steps);
    } else {
        assert(steps.drop_last().take(k) =~= steps.take(k));
        lemma_over_stays_over(p, steps.drop_last(), k);
    }
}

/// The moves after which a side has fewer pieces are the captures.
pub proof fn lemma_takes_is_capture(p: Position, m: Move)
    ensures
        p.takes(m) == p.captures(m),
{
}

/// A course of play goes on by one move that the policy allows.
proof fn lemma_play_on(start: Position, greedy: bool, steps: Seq<Move>, m: Move)
    requires
        start.plays_out(greedy, steps),
        steps.len() == 0 || !start.played(steps).game_over,
        start.played(steps).policy_allows(greedy, m),
    ensures
        start.plays_out(greedy, steps.push(m)),
        start.played(steps.push(m)) == start.played(steps).apply(m),
{
    assert(steps.push(m).drop_last() =~= steps);
}

impl Game {
    /// The index of the first of the legal moves `moves` that takes a piece.
    pub fn first_taking_move(&self, moves: &Vec<Move>) -> (found: Option<usize>)
        requires
            self@.counts_ok(),
            self.move_number < i16::MAX,
            forall|j: int| 0 <= j < moves.len() ==> self@.is_legal(#[trigger] moves[j]),
        ensures
            found matches Some(i) ==> i < moves.len() && self@.takes(moves[i as int]) && forall|j: int|
                0 <= j < i ==> !self@.takes(#[trigger] moves[j]),
            found is None ==> forall|j: int| 0 <= j < moves.len() ==> !self@.takes(#[trigger] moves[j]),
    {
        let current_black = self.black_pieces;
        let current_white = self.white_pieces;
        let mut i: usize = 0;
        while i < moves.len()
            invariant
                self@.counts_ok(),
                self.move_number < i16::MAX,
                forall|j: int| 0 <= j < moves.len() ==> self@.is_legal(#[trigger] moves[j]),
                current_black == self.black_pieces,
                current_white == self.white_pieces,
                i <= moves.len(),
                forall|j: int| 0 <= j < i ==> !self@.takes(#[trigger] moves[j]),
            decreases moves.len() - i,
        {
            let potential_state = self.make_move(&moves[i]);
            if potential_state.black_pieces < current_black || potential_state.white_pieces
                < current_white {
                return Some(i);
            }
            i += 1;
        }
        None
    }

    /// Plays moves drawn at random with `rng` among the legal moves until the
    /// game is over, and returns the winner. At least one move is played. A
    /// position in which the side to move has no legal move ends the playout
    /// with an error.
    pub fn random_playout(&self, rng: &mut StdRng) -> (outcome: Result<Option<Player>, PlayoutError>)
        requires
            self@.counts_ok(),
            self.move_number < i16::MAX,
        ensures
            self@.can_end_with(false, outcome),
            self@.legal_moves().len() == 0 ==> outcome is Err,
    {
        let mut state = *self;
        let ghost mut steps: Seq<Move> = Seq::empty();
        loop
            invariant
                state@ == self@.played(steps),
                steps.len() == 0 ==> state@ == self@,
                steps.len() > 0 ==> self@.legal_moves().len() > 0,
                self@.plays_out(false, steps),
                state@.counts_ok(),
                state.move_number < i16::MAX,
                steps.len() > 0 ==> !state.game_over && state@.status_ok(),
            decreases
                    (if steps.len() == 0 {
                        1int
                    } else {
                        0int
                    }),
                    1001 - state.move_number,
        {
            let moves = state.get_legal_moves();
            match pick_move(&moves, rng) {
                None => {
                    assert(self@.plays_out(false, steps));
                    return Err(PlayoutError::NoLegalMove);
                },
                Some(next_move) => {
                    proof {
                        lemma_legal_moves_complete(state@, next_move);
                        lemma_play_on(self@, false, steps, next_move);
                    }
                    let next_state = state.make_move(&next_move);
                    proof {
                        steps = steps.push(next_move);
                    }
                    if next_state.game_over {
                        assert(self@.plays_out(false, steps));
                        return Ok(next_state.winner);
                    }
                    state = next_state;
                },
            }
        }
    }

    /// Plays moves until the game is over, and returns the winner: each time
    /// the first legal move that takes a piece, or where none does a move
    /// drawn at random with `rng` among the legal moves. At least one move is
    /// played. A position in which the side to move has no legal move ends
    /// the playout with an error.
    pub fn greedy_playout(&self, rng: &mut StdRng) -> (outcome: Result<Option<Player>, PlayoutError>)
        requires
            self@.counts_ok(),
            self.move_number < i16::MAX,
        ensures
            self@.can_end_with(true, outcome),
            self@.legal_moves().len() == 0 ==> outcome is Err,
    {
        let mut state = *self;
        let ghost mut steps: Seq<Move> = Seq::empty();
        loop
            invariant
                state@ == self@.played(steps),
                steps.len() == 0 ==> state@ == self@,
                steps.len() > 0 ==> self@.legal_moves().len() > 0,
                self@.plays_out(true, steps),
                state@.counts_ok(),
                state.move_number < i16::MAX,
                steps.len() > 0 ==> !state.game_over && state@.status_ok(),
            decreases
                    (if steps.len() == 0 {
                        1int
                    } else {
                        0int
                    }),
                    1001 - state.move_number,
        {
            let next_moves = state.get_legal_moves();
            proof {
                assert forall|j: int| 0 <= j < next_moves.len() implies state@.is_legal(
                    #[trigger] next_moves[j],
                ) by {
                    assert(next_moves@.contains(next_moves@[j]));
                }
            }
            let taking = state.first_taking_move(&next_moves);
            let chosen = match taking {
                Some(i) => Some(next_moves[i]),
                None => pick_move(&next_moves, rng),
            };
            match chosen {
                None => {
                    assert(self@.plays_out(true, steps));
                    return Err(PlayoutError::NoLegalMove);
                },
                Some(next_move) => {
                    proof {
                        lemma_legal_moves_complete(state@, next_move);
                        let i = choose|i: int|
                            0 <= i < next_moves@.len() && next_moves@[i] == next_move;
                        if let Some(t) = taking {
                            assert(next_moves@[t as int] == next_move);
                        } else {
                            assert(next_moves@[i] == next_move);
                        }
                        assert(state@.greedy_allows(next_move));
                        lemma_play_on(self@, true, steps, next_move);
                    }
                    let next_state = state.make_move(&next_move);
                    proof {
                        steps = steps.push(next_move);
                    }
                    if next_state.game_over {
                        assert(self@.plays_out(true, steps));
                        return Ok(next_state.winner);
                    }
                    state = next_state;
                },
            }
        }
    }
}

} // verus!
