use crate::game::{Game, Player, Position, Space, LOSING_PIECES, START_PIECES};
use vstd::prelude::*;

verus! {

/// The character that stands for what a cell holds.
pub open spec fn cell_text(s: Space) -> Seq<char> {
    match s {
        Space::Empty => "_"@,
        Space::Occupied(Player::Black) => "B"@,
        Space::Occupied(Player::White) => "W"@,
        Space::OutOfBounds => " "@,
    }
}

/// The character of the digit `d`.
pub open spec fn digit_text(d: int) -> Seq<char> {
    if d == 0 {
        "0"@
    } else if d == 1 {
        "1"@
    } else if d == 2 {
        "2"@
    } else if d == 3 {
        "3"@
    } else if d == 4 {
        "4"@
    } else if d == 5 {
        "5"@
    } else if d == 6 {
        "6"@
    } else if d == 7 {
        "7"@
    } else if d == 8 {
        "8"@
    } else {
        "9"@
    }
}

/// The decimal digits of `n`, without leading zeros.
pub open spec fn digits(n: nat) -> Seq<char>
    decreases n,
{
    if n < 10 {
        digit_text(n as int)
    } else {
        digits(n / 10) + digit_text((n % 10) as int)
    }
}

/// `n` in decimal, with a minus sign where it is negative.
pub open spec fn decimal(n: int) -> Seq<char> {
    if n < 0 {
        "-"@ + digits((-n) as nat)
    } else {
        digits(n as nat)
    }
}

impl Position {
    /// The first `n` cells of the board's line `y`, one character each.
    pub open spec fn line_text(self, y: int, n: int) -> Seq<char>
        decreases n,
    {
        if n <= 0 {
            Seq::empty()
        } else {
            self.line_text(y, n - 1) + cell_text(self.cell(n - 1, y))
        }
    }

    /// The first `n` lines of the board, each ended by a line break.
    pub open spec fn lines_text(self, n: int) -> Seq<char>
        decreases n,
    {
        if n <= 0 {
            Seq::empty()
        } else {
            self.lines_text(n - 1) + self.line_text(n - 1, 9) + "\n"@
        }
    }

    /// Who is to move, as a line of text.
    pub open spec fn turn_text(self) -> Seq<char> {
        match self.player {
            Player::White => "White To Move\n"@,
            Player::Black => "Black To Move\n"@,
        }
    }

    /// The side that has won by pieces taken, else the scores: a side's
    /// score is the number of pieces that the other side has lost.
    pub open spec fn score_text(self) -> Seq<char> {
        if self.white_pieces == LOSING_PIECES {
            "Black Wins!\n"@
        } else if self.black_pieces == LOSING_PIECES {
            "White Wins!\n"@
        } else {
            "White Score: "@ + decimal(START_PIECES - self.black_pieces) + "\n"@ + "Black Score: "@
                + decimal(START_PIECES - self.white_pieces) + "\n"@
        }
    }

    /// The position as text: the board line by line, the move number, the
    /// side to move, and the winner or the scores.
    pub open spec fn rendered(self) -> Seq<char> {
        self.lines_text(9) + "Turn Number "@ + decimal(self.move_number) + "\n"@
            + self.turn_text() + self.score_text()
    }
}

/// The character of the digit `d`.
fn digit_str(d: u32) -> (text: &'static str)
    requires
        d < 10,
    ensures
        text@ == digit_text(d as int),
{
    if d == 0 {
        "0"
    } else if d == 1 {
        "1"
    } else if d == 2 {
        "2"
    } else if d == 3 {
        "3"
    } else if d == 4 {
        "4"
    } else if d == 5 {
        "5"
    } else if d == 6 {
        "6"
    } else if d == 7 {
        "7"
    } else if d == 8 {
        "8"
    } else {
        "9"
    }
}

/// Appends the decimal digits of `n`.
fn append_digits(out: &mut String, n: u32)
    ensures
        final(out)@ == old(out)@ + digits(n as nat),
    decreases n,
{
    if n >= 10 {
        append_digits(out, n / 10);
    }
    out.append(digit_str(n % 10));
    proof {
        if n >= 10 {
            assert(out@ =~= old(out)@ + (digits((n / 10) as nat) + digit_text((n % 10) as int)));
        }
    }
}

/// Appends `n` in decimal.
fn append_decimal(out: &mut String, n: i32)
    ensures
        final(out)@ == old(out)@ + decimal(n as int),
{
    if n < 0 {
        out.append("-");
        let size: u32 = (-(n as i64)) as u32;
        append_digits(out, size);
        proof {
            assert(out@ =~= old(out)@ + ("-"@ + digits((-n) as nat)));
        }
    } else {
        append_digits(out, n as u32);
    }
}

impl Game {
    /// The position as text.
    pub fn render(&self) -> (text: String)
        ensures
            text@ == self@.rendered(),
    {
        let mut output = String::new();
        let ghost p = self@;
        let mut y: usize = 0;
        while y < 9
            invariant
                p == self@,
                y <= 9,
                output@ == p.lines_text(y as int),
            decreases 9 - y,
        {
            let ghost above = output@;
            let mut x: usize = 0;
            while x < 9
                invariant
                    p == self@,
                    y < 9,
                    x <= 9,
                    output@ == above + p.line_text(y as int, x as int),
                decreases 9 - x,
            {
                let ghost left = output@;
                match self.board[x][y] {
                    Space::Empty => output.append("_"),
                    Space::Occupied(Player::Black) => output.append("B"),
                    Space::Occupied(Player::White) => output.append("W"),
                    Space::OutOfBounds => output.append(" "),
                }
                proof {
                    assert(output@ == left + cell_text(p.cell(x as int, y as int)));
                    assert(output@ =~= above + (p.line_text(y as int, x as int) + cell_text(
                        p.cell(x as int, y as int),
                    )));
                }
                x += 1;
            }
            output.append("\n");
            y += 1;
        }
        output.append("Turn Number ");
        append_decimal(&mut output, self.move_number as i32);
        output.append("\n");
        match self.player {
            Player::White => output.append("White To Move\n"),
            Player::Black => output.append("Black To Move\n"),
        }
        let ghost head = output@;
        if self.white_pieces == LOSING_PIECES {
            output.append("Black Wins!\n");
        } else if self.black_pieces == LOSING_PIECES {
            output.append("White Wins!\n");
        } else {
            output.append("White Score: ");
            append_decimal(&mut output, START_PIECES as i32 - self.black_pieces as i32);
            output.append("\n");
            output.append("Black Score: ");
            append_decimal(&mut output, START_PIECES as i32 - self.white_pieces as i32);
            output.append("\n");
            proof {
                assert(output@ =~= head + p.score_text());
            }
        }
        output
    }
}

} // verus!
