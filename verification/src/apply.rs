//! The application of moves to a match.

use vstd::prelude::*;
use crate::board::{
    can_jump, can_step, jump_board, promote, step_board, BLACK_KING, BLACK_PIECE, RED_KING,
    RED_PIECE,
};
use crate::game::{has_jump, shifted, targets, Checkers, CheckersError, Position};
use crate::moves::{end_square, Direction, Move, Step};
use crate::rules::span_between;

verus! {

/// A piece has a capture from a square exactly when the list of its captures
/// is not empty.
pub proof fn lemma_jump_targets(board: Seq<int>, j: int, i: int)
    ensures
        targets(board, j, i, true).len() > 0 <==> has_jump(board, j, i),
{
}

/// The value of a piece once it stands on `row`: a man that has reached the
/// farthest row is a king.
pub fn promoted(piece: i32, row: usize) -> (r: i32)
    ensures
        r == promote(piece as int, row as int),
{
    if piece == RED_PIECE && row == 7 {
        RED_KING
    } else if piece == BLACK_PIECE && row == 0 {
        BLACK_KING
    } else {
        piece
    }
}

impl Checkers {
    /// Carries the piece at (`j`, `i`) one cell in direction `d` and returns
    /// the square where it lands.
    pub fn slide(&mut self, j: usize, i: usize, d: Direction) -> (r: (usize, usize))
        requires
            j < 8,
            i < 8,
            can_step(old(self)@.board, j as int, i as int, d),
        ensures
            final(self)@ == (Position {
                board: step_board(old(self)@.board, j as int, i as int, d),
                ..old(self)@
            }),
            r.0 == j + d.row_delta(),
            r.1 == i + d.col_delta(),
    {
        let piece = self.piece_at(j, i);
        match shifted(j, i, d, 1) {
            Some((a, b)) => {
                self.put(j, i, 0);
                self.put(a, b, promoted(piece, a));
                (a, b)
            },
            None => (j, i),
        }
    }

    /// Carries the piece at (`j`, `i`) two cells in direction `d`, takes the
    /// piece that it jumps over off the board, and returns the square where
    /// it lands.
    pub fn leap(&mut self, j: usize, i: usize, d: Direction) -> (r: (usize, usize))
        requires
            j < 8,
            i < 8,
            can_jump(old(self)@.board, j as int, i as int, d),
        ensures
            final(self)@ == (Position {
                board: jump_board(old(self)@.board, j as int, i as int, d),
                ..old(self)@
            }),
            r.0 == j + 2 * d.row_delta(),
            r.1 == i + 2 * d.col_delta(),
    {
        let piece = self.piece_at(j, i);
        match shifted(j, i, d, 2) {
            Some((a, b)) => {
                match shifted(j, i, d, 1) {
                    Some((c, e)) => {
                        self.put(j, i, 0);
                        self.put(a, b, promoted(piece, a));
                        self.put(c, e, 0);
                        (a, b)
                    },
                    None => (j, i),
                }
            },
            None => (j, i),
        }
    }

    /// Plays the move from (`move_from_j`, `move_from_i`) to (`move_to_j`,
    /// `move_to_i`). The move is played exactly when it is a legal move of the
    /// side to move; otherwise the match is left as it was.
    pub fn make_move(
        &mut self,
        move_from_j: usize,
        move_from_i: usize,
        move_to_j: usize,
        move_to_i: usize,
    ) -> (r: Result<(), CheckersError>)
        ensures
            r is Ok <==> old(self)@.legal(
                move_from_j as int,
                move_from_i as int,
                move_to_j as int,
                move_to_i as int,
            ),
            r is Ok ==> final(self)@ == old(self)@.after_move(
                move_from_j as int,
                move_from_i as int,
                move_to_j as int,
                move_to_i as int,
            ),
            r is Err ==> r == Err::<(), CheckersError>(CheckersError::ImpossibleMove) && *final(self)
                == *old(self),
    {
        reveal(Position::after_move);
        if !self.can_make_move(move_from_j, move_from_i, move_to_j, move_to_i) {
            return Err(CheckersError::ImpossibleMove);
        }
        let step = match span_between(move_from_j, move_from_i, move_to_j, move_to_i) {
            Some(s) => s,
            None => {
                return Err(CheckersError::ImpossibleMove);
            },
        };
        let mut chained = false;
        if step.size == 1 {
            let landing = self.slide(move_from_j, move_from_i, step.direction);
            assert(landing == (move_to_j, move_to_i));
        } else {
            let landing = self.leap(move_from_j, move_from_i, step.direction);
            assert(landing == (move_to_j, move_to_i));
            self.required_square = Some(landing);
            proof {
                lemma_jump_targets(self@.board, move_to_j as int, move_to_i as int);
            }
            let piece = self.piece_at(move_to_j, move_to_i);
            match self.get_possible_moves(move_to_j, move_to_i, piece) {
                Ok(Some(_)) => {
                    chained = true;
                },
                _ => {},
            }
            assert(chained == has_jump(self@.board, move_to_j as int, move_to_i as int));
        }
        if !chained {
            self.required_square = None;
            if self.current_turn < 0 {
                self.current_turn = 1;
            } else {
                self.current_turn = -1;
            }
        }
        self.game_over = self.is_game_over();
        Ok(())
    }

    /// Plays one step of the piece at (`j`, `i`) and returns the square where
    /// it lands.
    fn make_step(&mut self, j: usize, i: usize, step: Step) -> (r: Result<
        (usize, usize),
        CheckersError,
    >)
        requires
            old(self)@.legal(j as int, i as int, step.row_from(j as int), step.col_from(i as int)),
        ensures
            final(self)@ == old(self)@.after_move(
                j as int,
                i as int,
                step.row_from(j as int),
                step.col_from(i as int),
            ),
            r matches Ok((a, b)) && a == step.row_from(j as int) && b == step.col_from(i as int),
    {
        match shifted(j, i, step.direction, step.size) {
            Some((a, b)) => match self.make_move(j, i, a, b) {
                Ok(()) => Ok((a, b)),
                Err(e) => Err(e),
            },
            None => Err(CheckersError::ImpossibleMove),
        }
    }

    /// Plays `move_to_make` with the piece at (`move_from_j`, `move_from_i`)
    /// and returns the square where the piece ends. A sequence is played hop
    /// by hop; every hop has to be legal where it is played.
    pub fn make_move_from_enum(
        &mut self,
        move_from_j: usize,
        move_from_i: usize,
        move_to_make: &Move,
    ) -> (r: Result<(usize, usize), CheckersError>)
        requires
            old(self)@.steps_legal(move_from_j as int, move_from_i as int, move_to_make@.steps()),
        ensures
            final(self)@ == old(self)@.after_steps(
                move_from_j as int,
                move_from_i as int,
                move_to_make@.steps(),
            ),
            r matches Ok((a, b)) && (a as int, b as int) == end_square(
                move_from_j as int,
                move_from_i as int,
                move_to_make@.steps(),
            ),
    {
        match move_to_make {
            Move::Step(step) => {
                let ghost steps = move_to_make@.steps();
                assert(steps.len() == 1 && steps[0] == *step);
                assert(steps.drop_first().len() == 0);
                let ghost tj = step.row_from(move_from_j as int);
                let ghost ti = step.col_from(move_from_i as int);
                assert(old(self)@.after_steps(move_from_j as int, move_from_i as int, steps)
                    == old(self)@.after_move(move_from_j as int, move_from_i as int, tj, ti)) by {
                    reveal_with_fuel(Position::after_steps, 2);
                }
                assert(end_square(move_from_j as int, move_from_i as int, steps) == (tj, ti)) by {
                    reveal_with_fuel(end_square, 2);
                }
                self.make_step(move_from_j, move_from_i, *step)
            },
            Move::Sequence(sequence) => {
                let mut current_j = move_from_j;
                let mut current_i = move_from_i;
                let mut n: usize = 0;
                let ghost steps = sequence@;
                assert(steps.subrange(0, steps.len() as int) =~= steps);
                while n < sequence.len()
                    invariant
                        n <= sequence.len(),
                        steps == sequence@,
                        self@.steps_legal(
                            current_j as int,
                            current_i as int,
                            steps.subrange(n as int, steps.len() as int),
                        ),
                        self@.after_steps(
                            current_j as int,
                            current_i as int,
                            steps.subrange(n as int, steps.len() as int),
                        ) == old(self)@.after_steps(move_from_j as int, move_from_i as int, steps),
                        end_square(
                            current_j as int,
                            current_i as int,
                            steps.subrange(n as int, steps.len() as int),
                        ) == end_square(move_from_j as int, move_from_i as int, steps),
                    decreases sequence.len() - n,
                {
                    let ghost rest = steps.subrange(n as int, steps.len() as int);
                    assert(rest.len() > 0 && rest[0] == steps[n as int]);
                    assert(rest.drop_first() =~= steps.subrange(n + 1, steps.len() as int));
                    match self.make_step(current_j, current_i, sequence[n]) {
                        Ok((a, b)) => {
                            current_j = a;
                            current_i = b;
                        },
                        Err(e) => {
                            return Err(e);
                        },
                    }
                    n = n + 1;
                }
                Ok((current_j, current_i))
            },
        }
    }
}

} // verus!
