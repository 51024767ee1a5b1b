//! Legal destinations and the end of the match.

use vstd::prelude::*;
use crate::board::{can_jump, can_step, cell, opposing, BLACK_PIECE, RED_PIECE};
use crate::game::{as_targets, direction_targets, shifted, span, targets, Checkers, CheckersError};
use crate::moves::{Direction, Step};

verus! {

/// Whether the two cell values are pieces of different sides.
pub fn are_opposing(a: i32, b: i32) -> (r: bool)
    ensures
        r == opposing(a as int, b as int),
{
    (a < 0 && b > 0) || (a > 0 && b < 0)
}

/// The step that leads from (`fj`, `fi`) to (`tj`, `ti`), if the two squares
/// lie one or two cells apart on a diagonal.
pub fn span_between(fj: usize, fi: usize, tj: usize, ti: usize) -> (r: Option<Step>)
    requires
        fj < 8,
        fi < 8,
        tj < 8,
        ti < 8,
    ensures
        r == span(fj as int, fi as int, tj as int, ti as int),
{
    let up = tj < fj;
    let right = ti > fi;
    let rows: usize = if up {
        fj - tj
    } else {
        tj - fj
    };
    let cols: usize = if right {
        ti - fi
    } else {
        fi - ti
    };
    if rows != cols || rows == 0 || rows > 2 {
        return None;
    }
    let direction = if up {
        if right {
            Direction::UpRight
        } else {
            Direction::UpLeft
        }
    } else {
        if right {
            Direction::DownRight
        } else {
            Direction::DownLeft
        }
    };
    Some(Step { direction, size: rows })
}

impl Checkers {
    /// Whether the piece at (`j`, `i`) may move one cell in direction `d`.
    pub fn can_move(&self, j: usize, i: usize, d: Direction) -> (r: bool)
        requires
            j < 8,
            i < 8,
        ensures
            r == can_step(self@.board, j as int, i as int, d),
    {
        let piece = self.piece_at(j, i);
        let up = d.is_up();
        if piece == 0 || (piece == RED_PIECE && up) || (piece == BLACK_PIECE && !up) {
            return false;
        }
        match shifted(j, i, d, 1) {
            Some((a, b)) => self.piece_at(a, b) == 0,
            None => false,
        }
    }

    /// Whether the piece at (`j`, `i`) may capture in direction `d`.
    pub fn can_jump(&self, j: usize, i: usize, d: Direction) -> (r: bool)
        requires
            j < 8,
            i < 8,
        ensures
            r == can_jump(self@.board, j as int, i as int, d),
    {
        let piece = self.piece_at(j, i);
        let up = d.is_up();
        if piece == 0 || (piece == RED_PIECE && up) || (piece == BLACK_PIECE && !up) {
            return false;
        }
        match shifted(j, i, d, 2) {
            Some((a, b)) => {
                match shifted(j, i, d, 1) {
                    Some((c, e)) => are_opposing(self.piece_at(c, e), piece) && self.piece_at(a, b)
                        == 0,
                    None => false,
                }
            },
            None => false,
        }
    }

    /// Appends to `out` what direction `d` contributes to the destinations
    /// of (`j`, `i`).
    fn push_direction(
        &self,
        j: usize,
        i: usize,
        d: Direction,
        jumps_only: bool,
        out: &mut Vec<(usize, usize, bool)>,
    )
        requires
            j < 8,
            i < 8,
        ensures
            as_targets(final(out)@) == as_targets(old(out)@) + direction_targets(
                self@.board,
                j as int,
                i as int,
                d,
                jumps_only,
            ),
    {
        let ghost before = out@;
        if !jumps_only && self.can_move(j, i, d) {
            match shifted(j, i, d, 1) {
                Some((a, b)) => {
                    out.push((a, b, false));
                },
                None => {},
            }
        } else if self.can_jump(j, i, d) {
            match shifted(j, i, d, 2) {
                Some((a, b)) => {
                    out.push((a, b, true));
                },
                None => {},
            }
        }
        assert(as_targets(out@) =~= as_targets(before) + direction_targets(
            self@.board,
            j as int,
            i as int,
            d,
            jumps_only,
        ));
    }

    /// The destinations of the piece at (`j`, `i`) for the side `team`
    /// (positive for black, negative for red), each with the flag that says
    /// whether it is reached by a capture; `None` when there is none. The
    /// query fails exactly when the square is empty or holds a piece of the
    /// other side.
    pub fn get_possible_moves(&self, j: usize, i: usize, team: i32) -> (r: Result<
        Option<Vec<(usize, usize, bool)>>,
        CheckersError,
    >)
        requires
            j < 8,
            i < 8,
        ensures
            r is Err <==> cell(self@.board, j as int, i as int) == 0 || opposing(
                cell(self@.board, j as int, i as int),
                team as int,
            ),
            r is Err ==> r == Err::<Option<Vec<(usize, usize, bool)>>, CheckersError>(
                CheckersError::WrongPiece,
            ),
            r matches Ok(None) ==> self@.possible_moves(j as int, i as int).len() == 0,
            r matches Ok(Some(v)) ==> v@.len() > 0 && as_targets(v@) == self@.possible_moves(
                j as int,
                i as int,
            ),
    {
        let piece = self.piece_at(j, i);
        if piece == 0 || are_opposing(piece, team) {
            return Err(CheckersError::WrongPiece);
        }
        let jumps_only = match self.required_square {
            Some((a, b)) => {
                if a != j || b != i {
                    return Ok(None);
                }
                true
            },
            None => false,
        };
        let mut found: Vec<(usize, usize, bool)> = Vec::new();
        assert(as_targets(found@) =~= Seq::empty());
        self.push_direction(j, i, Direction::UpRight, jumps_only, &mut found);
        self.push_direction(j, i, Direction::UpLeft, jumps_only, &mut found);
        self.push_direction(j, i, Direction::DownRight, jumps_only, &mut found);
        self.push_direction(j, i, Direction::DownLeft, jumps_only, &mut found);
        assert(as_targets(found@) =~= targets(self@.board, j as int, i as int, jumps_only));
        assert(as_targets(found@).len() == found@.len());
        if found.is_empty() {
            Ok(None)
        } else {
            Ok(Some(found))
        }
    }

    /// Whether the side to move has no piece with a destination.
    pub fn mover_is_stuck(&self) -> (r: bool)
        ensures
            r == self@.terminal(),
    {
        for j in 0..8usize
            invariant
                forall|a: int, b: int| #[trigger]
                    self@.owned(a, b) && a < j ==> self@.possible_moves(a, b).len() == 0,
        {
            for i in 0..8usize
                invariant
                    j < 8,
                    forall|a: int, b: int| #[trigger]
                        self@.owned(a, b) && (a < j || (a == j && b < i))
                            ==> self@.possible_moves(a, b).len() == 0,
            {
                let piece = self.piece_at(j, i);
                if piece != 0 && !are_opposing(piece, self.current_turn) {
                    match self.get_possible_moves(j, i, piece) {
                        Ok(Some(_)) => {
                            assert(self@.owned(j as int, i as int));
                            return false;
                        },
                        _ => {},
                    }
                }
            }
        }
        true
    }

    /// Whether red has won: black is to move and has no move.
    pub fn red_won(&self) -> (r: bool)
        ensures
            r == self@.red_won(),
    {
        if self.current_turn <= 0 {
            return false;
        }
        self.mover_is_stuck()
    }

    /// Whether black has won: red is to move and has no move.
    pub fn black_won(&self) -> (r: bool)
        ensures
            r == self@.black_won(),
    {
        if self.current_turn >= 0 {
            return false;
        }
        self.mover_is_stuck()
    }

    /// Whether the match has ended: the side to move owns no square with a
    /// destination.
    pub fn is_game_over(&self) -> (r: bool)
        ensures
            r == (self@.red_won() || self@.black_won()),
            self@.turn != 0 ==> r == self@.terminal(),
    {
        self.black_won() || self.red_won()
    }

    /// Whether moving the piece at (`move_from_j`, `move_from_i`) to
    /// (`move_to_j`, `move_to_i`) is a legal move of the side to move.
    pub fn can_make_move(
        &self,
        move_from_j: usize,
        move_from_i: usize,
        move_to_j: usize,
        move_to_i: usize,
    ) -> (r: bool)
        ensures
            r == self@.legal(
                move_from_j as int,
                move_from_i as int,
                move_to_j as int,
                move_to_i as int,
            ),
    {
        if move_from_j > 7 || move_from_i > 7 || move_to_j > 7 || move_to_i > 7 {
            return false;
        }
        let piece = self.piece_at(move_from_j, move_from_i);
        if piece == 0 || are_opposing(piece, self.current_turn) {
            return false;
        }
        match span_between(move_from_j, move_from_i, move_to_j, move_to_i) {
            Some(s) => {
                if s.size == 1 {
                    self.required_square.is_none() && self.can_move(
                        move_from_j,
                        move_from_i,
                        s.direction,
                    )
                } else {
                    let free = match self.required_square {
                        Some((a, b)) => a == move_from_j && b == move_from_i,
                        None => true,
                    };
                    free && self.can_jump(move_from_j, move_from_i, s.direction)
                }
            },
            None => false,
        }
    }
}

} // verus!
