//! The choice of a move: the root of the search, spread over worker
//! threads, and the reply of the engine to a move of its opponent.

use rayon::iter::{IntoParallelIterator, ParallelIterator};
use vstd::prelude::*;
use crate::board::board_wf;
use crate::chains::move_views;
use crate::game::{Checkers, CheckersError, Position};
use crate::laws::{
    lemma_best_score_is_root_value, lemma_no_branch_iff_terminal, lemma_root_moves_of_mover,
};
use crate::moves::Move;
use crate::search::{
    best_branch, child, lemma_child_wf, lemma_move_keeps_wf, pick_best, root_moves,
    score_table, scores_view, square_scores, table_view, value,
};

verus! {

/// Scores the root moves of all 64 squares on rayon's thread pool. The body
/// is one chain of rayon calls: `into_par_iter` on the range of the squares
/// 0 to 63, `map` through [`Checkers::score_square`], and `collect` into a
/// vector. Nothing of it is proved. The contract states what rayon documents
/// of these calls on an indexed parallel iterator: every square is mapped
/// exactly once, and the results stand in the order of the squares, as a
/// sequential `map` and `collect` would leave them. What each entry holds is
/// what the verified [`Checkers::score_square`] returns for its square.
#[verifier::external_body]
fn score_squares(state: &Checkers, max_depth: usize) -> (r: Vec<Vec<i32>>)
    requires
        board_wf(state@.board),
        max_depth >= 1,
    ensures
        r@.len() == 64,
        forall|k: int|
            0 <= k < 64 ==> scores_view(#[trigger] r@[k]@) == square_scores(
                state@,
                state@.turn,
                k,
                max_depth as nat,
            ),
{
    (0..64usize).into_par_iter().map(|k| state.score_square(k, max_depth)).collect()
}

impl Position {
    /// Whether the engine, which plays red, answers the move that led from
    /// `self` to `next`: it does when the turn has passed to red.
    pub open spec fn engine_answers(self, next: Position) -> bool {
        !(self.turn < 0) && next.turn < 0
    }

    /// The position after the side to move has played the best move of a
    /// search to the ply `depth`; `self` when that side has no move.
    pub open spec fn after_answer(self, depth: nat) -> Position {
        match best_branch(self, self.turn, depth) {
            Some((k, n)) => child(self, k, root_moves(self, self.turn, k)[n]),
            None => self,
        }
    }
}

impl Checkers {
    /// The best move for the side to move, found by a search to the ply
    /// `max_depth`: the square of the piece and its move. Every move of every
    /// piece of the side to move is played on a copy of the match and the
    /// position that it leads to is searched; the move with the greatest
    /// score is chosen when black is to move, the one with the least when red
    /// is, and the first in the order of the squares and of their moves among
    /// equals. The score of the chosen move is the minimax value of the
    /// position, searched at full width. The search fails with `GameOver`
    /// exactly when the side to move has no move. The side is read from the
    /// match: `_team` has no part in the search.
    pub fn get_best_move(&self, max_depth: usize, _team: i32) -> (r: Result<
        (usize, usize, Move),
        CheckersError,
    >)
        requires
            board_wf(self@.board),
            self@.turn != 0,
            max_depth >= 1,
        ensures
            r is Err <==> self@.terminal(),
            r matches Err(e) ==> e == CheckersError::GameOver,
            r matches Ok((j, i, m)) ==> j < 8 && i < 8 && (best_branch(
                self@,
                self@.turn,
                max_depth as nat,
            ) matches Some((k, n)) && k == 8 * j + i && 0 <= n < root_moves(self@, self@.turn, k).len()
                && m@ == root_moves(self@, self@.turn, k)[n] && m@ == self@.all_moves(
                j as int,
                i as int,
            )[n]),
            r matches Ok((j, i, m)) ==> value(
                child(self@, 8 * j + i, m@),
                (max_depth - 1) as nat,
                self@.turn < 0,
            ) == value(self@, max_depth as nat, self@.turn > 0),
    {
        let side = self.current_turn;
        proof {
            reveal(best_branch);
            lemma_no_branch_iff_terminal(self@, max_depth as nat);
            lemma_best_score_is_root_value(self@, side as int, max_depth as nat);
        }
        let ghost table = score_table(self@, side as int, max_depth as nat);
        let scores = score_squares(self, max_depth);
        assert(table_view(scores@) =~= table);
        match pick_best(&scores, side) {
            None => Err(CheckersError::GameOver),
            Some((k, n)) => {
                assert(table[k as int].len() == scores[k as int].len());
                proof {
                    lemma_root_moves_of_mover(self@, k as int);
                }
                let moves = self.square_moves(k, side > 0);
                assert(move_views(moves@) == root_moves(self@, side as int, k as int));
                assert(move_views(moves@)[n as int] == moves[n as int]@);
                Ok((k / 8, k % 8, moves[n].duplicate()))
            },
        }
    }

    /// Lets the side to move play the best move of a search to the ply
    /// `search_depth`. The call fails with `GameOver`, and leaves the match
    /// as it was, exactly when that side has no move.
    pub fn answer(&mut self, search_depth: usize) -> (r: Result<(), CheckersError>)
        requires
            board_wf(old(self)@.board),
            old(self)@.turn != 0,
            search_depth >= 1,
        ensures
            final(self)@ == old(self)@.after_answer(search_depth as nat),
            r is Err <==> old(self)@.terminal(),
            r is Err ==> r == Err::<(), CheckersError>(CheckersError::GameOver),
    {
        let ghost p = self@;
        proof {
            lemma_no_branch_iff_terminal(p, search_depth as nat);
        }
        match self.get_best_move(search_depth, self.current_turn) {
            Ok((j, i, m)) => {
                proof {
                    let (k, n) = best_branch(p, p.turn, search_depth as nat).unwrap();
                    assert(k / 8 == j && k % 8 == i);
                    lemma_child_wf(p, p.turn > 0, k, n);
                }
                let _ = self.make_move_from_enum(j, i, &m);
                Ok(())
            },
            Err(e) => Err(e),
        }
    }

    /// Plays the move from (`move_from_j`, `move_from_i`) to (`move_to_j`,
    /// `move_to_i`) and, if the turn has passed to red, lets the engine answer
    /// with the best move of a search to the ply `search_depth`. A move that
    /// is not legal is turned down and the match is left as it was. When red
    /// is to answer and has no move, the move stands and the call fails with
    /// `GameOver`.
    pub fn make_move_then_ai(
        &mut self,
        move_from_j: usize,
        move_from_i: usize,
        move_to_j: usize,
        move_to_i: usize,
        search_depth: usize,
    ) -> (r: Result<(), CheckersError>)
        requires
            board_wf(old(self)@.board),
            search_depth >= 1,
        ensures
            !old(self)@.legal(
                move_from_j as int,
                move_from_i as int,
                move_to_j as int,
                move_to_i as int,
            ) ==> r == Err::<(), CheckersError>(CheckersError::ImpossibleMove) && *final(self)
                == *old(self),
            old(self)@.legal(
                move_from_j as int,
                move_from_i as int,
                move_to_j as int,
                move_to_i as int,
            ) ==> ({
                let next = old(self)@.after_move(
                    move_from_j as int,
                    move_from_i as int,
                    move_to_j as int,
                    move_to_i as int,
                );
                if !old(self)@.engine_answers(next) {
                    r is Ok && final(self)@ == next
                } else {
                    &&& final(self)@ == next.after_answer(search_depth as nat)
                    &&& r is Err <==> next.terminal()
                    &&& r is Err ==> r == Err::<(), CheckersError>(CheckersError::GameOver)
                }
            }),
    {
        let stored_turn = self.current_turn;
        proof {
            if self@.legal(
                move_from_j as int,
                move_from_i as int,
                move_to_j as int,
                move_to_i as int,
            ) {
                lemma_move_keeps_wf(
                    self@,
                    move_from_j as int,
                    move_from_i as int,
                    move_to_j as int,
                    move_to_i as int,
                );
            }
        }
        match self.make_move(move_from_j, move_from_i, move_to_j, move_to_i) {
            Ok(()) => {},
            Err(e) => {
                return Err(e);
            },
        }
        if stored_turn < 0 || self.current_turn >= 0 {
            return Ok(());
        }
        self.answer(search_depth)
    }
}

} // verus!
