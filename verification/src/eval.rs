//! The static evaluation of a position.

use vstd::prelude::*;
use crate::board::{board_wf, cell, jump_count, material, material_upto, opposing};
use crate::game::{Checkers, Position};
use crate::rules::are_opposing;

verus! {

/// The number of captures open to the pieces of the side `attacker`
/// (positive for black, negative for red) among the first `n` cells: each
/// piece counts once for every direction in which it may capture.
pub open spec fn threats_upto(board: Seq<int>, attacker: int, n: int) -> int
    decreases n,
{
    if n <= 0 {
        0
    } else {
        threats_upto(board, attacker, n - 1) + if board[n - 1] != 0 && !opposing(
            board[n - 1],
            attacker,
        ) {
            jump_count(board, (n - 1) / 8, (n - 1) % 8)
        } else {
            0
        }
    }
}

/// The number of captures open to red: how often a black piece can be taken.
pub open spec fn vulnerable_black(board: Seq<int>) -> int {
    threats_upto(board, -1, 64)
}

/// The number of captures open to black: how often a red piece can be taken.
pub open spec fn vulnerable_red(board: Seq<int>) -> int {
    threats_upto(board, 1, 64)
}

impl Position {
    /// The score of the position, high when it is good for black: the
    /// greatest score when black has won, the least when red has won, else
    /// five times the material, plus the captures open to red, minus the
    /// captures open to black.
    pub open spec fn evaluation(self) -> int {
        if self.black_won() {
            i32::MAX as int
        } else if self.red_won() {
            i32::MIN as int
        } else {
            5 * material(self.board) + vulnerable_black(self.board) - vulnerable_red(self.board)
        }
    }
}

/// The material of a well-formed board lies between -3 and 3 for each cell.
pub proof fn lemma_material_bounded(board: Seq<int>, n: int)
    requires
        board_wf(board),
        0 <= n <= 64,
    ensures
        -3 * n <= material_upto(board, n) <= 3 * n,
    decreases n,
{
    if n > 0 {
        lemma_material_bounded(board, n - 1);
    }
}

/// Each cell adds at most four captures.
pub proof fn lemma_threats_bounded(board: Seq<int>, attacker: int, n: int)
    requires
        0 <= n <= 64,
    ensures
        0 <= threats_upto(board, attacker, n) <= 4 * n,
    decreases n,
{
    if n > 0 {
        lemma_threats_bounded(board, attacker, n - 1);
    }
}

/// The evaluation of a well-formed board is a score that the machine can
/// hold.
pub proof fn lemma_evaluation_bounded(p: Position)
    requires
        board_wf(p.board),
    ensures
        i32::MIN <= p.evaluation() <= i32::MAX,
{
    lemma_material_bounded(p.board, 64);
    lemma_threats_bounded(p.board, -1, 64);
    lemma_threats_bounded(p.board, 1, 64);
}

impl Checkers {
    /// The sum of all cells: a man counts 1, a king 3, black positive and
    /// red negative.
    pub fn count_material(&self) -> (r: i32)
        requires
            board_wf(self@.board),
        ensures
            r == material(self@.board),
            -192 <= r <= 192,
    {
        let mut total: i32 = 0;
        for j in 0..8usize
            invariant
                board_wf(self@.board),
                total == material_upto(self@.board, 8 * j),
                -24 * j <= total <= 24 * j,
        {
            for i in 0..8usize
                invariant
                    j < 8,
                    board_wf(self@.board),
                    total == material_upto(self@.board, 8 * j + i),
                    -3 * (8 * j + i) <= total <= 3 * (8 * j + i),
            {
                let piece = self.piece_at(j, i);
                assert(self@.board[8 * j + i] == piece);
                total = total + piece;
            }
        }
        total
    }

    /// The number of captures open to the side `attacker`.
    fn count_threats(&self, attacker: i32) -> (r: i32)
        ensures
            r == threats_upto(self@.board, attacker as int, 64),
            0 <= r <= 256,
    {
        let mut total: i32 = 0;
        for j in 0..8usize
            invariant
                total == threats_upto(self@.board, attacker as int, 8 * j),
                0 <= total <= 32 * j,
        {
            for i in 0..8usize
                invariant
                    j < 8,
                    total == threats_upto(self@.board, attacker as int, 8 * j + i),
                    0 <= total <= 4 * (8 * j + i),
            {
                let piece = self.piece_at(j, i);
                assert(self@.board[8 * j + i] == piece);
                assert((8 * j + i) / 8 == j && (8 * j + i) % 8 == i);
                if piece != 0 && !are_opposing(piece, attacker) {
                    total = total + self.count_jumps(j, i);
                }
            }
        }
        total
    }

    /// How often a black piece can be taken: the number of captures open to
    /// the red pieces.
    pub fn count_vulnerable_black(&self) -> (r: i32)
        ensures
            r == vulnerable_black(self@.board),
            0 <= r <= 256,
    {
        self.count_threats(-1)
    }

    /// How often a red piece can be taken: the number of captures open to
    /// the black pieces.
    pub fn count_vulnerable_red(&self) -> (r: i32)
        ensures
            r == vulnerable_red(self@.board),
            0 <= r <= 256,
    {
        self.count_threats(1)
    }

    /// The score of the position, high when it is good for black.
    pub fn evaluate_board(&self) -> (r: i32)
        requires
            board_wf(self@.board),
        ensures
            r == self@.evaluation(),
    {
        if self.red_won() {
            return i32::MIN;
        } else if self.black_won() {
            return i32::MAX;
        }
        let mut score: i32 = self.count_material() * 5;
        score = score + self.count_vulnerable_black();
        score = score - self.count_vulnerable_red();
        score
    }
}

} // verus!
