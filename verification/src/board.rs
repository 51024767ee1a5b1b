//! The board as a mathematical value, and the rules that read it.
//!
//! A board is a sequence of 64 cells in row-major order: the cell of row `j`
//! and column `i` has index `8 * j + i`. A cell holds 0 when it is empty,
//! -1 for a red man, -3 for a red king, 1 for a black man and 3 for a black
//! king. Red men travel down the board (towards row 7), black men up
//! (towards row 0); kings travel both ways.

use vstd::prelude::*;
use crate::moves::Direction;

verus! {

pub const RED_PIECE: i32 = -1;

pub const RED_KING: i32 = -3;

pub const BLACK_PIECE: i32 = 1;

pub const BLACK_KING: i32 = 3;

/// Whether row `j`, column `i` lies on the board.
pub open spec fn on_board(j: int, i: int) -> bool {
    0 <= j < 8 && 0 <= i < 8
}

/// The content of row `j`, column `i`.
pub open spec fn cell(board: Seq<int>, j: int, i: int) -> int {
    board[8 * j + i]
}

/// Whether `v` is one of the five values that a cell can hold.
pub open spec fn valid_piece(v: int) -> bool {
    v == 0 || v == 1 || v == -1 || v == 3 || v == -3
}

/// A board has 64 cells and each holds one of the five values.
pub open spec fn board_wf(board: Seq<int>) -> bool {
    &&& board.len() == 64
    &&& forall|k: int| 0 <= k < 64 ==> valid_piece(#[trigger] board[k])
}

/// Whether the two cell values are pieces of different sides.
pub open spec fn opposing(a: int, b: int) -> bool {
    (a < 0 && b > 0) || (a > 0 && b < 0)
}

/// Whether a piece `v` may travel in direction `d`: a man only forwards,
/// a king in every direction.
pub open spec fn may_head(v: int, d: Direction) -> bool {
    v != 0 && !(v == -1 && d.row_delta() < 0) && !(v == 1 && d.row_delta() > 0)
}

/// The piece at row `j`, column `i` may move one cell in direction `d`: the
/// neighbour on that diagonal is on the board and empty.
pub open spec fn can_step(board: Seq<int>, j: int, i: int, d: Direction) -> bool {
    &&& on_board(j, i)
    &&& on_board(j + d.row_delta(), i + d.col_delta())
    &&& may_head(cell(board, j, i), d)
    &&& cell(board, j + d.row_delta(), i + d.col_delta()) == 0
}

/// The piece at row `j`, column `i` may capture in direction `d`: the
/// neighbour on that diagonal is a piece of the other side and the cell
/// behind it is on the board and empty.
pub open spec fn can_jump(board: Seq<int>, j: int, i: int, d: Direction) -> bool {
    &&& on_board(j, i)
    &&& on_board(j + 2 * d.row_delta(), i + 2 * d.col_delta())
    &&& may_head(cell(board, j, i), d)
    &&& opposing(cell(board, j + d.row_delta(), i + d.col_delta()), cell(board, j, i))
    &&& cell(board, j + 2 * d.row_delta(), i + 2 * d.col_delta()) == 0
}

/// The number of directions in which the piece at row `j`, column `i` may
/// capture.
pub open spec fn jump_count(board: Seq<int>, j: int, i: int) -> int {
    (if can_jump(board, j, i, Direction::UpRight) { 1int } else { 0 })
        + (if can_jump(board, j, i, Direction::UpLeft) { 1int } else { 0 })
        + (if can_jump(board, j, i, Direction::DownRight) { 1int } else { 0 })
        + (if can_jump(board, j, i, Direction::DownLeft) { 1int } else { 0 })
}

/// What a piece `v` is once it stands on `row`: a man that has reached the
/// farthest row is a king.
pub open spec fn promote(v: int, row: int) -> int {
    if v == -1 && row == 7 {
        -3
    } else if v == 1 && row == 0 {
        3
    } else {
        v
    }
}

/// The board after the piece at (`fj`, `fi`) has been carried to
/// (`tj`, `ti`), promoted if it lands on its farthest row.
pub open spec fn relocate(board: Seq<int>, fj: int, fi: int, tj: int, ti: int) -> Seq<int> {
    board.update(8 * fj + fi, 0).update(8 * tj + ti, promote(cell(board, fj, fi), tj))
}

/// The board after the piece at (`j`, `i`) has moved one cell in direction
/// `d`.
pub open spec fn step_board(board: Seq<int>, j: int, i: int, d: Direction) -> Seq<int> {
    relocate(board, j, i, j + d.row_delta(), i + d.col_delta())
}

/// The board after the piece at (`j`, `i`) has captured in direction `d`:
/// the piece stands two cells further and the cell between is empty.
pub open spec fn jump_board(board: Seq<int>, j: int, i: int, d: Direction) -> Seq<int> {
    relocate(board, j, i, j + 2 * d.row_delta(), i + 2 * d.col_delta()).update(
        8 * (j + d.row_delta()) + (i + d.col_delta()),
        0,
    )
}

/// The number of pieces among the first `n` cells.
pub open spec fn pieces_upto(board: Seq<int>, n: int) -> nat
    decreases n,
{
    if n <= 0 {
        0
    } else {
        pieces_upto(board, n - 1) + if board[n - 1] != 0 {
            1nat
        } else {
            0nat
        }
    }
}

/// The number of pieces on the board.
pub open spec fn piece_count(board: Seq<int>) -> nat {
    pieces_upto(board, 64)
}

/// The sum of the first `n` cells.
pub open spec fn material_upto(board: Seq<int>, n: int) -> int
    decreases n,
{
    if n <= 0 {
        0
    } else {
        material_upto(board, n - 1) + board[n - 1]
    }
}

/// The sum of all cells: a man counts 1, a king 3, black positive and red
/// negative.
pub open spec fn material(board: Seq<int>) -> int {
    material_upto(board, 64)
}

/// Writing `v` into cell `k` changes the count of pieces among the first `n`
/// cells by what cell `k` contributes, if it is among them.
pub proof fn lemma_pieces_update(board: Seq<int>, k: int, v: int, n: int)
    requires
        board.len() == 64,
        0 <= k < 64,
        0 <= n <= 64,
    ensures
        pieces_upto(board.update(k, v), n) + (if k < n && board[k] != 0 { 1int } else { 0 })
            == pieces_upto(board, n) + (if k < n && v != 0 { 1int } else { 0 }),
    decreases n,
{
    if n > 0 {
        lemma_pieces_update(board, k, v, n - 1);
    }
}

/// A simple move keeps the number of pieces.
pub proof fn lemma_step_keeps_count(board: Seq<int>, j: int, i: int, d: Direction)
    requires
        board.len() == 64,
        can_step(board, j, i, d),
    ensures
        step_board(board, j, i, d).len() == 64,
        piece_count(step_board(board, j, i, d)) == piece_count(board),
{
    let from = 8 * j + i;
    let to = 8 * (j + d.row_delta()) + (i + d.col_delta());
    let b1 = board.update(from, 0);
    lemma_pieces_update(board, from, 0, 64);
    lemma_pieces_update(b1, to, promote(cell(board, j, i), j + d.row_delta()), 64);
}

/// A capture lowers the number of pieces by exactly one.
pub proof fn lemma_jump_lowers_count(board: Seq<int>, j: int, i: int, d: Direction)
    requires
        board.len() == 64,
        can_jump(board, j, i, d),
    ensures
        jump_board(board, j, i, d).len() == 64,
        piece_count(jump_board(board, j, i, d)) + 1 == piece_count(board),
{
    let from = 8 * j + i;
    let mid = 8 * (j + d.row_delta()) + (i + d.col_delta());
    let to = 8 * (j + 2 * d.row_delta()) + (i + 2 * d.col_delta());
    let b1 = board.update(from, 0);
    let b2 = b1.update(to, promote(cell(board, j, i), j + 2 * d.row_delta()));
    lemma_pieces_update(board, from, 0, 64);
    lemma_pieces_update(b1, to, promote(cell(board, j, i), j + 2 * d.row_delta()), 64);
    lemma_pieces_update(b2, mid, 0, 64);
}

/// Moving or capturing on a well-formed board gives a well-formed board.
pub proof fn lemma_relocate_wf(board: Seq<int>, j: int, i: int, d: Direction)
    requires
        board_wf(board),
    ensures
        can_step(board, j, i, d) ==> board_wf(step_board(board, j, i, d)),
        can_jump(board, j, i, d) ==> board_wf(jump_board(board, j, i, d)),
{
}

} // verus!
