//! The state of a match and the queries on it.

use vstd::prelude::*;
use crate::board::{
    board_wf, can_jump, can_step, cell, jump_board, on_board, opposing, step_board, BLACK_PIECE,
    RED_PIECE,
};
use crate::moves::{Direction, Step};

verus! {

/// Why a query or a command was turned down.
#[derive(Debug, Clone, Copy, PartialEq, Eq, Structural)]
pub enum CheckersError {
    /// The square is empty or holds a piece of the other side.
    WrongPiece,
    /// The move is not among the legal moves of the position.
    ImpossibleMove,
    /// The side to move has no move left.
    GameOver,
}

impl CheckersError {
    /// The text of the description of the error.
    pub open spec fn text(self) -> Seq<char> {
        match self {
            CheckersError::WrongPiece => "none of own piece at this square"@,
            CheckersError::ImpossibleMove => "cannot move here"@,
            CheckersError::GameOver => "no moves left to make"@,
        }
    }

    /// A short description of the error.
    pub fn message(&self) -> (r: &'static str)
        ensures
            r@ == self.text(),
    {
        match self {
            CheckersError::WrongPiece => "none of own piece at this square",
            CheckersError::ImpossibleMove => "cannot move here",
            CheckersError::GameOver => "no moves left to make",
        }
    }
}

/// A match in progress: the board, the side to move (1 for black, -1 for
/// red), the square that has to go on capturing, if there is one, and
/// whether the match has ended.
#[derive(Clone, Copy, Debug, PartialEq, Eq)]
pub struct Checkers {
    pub board_state: [[i32; 8]; 8],
    pub current_turn: i32,
    pub required_square: Option<(usize, usize)>,
    pub game_over: bool,
}

/// The mathematical value of a [`Checkers`].
pub struct Position {
    /// The 64 cells in row-major order.
    pub board: Seq<int>,
    /// The side to move: positive for black, negative for red.
    pub turn: int,
    /// The square that has to go on capturing.
    pub forced: Option<(int, int)>,
    /// Whether the match has ended.
    pub over: bool,
}

/// What a cell of the opening position holds: red men on the dark squares of
/// rows 0 to 2, black men on those of rows 5 to 7.
pub open spec fn opening_cell(j: int, i: int) -> int {
    if (j + i) % 2 == 1 && j < 3 {
        -1
    } else if (j + i) % 2 == 1 && j >= 5 {
        1
    } else {
        0
    }
}

/// The position at the start of a match: black is to move.
pub open spec fn opening_position() -> Position {
    Position {
        board: Seq::new(64, |k: int| opening_cell(k / 8, k % 8)),
        turn: 1,
        forced: None,
        over: false,
    }
}

/// The step that leads from (`fj`, `fi`) to (`tj`, `ti`), if the two squares
/// lie one or two cells apart on a diagonal.
pub open spec fn span(fj: int, fi: int, tj: int, ti: int) -> Option<Step> {
    let dj = tj - fj;
    let di = ti - fi;
    if (dj == 1 || dj == -1) && (di == 1 || di == -1) {
        Some(Step { direction: heading(dj, di), size: 1 })
    } else if (dj == 2 || dj == -2) && (di == 2 || di == -2) {
        Some(Step { direction: heading(dj, di), size: 2 })
    } else {
        None
    }
}

/// The diagonal along which the row changes by the sign of `dj` and the
/// column by the sign of `di`.
pub open spec fn heading(dj: int, di: int) -> Direction {
    if dj < 0 {
        if di > 0 {
            Direction::UpRight
        } else {
            Direction::UpLeft
        }
    } else {
        if di > 0 {
            Direction::DownRight
        } else {
            Direction::DownLeft
        }
    }
}

/// The destination that one direction contributes to the list of a square:
/// the neighbour if the piece may move there (unless only captures are
/// asked for), else the cell behind the neighbour if the piece may capture.
pub open spec fn direction_targets(
    board: Seq<int>,
    j: int,
    i: int,
    d: Direction,
    jumps_only: bool,
) -> Seq<(int, int, bool)> {
    if !jumps_only && can_step(board, j, i, d) {
        seq![(j + d.row_delta(), i + d.col_delta(), false)]
    } else if can_jump(board, j, i, d) {
        seq![(j + 2 * d.row_delta(), i + 2 * d.col_delta(), true)]
    } else {
        Seq::empty()
    }
}

/// The destinations of the piece at (`j`, `i`), each with the flag that says
/// whether it is reached by a capture, in the order up-right, up-left,
/// down-right, down-left.
pub open spec fn targets(board: Seq<int>, j: int, i: int, jumps_only: bool) -> Seq<
    (int, int, bool),
> {
    direction_targets(board, j, i, Direction::UpRight, jumps_only) + direction_targets(
        board,
        j,
        i,
        Direction::UpLeft,
        jumps_only,
    ) + direction_targets(board, j, i, Direction::DownRight, jumps_only) + direction_targets(
        board,
        j,
        i,
        Direction::DownLeft,
        jumps_only,
    )
}

/// Whether the piece at (`j`, `i`) may capture in some direction.
pub open spec fn has_jump(board: Seq<int>, j: int, i: int) -> bool {
    can_jump(board, j, i, Direction::UpRight) || can_jump(board, j, i, Direction::UpLeft)
        || can_jump(board, j, i, Direction::DownRight) || can_jump(
        board,
        j,
        i,
        Direction::DownLeft,
    )
}

/// The side that moves after `turn`: red after black, black after red.
pub open spec fn other_side(turn: int) -> int {
    if turn < 0 {
        1
    } else {
        -1
    }
}

/// Destinations as mathematical triples.
pub open spec fn as_targets(v: Seq<(usize, usize, bool)>) -> Seq<(int, int, bool)> {
    v.map_values(|t: (usize, usize, bool)| (t.0 as int, t.1 as int, t.2))
}

impl Position {
    /// The board is well formed, the side to move is 1 or -1 and the forced
    /// square, if there is one, lies on the board.
    pub open spec fn wf(self) -> bool {
        &&& board_wf(self.board)
        &&& (self.turn == 1 || self.turn == -1)
        &&& match self.forced {
            Some((a, b)) => on_board(a, b),
            None => true,
        }
    }

    /// The square holds a piece of the side to move.
    pub open spec fn owned(self, j: int, i: int) -> bool {
        &&& on_board(j, i)
        &&& cell(self.board, j, i) != 0
        &&& !opposing(cell(self.board, j, i), self.turn)
    }

    /// The destinations open to the piece at (`j`, `i`). While a square is
    /// forced, that square has its captures and every other square has
    /// nothing.
    pub open spec fn possible_moves(self, j: int, i: int) -> Seq<(int, int, bool)> {
        match self.forced {
            Some(f) => if f == (j, i) {
                targets(self.board, j, i, true)
            } else {
                Seq::empty()
            },
            None => targets(self.board, j, i, false),
        }
    }

    /// The piece at (`j`, `i`) may move one cell in direction `d` now.
    pub open spec fn step_open(self, j: int, i: int, d: Direction) -> bool {
        self.forced is None && can_step(self.board, j, i, d)
    }

    /// The piece at (`j`, `i`) may capture in direction `d` now.
    pub open spec fn jump_open(self, j: int, i: int, d: Direction) -> bool {
        &&& can_jump(self.board, j, i, d)
        &&& match self.forced {
            Some(f) => f == (j, i),
            None => true,
        }
    }

    /// Moving the piece at (`fj`, `fi`) to (`tj`, `ti`) is a legal move of the
    /// side to move.
    pub open spec fn legal(self, fj: int, fi: int, tj: int, ti: int) -> bool {
        &&& self.owned(fj, fi)
        &&& on_board(tj, ti)
        &&& match span(fj, fi, tj, ti) {
            Some(s) => if s.size == 1 {
                self.step_open(fj, fi, s.direction)
            } else {
                self.jump_open(fj, fi, s.direction)
            },
            None => false,
        }
    }

    /// The side to move has no piece with a destination.
    pub open spec fn terminal(self) -> bool {
        forall|j: int, i: int| #[trigger]
            self.owned(j, i) ==> self.possible_moves(j, i).len() == 0
    }

    /// Red has won: black is to move and cannot.
    pub open spec fn red_won(self) -> bool {
        self.turn > 0 && self.terminal()
    }

    /// Black has won: red is to move and cannot.
    pub open spec fn black_won(self) -> bool {
        self.turn < 0 && self.terminal()
    }

    /// The position with its end-of-match flag set to what the board says.
    pub open spec fn sealed(self) -> Position {
        Position { over: self.red_won() || self.black_won(), ..self }
    }

    /// The position after the legal move from (`fj`, `fi`) to (`tj`, `ti`).
    /// A simple move passes the turn. A capture takes the piece between the
    /// two squares off the board; if the piece can capture again from where
    /// it landed, it is forced to and the turn stays, else the turn passes.
    #[verifier::opaque]
    pub open spec fn after_move(self, fj: int, fi: int, tj: int, ti: int) -> Position {
        let s = span(fj, fi, tj, ti).unwrap();
        if s.size == 1 {
            Position {
                board: step_board(self.board, fj, fi, s.direction),
                turn: other_side(self.turn),
                forced: None,
                over: self.over,
            }.sealed()
        } else {
            let b = jump_board(self.board, fj, fi, s.direction);
            if has_jump(b, tj, ti) {
                Position { board: b, turn: self.turn, forced: Some((tj, ti)), over: self.over }.sealed()
            } else {
                Position { board: b, turn: other_side(self.turn), forced: None, over: self.over }.sealed()
            }
        }
    }
}

impl Position {
    /// Every step of `steps`, played in turn from (`j`, `i`), is a legal move
    /// of the position in which it is played.
    pub open spec fn steps_legal(self, j: int, i: int, steps: Seq<Step>) -> bool
        decreases steps.len(),
    {
        if steps.len() == 0 {
            true
        } else {
            let tj = steps[0].row_from(j);
            let ti = steps[0].col_from(i);
            self.legal(j, i, tj, ti) && self.after_move(j, i, tj, ti).steps_legal(
                tj,
                ti,
                steps.drop_first(),
            )
        }
    }

    /// The position after `steps` have been played in turn from (`j`, `i`).
    pub open spec fn after_steps(self, j: int, i: int, steps: Seq<Step>) -> Position
        decreases steps.len(),
    {
        if steps.len() == 0 {
            self
        } else {
            let tj = steps[0].row_from(j);
            let ti = steps[0].col_from(i);
            self.after_move(j, i, tj, ti).after_steps(tj, ti, steps.drop_first())
        }
    }
}

impl View for Checkers {
    type V = Position;

    open spec fn view(&self) -> Position {
        Position {
            board: Seq::new(64, |k: int| self.board_state[k / 8][k % 8] as int),
            turn: self.current_turn as int,
            forced: match self.required_square {
                Some((a, b)) => Some((a as int, b as int)),
                None => None,
            },
            over: self.game_over,
        }
    }
}

/// The square `size` cells away from (`j`, `i`) in direction `d`, if it lies
/// on the board.
pub fn shifted(j: usize, i: usize, d: Direction, size: usize) -> (r: Option<(usize, usize)>)
    requires
        j < 8,
        i < 8,
    ensures
        r is Some <==> on_board(
            (Step { direction: d, size }).row_from(j as int),
            (Step { direction: d, size }).col_from(i as int),
        ),
        r matches Some((a, b)) ==> a == (Step { direction: d, size }).row_from(j as int) && b == (Step {
            direction: d,
            size,
        }).col_from(i as int),
{
    let up = d.is_up();
    let right = d.is_right();
    if size > 7 {
        return None;
    }
    if up && j < size {
        return None;
    }
    if !up && j + size > 7 {
        return None;
    }
    if right && i + size > 7 {
        return None;
    }
    if !right && i < size {
        return None;
    }
    let a: usize = if up {
        j - size
    } else {
        j + size
    };
    let b: usize = if right {
        i + size
    } else {
        i - size
    };
    Some((a, b))
}

impl Checkers {
    /// Every cell holds one of the five values, the side to move is 1 or
    /// -1 and the forced square, if there is one, lies on the board.
    pub open spec fn wf(&self) -> bool {
        self@.wf()
    }

    /// The content of row `j`, column `i`.
    pub fn piece_at(&self, j: usize, i: usize) -> (r: i32)
        requires
            j < 8,
            i < 8,
        ensures
            r == cell(self@.board, j as int, i as int),
    {
        self.board_state[j][i]
    }

    /// Writes `v` into row `j`, column `i`.
    pub fn put(&mut self, j: usize, i: usize, v: i32)
        requires
            j < 8,
            i < 8,
        ensures
            final(self)@ == (Position { board: old(self)@.board.update(8 * j + i, v as int), ..old(self)@ }),
    {
        self.board_state[j][i] = v;
        assert(self@.board =~= old(self)@.board.update(8 * j + i, v as int));
    }

    /// The opening position.
    pub fn new() -> (r: Result<Self, ()>)
        ensures
            r is Ok,
            r.unwrap()@ == opening_position(),
            r.unwrap().wf(),
    {
        let mut game = Checkers {
            board_state: [[0; 8]; 8],
            current_turn: BLACK_PIECE,
            required_square: None,
            game_over: false,
        };
        for j in 0..8usize
            invariant
                game.current_turn == 1,
                game.required_square is None,
                !game.game_over,
                forall|a: int, b: int|
                    0 <= a < 8 && 0 <= b < 8 ==> #[trigger] cell(game@.board, a, b) == if a < j {
                        opening_cell(a, b)
                    } else {
                        0
                    },
        {
            for i in 0..8usize
                invariant
                    j < 8,
                    game.current_turn == 1,
                    game.required_square is None,
                    !game.game_over,
                    forall|a: int, b: int|
                        0 <= a < 8 && 0 <= b < 8 ==> #[trigger] cell(game@.board, a, b) == if a < j
                            || (a == j && b < i) {
                            opening_cell(a, b)
                        } else {
                            0
                        },
            {
                let ghost before = game@.board;
                if (j + i) % 2 == 1 {
                    if j < 3 {
                        game.put(j, i, RED_PIECE);
                    } else if j >= 5 {
                        game.put(j, i, BLACK_PIECE);
                    }
                }
                proof {
                    assert forall|a: int, b: int| 0 <= a < 8 && 0 <= b < 8 implies #[trigger] cell(
                        game@.board,
                        a,
                        b,
                    ) == if a < j || (a == j && b < i + 1) {
                        opening_cell(a, b)
                    } else {
                        0
                    } by {
                        assert(cell(before, a, b) == if a < j || (a == j && b < i) {
                            opening_cell(a, b)
                        } else {
                            0
                        });
                        if a == j && b == i {
                        } else {
                            assert(8 * a + b != 8 * j + i);
                        }
                    }
                }
            }
        }
        proof {
            assert forall|k: int| 0 <= k < 64 implies #[trigger] game@.board[k] == opening_cell(
                k / 8,
                k % 8,
            ) by {
                assert(game@.board[k] == cell(game@.board, k / 8, k % 8));
            }
            assert(game@.board =~= opening_position().board);
        }
        Ok(game)
    }
}

} // verus!
