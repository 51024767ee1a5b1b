//! Directions, single steps and moves.

use vstd::prelude::*;

verus! {

/// One of the four diagonals. Rows grow downwards: `Up` lowers the row
/// index, `Right` raises the column index.
#[derive(Clone, Copy, Debug, PartialEq, Eq, Structural)]
pub enum Direction {
    UpRight,
    UpLeft,
    DownRight,
    DownLeft,
}

impl Direction {
    /// Change of the row index for one cell of travel.
    pub open spec fn row_delta(self) -> int {
        match self {
            Direction::UpRight | Direction::UpLeft => -1,
            Direction::DownRight | Direction::DownLeft => 1,
        }
    }

    /// Change of the column index for one cell of travel.
    pub open spec fn col_delta(self) -> int {
        match self {
            Direction::UpRight | Direction::DownRight => 1,
            Direction::UpLeft | Direction::DownLeft => -1,
        }
    }

    /// Whether the direction lowers the row index.
    pub fn is_up(self) -> (r: bool)
        ensures
            r == (self.row_delta() == -1),
            !r == (self.row_delta() == 1),
    {
        match self {
            Direction::UpRight | Direction::UpLeft => true,
            Direction::DownRight | Direction::DownLeft => false,
        }
    }

    /// Whether the direction raises the column index.
    pub fn is_right(self) -> (r: bool)
        ensures
            r == (self.col_delta() == 1),
            !r == (self.col_delta() == -1),
    {
        match self {
            Direction::UpRight | Direction::DownRight => true,
            Direction::UpLeft | Direction::DownLeft => false,
        }
    }
}

/// Travel of `size` cells along one diagonal: 1 for a simple move, 2 for a
/// capture hop.
#[derive(Clone, Copy, Debug, PartialEq, Eq, Structural)]
pub struct Step {
    pub direction: Direction,
    pub size: usize,
}

impl Step {
    /// Row reached from row `j`.
    pub open spec fn row_from(self, j: int) -> int {
        match self.direction {
            Direction::UpRight | Direction::UpLeft => j - self.size,
            Direction::DownRight | Direction::DownLeft => j + self.size,
        }
    }

    /// Column reached from column `i`.
    pub open spec fn col_from(self, i: int) -> int {
        match self.direction {
            Direction::UpRight | Direction::DownRight => i + self.size,
            Direction::UpLeft | Direction::DownLeft => i - self.size,
        }
    }
}

/// The square reached from (`j`, `i`) by playing `steps` one after another.
pub open spec fn end_square(j: int, i: int, steps: Seq<Step>) -> (int, int)
    decreases steps.len(),
{
    if steps.len() == 0 {
        (j, i)
    } else {
        end_square(steps[0].row_from(j), steps[0].col_from(i), steps.drop_first())
    }
}

/// A move of one piece: a single step, or a chain of capture hops that is
/// played as a whole.
#[derive(Debug, PartialEq, Eq)]
pub enum Move {
    Step(Step),
    Sequence(Vec<Step>),
}

/// The mathematical value of a [`Move`].
pub enum MoveView {
    Step(Step),
    Sequence(Seq<Step>),
}

impl MoveView {
    /// The steps of the move in the order in which they are played.
    pub open spec fn steps(self) -> Seq<Step> {
        match self {
            MoveView::Step(s) => seq![s],
            MoveView::Sequence(v) => v,
        }
    }
}

impl View for Move {
    type V = MoveView;

    open spec fn view(&self) -> MoveView {
        match self {
            Move::Step(s) => MoveView::Step(*s),
            Move::Sequence(v) => MoveView::Sequence(v@),
        }
    }
}

impl Move {
    /// A fresh move with the same value.
    pub fn duplicate(&self) -> (r: Move)
        ensures
            r@ == self@,
    {
        match self {
            Move::Step(s) => Move::Step(*s),
            Move::Sequence(v) => {
                let mut w: Vec<Step> = Vec::new();
                let mut n: usize = 0;
                while n < v.len()
                    invariant
                        n <= v.len(),
                        w@ == v@.subrange(0, n as int),
                    decreases v.len() - n,
                {
                    w.push(v[n]);
                    n = n + 1;
                    assert(w@ =~= v@.subrange(0, n as int));
                }
                assert(v@.subrange(0, n as int) =~= v@);
                Move::Sequence(w)
            },
        }
    }
}

impl Clone for Move {
    fn clone(&self) -> (r: Move)
        ensures
            r@ == self@,
    {
        self.duplicate()
    }
}

} // verus!
