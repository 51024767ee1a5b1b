//! Capture chains: every way in which a piece can go on capturing until no
//! capture is left.

use vstd::prelude::*;
use crate::board::{can_jump, can_step, cell, jump_board, jump_count, lemma_jump_lowers_count, opposing, piece_count};
use crate::game::{has_jump, Checkers, Position};
use crate::moves::{Direction, Move, MoveView, Step};
use crate::rules::are_opposing;

verus! {

/// The capture hop in direction `d`.
pub open spec fn hop(d: Direction) -> Step {
    Step { direction: d, size: 2 }
}

/// The simple move in direction `d`.
pub open spec fn pace(d: Direction) -> Step {
    Step { direction: d, size: 1 }
}

/// The chains that begin with `first` and go on with one of `rest`; the
/// single chain of `first` alone when `rest` is empty.
pub open spec fn prefixed(first: Step, rest: Seq<Seq<Step>>) -> Seq<Seq<Step>> {
    if rest.len() == 0 {
        seq![seq![first]]
    } else {
        Seq::new(rest.len(), |n: int| seq![first] + rest[n])
    }
}

/// The maximal capture chains of the piece at (`j`, `i`) that begin in
/// direction `d`.
pub open spec fn chains_toward(board: Seq<int>, j: int, i: int, d: Direction) -> Seq<Seq<Step>>
    decreases piece_count(board), 0nat,
{
    if board.len() == 64 && can_jump(board, j, i, d) {
        proof {
            lemma_jump_lowers_count(board, j, i, d);
        }
        prefixed(
            hop(d),
            chains(jump_board(board, j, i, d), j + 2 * d.row_delta(), i + 2 * d.col_delta()),
        )
    } else {
        Seq::empty()
    }
}

/// The maximal capture chains of the piece at (`j`, `i`): each is a list of
/// hops that can be played one after another, the jumped pieces leaving the
/// board and the piece becoming a king where it reaches its farthest row,
/// until the piece has no capture left. The chains that begin down-left come
/// first, then those that begin down-right, up-left and up-right.
pub open spec fn chains(board: Seq<int>, j: int, i: int) -> Seq<Seq<Step>>
    decreases piece_count(board), 1nat,
{
    chains_toward(board, j, i, Direction::DownLeft) + chains_toward(
        board,
        j,
        i,
        Direction::DownRight,
    ) + chains_toward(board, j, i, Direction::UpLeft) + chains_toward(
        board,
        j,
        i,
        Direction::UpRight,
    )
}

/// The move that plays a chain: a single step for one hop, a sequence for
/// more.
pub open spec fn chain_move(chain: Seq<Step>) -> MoveView {
    if chain.len() == 1 {
        MoveView::Step(chain[0])
    } else {
        MoveView::Sequence(chain)
    }
}

/// The moves that play the chains, in the same order.
pub open spec fn chain_moves(all: Seq<Seq<Step>>) -> Seq<MoveView> {
    Seq::new(all.len(), |n: int| chain_move(all[n]))
}

/// The values of a list of step lists.
pub open spec fn chain_views(v: Seq<Vec<Step>>) -> Seq<Seq<Step>> {
    Seq::new(v.len(), |n: int| v[n]@)
}

/// The values of a list of moves.
pub open spec fn move_views(v: Seq<Move>) -> Seq<MoveView> {
    Seq::new(v.len(), |n: int| v[n]@)
}

/// What direction `d` contributes to the simple moves of (`j`, `i`).
pub open spec fn pace_toward(board: Seq<int>, j: int, i: int, d: Direction) -> Seq<MoveView> {
    if can_step(board, j, i, d) {
        seq![MoveView::Step(pace(d))]
    } else {
        Seq::empty()
    }
}

/// The simple moves of the piece at (`j`, `i`), in the order up-right,
/// up-left, down-right, down-left.
pub open spec fn paces(board: Seq<int>, j: int, i: int) -> Seq<MoveView> {
    pace_toward(board, j, i, Direction::UpRight) + pace_toward(board, j, i, Direction::UpLeft)
        + pace_toward(board, j, i, Direction::DownRight) + pace_toward(
        board,
        j,
        i,
        Direction::DownLeft,
    )
}

impl Position {
    /// The moves of the piece at (`j`, `i`): its simple moves, then its
    /// maximal capture chains. A square that does not hold a piece of the
    /// side to move has none; while a square is forced, that square has its
    /// chains and every other square has nothing.
    pub open spec fn all_moves(self, j: int, i: int) -> Seq<MoveView> {
        if !self.owned(j, i) {
            Seq::empty()
        } else {
            match self.forced {
                Some(f) => if f == (j, i) {
                    chain_moves(chains(self.board, j, i))
                } else {
                    Seq::empty()
                },
                None => paces(self.board, j, i) + chain_moves(chains(self.board, j, i)),
            }
        }
    }
}

/// A piece has a maximal capture chain exactly when it has a capture.
pub proof fn lemma_chains_exist(board: Seq<int>, j: int, i: int)
    requires
        board.len() == 64,
    ensures
        chains(board, j, i).len() > 0 <==> has_jump(board, j, i),
        has_jump(board, j, i) <==> jump_count(board, j, i) > 0,
        0 <= jump_count(board, j, i) <= 4,
{
    lemma_toward_exists(board, j, i, Direction::DownLeft);
    lemma_toward_exists(board, j, i, Direction::DownRight);
    lemma_toward_exists(board, j, i, Direction::UpLeft);
    lemma_toward_exists(board, j, i, Direction::UpRight);
}

/// A piece has a maximal capture chain that begins in direction `d` exactly
/// when it has a capture in that direction.
pub proof fn lemma_toward_exists(board: Seq<int>, j: int, i: int, d: Direction)
    requires
        board.len() == 64,
    ensures
        chains_toward(board, j, i, d).len() > 0 <==> can_jump(board, j, i, d),
{
}

impl Checkers {
    /// Appends to `out` the maximal capture chains of the piece at (`j`, `i`)
    /// that begin in direction `d`.
    fn chains_toward(&self, j: usize, i: usize, d: Direction, out: &mut Vec<Vec<Step>>)
        requires
            j < 8,
            i < 8,
        ensures
            chain_views(final(out)@) == chain_views(old(out)@) + chains_toward(
                self@.board,
                j as int,
                i as int,
                d,
            ),
        decreases piece_count(self@.board), 0nat,
    {
        let ghost before = chain_views(out@);
        if !self.can_jump(j, i, d) {
            assert(chain_views(out@) =~= before + chains_toward(self@.board, j as int, i as int, d));
            return ;
        }
        let mut next = *self;
        let (a, b) = next.leap(j, i, d);
        proof {
            lemma_jump_lowers_count(self@.board, j as int, i as int, d);
        }
        let rest = next.capture_chains(a, b);
        let first = Step { direction: d, size: 2 };
        let ghost wanted = prefixed(first, chain_views(rest@));
        assert(wanted == chains_toward(self@.board, j as int, i as int, d));
        if rest.len() == 0 {
            let mut chain: Vec<Step> = Vec::new();
            chain.push(first);
            assert(chain@ =~= seq![first]);
            out.push(chain);
            assert(chain_views(out@) =~= before + wanted);
            return ;
        }
        let mut n: usize = 0;
        while n < rest.len()
            invariant
                n <= rest.len(),
                rest.len() > 0,
                wanted == prefixed(first, chain_views(rest@)),
                chain_views(out@) == before + wanted.subrange(0, n as int),
            decreases rest.len() - n,
        {
            let mut chain: Vec<Step> = Vec::new();
            chain.push(first);
            let tail = &rest[n];
            let mut k: usize = 0;
            while k < tail.len()
                invariant
                    k <= tail.len(),
                    chain@ == seq![first] + tail@.subrange(0, k as int),
                decreases tail.len() - k,
            {
                chain.push(tail[k]);
                k = k + 1;
                assert(chain@ =~= seq![first] + tail@.subrange(0, k as int));
            }
            assert(tail@.subrange(0, k as int) =~= tail@);
            assert(chain_views(rest@)[n as int] == tail@);
            assert(chain@ == wanted[n as int]);
            let ghost prev = out@;
            out.push(chain);
            n = n + 1;
            assert(chain_views(out@) =~= chain_views(prev).push(wanted[n - 1]));
            assert(wanted.subrange(0, n as int) =~= wanted.subrange(0, n - 1).push(wanted[n - 1]));
            assert(chain_views(out@) =~= before + wanted.subrange(0, n as int));
        }
        assert(wanted.subrange(0, n as int) =~= wanted);
    }

    /// The maximal capture chains of the piece at (`j`, `i`). The board is
    /// not changed: every chain is explored on a copy.
    pub fn capture_chains(&self, j: usize, i: usize) -> (r: Vec<Vec<Step>>)
        requires
            j < 8,
            i < 8,
        ensures
            chain_views(r@) == chains(self@.board, j as int, i as int),
        decreases piece_count(self@.board), 1nat,
    {
        let mut out: Vec<Vec<Step>> = Vec::new();
        assert(chain_views(out@) =~= Seq::empty());
        self.chains_toward(j, i, Direction::DownLeft, &mut out);
        self.chains_toward(j, i, Direction::DownRight, &mut out);
        self.chains_toward(j, i, Direction::UpLeft, &mut out);
        self.chains_toward(j, i, Direction::UpRight, &mut out);
        assert(chain_views(out@) =~= chains(self@.board, j as int, i as int));
        out
    }

    /// The number of directions in which the piece at (`j`, `i`) may capture.
    pub fn count_jumps(&self, j: usize, i: usize) -> (r: i32)
        requires
            j < 8,
            i < 8,
        ensures
            r == jump_count(self@.board, j as int, i as int),
            0 <= r <= 4,
    {
        let mut count: i32 = 0;
        if self.can_jump(j, i, Direction::UpRight) {
            count = count + 1;
        }
        if self.can_jump(j, i, Direction::UpLeft) {
            count = count + 1;
        }
        if self.can_jump(j, i, Direction::DownRight) {
            count = count + 1;
        }
        if self.can_jump(j, i, Direction::DownLeft) {
            count = count + 1;
        }
        count
    }

    /// Appends to `out` the moves that play `all`.
    fn push_chain_moves(all: Vec<Vec<Step>>, out: &mut Vec<Move>)
        ensures
            move_views(final(out)@) == move_views(old(out)@) + chain_moves(chain_views(all@)),
    {
        let ghost before = move_views(out@);
        let ghost wanted = chain_moves(chain_views(all@));
        let mut n: usize = 0;
        while n < all.len()
            invariant
                n <= all.len(),
                wanted == chain_moves(chain_views(all@)),
                move_views(out@) == before + wanted.subrange(0, n as int),
            decreases all.len() - n,
        {
            let chain = &all[n];
            let ghost prev = out@;
            assert(chain_views(all@)[n as int] == chain@);
            assert(wanted[n as int] == chain_move(chain@));
            if chain.len() == 1 {
                out.push(Move::Step(chain[0]));
            } else {
                let mut copy: Vec<Step> = Vec::new();
                let mut k: usize = 0;
                while k < chain.len()
                    invariant
                        k <= chain.len(),
                        copy@ == chain@.subrange(0, k as int),
                    decreases chain.len() - k,
                {
                    copy.push(chain[k]);
                    k = k + 1;
                    assert(copy@ =~= chain@.subrange(0, k as int));
                }
                assert(chain@.subrange(0, k as int) =~= chain@);
                out.push(Move::Sequence(copy));
            }
            n = n + 1;
            assert(move_views(out@) =~= move_views(prev).push(wanted[n - 1]));
            assert(wanted.subrange(0, n as int) =~= wanted.subrange(0, n - 1).push(wanted[n - 1]));
            assert(move_views(out@) =~= before + wanted.subrange(0, n as int));
        }
        assert(wanted.subrange(0, n as int) =~= wanted);
    }

    /// For the piece at (`j`, `i`) of the side `team` (positive for black,
    /// negative for red): in how many directions it may capture, and the
    /// moves that play its maximal capture chains, `None` when it has none.
    /// A square that is empty or holds a piece of the other side has no
    /// capture.
    pub fn how_many_jumped_from_here(&self, j: usize, i: usize, team: i32) -> (r: (
        i32,
        Option<Vec<Move>>,
    ))
        requires
            j < 8,
            i < 8,
        ensures
            r.0 == if opposing(cell(self@.board, j as int, i as int), team as int) {
                0
            } else {
                jump_count(self@.board, j as int, i as int)
            },
            r.1 is None <==> r.0 == 0,
            r.1 matches Some(v) ==> move_views(v@) == chain_moves(
                chains(self@.board, j as int, i as int),
            ),
    {
        let piece = self.piece_at(j, i);
        proof {
            lemma_chains_exist(self@.board, j as int, i as int);
        }
        if are_opposing(piece, team) {
            return (0, None);
        }
        let count = self.count_jumps(j, i);
        if count == 0 {
            return (0, None);
        }
        let all = self.capture_chains(j, i);
        let mut moves: Vec<Move> = Vec::new();
        assert(move_views(moves@) =~= Seq::empty());
        Self::push_chain_moves(all, &mut moves);
        assert(move_views(moves@) =~= chain_moves(chains(self@.board, j as int, i as int)));
        (count, Some(moves))
    }

    /// Appends to `out` the simple move in direction `d`, if the piece at
    /// (`j`, `i`) may make it.
    fn push_pace(&self, j: usize, i: usize, d: Direction, out: &mut Vec<Move>)
        requires
            j < 8,
            i < 8,
        ensures
            move_views(final(out)@) == move_views(old(out)@) + pace_toward(
                self@.board,
                j as int,
                i as int,
                d,
            ),
    {
        let ghost before = move_views(out@);
        if self.can_move(j, i, d) {
            out.push(Move::Step(Step { direction: d, size: 1 }));
        }
        assert(move_views(out@) =~= before + pace_toward(self@.board, j as int, i as int, d));
    }

    /// The moves of the piece at (`j`, `i`): its simple moves, then its
    /// maximal capture chains; `None` when the square has no move for the
    /// side to move.
    pub fn get_all_possible_moves(&self, j: usize, i: usize) -> (r: Option<Vec<Move>>)
        requires
            j < 8,
            i < 8,
        ensures
            r is None <==> self@.all_moves(j as int, i as int).len() == 0,
            r matches Some(v) ==> move_views(v@) == self@.all_moves(j as int, i as int),
    {
        let piece = self.piece_at(j, i);
        if piece == 0 || are_opposing(piece, self.current_turn) {
            return None;
        }
        let mut moves: Vec<Move> = Vec::new();
        assert(move_views(moves@) =~= Seq::empty());
        match self.required_square {
            Some((a, b)) => {
                if a != j || b != i {
                    return None;
                }
            },
            None => {
                self.push_pace(j, i, Direction::UpRight, &mut moves);
                self.push_pace(j, i, Direction::UpLeft, &mut moves);
                self.push_pace(j, i, Direction::DownRight, &mut moves);
                self.push_pace(j, i, Direction::DownLeft, &mut moves);
                assert(move_views(moves@) =~= paces(self@.board, j as int, i as int));
            },
        }
        let all = self.capture_chains(j, i);
        Self::push_chain_moves(all, &mut moves);
        assert(move_views(moves@) =~= self@.all_moves(j as int, i as int));
        assert(move_views(moves@).len() == moves@.len());
        if moves.is_empty() {
            None
        } else {
            Some(moves)
        }
    }
}

} // verus!
