//! What holds of the rules: facts about the positions that moves lead to.

use vstd::prelude::*;
use crate::board::{
    board_wf, can_jump, can_step, cell, jump_board, lemma_jump_lowers_count,
    lemma_step_keeps_count, on_board, opposing, piece_count, promote, step_board,
};
use crate::chains::{
    chain_move, chain_moves, chains, chains_toward, hop, lemma_chains_exist, pace, pace_toward,
    paces,
};
use crate::game::{direction_targets, has_jump, other_side, span, Position};
use crate::moves::{end_square, Direction, MoveView, Step};
use crate::search::{
    best_branch, better, branch_moves, branch_score, child, lemma_child_wf, lemma_move_keeps_wf,
    lemma_value_bounded, lemma_value_unfold, pick_in, root_moves, score_table, value, value_upto,
};

verus! {

/// A legal move in a valid position leads to a valid position.
pub proof fn lemma_move_keeps_valid(p: Position, fj: int, fi: int, tj: int, ti: int)
    requires
        p.wf(),
        p.legal(fj, fi, tj, ti),
    ensures
        p.after_move(fj, fi, tj, ti).wf(),
{
    reveal(Position::after_move);
    lemma_move_keeps_wf(p, fj, fi, tj, ti);
}

/// The board after the piece at (`j`, `i`) has made the capture hops of
/// `chain` one after another, each on the board that the hop before it left.
pub open spec fn hops_board(board: Seq<int>, j: int, i: int, chain: Seq<Step>) -> Seq<int>
    decreases chain.len(),
{
    if chain.len() == 0 {
        board
    } else {
        hops_board(
            jump_board(board, j, i, chain[0].direction),
            chain[0].row_from(j),
            chain[0].col_from(i),
            chain.drop_first(),
        )
    }
}

/// What holds when the piece at (`j`, `i`) plays `chain` in position `p`:
/// every step is a capture hop and is legal where it is played, the board
/// that results is the one that hopping by hand gives, the piece has no
/// capture left where it ends, the turn has passed and no square is forced.
pub open spec fn plays_out(p: Position, j: int, i: int, chain: Seq<Step>) -> bool {
    &&& chain.len() >= 1
    &&& forall|n: int| 0 <= n < chain.len() ==> (#[trigger] chain[n]).size == 2
    &&& p.steps_legal(j, i, chain)
    &&& p.after_steps(j, i, chain).board == hops_board(p.board, j, i, chain)
    &&& !has_jump(
        hops_board(p.board, j, i, chain),
        end_square(j, i, chain).0,
        end_square(j, i, chain).1,
    )
    &&& p.after_steps(j, i, chain).turn == other_side(p.turn)
    &&& p.after_steps(j, i, chain).forced is None
}

/// A maximal capture chain that begins in direction `d` plays out.
pub proof fn lemma_toward_plays(p: Position, j: int, i: int, d: Direction, n: int)
    requires
        p.board.len() == 64,
        p.owned(j, i),
        p.forced is None || p.forced == Some((j, i)),
        0 <= n < chains_toward(p.board, j, i, d).len(),
    ensures
        plays_out(p, j, i, chains_toward(p.board, j, i, d)[n]),
    decreases piece_count(p.board), 0nat,
{
    reveal(Position::after_move);
    let tj = j + 2 * d.row_delta();
    let ti = i + 2 * d.col_delta();
    let b = jump_board(p.board, j, i, d);
    let rest = chains(b, tj, ti);
    let chain = chains_toward(p.board, j, i, d)[n];
    assert(can_jump(p.board, j, i, d));
    lemma_jump_lowers_count(p.board, j, i, d);
    lemma_chains_exist(b, tj, ti);
    assert(hop(d).row_from(j) == tj && hop(d).col_from(i) == ti);
    assert(span(j, i, tj, ti) == Some(hop(d)));
    assert(p.legal(j, i, tj, ti));
    let q = p.after_move(j, i, tj, ti);
    assert(q.board == b);
    assert(chain[0] == hop(d));
    if rest.len() == 0 {
        assert(chain =~= seq![hop(d)]);
        assert(chain.drop_first() =~= Seq::<Step>::empty());
        assert(p.after_steps(j, i, chain) == q) by {
            reveal_with_fuel(Position::after_steps, 2);
        }
        assert(p.steps_legal(j, i, chain)) by {
            reveal_with_fuel(Position::steps_legal, 2);
        }
        assert(hops_board(p.board, j, i, chain) == b) by {
            reveal_with_fuel(hops_board, 2);
        }
        assert(end_square(j, i, chain) == (tj, ti)) by {
            reveal_with_fuel(end_square, 2);
        }
    } else {
        assert(chain == seq![hop(d)] + rest[n]);
        assert(chain.drop_first() =~= rest[n]);
        assert(q.forced == Some((tj, ti)));
        assert(q.turn == p.turn);
        assert(cell(b, tj, ti) == promote(cell(p.board, j, i), tj));
        assert(q.owned(tj, ti));
        lemma_chain_plays(q, tj, ti, n);
        assert forall|x: int| 0 <= x < chain.len() implies (#[trigger] chain[x]).size == 2 by {
            if x > 0 {
                assert(chain[x] == rest[n][x - 1]);
            }
        }
    }
}

/// A maximal capture chain plays out: applying it hop by hop is legal and
/// gives the board that the enumeration went through.
pub proof fn lemma_chain_plays(p: Position, j: int, i: int, n: int)
    requires
        p.board.len() == 64,
        p.owned(j, i),
        p.forced is None || p.forced == Some((j, i)),
        0 <= n < chains(p.board, j, i).len(),
    ensures
        plays_out(p, j, i, chains(p.board, j, i)[n]),
    decreases piece_count(p.board), 1nat,
{
    let a = chains_toward(p.board, j, i, Direction::DownLeft);
    let b = chains_toward(p.board, j, i, Direction::DownRight);
    let c = chains_toward(p.board, j, i, Direction::UpLeft);
    let e = chains_toward(p.board, j, i, Direction::UpRight);
    if n < a.len() {
        lemma_toward_plays(p, j, i, Direction::DownLeft, n);
    } else if n < a.len() + b.len() {
        lemma_toward_plays(p, j, i, Direction::DownRight, n - a.len());
    } else if n < a.len() + b.len() + c.len() {
        lemma_toward_plays(p, j, i, Direction::UpLeft, n - a.len() - b.len());
    } else {
        lemma_toward_plays(p, j, i, Direction::UpRight, n - a.len() - b.len() - c.len());
    }
}

/// Whether `chain` is a maximal capture chain of the piece at (`j`, `i`):
/// its steps are capture hops, each open on the board that the hops before
/// it left, and after the last the piece has no capture.
pub open spec fn is_full_chain(board: Seq<int>, j: int, i: int, chain: Seq<Step>) -> bool
    decreases chain.len(),
{
    &&& chain.len() >= 1
    &&& chain[0].size == 2
    &&& can_jump(board, j, i, chain[0].direction)
    &&& if chain.len() == 1 {
        !has_jump(
            jump_board(board, j, i, chain[0].direction),
            chain[0].row_from(j),
            chain[0].col_from(i),
        )
    } else {
        is_full_chain(
            jump_board(board, j, i, chain[0].direction),
            chain[0].row_from(j),
            chain[0].col_from(i),
            chain.drop_first(),
        )
    }
}

/// Every chain that the enumeration lists in direction `d` is a maximal
/// capture chain that begins in that direction.
pub proof fn lemma_listed_toward_is_full(board: Seq<int>, j: int, i: int, d: Direction, n: int)
    requires
        board.len() == 64,
        0 <= n < chains_toward(board, j, i, d).len(),
    ensures
        is_full_chain(board, j, i, chains_toward(board, j, i, d)[n]),
        chains_toward(board, j, i, d)[n][0] == hop(d),
    decreases piece_count(board), 0nat,
{
    let tj = j + 2 * d.row_delta();
    let ti = i + 2 * d.col_delta();
    let b = jump_board(board, j, i, d);
    let rest = chains(b, tj, ti);
    let chain = chains_toward(board, j, i, d)[n];
    lemma_jump_lowers_count(board, j, i, d);
    lemma_chains_exist(b, tj, ti);
    assert(hop(d).row_from(j) == tj && hop(d).col_from(i) == ti);
    if rest.len() == 0 {
        assert(chain =~= seq![hop(d)]);
    } else {
        assert(chain == seq![hop(d)] + rest[n]);
        assert(chain.drop_first() =~= rest[n]);
        lemma_listed_chain_is_full(b, tj, ti, n);
    }
}

/// Every chain that the enumeration lists is a maximal capture chain.
pub proof fn lemma_listed_chain_is_full(board: Seq<int>, j: int, i: int, n: int)
    requires
        board.len() == 64,
        0 <= n < chains(board, j, i).len(),
    ensures
        is_full_chain(board, j, i, chains(board, j, i)[n]),
    decreases piece_count(board), 1nat,
{
    let a = chains_toward(board, j, i, Direction::DownLeft);
    let b = chains_toward(board, j, i, Direction::DownRight);
    let c = chains_toward(board, j, i, Direction::UpLeft);
    if n < a.len() {
        lemma_listed_toward_is_full(board, j, i, Direction::DownLeft, n);
    } else if n < a.len() + b.len() {
        lemma_listed_toward_is_full(board, j, i, Direction::DownRight, n - a.len());
    } else if n < a.len() + b.len() + c.len() {
        lemma_listed_toward_is_full(board, j, i, Direction::UpLeft, n - a.len() - b.len());
    } else {
        lemma_listed_toward_is_full(
            board,
            j,
            i,
            Direction::UpRight,
            n - a.len() - b.len() - c.len(),
        );
    }
}

/// Every maximal capture chain is listed by the enumeration, at the place
/// that is returned: the enumeration leaves none out.
pub proof fn lemma_full_chain_is_listed(board: Seq<int>, j: int, i: int, chain: Seq<Step>) -> (n:
    int)
    requires
        board.len() == 64,
        is_full_chain(board, j, i, chain),
    ensures
        0 <= n < chains(board, j, i).len(),
        chains(board, j, i)[n] == chain,
    decreases chain.len(),
{
    let d = chain[0].direction;
    let tj = j + 2 * d.row_delta();
    let ti = i + 2 * d.col_delta();
    let b = jump_board(board, j, i, d);
    let rest = chains(b, tj, ti);
    let toward = chains_toward(board, j, i, d);
    assert(chain[0] == hop(d));
    assert(hop(d).row_from(j) == tj && hop(d).col_from(i) == ti);
    lemma_jump_lowers_count(board, j, i, d);
    lemma_chains_exist(b, tj, ti);
    let m: int = if chain.len() == 1 {
        assert(chain =~= seq![hop(d)]);
        assert(toward[0] == chain);
        0
    } else {
        let k = lemma_full_chain_is_listed(b, tj, ti, chain.drop_first());
        assert(rest[k] == chain.drop_first());
        assert(chain =~= seq![hop(d)] + rest[k]);
        assert(toward[k] == chain);
        k
    };
    let a = chains_toward(board, j, i, Direction::DownLeft);
    let bb = chains_toward(board, j, i, Direction::DownRight);
    let c = chains_toward(board, j, i, Direction::UpLeft);
    match d {
        Direction::DownLeft => m,
        Direction::DownRight => m + a.len(),
        Direction::UpLeft => m + a.len() + bb.len(),
        Direction::UpRight => m + a.len() + bb.len() + c.len(),
    }
}

/// A simple move that the rules list is legal, passes the turn and leaves
/// no square forced.
pub proof fn lemma_pace_plays(p: Position, j: int, i: int, d: Direction)
    requires
        p.owned(j, i),
        p.forced is None,
        can_step(p.board, j, i, d),
    ensures
        p.steps_legal(j, i, seq![pace(d)]),
        p.after_steps(j, i, seq![pace(d)]).board == step_board(p.board, j, i, d),
        p.after_steps(j, i, seq![pace(d)]).turn == other_side(p.turn),
        p.after_steps(j, i, seq![pace(d)]).forced is None,
{
    reveal(Position::after_move);
    let steps = seq![pace(d)];
    let tj = j + d.row_delta();
    let ti = i + d.col_delta();
    assert(pace(d).row_from(j) == tj && pace(d).col_from(i) == ti);
    assert(span(j, i, tj, ti) == Some(pace(d)));
    assert(p.legal(j, i, tj, ti));
    assert(steps.drop_first() =~= Seq::<Step>::empty());
    assert(p.after_steps(j, i, steps) == p.after_move(j, i, tj, ti)) by {
        reveal_with_fuel(Position::after_steps, 2);
    }
    assert(p.steps_legal(j, i, steps)) by {
        reveal_with_fuel(Position::steps_legal, 2);
    }
}

/// Every move that the rules list for a square can be played: each of its
/// steps is legal where it is played, and when it has been played the turn
/// has passed and no square is forced.
pub proof fn lemma_listed_move_plays(p: Position, j: int, i: int, n: int)
    requires
        p.board.len() == 64,
        0 <= n < p.all_moves(j, i).len(),
    ensures
        p.steps_legal(j, i, p.all_moves(j, i)[n].steps()),
        p.after_steps(j, i, p.all_moves(j, i)[n].steps()).turn == other_side(p.turn),
        p.after_steps(j, i, p.all_moves(j, i)[n].steps()).forced is None,
{
    let m = p.all_moves(j, i)[n];
    let all = chains(p.board, j, i);
    let simple = if p.forced is None {
        paces(p.board, j, i)
    } else {
        Seq::<MoveView>::empty()
    };
    assert(p.all_moves(j, i) =~= simple + chain_moves(all));
    if n < simple.len() {
        let a = pace_toward(p.board, j, i, Direction::UpRight);
        let b = pace_toward(p.board, j, i, Direction::UpLeft);
        let c = pace_toward(p.board, j, i, Direction::DownRight);
        let d: Direction = if n < a.len() {
            Direction::UpRight
        } else if n < a.len() + b.len() {
            Direction::UpLeft
        } else if n < a.len() + b.len() + c.len() {
            Direction::DownRight
        } else {
            Direction::DownLeft
        };
        assert(m == MoveView::Step(pace(d)));
        assert(can_step(p.board, j, i, d));
        lemma_pace_plays(p, j, i, d);
    } else {
        let k = n - simple.len();
        assert(m == chain_move(all[k]));
        lemma_chain_plays(p, j, i, k);
        assert(m.steps() =~= all[k]);
    }
}

/// A man that a move carries to its farthest row is a king when the move
/// has been played: no move leaves a red man on row 7 or a black man on
/// row 0 where it lands.
pub proof fn lemma_move_promotes(p: Position, fj: int, fi: int, tj: int, ti: int)
    requires
        p.board.len() == 64,
        p.legal(fj, fi, tj, ti),
    ensures
        cell(p.after_move(fj, fi, tj, ti).board, tj, ti) == promote(cell(p.board, fj, fi), tj),
        cell(p.board, fj, fi) == -1 && tj == 7 ==> cell(p.after_move(fj, fi, tj, ti).board, tj, ti)
            == -3,
        cell(p.board, fj, fi) == 1 && tj == 0 ==> cell(p.after_move(fj, fi, tj, ti).board, tj, ti)
            == 3,
        !(cell(p.after_move(fj, fi, tj, ti).board, tj, ti) == -1 && tj == 7),
        !(cell(p.after_move(fj, fi, tj, ti).board, tj, ti) == 1 && tj == 0),
{
    reveal(Position::after_move);
}

/// A capture hop of a chain promotes as a move does: the piece that lands
/// on its farthest row in the middle of a chain goes on as a king.
pub proof fn lemma_hop_promotes(board: Seq<int>, j: int, i: int, d: Direction)
    requires
        board.len() == 64,
        can_jump(board, j, i, d),
    ensures
        cell(jump_board(board, j, i, d), j + 2 * d.row_delta(), i + 2 * d.col_delta()) == promote(
            cell(board, j, i),
            j + 2 * d.row_delta(),
        ),
{
}

/// A simple move empties the square that the piece leaves and changes no
/// cell but that square and the one where the piece lands.
pub proof fn lemma_step_board_cells(board: Seq<int>, j: int, i: int, d: Direction)
    requires
        board.len() == 64,
        can_step(board, j, i, d),
    ensures
        cell(step_board(board, j, i, d), j, i) == 0,
        forall|a: int, b: int|
            on_board(a, b) && (a, b) != (j, i) && (a, b) != (j + d.row_delta(), i + d.col_delta())
                ==> cell(step_board(board, j, i, d), a, b) == #[trigger] cell(board, a, b),
{
    let to = 8 * (j + d.row_delta()) + (i + d.col_delta());
    assert forall|a: int, b: int|
        on_board(a, b) && (a, b) != (j, i) && (a, b) != (j + d.row_delta(), i + d.col_delta())
        implies cell(step_board(board, j, i, d), a, b) == #[trigger] cell(board, a, b) by {
        assert(8 * a + b != 8 * j + i);
        assert(8 * a + b != to);
    }
}

/// A capture empties the square that the piece leaves and the square that
/// it jumps over, and changes no cell but these and the one where the piece
/// lands.
pub proof fn lemma_jump_board_cells(board: Seq<int>, j: int, i: int, d: Direction)
    requires
        board.len() == 64,
        can_jump(board, j, i, d),
    ensures
        cell(jump_board(board, j, i, d), j, i) == 0,
        cell(jump_board(board, j, i, d), j + d.row_delta(), i + d.col_delta()) == 0,
        forall|a: int, b: int|
            on_board(a, b) && (a, b) != (j, i) && (a, b) != (j + d.row_delta(), i + d.col_delta())
                && (a, b) != (j + 2 * d.row_delta(), i + 2 * d.col_delta()) ==> cell(
                jump_board(board, j, i, d),
                a,
                b,
            ) == #[trigger] cell(board, a, b),
{
    let mid = 8 * (j + d.row_delta()) + (i + d.col_delta());
    let to = 8 * (j + 2 * d.row_delta()) + (i + 2 * d.col_delta());
    assert forall|a: int, b: int|
        on_board(a, b) && (a, b) != (j, i) && (a, b) != (j + d.row_delta(), i + d.col_delta()) && (
        a,
        b,
    ) != (j + 2 * d.row_delta(), i + 2 * d.col_delta()) implies cell(
        jump_board(board, j, i, d),
        a,
        b,
    ) == #[trigger] cell(board, a, b) by {
        assert(8 * a + b != 8 * j + i);
        assert(8 * a + b != mid);
        assert(8 * a + b != to);
    }
}

/// A capture takes exactly one piece off the board: the piece of the other
/// side that stood midway between the two squares. A simple move takes
/// none. Every cell but the squares of the move and, for a capture, the one
/// between them is left as it was.
pub proof fn lemma_capture_takes_one(p: Position, fj: int, fi: int, tj: int, ti: int)
    requires
        p.board.len() == 64,
        p.legal(fj, fi, tj, ti),
    ensures
        span(fj, fi, tj, ti) is Some,
        cell(p.after_move(fj, fi, tj, ti).board, fj, fi) == 0,
        span(fj, fi, tj, ti).unwrap().size == 1 ==> {
            &&& piece_count(p.after_move(fj, fi, tj, ti).board) == piece_count(p.board)
            &&& forall|a: int, b: int|
                on_board(a, b) && (a, b) != (fj, fi) && (a, b) != (tj, ti) ==> cell(
                    p.after_move(fj, fi, tj, ti).board,
                    a,
                    b,
                ) == #[trigger] cell(p.board, a, b)
        },
        span(fj, fi, tj, ti).unwrap().size != 1 ==> {
            &&& piece_count(p.after_move(fj, fi, tj, ti).board) + 1 == piece_count(p.board)
            &&& opposing(cell(p.board, (fj + tj) / 2, (fi + ti) / 2), cell(p.board, fj, fi))
            &&& cell(p.after_move(fj, fi, tj, ti).board, (fj + tj) / 2, (fi + ti) / 2) == 0
            &&& forall|a: int, b: int|
                on_board(a, b) && (a, b) != (fj, fi) && (a, b) != (tj, ti) && (a, b) != ((fj + tj)
                    / 2, (fi + ti) / 2) ==> cell(p.after_move(fj, fi, tj, ti).board, a, b)
                    == #[trigger] cell(p.board, a, b)
        },
{
    reveal(Position::after_move);
    let s = span(fj, fi, tj, ti).unwrap();
    let d = s.direction;
    let q = p.after_move(fj, fi, tj, ti);
    if s.size == 1 {
        assert(tj == fj + d.row_delta() && ti == fi + d.col_delta());
        assert(q.board == step_board(p.board, fj, fi, d));
        lemma_step_keeps_count(p.board, fj, fi, d);
        lemma_step_board_cells(p.board, fj, fi, d);
    } else {
        assert(tj == fj + 2 * d.row_delta() && ti == fi + 2 * d.col_delta());
        assert((fj + tj) / 2 == fj + d.row_delta() && (fi + ti) / 2 == fi + d.col_delta());
        assert(q.board == jump_board(p.board, fj, fi, d));
        lemma_jump_lowers_count(p.board, fj, fi, d);
        lemma_jump_board_cells(p.board, fj, fi, d);
    }
}

/// After a capture from whose landing square a further capture is open, that
/// square is forced and the turn has not passed. After every other move no
/// square is forced and the turn has passed.
pub proof fn lemma_forced_after_capture(p: Position, fj: int, fi: int, tj: int, ti: int)
    requires
        p.legal(fj, fi, tj, ti),
    ensures
        span(fj, fi, tj, ti).unwrap().size == 2 && has_jump(
            p.after_move(fj, fi, tj, ti).board,
            tj,
            ti,
        ) ==> p.after_move(fj, fi, tj, ti).forced == Some((tj, ti)) && p.after_move(
            fj,
            fi,
            tj,
            ti,
        ).turn == p.turn,
        !(span(fj, fi, tj, ti).unwrap().size == 2 && has_jump(
            p.after_move(fj, fi, tj, ti).board,
            tj,
            ti,
        )) ==> p.after_move(fj, fi, tj, ti).forced is None && p.after_move(fj, fi, tj, ti).turn
            == other_side(p.turn),
{
    reveal(Position::after_move);
}

/// Whether place (`a`, `b`) of a table comes before place (`k`, `m`) in the
/// order of the lists and of their entries.
pub open spec fn comes_before(a: int, b: int, k: int, m: int) -> bool {
    a < k || (a == k && b < m)
}

/// Whether the score `s` is at least as good for the side `team` as the
/// score `t`.
pub open spec fn no_worse(team: int, s: int, t: int) -> bool {
    if team > 0 {
        s >= t
    } else {
        s <= t
    }
}

/// The choice among the scores before place (`k`, `m`) is the first place
/// that holds the best of them; there is no choice exactly when there is no
/// score before that place.
pub proof fn lemma_pick_is_first_best(table: Seq<Seq<int>>, team: int, k: int, m: int)
    requires
        0 <= k <= table.len(),
        0 <= m,
        k < table.len() ==> m <= table[k].len(),
        k == table.len() ==> m == 0,
    ensures
        pick_in(table, team, k, m) is None ==> forall|a: int, b: int|
            0 <= a < table.len() && 0 <= b < table[a].len() ==> !#[trigger] comes_before(
                a,
                b,
                k,
                m,
            ),
        pick_in(table, team, k, m) matches Some((x, y)) ==> {
            &&& 0 <= x < table.len()
            &&& 0 <= y < table[x].len()
            &&& comes_before(x, y, k, m)
            &&& forall|a: int, b: int|
                0 <= a < table.len() && 0 <= b < table[a].len() && #[trigger] comes_before(
                    a,
                    b,
                    k,
                    m,
                ) ==> no_worse(team, table[x][y], table[a][b]) && (comes_before(a, b, x, y)
                    ==> table[a][b] != table[x][y])
        },
    decreases k, m,
{
    if m > 0 {
        lemma_pick_is_first_best(table, team, k, m - 1);
        let prev = pick_in(table, team, k, m - 1);
        assert forall|a: int, b: int|
            0 <= a < table.len() && 0 <= b < table[a].len() && #[trigger] comes_before(
                a,
                b,
                k,
                m,
            ) implies comes_before(a, b, k, m - 1) || (a == k && b == m - 1) by {}
    } else if k > 0 {
        lemma_pick_is_first_best(table, team, k - 1, table[k - 1].len() as int);
        assert forall|a: int, b: int|
            0 <= a < table.len() && 0 <= b < table[a].len() && #[trigger] comes_before(
                a,
                b,
                k,
                m,
            ) implies comes_before(a, b, k - 1, table[k - 1].len() as int) by {}
    }
}

/// The move that the search chooses at the root is the first among the best:
/// its score is no worse for the searching side than that of any root move,
/// and no root move before it has the same score. The search finds no move
/// exactly when no square has a root move.
pub proof fn lemma_best_branch_is_first_best(p: Position, team: int, max_depth: nat)
    ensures
        best_branch(p, team, max_depth) is None ==> forall|k: int|
            0 <= k < 64 ==> (#[trigger] root_moves(p, team, k)).len() == 0,
        best_branch(p, team, max_depth) matches Some((x, y)) ==> {
            &&& 0 <= x < 64
            &&& 0 <= y < root_moves(p, team, x).len()
            &&& forall|k: int, n: int|
                0 <= k < 64 && 0 <= n < root_moves(p, team, k).len() ==> no_worse(
                    team,
                    branch_score(p, team, x, y, max_depth),
                    #[trigger] branch_score(p, team, k, n, max_depth),
                ) && (comes_before(k, n, x, y) ==> branch_score(p, team, k, n, max_depth)
                    != branch_score(p, team, x, y, max_depth))
        },
{
    reveal(best_branch);
    let table = score_table(p, team, max_depth);
    lemma_pick_is_first_best(table, team, 64, 0);
    assert forall|k: int| 0 <= k < 64 implies table[k].len() == (#[trigger] root_moves(
        p,
        team,
        k,
    )).len() by {}
    match best_branch(p, team, max_depth) {
        None => {
            assert forall|k: int| 0 <= k < 64 implies (#[trigger] root_moves(p, team, k)).len()
                == 0 by {
                if root_moves(p, team, k).len() > 0 {
                    assert(comes_before(k, 0, 64, 0));
                }
            }
        },
        Some((x, y)) => {
            assert forall|k: int, n: int|
                0 <= k < 64 && 0 <= n < root_moves(p, team, k).len() implies no_worse(
                team,
                branch_score(p, team, x, y, max_depth),
                #[trigger] branch_score(p, team, k, n, max_depth),
            ) && (comes_before(k, n, x, y) ==> branch_score(p, team, k, n, max_depth)
                != branch_score(p, team, x, y, max_depth)) by {
                assert(comes_before(k, n, 64, 0));
                assert(table[k][n] == branch_score(p, team, k, n, max_depth));
                assert(table[x][y] == branch_score(p, team, x, y, max_depth));
            }
        },
    }
}

/// A square has no move exactly when it holds no piece of the side to move
/// or the rules list no destination for it.
pub proof fn lemma_moves_iff_destinations(p: Position, j: int, i: int)
    requires
        p.board.len() == 64,
    ensures
        p.all_moves(j, i).len() == 0 <==> !p.owned(j, i) || p.possible_moves(j, i).len() == 0,
{
    lemma_chains_exist(p.board, j, i);
}

/// The root moves of a search for the side to move are, square by square,
/// the moves of the position.
pub proof fn lemma_root_moves_of_mover(p: Position, k: int)
    requires
        p.turn != 0,
        0 <= k < 64,
    ensures
        root_moves(p, p.turn, k) == p.all_moves(k / 8, k % 8),
{
    reveal(branch_moves);
    assert(p.board[k] == cell(p.board, k / 8, k % 8));
}

/// A search for the side to move finds no move exactly when the match has
/// ended for that side: it owns no square with a destination.
pub proof fn lemma_no_branch_iff_terminal(p: Position, max_depth: nat)
    requires
        p.board.len() == 64,
        p.turn != 0,
    ensures
        best_branch(p, p.turn, max_depth) is None <==> p.terminal(),
{
    lemma_best_branch_is_first_best(p, p.turn, max_depth);
    match best_branch(p, p.turn, max_depth) {
        None => {
            assert forall|j: int, i: int| #[trigger] p.owned(j, i) implies p.possible_moves(
                j,
                i,
            ).len() == 0 by {
                let k = 8 * j + i;
                assert(k / 8 == j && k % 8 == i);
                assert(root_moves(p, p.turn, k).len() == 0);
                lemma_root_moves_of_mover(p, k);
                lemma_moves_iff_destinations(p, j, i);
            }
        },
        Some((x, y)) => {
            lemma_root_moves_of_mover(p, x);
            lemma_moves_iff_destinations(p, x / 8, x % 8);
            assert(p.owned(x / 8, x % 8));
            assert(p.possible_moves(x / 8, x % 8).len() > 0);
        },
    }
}

/// The value of the position that the `b`-th move of square `a` leads to at
/// a node where black chooses (`maximizing`) or red does, `depth - 1` plies
/// deep.
pub open spec fn child_value(p: Position, depth: nat, maximizing: bool, a: int, b: int) -> int {
    value(child(p, a, branch_moves(p, maximizing, a)[b]), (depth - 1) as nat, !maximizing)
}

/// The worst score for the side that chooses.
pub open spec fn worst(maximizing: bool) -> int {
    if maximizing {
        i32::MIN as int
    } else {
        i32::MAX as int
    }
}

/// The minimax value over the moves before place (`k`, `m`) is the best of
/// their values: it is no worse for the side that chooses than the value of
/// any of them, and it is the value of one of them, whose place is returned;
/// with no move before that place it is the worst score.
pub proof fn lemma_upto_is_extremum(p: Position, depth: nat, maximizing: bool, k: int, m: int) -> (w:
    Option<(int, int)>)
    requires
        board_wf(p.board),
        depth > 0,
        0 <= k <= 64,
        0 <= m,
        k < 64 ==> m <= branch_moves(p, maximizing, k).len(),
        k == 64 ==> m == 0,
    ensures
        forall|a: int, b: int|
            0 <= a < 64 && 0 <= b < branch_moves(p, maximizing, a).len() && comes_before(a, b, k, m)
                ==> no_worse(
                if maximizing {
                    1
                } else {
                    -1
                },
                value_upto(p, depth, maximizing, k, m),
                #[trigger] child_value(p, depth, maximizing, a, b),
            ),
        w is None ==> value_upto(p, depth, maximizing, k, m) == worst(maximizing),
        w matches Some((a, b)) ==> 0 <= a < 64 && 0 <= b < branch_moves(p, maximizing, a).len()
            && value_upto(p, depth, maximizing, k, m) == child_value(p, depth, maximizing, a, b),
    decreases k, m,
{
    reveal(value);
    reveal(value_upto);
    if m > 0 {
        let before = lemma_upto_is_extremum(p, depth, maximizing, k, m - 1);
        let t = value_upto(p, depth, maximizing, k, m - 1);
        let v = child_value(p, depth, maximizing, k, m - 1);
        lemma_child_wf(p, maximizing, k, m - 1);
        lemma_value_bounded(
            child(p, k, branch_moves(p, maximizing, k)[m - 1]),
            (depth - 1) as nat,
            !maximizing,
        );
        assert(value_upto(p, depth, maximizing, k, m) == better(maximizing, t, v));
        assert forall|a: int, b: int|
            0 <= a < 64 && 0 <= b < branch_moves(p, maximizing, a).len() && comes_before(a, b, k, m)
            implies no_worse(
            if maximizing {
                1
            } else {
                -1
            },
            value_upto(p, depth, maximizing, k, m),
            #[trigger] child_value(p, depth, maximizing, a, b),
        ) by {
            if !(a == k && b == m - 1) {
                assert(comes_before(a, b, k, m - 1));
            }
        }
        if better(maximizing, t, v) == v {
            Some((k, m - 1))
        } else {
            before
        }
    } else if k > 0 {
        let len = branch_moves(p, maximizing, k - 1).len() as int;
        let before = lemma_upto_is_extremum(p, depth, maximizing, k - 1, len);
        assert forall|a: int, b: int|
            0 <= a < 64 && 0 <= b < branch_moves(p, maximizing, a).len() && comes_before(a, b, k, m)
            implies no_worse(
            if maximizing {
                1
            } else {
                -1
            },
            value_upto(p, depth, maximizing, k, m),
            #[trigger] child_value(p, depth, maximizing, a, b),
        ) by {
            assert(comes_before(a, b, k - 1, len));
        }
        before
    } else {
        None
    }
}

/// The score of the move that the search chooses at the root is the minimax
/// value of the root, searched at full width: the pruning of the search
/// below the root and the choice among equal scores change neither. When
/// the searching side has no move, the value of the root is its worst
/// score.
pub proof fn lemma_best_score_is_root_value(p: Position, team: int, max_depth: nat)
    requires
        board_wf(p.board),
        max_depth >= 1,
        team != 0,
    ensures
        best_branch(p, team, max_depth) matches Some((x, y)) ==> branch_score(
            p,
            team,
            x,
            y,
            max_depth,
        ) == value(p, max_depth, team > 0),
        best_branch(p, team, max_depth) is None ==> value(p, max_depth, team > 0) == worst(
            team > 0,
        ),
{
    let maximizing = team > 0;
    lemma_best_branch_is_first_best(p, team, max_depth);
    lemma_value_unfold(p, max_depth, maximizing);
    let w = lemma_upto_is_extremum(p, max_depth, maximizing, 64, 0);
    let top = value_upto(p, max_depth, maximizing, 64, 0);
    assert forall|k: int| 0 <= k < 64 implies #[trigger] root_moves(p, team, k) == branch_moves(
        p,
        maximizing,
        k,
    ) by {}
    match best_branch(p, team, max_depth) {
        Some((x, y)) => {
            let chosen = branch_score(p, team, x, y, max_depth);
            assert(chosen == child_value(p, max_depth, maximizing, x, y));
            assert(comes_before(x, y, 64, 0));
            assert(no_worse(if maximizing { 1 } else { -1 }, top, chosen));
            match w {
                Some((a, b)) => {
                    assert(top == child_value(p, max_depth, maximizing, a, b));
                    assert(top == branch_score(p, team, a, b, max_depth));
                    assert(no_worse(team, chosen, top));
                },
                None => {
                    lemma_child_wf(p, maximizing, x, y);
                    lemma_value_bounded(
                        child(p, x, branch_moves(p, maximizing, x)[y]),
                        (max_depth - 1) as nat,
                        !maximizing,
                    );
                },
            }
        },
        None => {
            match w {
                Some((a, b)) => {
                    assert(root_moves(p, team, a).len() == 0);
                },
                None => {},
            }
        },
    }
}

/// Whether (`tj`, `ti`) is one of the destinations that the rules list for
/// the piece at (`j`, `i`).
pub open spec fn listed(p: Position, j: int, i: int, tj: int, ti: int) -> bool {
    exists|n: int|
        0 <= n < p.possible_moves(j, i).len() && (#[trigger] p.possible_moves(j, i)[n]).0 == tj
            && p.possible_moves(j, i)[n].1 == ti
}

/// What one direction contributes to the destinations of a square is the
/// destination of the move or capture that is open in that direction.
pub proof fn lemma_direction_listed(p: Position, j: int, i: int, d: Direction)
    requires
        on_board(j, i),
    ensures
        p.step_open(j, i, d) ==> listed(p, j, i, j + d.row_delta(), i + d.col_delta()),
        p.jump_open(j, i, d) ==> listed(p, j, i, j + 2 * d.row_delta(), i + 2 * d.col_delta()),
{
    let only = p.forced is Some;
    let a = direction_targets(p.board, j, i, Direction::UpRight, only);
    let b = direction_targets(p.board, j, i, Direction::UpLeft, only);
    let c = direction_targets(p.board, j, i, Direction::DownRight, only);
    let n: int = match d {
        Direction::UpRight => 0,
        Direction::UpLeft => a.len() as int,
        Direction::DownRight => (a.len() + b.len()) as int,
        Direction::DownLeft => (a.len() + b.len() + c.len()) as int,
    };
    if p.step_open(j, i, d) {
        assert(p.possible_moves(j, i)[n] == (j + d.row_delta(), i + d.col_delta(), false));
    }
    if p.jump_open(j, i, d) {
        assert(p.possible_moves(j, i)[n] == (j + 2 * d.row_delta(), i + 2 * d.col_delta(), true));
    }
}

/// A move is legal exactly when the piece is of the side to move and the
/// rules list the destination for its square.
pub proof fn lemma_legal_iff_listed(p: Position, fj: int, fi: int, tj: int, ti: int)
    ensures
        p.legal(fj, fi, tj, ti) <==> p.owned(fj, fi) && listed(p, fj, fi, tj, ti),
{
    if p.legal(fj, fi, tj, ti) {
        let s = span(fj, fi, tj, ti).unwrap();
        lemma_direction_listed(p, fj, fi, s.direction);
    }
    if p.owned(fj, fi) && listed(p, fj, fi, tj, ti) {
        let n = choose|n: int|
            0 <= n < p.possible_moves(fj, fi).len() && (#[trigger] p.possible_moves(fj, fi)[n]).0
                == tj && p.possible_moves(fj, fi)[n].1 == ti;
        let only = p.forced is Some;
        let a = direction_targets(p.board, fj, fi, Direction::UpRight, only);
        let b = direction_targets(p.board, fj, fi, Direction::UpLeft, only);
        let c = direction_targets(p.board, fj, fi, Direction::DownRight, only);
        let d: Direction = if n < a.len() {
            Direction::UpRight
        } else if n < a.len() + b.len() {
            Direction::UpLeft
        } else if n < a.len() + b.len() + c.len() {
            Direction::DownRight
        } else {
            Direction::DownLeft
        };
        assert(direction_targets(p.board, fj, fi, d, only).len() == 1);
        assert(p.possible_moves(fj, fi)[n] == direction_targets(p.board, fj, fi, d, only)[0]);
        if p.possible_moves(fj, fi)[n].2 {
            assert(span(fj, fi, tj, ti) == Some(hop(d)));
        } else {
            assert(span(fj, fi, tj, ti) == Some(pace(d)));
        }
    }
}

/// The match has ended for the side to move exactly when it has no legal
/// move.
pub proof fn lemma_terminal_iff_no_legal_move(p: Position)
    ensures
        p.terminal() <==> forall|fj: int, fi: int, tj: int, ti: int|
            !#[trigger] p.legal(fj, fi, tj, ti),
{
    if p.terminal() {
        assert forall|fj: int, fi: int, tj: int, ti: int| !#[trigger] p.legal(
            fj,
            fi,
            tj,
            ti,
        ) by {
            lemma_legal_iff_listed(p, fj, fi, tj, ti);
        }
    }
    if forall|fj: int, fi: int, tj: int, ti: int| !#[trigger] p.legal(fj, fi, tj, ti) {
        assert forall|j: int, i: int| #[trigger] p.owned(j, i) implies p.possible_moves(j, i).len()
            == 0 by {
            if p.possible_moves(j, i).len() > 0 {
                let t = p.possible_moves(j, i)[0];
                assert(listed(p, j, i, t.0, t.1));
                lemma_legal_iff_listed(p, j, i, t.0, t.1);
                assert(p.legal(j, i, t.0, t.1));
            }
        }
    }
}

} // verus!
