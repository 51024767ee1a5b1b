//! The search: minimax with alpha-beta pruning.

use vstd::prelude::*;
use crate::board::{board_wf, lemma_relocate_wf};
use crate::chains::move_views;
use crate::eval::lemma_evaluation_bounded;
use crate::game::{span, Checkers, Position};
use crate::laws::lemma_listed_move_plays;
use crate::moves::{Move, MoveView, Step};

verus! {

/// The moves of square `k` (row `k / 8`, column `k % 8`) at a node where
/// black chooses (`maximizing`) or red does: the moves of the piece there if
/// it is of the choosing side, else none.
#[verifier::opaque]
pub open spec fn branch_moves(p: Position, maximizing: bool, k: int) -> Seq<MoveView> {
    if (maximizing && p.board[k] > 0) || (!maximizing && p.board[k] < 0) {
        p.all_moves(k / 8, k % 8)
    } else {
        Seq::empty()
    }
}

/// The position after the piece of square `k` has played `m`.
pub open spec fn child(p: Position, k: int, m: MoveView) -> Position {
    p.after_steps(k / 8, k % 8, m.steps())
}

/// The better of two scores for the side that chooses: the greater for
/// black, the smaller for red.
pub open spec fn better(maximizing: bool, a: int, b: int) -> int {
    if maximizing {
        if a >= b {
            a
        } else {
            b
        }
    } else {
        if a <= b {
            a
        } else {
            b
        }
    }
}

/// The minimax value of the moves of the squares before `k` and of the
/// first `m` moves of square `k`, each followed to `depth - 1` further
/// plies; the worst score for the choosing side when there is no such move.
#[verifier::opaque]
pub open spec fn value_upto(p: Position, depth: nat, maximizing: bool, k: int, m: int) -> int
    decreases depth, k, m,
{
    if depth == 0 || k < 0 || m < 0 {
        0
    } else if m > 0 {
        let before = value_upto(p, depth, maximizing, k, m - 1);
        if m <= branch_moves(p, maximizing, k).len() {
            better(
                maximizing,
                before,
                value(
                    child(p, k, branch_moves(p, maximizing, k)[m - 1]),
                    (depth - 1) as nat,
                    !maximizing,
                ),
            )
        } else {
            before
        }
    } else if k > 0 {
        value_upto(p, depth, maximizing, k - 1, branch_moves(p, maximizing, k - 1).len() as int)
    } else if maximizing {
        i32::MIN as int
    } else {
        i32::MAX as int
    }
}

/// The minimax value of a position `depth` plies deep, searched at full
/// width: its evaluation at depth 0, else the best, for the side that
/// chooses, of the values of the positions that its moves lead to.
#[verifier::opaque]
pub open spec fn value(p: Position, depth: nat, maximizing: bool) -> int
    decreases depth, 65int, 0int,
{
    if depth == 0 {
        p.evaluation()
    } else {
        value_upto(p, depth, maximizing, 64, 0)
    }
}

/// What a search with the window from `alpha` to `beta` says of the true
/// value `v` by its result `r`: a result inside the window is the value; a
/// result at or below `alpha` says that the value is at most `alpha`; a
/// result at or above `beta` says that the value is at least `beta`.
pub open spec fn within_window(r: int, v: int, alpha: int, beta: int) -> bool {
    &&& r <= alpha ==> v <= alpha
    &&& r >= beta ==> v >= beta
    &&& alpha < r < beta ==> r == v
}

/// A legal move on a well-formed board leads to a well-formed board.
pub proof fn lemma_move_keeps_wf(p: Position, fj: int, fi: int, tj: int, ti: int)
    requires
        board_wf(p.board),
        p.legal(fj, fi, tj, ti),
    ensures
        board_wf(p.after_move(fj, fi, tj, ti).board),
{
    reveal(Position::after_move);
    let s = span(fj, fi, tj, ti).unwrap();
    lemma_relocate_wf(p.board, fj, fi, s.direction);
}

/// Legal steps on a well-formed board lead to a well-formed board.
pub proof fn lemma_steps_keep_wf(p: Position, j: int, i: int, steps: Seq<Step>)
    requires
        board_wf(p.board),
        p.steps_legal(j, i, steps),
    ensures
        board_wf(p.after_steps(j, i, steps).board),
    decreases steps.len(),
{
    if steps.len() > 0 {
        let tj = steps[0].row_from(j);
        let ti = steps[0].col_from(i);
        lemma_move_keeps_wf(p, j, i, tj, ti);
        lemma_steps_keep_wf(p.after_move(j, i, tj, ti), tj, ti, steps.drop_first());
    }
}

/// Every move of a node leads to a well-formed board.
pub proof fn lemma_child_wf(p: Position, maximizing: bool, k: int, n: int)
    requires
        board_wf(p.board),
        0 <= k < 64,
        0 <= n < branch_moves(p, maximizing, k).len(),
    ensures
        p.steps_legal(k / 8, k % 8, branch_moves(p, maximizing, k)[n].steps()),
        board_wf(child(p, k, branch_moves(p, maximizing, k)[n]).board),
{
    reveal(branch_moves);
    lemma_listed_move_plays(p, k / 8, k % 8, n);
    lemma_steps_keep_wf(p, k / 8, k % 8, branch_moves(p, maximizing, k)[n].steps());
}

/// The minimax value over a prefix of the moves is a score that the machine
/// can hold.
pub proof fn lemma_upto_bounded(p: Position, depth: nat, maximizing: bool, k: int, m: int)
    requires
        board_wf(p.board),
        depth > 0,
        0 <= k <= 64,
        0 <= m,
        k < 64 || m == 0,
    ensures
        i32::MIN <= value_upto(p, depth, maximizing, k, m) <= i32::MAX,
    decreases depth, k, m,
{
    reveal(value);
    reveal(value_upto);
    if m > 0 {
        lemma_upto_bounded(p, depth, maximizing, k, m - 1);
        if m <= branch_moves(p, maximizing, k).len() {
            lemma_child_wf(p, maximizing, k, m - 1);
            lemma_value_bounded(
                child(p, k, branch_moves(p, maximizing, k)[m - 1]),
                (depth - 1) as nat,
                !maximizing,
            );
        }
    } else if k > 0 {
        lemma_upto_bounded(
            p,
            depth,
            maximizing,
            k - 1,
            branch_moves(p, maximizing, k - 1).len() as int,
        );
    }
}

/// The minimax value of a well-formed position is a score that the machine
/// can hold.
pub proof fn lemma_value_bounded(p: Position, depth: nat, maximizing: bool)
    requires
        board_wf(p.board),
    ensures
        i32::MIN <= value(p, depth, maximizing) <= i32::MAX,
    decreases depth, 65int, 0int,
{
    lemma_value_unfold(p, depth, maximizing);
    if depth == 0 {
        lemma_evaluation_bounded(p);
    } else {
        lemma_upto_bounded(p, depth, maximizing, 64, 0);
    }
}

/// More moves of a square can only make the value better for the side that
/// chooses.
pub proof fn lemma_upto_monotone(
    p: Position,
    depth: nat,
    maximizing: bool,
    k: int,
    m1: int,
    m2: int,
)
    requires
        depth > 0,
        0 <= k,
        0 <= m1 <= m2,
    ensures
        maximizing ==> value_upto(p, depth, maximizing, k, m1) <= value_upto(
            p,
            depth,
            maximizing,
            k,
            m2,
        ),
        !maximizing ==> value_upto(p, depth, maximizing, k, m1) >= value_upto(
            p,
            depth,
            maximizing,
            k,
            m2,
        ),
    decreases m2,
{
    reveal(value);
    reveal(value_upto);
    if m1 < m2 {
        lemma_upto_monotone(p, depth, maximizing, k, m1, m2 - 1);
    }
}

/// The window that is left at a node that was entered with the window from
/// `alpha` to `beta` and has found the score `best`: black raises the lower
/// bound to its best score, red lowers the upper bound to its own.
pub open spec fn narrowed(maximizing: bool, alpha: int, beta: int, best: int) -> (int, int) {
    if maximizing {
        (better(true, alpha, best), beta)
    } else {
        (alpha, better(false, beta, best))
    }
}

/// One more move at a node. The best score so far, `best`, tells the value
/// `t` of the moves so far; the move was searched with the window that is
/// left, and its result `score` tells its value `v` if that window is open.
/// Then the new best score tells the value of the moves with this one.
pub proof fn lemma_window_step(
    maximizing: bool,
    alpha: int,
    beta: int,
    best: int,
    t: int,
    score: int,
    v: int,
)
    requires
        alpha < beta,
        within_window(best, t, alpha, beta),
        narrowed(maximizing, alpha, beta, best).0 < narrowed(maximizing, alpha, beta, best).1
            ==> within_window(
            score,
            v,
            narrowed(maximizing, alpha, beta, best).0,
            narrowed(maximizing, alpha, beta, best).1,
        ),
    ensures
        within_window(better(maximizing, best, score), better(maximizing, t, v), alpha, beta),
{
}

/// Moves that are left out once the window has closed do not change what
/// the best score tells: the value `t_end` with them is no worse for the
/// side that chooses than the value `t` without them.
pub proof fn lemma_window_skip(
    maximizing: bool,
    alpha: int,
    beta: int,
    best: int,
    t: int,
    t_end: int,
)
    requires
        alpha < beta,
        within_window(best, t, alpha, beta),
        maximizing ==> t <= t_end,
        !maximizing ==> t >= t_end,
        t == t_end || narrowed(maximizing, alpha, beta, best).0 >= narrowed(
            maximizing,
            alpha,
            beta,
            best,
        ).1,
    ensures
        within_window(best, t_end, alpha, beta),
{
}

/// The value of a position at depth 0 is its evaluation; deeper, it is the
/// value over the moves of all squares.
pub proof fn lemma_value_unfold(p: Position, depth: nat, maximizing: bool)
    ensures
        depth == 0 ==> value(p, depth, maximizing) == p.evaluation(),
        depth > 0 ==> value(p, depth, maximizing) == value_upto(p, depth, maximizing, 64, 0),
{
    reveal(value);
    reveal(value_upto);
}

/// The value after all moves of square `k` is the value up to the next
/// square.
pub proof fn lemma_square_done(p: Position, depth: nat, maximizing: bool, k: int)
    requires
        depth > 0,
        0 <= k,
    ensures
        value_upto(p, depth, maximizing, k + 1, 0) == value_upto(
            p,
            depth,
            maximizing,
            k,
            branch_moves(p, maximizing, k).len() as int,
        ),
{
    reveal(value);
    reveal(value_upto);
}

/// The value with one more move of square `k` is the better of the value
/// without it and the value of the position that the move leads to.
pub proof fn lemma_upto_next(p: Position, depth: nat, maximizing: bool, k: int, n: int)
    requires
        depth > 0,
        0 <= k,
        0 <= n < branch_moves(p, maximizing, k).len(),
    ensures
        value_upto(p, depth, maximizing, k, n + 1) == better(
            maximizing,
            value_upto(p, depth, maximizing, k, n),
            value(child(p, k, branch_moves(p, maximizing, k)[n]), (depth - 1) as nat, !maximizing),
        ),
{
    reveal(value);
    reveal(value_upto);
}

/// Before any move the value is the worst score for the side that chooses.
pub proof fn lemma_upto_start(p: Position, depth: nat, maximizing: bool)
    requires
        depth > 0,
    ensures
        value_upto(p, depth, maximizing, 0, 0) == if maximizing {
            i32::MIN as int
        } else {
            i32::MAX as int
        },
{
    reveal(value);
    reveal(value_upto);
}

/// When the search of square `k` stops after `n` of its moves, because
/// there is no further move or because the window has closed, the best score
/// tells the value up to the next square.
pub proof fn lemma_square_finish(
    p: Position,
    depth: nat,
    maximizing: bool,
    k: int,
    n: int,
    alpha: int,
    beta: int,
    best: int,
)
    requires
        depth > 0,
        0 <= k,
        0 <= n <= branch_moves(p, maximizing, k).len(),
        alpha < beta,
        within_window(best, value_upto(p, depth, maximizing, k, n), alpha, beta),
        n == branch_moves(p, maximizing, k).len() || narrowed(maximizing, alpha, beta, best).0
            >= narrowed(maximizing, alpha, beta, best).1,
    ensures
        within_window(best, value_upto(p, depth, maximizing, k + 1, 0), alpha, beta),
{
    let len = branch_moves(p, maximizing, k).len() as int;
    lemma_square_done(p, depth, maximizing, k);
    lemma_upto_monotone(p, depth, maximizing, k, n, len);
    lemma_window_skip(
        maximizing,
        alpha,
        beta,
        best,
        value_upto(p, depth, maximizing, k, n),
        value_upto(p, depth, maximizing, k, len),
    );
}

/// The greater of two scores.
pub fn larger(a: i32, b: i32) -> (r: i32)
    ensures
        r == better(true, a as int, b as int),
{
    if a >= b {
        a
    } else {
        b
    }
}

/// The smaller of two scores.
pub fn smaller(a: i32, b: i32) -> (r: i32)
    ensures
        r == better(false, a as int, b as int),
{
    if a <= b {
        a
    } else {
        b
    }
}

impl Checkers {
    /// The moves of square `k` at a node where black chooses
    /// (`is_maximizing_player`) or red does.
    pub fn square_moves(&self, k: usize, is_maximizing_player: bool) -> (r: Vec<Move>)
        requires
            k < 64,
        ensures
            move_views(r@) == branch_moves(self@, is_maximizing_player, k as int),
    {
        reveal(branch_moves);
        let j = k / 8;
        let i = k % 8;
        let piece = self.piece_at(j, i);
        assert(self@.board[k as int] == piece);
        if (is_maximizing_player && piece > 0) || (!is_maximizing_player && piece < 0) {
            match self.get_all_possible_moves(j, i) {
                Some(v) => {
                    return v;
                },
                None => {},
            }
        }
        let none: Vec<Move> = Vec::new();
        assert(move_views(none@) =~= branch_moves(self@, is_maximizing_player, k as int));
        none
    }

    /// Searches the moves of square `k` at a node whose best score so far is
    /// `best`, and returns the best score after them. The window that the
    /// node was entered with runs from `alpha` to `beta`; the moves of the
    /// square that follow a score outside it are not searched.
    fn search_square(
        &self,
        k: usize,
        current_depth: usize,
        max_depth: usize,
        is_maximizing_player: bool,
        alpha: i32,
        beta: i32,
        best: i32,
    ) -> (r: i32)
        requires
            k < 64,
            board_wf(self@.board),
            current_depth < max_depth,
        ensures
            alpha < beta && within_window(
                best as int,
                value_upto(
                    self@,
                    (max_depth - current_depth) as nat,
                    is_maximizing_player,
                    k as int,
                    0,
                ),
                alpha as int,
                beta as int,
            ) ==> within_window(
                r as int,
                value_upto(
                    self@,
                    (max_depth - current_depth) as nat,
                    is_maximizing_player,
                    k + 1,
                    0,
                ),
                alpha as int,
                beta as int,
            ),
        decreases max_depth - current_depth, 0nat,
    {
        let ghost p = self@;
        let ghost depth = (max_depth - current_depth) as nat;
        let ghost listed = branch_moves(p, is_maximizing_player, k as int);
        let ghost held = alpha < beta && within_window(
            best as int,
            value_upto(p, depth, is_maximizing_player, k as int, 0),
            alpha as int,
            beta as int,
        );
        let moves = self.square_moves(k, is_maximizing_player);
        let mut best = best;
        let mut low = if is_maximizing_player {
            larger(alpha, best)
        } else {
            alpha
        };
        let mut high = if is_maximizing_player {
            beta
        } else {
            smaller(beta, best)
        };
        let mut n: usize = 0;
        while n < moves.len() && (n == 0 || low < high)
            invariant
                n <= moves.len(),
                k < 64,
                current_depth < max_depth,
                depth == (max_depth - current_depth) as nat,
                p == self@,
                board_wf(p.board),
                listed == branch_moves(p, is_maximizing_player, k as int),
                listed == move_views(moves@),
                low == narrowed(is_maximizing_player, alpha as int, beta as int, best as int).0,
                high == narrowed(is_maximizing_player, alpha as int, beta as int, best as int).1,
                held ==> alpha < beta,
                held ==> within_window(
                    best as int,
                    value_upto(p, depth, is_maximizing_player, k as int, n as int),
                    alpha as int,
                    beta as int,
                ),
            decreases moves.len() - n,
        {
            let ghost m = listed[n as int];
            let ghost t = value_upto(p, depth, is_maximizing_player, k as int, n as int);
            let ghost v = value(child(p, k as int, m), (depth - 1) as nat, !is_maximizing_player);
            let ghost before = best;
            proof {
                lemma_child_wf(p, is_maximizing_player, k as int, n as int);
                lemma_upto_next(p, depth, is_maximizing_player, k as int, n as int);
                assert(m == moves[n as int]@);
            }
            let mut copy = *self;
            let _ = copy.make_move_from_enum(k / 8, k % 8, &moves[n]);
            assert(copy@ == child(p, k as int, m));
            let score = copy.minimax(
                current_depth + 1,
                max_depth,
                !is_maximizing_player,
                low,
                high,
            );
            if is_maximizing_player {
                best = larger(best, score);
                low = larger(low, best);
            } else {
                best = smaller(best, score);
                high = smaller(high, best);
            }
            proof {
                if held {
                    lemma_window_step(
                        is_maximizing_player,
                        alpha as int,
                        beta as int,
                        before as int,
                        t,
                        score as int,
                        v,
                    );
                }
            }
            n = n + 1;
        }
        proof {
            if held {
                lemma_square_finish(
                    p,
                    depth,
                    is_maximizing_player,
                    k as int,
                    n as int,
                    alpha as int,
                    beta as int,
                    best as int,
                );
            }
        }
        best
    }

    /// Minimax with alpha-beta pruning. The position is searched to the ply
    /// `max_depth`, this node being at ply `current_depth`; black chooses
    /// where `is_maximizing_player` holds, red where it does not. The result
    /// is the evaluation at the last ply. Above it, the result of a search
    /// with an open window from `alpha` to `beta` tells the minimax value
    /// of the full-width search: it is that value when it lies inside the
    /// window, and else lies on the same side of the window as the value.
    /// With the widest window the result is the value.
    pub fn minimax(
        &self,
        current_depth: usize,
        max_depth: usize,
        is_maximizing_player: bool,
        alpha: i32,
        beta: i32,
    ) -> (r: i32)
        requires
            board_wf(self@.board),
            current_depth <= max_depth,
        ensures
            current_depth == max_depth ==> r == self@.evaluation(),
            alpha < beta ==> within_window(
                r as int,
                value(self@, (max_depth - current_depth) as nat, is_maximizing_player),
                alpha as int,
                beta as int,
            ),
            alpha == i32::MIN && beta == i32::MAX ==> r == value(
                self@,
                (max_depth - current_depth) as nat,
                is_maximizing_player,
            ),
        decreases max_depth - current_depth, 1nat,
    {
        proof {
            lemma_value_bounded(
                self@,
                (max_depth - current_depth) as nat,
                is_maximizing_player,
            );
            lemma_value_unfold(self@, (max_depth - current_depth) as nat, is_maximizing_player);
        }
        if current_depth == max_depth {
            return self.evaluate_board();
        }
        let ghost depth = (max_depth - current_depth) as nat;
        let mut best: i32 = if is_maximizing_player {
            i32::MIN
        } else {
            i32::MAX
        };
        proof {
            lemma_upto_start(self@, depth, is_maximizing_player);
        }
        let mut k: usize = 0;
        while k < 64
            invariant
                k <= 64,
                board_wf(self@.board),
                current_depth < max_depth,
                depth == (max_depth - current_depth) as nat,
                alpha < beta ==> within_window(
                    best as int,
                    value_upto(self@, depth, is_maximizing_player, k as int, 0),
                    alpha as int,
                    beta as int,
                ),
            decreases 64 - k,
        {
            best =
            self.search_square(
                k,
                current_depth,
                max_depth,
                is_maximizing_player,
                alpha,
                beta,
                best,
            );
            k = k + 1;
        }
        best
    }
}

/// The moves of square `k` at the root of a search for the side `team`
/// (positive for black, negative for red).
pub open spec fn root_moves(p: Position, team: int, k: int) -> Seq<MoveView> {
    if team > 0 {
        branch_moves(p, true, k)
    } else if team < 0 {
        branch_moves(p, false, k)
    } else {
        Seq::empty()
    }
}

/// The score of the `n`-th move of square `k` at the root: the minimax
/// value of the position that it leads to, where the other side chooses
/// next, searched to the ply `max_depth` with the root move as the first.
pub open spec fn branch_score(p: Position, team: int, k: int, n: int, max_depth: nat) -> int {
    value(child(p, k, root_moves(p, team, k)[n]), (max_depth - 1) as nat, team < 0)
}

/// The scores of the moves of square `k` at the root, in the order of the
/// moves.
pub open spec fn square_scores(p: Position, team: int, k: int, max_depth: nat) -> Seq<int> {
    Seq::new(root_moves(p, team, k).len(), |n: int| branch_score(p, team, k, n, max_depth))
}

/// The scores of all root moves: one list for each of the 64 squares.
pub open spec fn score_table(p: Position, team: int, max_depth: nat) -> Seq<Seq<int>> {
    Seq::new(64, |k: int| square_scores(p, team, k, max_depth))
}

/// Scores as mathematical integers.
pub open spec fn scores_view(v: Seq<i32>) -> Seq<int> {
    Seq::new(v.len(), |n: int| v[n] as int)
}

/// A table of scores as mathematical integers.
pub open spec fn table_view(v: Seq<Vec<i32>>) -> Seq<Seq<int>> {
    Seq::new(v.len(), |k: int| scores_view(v[k]@))
}

/// Whether the score `s` takes the place of the choice made so far: the
/// first score always does, a later one only if it is strictly better for
/// the side `team`.
pub open spec fn improves(table: Seq<Seq<int>>, team: int, s: int, prev: Option<(int, int)>) -> bool {
    match prev {
        None => true,
        Some((a, b)) => if team > 0 {
            s > table[a][b]
        } else {
            s < table[a][b]
        },
    }
}

/// The choice among the scores of the lists before `k` and the first `m`
/// scores of list `k`: the place (list, index) of the score that is best for
/// the side `team`, the first such place where several are equal; `None`
/// when there is no score.
pub open spec fn pick_in(table: Seq<Seq<int>>, team: int, k: int, m: int) -> Option<(int, int)>
    decreases k, m,
{
    if k < 0 || m < 0 {
        None
    } else if m > 0 {
        let prev = pick_in(table, team, k, m - 1);
        if k < table.len() && m <= table[k].len() && improves(table, team, table[k][m - 1], prev) {
            Some((k, m - 1))
        } else {
            prev
        }
    } else if k > 0 {
        pick_in(table, team, k - 1, table[k - 1].len() as int)
    } else {
        None
    }
}

/// The root move that a search for the side `team` to the ply `max_depth`
/// chooses: its square and its index among the moves of that square.
#[verifier::opaque]
pub open spec fn best_branch(p: Position, team: int, max_depth: nat) -> Option<(int, int)> {
    pick_in(score_table(p, team, max_depth), team, 64, 0)
}

/// The place of the best score in a table of scores, for the side `team`:
/// the greatest score for black (`team` positive), the least for red; the
/// first place among equals; `None` when the table holds no score.
pub fn pick_best(scores: &Vec<Vec<i32>>, team: i32) -> (r: Option<(usize, usize)>)
    ensures
        r is None <==> pick_in(table_view(scores@), team as int, scores.len() as int, 0) is None,
        r matches Some((a, b)) ==> pick_in(table_view(scores@), team as int, scores.len() as int, 0)
            == Some((a as int, b as int)) && a < scores.len() && b < scores[a as int].len(),
{
    let ghost table = table_view(scores@);
    let mut found: Option<(usize, usize)> = None;
    let mut score: i32 = 0;
    let mut k: usize = 0;
    while k < scores.len()
        invariant
            k <= scores.len(),
            table == table_view(scores@),
            found is None <==> pick_in(table, team as int, k as int, 0) is None,
            found matches Some((a, b)) ==> pick_in(table, team as int, k as int, 0) == Some(
                (a as int, b as int),
            ) && a < scores.len() && b < scores[a as int].len() && score == scores[a as int][b as int],
        decreases scores.len() - k,
    {
        let row = &scores[k];
        assert(table[k as int] == scores_view(row@));
        let mut m: usize = 0;
        while m < row.len()
            invariant
                m <= row.len(),
                k < scores.len(),
                row == &scores[k as int],
                table == table_view(scores@),
                table[k as int] == scores_view(row@),
                found is None <==> pick_in(table, team as int, k as int, m as int) is None,
                found matches Some((a, b)) ==> pick_in(table, team as int, k as int, m as int)
                    == Some((a as int, b as int)) && a < scores.len() && b < scores[a as int].len()
                    && score == scores[a as int][b as int],
            decreases row.len() - m,
        {
            let s = row[m];
            assert(table[k as int][m as int] == s);
            proof {
                if let Some((a, b)) = found {
                    assert(table[a as int] == scores_view(scores[a as int]@));
                    assert(table[a as int][b as int] == score);
                }
            }
            let take = match found {
                None => true,
                Some(_) => if team > 0 {
                    s > score
                } else {
                    s < score
                },
            };
            if take {
                found = Some((k, m));
                score = s;
            }
            m = m + 1;
        }
        k = k + 1;
    }
    found
}

impl Checkers {
    /// The scores of the root moves of square `k` in a search for the side
    /// to move to the ply `max_depth`, in the order of the moves: each move
    /// is played on a copy of the match and the position that it leads to is
    /// searched with the widest window.
    pub fn score_square(&self, k: usize, max_depth: usize) -> (r: Vec<i32>)
        requires
            k < 64,
            board_wf(self@.board),
            max_depth >= 1,
        ensures
            scores_view(r@) == square_scores(self@, self@.turn, k as int, max_depth as nat),
    {
        let team = self.current_turn;
        let ghost p = self@;
        let ghost wanted = square_scores(p, team as int, k as int, max_depth as nat);
        let mut out: Vec<i32> = Vec::new();
        if team == 0 {
            assert(scores_view(out@) =~= wanted);
            return out;
        }
        let moves = self.square_moves(k, team > 0);
        let ghost listed = root_moves(p, team as int, k as int);
        let mut n: usize = 0;
        while n < moves.len()
            invariant
                n <= moves.len(),
                k < 64,
                max_depth >= 1,
                team != 0,
                p == self@,
                board_wf(p.board),
                listed == root_moves(p, team as int, k as int),
                listed == branch_moves(p, team > 0, k as int),
                listed == move_views(moves@),
                wanted == square_scores(p, team as int, k as int, max_depth as nat),
                scores_view(out@) == wanted.subrange(0, n as int),
            decreases moves.len() - n,
        {
            proof {
                lemma_child_wf(p, team > 0, k as int, n as int);
            }
            assert(listed[n as int] == moves[n as int]@);
            let mut copy = *self;
            let _ = copy.make_move_from_enum(k / 8, k % 8, &moves[n]);
            assert(copy@ == child(p, k as int, listed[n as int]));
            let score = copy.minimax(1, max_depth, team < 0, i32::MIN, i32::MAX);
            assert(score == branch_score(p, team as int, k as int, n as int, max_depth as nat));
            assert(score == wanted[n as int]);
            let ghost prev = out@;
            out.push(score);
            n = n + 1;
            assert(scores_view(out@) =~= scores_view(prev).push(score as int));
            assert(wanted.subrange(0, n as int) =~= wanted.subrange(0, n - 1).push(wanted[n - 1]));
        }
        assert(wanted.subrange(0, n as int) =~= wanted);
        out
    }
}

} // verus!
