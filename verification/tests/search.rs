use checkers::search::pick_best;
use checkers::{Checkers, CheckersError, Direction, Move, Step};

fn blank(turn: i32) -> Checkers {
    let mut game = Checkers::new().unwrap();
    game.board_state = [[0; 8]; 8];
    game.current_turn = turn;
    game.required_square = None;
    game.game_over = false;
    game
}

fn midgame(turn: i32) -> Checkers {
    let mut game = blank(turn);
    game.board_state[0][1] = -1;
    game.board_state[1][2] = -1;
    game.board_state[2][3] = -1;
    game.board_state[2][5] = -3;
    game.board_state[3][6] = -1;
    game.board_state[4][1] = 1;
    game.board_state[4][5] = 1;
    game.board_state[5][2] = 1;
    game.board_state[5][6] = 3;
    game.board_state[6][3] = 1;
    game.board_state[3][2] = 1;
    game
}

fn step(direction: Direction, size: usize) -> Step {
    Step { direction, size }
}

/// Minimax at full width, with no pruning.
fn full_width(game: &Checkers, depth_left: usize, maximizing: bool) -> i32 {
    if depth_left == 0 {
        return game.evaluate_board();
    }
    let mut best = if maximizing { i32::MIN } else { i32::MAX };
    for j in 0..8 {
        for i in 0..8 {
            let piece = game.board_state[j][i];
            if (maximizing && piece > 0) || (!maximizing && piece < 0) {
                if let Some(moves) = game.get_all_possible_moves(j, i) {
                    for m in moves.iter() {
                        let mut copy = *game;
                        copy.make_move_from_enum(j, i, m).unwrap();
                        let v = full_width(&copy, depth_left - 1, !maximizing);
                        best = if maximizing { best.max(v) } else { best.min(v) };
                    }
                }
            }
        }
    }
    best
}

/// The first root move with the best full-width score.
fn expected_best(game: &Checkers, max_depth: usize, team: i32) -> Option<(usize, usize, Move, i32)> {
    let mut best: Option<(usize, usize, Move, i32)> = None;
    for j in 0..8 {
        for i in 0..8 {
            let piece = game.board_state[j][i];
            if (team > 0 && piece > 0) || (team < 0 && piece < 0) {
                if let Some(moves) = game.get_all_possible_moves(j, i) {
                    for m in moves.iter() {
                        let mut copy = *game;
                        copy.make_move_from_enum(j, i, m).unwrap();
                        let v = full_width(&copy, max_depth - 1, team < 0);
                        let take = match &best {
                            None => true,
                            Some(b) => {
                                if team > 0 {
                                    v > b.3
                                } else {
                                    v < b.3
                                }
                            }
                        };
                        if take {
                            best = Some((j, i, m.clone(), v));
                        }
                    }
                }
            }
        }
    }
    best
}

#[test]
fn opening_best_move_is_a_simple_move() {
    let game = Checkers::new().unwrap();
    let (j, i, m) = game.get_best_move(1, 1).unwrap();
    match &m {
        Move::Step(s) => assert_eq!(s.size, 1),
        Move::Sequence(_) => panic!("no capture exists on the opening board"),
    }
    assert_eq!((j, i), (5, 0));
    assert_eq!(m, Move::Step(step(Direction::UpRight, 1)));
}

#[test]
fn evaluation_of_the_opening_is_zero() {
    let game = Checkers::new().unwrap();
    assert_eq!(game.count_material(), 0);
    assert_eq!(game.count_vulnerable_black(), 0);
    assert_eq!(game.count_vulnerable_red(), 0);
    assert_eq!(game.evaluate_board(), 0);
}

#[test]
fn evaluation_counts_material_five_times() {
    let mut game = blank(1);
    game.board_state[5][4] = 1;
    game.board_state[4][3] = -1;
    game.board_state[7][0] = 3;
    assert_eq!(game.count_material(), 3);
    assert_eq!(game.count_vulnerable_black(), 1);
    assert_eq!(game.count_vulnerable_red(), 1);
    assert_eq!(game.evaluate_board(), 15);
}

#[test]
fn evaluation_adds_captures_open_to_red() {
    let mut game = blank(1);
    game.board_state[4][3] = -1;
    game.board_state[3][2] = -1;
    game.board_state[5][4] = 1;
    game.board_state[5][2] = 1;
    assert_eq!(game.count_material(), 0);
    assert_eq!(game.count_vulnerable_black(), 2);
    assert_eq!(game.count_vulnerable_red(), 1);
    assert_eq!(game.evaluate_board(), 1);
}

#[test]
fn evaluation_subtracts_captures_open_to_black() {
    let mut game = blank(1);
    game.board_state[4][3] = -1;
    game.board_state[5][4] = 1;
    game.board_state[6][5] = 1;
    assert_eq!(game.count_material(), 1);
    assert_eq!(game.count_vulnerable_black(), 0);
    assert_eq!(game.count_vulnerable_red(), 1);
    assert_eq!(game.evaluate_board(), 4);
}

#[test]
fn evaluation_counts_first_captures_only() {
    let mut game = blank(1);
    game.board_state[6][1] = 1;
    game.board_state[7][0] = 1;
    game.board_state[5][2] = -1;
    game.board_state[3][4] = -1;
    game.board_state[1][6] = -1;
    let (count, moves) = game.how_many_jumped_from_here(6, 1, 1);
    assert_eq!(count, 1);
    assert_eq!(
        moves,
        Some(vec![Move::Sequence(vec![
            step(Direction::UpRight, 2),
            step(Direction::UpRight, 2),
            step(Direction::UpRight, 2),
        ])])
    );
    assert_eq!(game.count_vulnerable_red(), 1);
    assert_eq!(game.count_vulnerable_black(), 0);
    assert_eq!(game.evaluate_board(), -6);
}

#[test]
fn evaluation_of_a_won_match() {
    let mut game = blank(-1);
    game.board_state[5][4] = 1;
    assert_eq!(game.evaluate_board(), i32::MAX);
    let mut game = blank(1);
    game.board_state[2][1] = -1;
    assert_eq!(game.evaluate_board(), i32::MIN);
}

#[test]
fn all_moves_list_simple_moves_before_chains() {
    let mut game = blank(1);
    game.board_state[4][3] = 3;
    game.board_state[3][4] = -1;
    game.board_state[5][2] = -1;
    game.board_state[0][7] = -1;
    assert_eq!(
        game.get_all_possible_moves(4, 3),
        Some(vec![
            Move::Step(step(Direction::UpLeft, 1)),
            Move::Step(step(Direction::DownRight, 1)),
            Move::Step(step(Direction::DownLeft, 2)),
            Move::Step(step(Direction::UpRight, 2)),
        ])
    );
}

#[test]
fn all_moves_of_a_foreign_or_empty_square() {
    let game = Checkers::new().unwrap();
    assert_eq!(game.get_all_possible_moves(2, 1), None);
    assert_eq!(game.get_all_possible_moves(3, 3), None);
    assert_eq!(game.get_all_possible_moves(7, 0), None);
    assert_eq!(
        game.get_all_possible_moves(5, 0),
        Some(vec![Move::Step(step(Direction::UpRight, 1))])
    );
}

#[test]
fn chains_branch_and_run_to_the_end() {
    let mut game = blank(1);
    game.board_state[6][3] = 1;
    game.board_state[5][2] = -1;
    game.board_state[5][4] = -1;
    game.board_state[3][4] = -1;
    game.board_state[3][6] = -1;
    game.board_state[1][6] = -1;
    let (count, moves) = game.how_many_jumped_from_here(6, 3, 1);
    assert_eq!(count, 2);
    assert_eq!(
        moves,
        Some(vec![
            Move::Step(step(Direction::UpLeft, 2)),
            Move::Sequence(vec![
                step(Direction::UpRight, 2),
                step(Direction::UpLeft, 2),
            ]),
            Move::Sequence(vec![
                step(Direction::UpRight, 2),
                step(Direction::UpRight, 2),
                step(Direction::UpLeft, 2),
            ]),
        ])
    );
}

#[test]
fn chains_of_a_square_without_capture() {
    let game = Checkers::new().unwrap();
    assert_eq!(game.how_many_jumped_from_here(5, 0, 1), (0, None));
    assert_eq!(game.how_many_jumped_from_here(3, 3, 1), (0, None));
    let mut game = blank(1);
    game.board_state[5][4] = 1;
    game.board_state[4][3] = -1;
    assert_eq!(game.how_many_jumped_from_here(5, 4, -1), (0, None));
    assert_eq!(
        game.how_many_jumped_from_here(5, 4, 1),
        (1, Some(vec![Move::Step(step(Direction::UpLeft, 2))]))
    );
}

#[test]
fn sequence_gives_the_board_of_hopping_by_hand() {
    let mut start = blank(1);
    start.board_state[6][1] = 1;
    start.board_state[5][2] = -1;
    start.board_state[3][4] = -1;
    start.board_state[1][4] = -1;
    start.board_state[0][7] = -1;
    let (_, moves) = start.how_many_jumped_from_here(6, 1, 1);
    let moves = moves.unwrap();
    assert_eq!(
        moves,
        vec![Move::Sequence(vec![
            step(Direction::UpRight, 2),
            step(Direction::UpRight, 2),
            step(Direction::UpLeft, 2),
        ])]
    );
    let mut played = start;
    assert_eq!(played.make_move_from_enum(6, 1, &moves[0]), Ok((0, 3)));
    let mut by_hand = start;
    assert_eq!(by_hand.make_move(6, 1, 4, 3), Ok(()));
    assert_eq!(by_hand.make_move(4, 3, 2, 5), Ok(()));
    assert_eq!(by_hand.make_move(2, 5, 0, 3), Ok(()));
    assert_eq!(played, by_hand);
    assert_eq!(played.board_state[0][3], 3);
    assert_eq!(played.board_state[5][2], 0);
    assert_eq!(played.board_state[3][4], 0);
    assert_eq!(played.board_state[1][4], 0);
    assert_eq!(played.board_state[0][7], -1);
    assert_eq!(played.current_turn, -1);
    assert_eq!(played.required_square, None);
}

#[test]
fn every_listed_move_can_be_played() {
    let game = midgame(1);
    for j in 0..8 {
        for i in 0..8 {
            if let Some(moves) = game.get_all_possible_moves(j, i) {
                for m in moves.iter() {
                    let mut copy = game;
                    let mut by_hand = game;
                    let steps = match m {
                        Move::Step(s) => vec![*s],
                        Move::Sequence(v) => v.clone(),
                    };
                    let (mut cj, mut ci) = (j, i);
                    for s in steps.iter() {
                        let (tj, ti) = match s.direction {
                            Direction::UpRight => (cj - s.size, ci + s.size),
                            Direction::UpLeft => (cj - s.size, ci - s.size),
                            Direction::DownRight => (cj + s.size, ci + s.size),
                            Direction::DownLeft => (cj + s.size, ci - s.size),
                        };
                        assert_eq!(by_hand.make_move(cj, ci, tj, ti), Ok(()));
                        cj = tj;
                        ci = ti;
                    }
                    assert_eq!(copy.make_move_from_enum(j, i, m), Ok((cj, ci)));
                    assert_eq!(copy, by_hand);
                    assert_eq!(copy.current_turn, -1);
                    assert_eq!(copy.required_square, None);
                }
            }
        }
    }
}

#[test]
fn single_step_move_is_played() {
    let mut game = Checkers::new().unwrap();
    let m = Move::Step(step(Direction::UpLeft, 1));
    assert_eq!(game.make_move_from_enum(5, 2, &m), Ok((4, 1)));
    assert_eq!(game.board_state[4][1], 1);
    assert_eq!(game.board_state[5][2], 0);
    assert_eq!(game.current_turn, -1);
}

#[test]
fn move_clone_keeps_the_value() {
    let m = Move::Sequence(vec![step(Direction::UpRight, 2), step(Direction::DownLeft, 2)]);
    assert_eq!(m.clone(), m);
    assert_eq!(m.duplicate(), m);
    let s = Move::Step(step(Direction::DownRight, 1));
    assert_eq!(s.clone(), s);
}

#[test]
fn minimax_at_the_last_ply_is_the_evaluation() {
    let game = midgame(1);
    assert_eq!(game.minimax(3, 3, true, i32::MIN, i32::MAX), game.evaluate_board());
    assert_eq!(game.minimax(0, 0, false, -5, 5), game.evaluate_board());
}

#[test]
fn minimax_equals_the_full_width_search() {
    for turn in [1, -1] {
        let game = midgame(turn);
        for depth in 1..4 {
            let pruned = game.minimax(0, depth, turn > 0, i32::MIN, i32::MAX);
            assert_eq!(pruned, full_width(&game, depth, turn > 0));
        }
    }
    let game = Checkers::new().unwrap();
    assert_eq!(
        game.minimax(0, 3, true, i32::MIN, i32::MAX),
        full_width(&game, 3, true)
    );
}

#[test]
fn minimax_with_a_window_tells_the_side_of_the_value() {
    for turn in [1, -1] {
        let game = midgame(turn);
        let value = full_width(&game, 3, turn > 0);
        for (alpha, beta) in [(-3, 3), (value - 1, value + 1), (value, value + 2), (value - 2, value)] {
            let r = game.minimax(0, 3, turn > 0, alpha, beta);
            if r <= alpha {
                assert!(value <= alpha);
            } else if r >= beta {
                assert!(value >= beta);
            } else {
                assert_eq!(r, value);
            }
        }
    }
}

#[test]
fn minimax_of_a_side_without_moves() {
    let mut game = blank(1);
    game.board_state[2][1] = -1;
    assert_eq!(game.minimax(0, 2, true, i32::MIN, i32::MAX), i32::MIN);
    game.current_turn = -1;
    game.board_state[2][1] = 0;
    game.board_state[5][4] = 1;
    assert_eq!(game.minimax(0, 2, false, i32::MIN, i32::MAX), i32::MAX);
}

#[test]
fn best_move_takes_the_winning_capture() {
    let mut game = blank(1);
    game.board_state[4][3] = -1;
    game.board_state[5][4] = 1;
    assert_eq!(
        game.get_best_move(1, 1),
        Ok((5, 4, Move::Step(step(Direction::UpLeft, 2))))
    );
    game.current_turn = -1;
    assert_eq!(
        game.get_best_move(1, -1),
        Ok((4, 3, Move::Step(step(Direction::DownRight, 2))))
    );
}

#[test]
fn best_move_is_the_first_best_of_the_full_width_search() {
    for turn in [1, -1] {
        let game = midgame(turn);
        for depth in 1..4 {
            let (j, i, m, _) = expected_best(&game, depth, turn).unwrap();
            assert_eq!(game.get_best_move(depth, turn), Ok((j, i, m)));
        }
    }
    let game = Checkers::new().unwrap();
    let (j, i, m, score) = expected_best(&game, 3, 1).unwrap();
    assert_eq!(game.get_best_move(3, 1), Ok((j, i, m)));
    assert_eq!(score, full_width(&game, 3, true));
}

#[test]
fn best_move_fails_without_a_move() {
    let mut game = blank(1);
    game.board_state[2][1] = -1;
    assert_eq!(game.get_best_move(3, 1), Err(CheckersError::GameOver));
    let mut game = blank(-1);
    game.board_state[5][4] = 1;
    assert_eq!(game.get_best_move(3, -1), Err(CheckersError::GameOver));
    assert_eq!(game.get_best_move(3, 1), Err(CheckersError::GameOver));
    let mut game = blank(-1);
    game.board_state[6][7] = -1;
    game.board_state[7][6] = 1;
    game.board_state[5][0] = 1;
    assert!(game.is_game_over());
    assert_eq!(game.get_best_move(2, -1), Err(CheckersError::GameOver));
}

#[test]
fn best_move_is_for_the_side_to_move() {
    let game = Checkers::new().unwrap();
    let expected = Ok((5, 0, Move::Step(step(Direction::UpRight, 1))));
    assert_eq!(game.get_best_move(1, 1), expected);
    assert_eq!(game.get_best_move(1, -1), expected);
    assert_eq!(game.get_best_move(1, 0), expected);
    for turn in [1, -1] {
        let game = midgame(turn);
        let (j, i, m, _) = expected_best(&game, 2, turn).unwrap();
        assert_eq!(game.get_best_move(2, -turn), Ok((j, i, m.clone())));
        assert_eq!(game.get_best_move(2, turn), Ok((j, i, m)));
    }
}

#[test]
fn best_move_fails_exactly_when_the_match_has_ended() {
    let mut boards = vec![Checkers::new().unwrap(), midgame(1), midgame(-1)];
    let mut stuck = blank(-1);
    stuck.board_state[6][7] = -1;
    stuck.board_state[7][6] = 1;
    stuck.board_state[5][0] = 1;
    boards.push(stuck);
    stuck.current_turn = 1;
    boards.push(stuck);
    let mut lone = blank(1);
    lone.board_state[2][1] = -1;
    boards.push(lone);
    for game in boards.iter() {
        assert_eq!(game.get_best_move(2, game.current_turn).is_err(), game.is_game_over());
    }
}

#[test]
fn best_move_has_the_value_of_the_position() {
    for turn in [1, -1] {
        let game = midgame(turn);
        for depth in 1..4 {
            let (j, i, m) = game.get_best_move(depth, turn).unwrap();
            let mut copy = game;
            copy.make_move_from_enum(j, i, &m).unwrap();
            assert_eq!(
                full_width(&copy, depth - 1, turn < 0),
                full_width(&game, depth, turn > 0)
            );
        }
    }
}

#[test]
fn best_move_plays_the_whole_chain() {
    let mut game = blank(-1);
    game.board_state[1][2] = -1;
    game.board_state[2][3] = 1;
    game.board_state[4][3] = 1;
    let (j, i, m) = game.get_best_move(1, -1).unwrap();
    assert_eq!((j, i), (1, 2));
    assert_eq!(
        m,
        Move::Sequence(vec![step(Direction::DownRight, 2), step(Direction::DownLeft, 2)])
    );
    assert_eq!(game.make_move_from_enum(j, i, &m), Ok((5, 2)));
    assert!(game.game_over);
    assert!(game.red_won());
}

#[test]
fn score_square_lists_one_score_for_each_move() {
    let game = Checkers::new().unwrap();
    assert_eq!(game.score_square(40, 1), vec![0]);
    assert_eq!(game.score_square(42, 1), vec![0, 0]);
    assert_eq!(game.score_square(0, 1), Vec::<i32>::new());
    assert_eq!(game.score_square(17, 1), Vec::<i32>::new());
    let mut game = blank(1);
    game.board_state[4][3] = -1;
    game.board_state[5][4] = 1;
    assert_eq!(game.score_square(44, 1), vec![0, i32::MAX]);
    game.current_turn = -1;
    assert_eq!(game.score_square(44, 1), Vec::<i32>::new());
    assert_eq!(game.score_square(35, 1), vec![0, i32::MIN]);
}

#[test]
fn square_moves_go_by_the_choosing_side() {
    let game = Checkers::new().unwrap();
    assert_eq!(game.square_moves(40, true), vec![Move::Step(step(Direction::UpRight, 1))]);
    assert_eq!(game.square_moves(40, false), Vec::<Move>::new());
    assert_eq!(game.square_moves(17, false), Vec::<Move>::new());
}

#[test]
fn pick_best_keeps_the_first_of_equal_scores() {
    let table = vec![vec![], vec![3, 5, 5], vec![5, 3], vec![]];
    assert_eq!(pick_best(&table, 1), Some((1, 1)));
    assert_eq!(pick_best(&table, -1), Some((1, 0)));
    let table = vec![vec![i32::MIN], vec![i32::MIN]];
    assert_eq!(pick_best(&table, 1), Some((0, 0)));
    let table = vec![vec![i32::MAX], vec![i32::MAX]];
    assert_eq!(pick_best(&table, -1), Some((0, 0)));
    let table: Vec<Vec<i32>> = vec![vec![], vec![]];
    assert_eq!(pick_best(&table, 1), None);
    assert_eq!(pick_best(&Vec::new(), -1), None);
}

#[test]
fn engine_answers_a_move_of_black() {
    let mut game = Checkers::new().unwrap();
    let mut expected = game;
    assert_eq!(expected.make_move(5, 0, 4, 1), Ok(()));
    let (j, i, m) = expected.get_best_move(2, -1).unwrap();
    expected.make_move_from_enum(j, i, &m).unwrap();
    assert_eq!(game.make_move_then_ai(5, 0, 4, 1, 2), Ok(()));
    assert_eq!(game, expected);
    assert_eq!(game.current_turn, 1);
}

#[test]
fn engine_does_not_answer_while_the_chain_goes_on() {
    let mut game = blank(1);
    game.board_state[6][1] = 1;
    game.board_state[5][2] = -1;
    game.board_state[3][4] = -1;
    game.board_state[0][7] = -1;
    let mut expected = game;
    assert_eq!(expected.make_move(6, 1, 4, 3), Ok(()));
    assert_eq!(game.make_move_then_ai(6, 1, 4, 3, 2), Ok(()));
    assert_eq!(game, expected);
    assert_eq!(game.required_square, Some((4, 3)));
}

#[test]
fn engine_does_not_answer_a_move_of_red() {
    let mut game = Checkers::new().unwrap();
    game.current_turn = -1;
    let mut expected = game;
    assert_eq!(expected.make_move(2, 1, 3, 2), Ok(()));
    assert_eq!(game.make_move_then_ai(2, 1, 3, 2, 2), Ok(()));
    assert_eq!(game, expected);
    assert_eq!(game.current_turn, 1);
}

#[test]
fn engine_turns_down_an_illegal_move() {
    let mut game = Checkers::new().unwrap();
    let before = game;
    assert_eq!(game.make_move_then_ai(5, 0, 3, 2, 2), Err(CheckersError::ImpossibleMove));
    assert_eq!(game, before);
}

#[test]
fn engine_without_a_move_reports_the_end() {
    let mut game = blank(1);
    game.board_state[5][4] = 1;
    game.board_state[4][3] = -1;
    assert_eq!(game.make_move_then_ai(5, 4, 3, 2, 2), Err(CheckersError::GameOver));
    assert_eq!(game.board_state[3][2], 1);
    assert_eq!(game.board_state[4][3], 0);
    assert_eq!(game.current_turn, -1);
    assert!(game.game_over);
}

#[test]
fn answer_plays_the_best_move() {
    let mut game = midgame(-1);
    let mut expected = game;
    let (j, i, m) = expected.get_best_move(2, -1).unwrap();
    expected.make_move_from_enum(j, i, &m).unwrap();
    assert_eq!(game.answer(2), Ok(()));
    assert_eq!(game, expected);
    let mut lost = blank(-1);
    lost.board_state[5][4] = 1;
    let before = lost;
    assert_eq!(lost.answer(2), Err(CheckersError::GameOver));
    assert_eq!(lost, before);
}
