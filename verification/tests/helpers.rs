use checkers::apply::promoted;
use checkers::game::shifted;
use checkers::rules::{are_opposing, span_between};
use checkers::search::{larger, smaller};
use checkers::{Checkers, Direction, Step};

fn bare(turn: i32) -> Checkers {
    let mut game = Checkers::new().unwrap();
    game.board_state = [[0; 8]; 8];
    game.current_turn = turn;
    game
}

#[test]
fn directions_know_their_way() {
    assert!(Direction::UpRight.is_up());
    assert!(Direction::UpLeft.is_up());
    assert!(!Direction::DownRight.is_up());
    assert!(!Direction::DownLeft.is_up());
    assert!(Direction::UpRight.is_right());
    assert!(!Direction::UpLeft.is_right());
    assert!(Direction::DownRight.is_right());
    assert!(!Direction::DownLeft.is_right());
}

#[test]
fn shifted_squares() {
    assert_eq!(shifted(4, 3, Direction::UpRight, 1), Some((3, 4)));
    assert_eq!(shifted(4, 3, Direction::UpLeft, 2), Some((2, 1)));
    assert_eq!(shifted(4, 3, Direction::DownRight, 2), Some((6, 5)));
    assert_eq!(shifted(4, 3, Direction::DownLeft, 1), Some((5, 2)));
    assert_eq!(shifted(4, 3, Direction::DownLeft, 0), Some((4, 3)));
    assert_eq!(shifted(0, 3, Direction::UpLeft, 1), None);
    assert_eq!(shifted(1, 3, Direction::UpLeft, 2), None);
    assert_eq!(shifted(7, 7, Direction::DownRight, 1), None);
    assert_eq!(shifted(6, 1, Direction::DownLeft, 2), None);
    assert_eq!(shifted(3, 3, Direction::DownRight, 5), None);
    assert_eq!(shifted(3, 3, Direction::UpLeft, usize::MAX), None);
}

#[test]
fn spans_between_squares() {
    assert_eq!(
        span_between(5, 4, 3, 2),
        Some(Step { direction: Direction::UpLeft, size: 2 })
    );
    assert_eq!(
        span_between(5, 4, 4, 5),
        Some(Step { direction: Direction::UpRight, size: 1 })
    );
    assert_eq!(
        span_between(2, 1, 3, 0),
        Some(Step { direction: Direction::DownLeft, size: 1 })
    );
    assert_eq!(
        span_between(2, 1, 4, 3),
        Some(Step { direction: Direction::DownRight, size: 2 })
    );
    assert_eq!(span_between(2, 1, 2, 1), None);
    assert_eq!(span_between(2, 1, 2, 3), None);
    assert_eq!(span_between(2, 1, 4, 1), None);
    assert_eq!(span_between(2, 1, 3, 3), None);
    assert_eq!(span_between(0, 0, 3, 3), None);
}

#[test]
fn sides_oppose() {
    assert!(are_opposing(1, -1));
    assert!(are_opposing(-3, 3));
    assert!(!are_opposing(1, 3));
    assert!(!are_opposing(-1, -3));
    assert!(!are_opposing(0, 1));
    assert!(!are_opposing(-1, 0));
}

#[test]
fn promotion_on_the_far_row() {
    assert_eq!(promoted(-1, 7), -3);
    assert_eq!(promoted(1, 0), 3);
    assert_eq!(promoted(-1, 6), -1);
    assert_eq!(promoted(1, 7), 1);
    assert_eq!(promoted(-1, 0), -1);
    assert_eq!(promoted(3, 0), 3);
    assert_eq!(promoted(-3, 7), -3);
    assert_eq!(promoted(0, 0), 0);
}

#[test]
fn scores_compare() {
    assert_eq!(larger(3, 5), 5);
    assert_eq!(larger(5, 3), 5);
    assert_eq!(larger(i32::MIN, -1), -1);
    assert_eq!(smaller(3, 5), 3);
    assert_eq!(smaller(i32::MAX, 7), 7);
    assert_eq!(smaller(4, 4), 4);
}

#[test]
fn cells_are_read_and_written() {
    let mut game = bare(1);
    assert_eq!(game.piece_at(2, 5), 0);
    game.put(2, 5, -3);
    assert_eq!(game.piece_at(2, 5), -3);
    assert_eq!(game.board_state[2][5], -3);
    assert_eq!(game.piece_at(5, 2), 0);
}

#[test]
fn single_directions() {
    let mut game = bare(1);
    game.board_state[4][3] = 1;
    game.board_state[3][4] = -1;
    game.board_state[3][2] = -1;
    game.board_state[2][1] = -1;
    assert!(!game.can_move(4, 3, Direction::UpRight));
    assert!(game.can_jump(4, 3, Direction::UpRight));
    assert!(!game.can_move(4, 3, Direction::UpLeft));
    assert!(!game.can_jump(4, 3, Direction::UpLeft));
    assert!(!game.can_move(4, 3, Direction::DownLeft));
    assert!(!game.can_jump(4, 3, Direction::DownRight));
    assert!(game.can_move(3, 4, Direction::DownRight));
    assert!(!game.can_move(3, 4, Direction::UpRight));
    assert!(game.can_jump(3, 4, Direction::DownLeft));
    assert!(!game.can_move(0, 0, Direction::DownRight));
    assert_eq!(game.count_jumps(4, 3), 1);
    assert_eq!(game.count_jumps(3, 4), 1);
    assert_eq!(game.count_jumps(2, 1), 0);
    assert_eq!(game.count_jumps(0, 0), 0);
}

#[test]
fn slide_and_leap_change_the_board_only() {
    let mut game = bare(1);
    game.board_state[1][2] = 1;
    assert_eq!(game.slide(1, 2, Direction::UpLeft), (0, 1));
    assert_eq!(game.board_state[0][1], 3);
    assert_eq!(game.board_state[1][2], 0);
    assert_eq!(game.current_turn, 1);
    game.board_state[1][2] = -1;
    assert_eq!(game.leap(0, 1, Direction::DownRight), (2, 3));
    assert_eq!(game.board_state[2][3], 3);
    assert_eq!(game.board_state[1][2], 0);
    assert_eq!(game.board_state[0][1], 0);
    assert_eq!(game.current_turn, 1);
    assert_eq!(game.required_square, None);
}

#[test]
fn capture_chains_as_step_lists() {
    let mut game = bare(-1);
    game.board_state[1][2] = -1;
    game.board_state[2][3] = 1;
    game.board_state[4][3] = 1;
    game.board_state[2][1] = 1;
    let hop = |direction| Step { direction, size: 2 };
    assert_eq!(
        game.capture_chains(1, 2),
        vec![
            vec![hop(Direction::DownLeft)],
            vec![hop(Direction::DownRight), hop(Direction::DownLeft)],
        ]
    );
    assert_eq!(
        game.capture_chains(2, 3),
        vec![vec![hop(Direction::UpLeft)]]
    );
    assert_eq!(game.capture_chains(4, 3), Vec::<Vec<Step>>::new());
    assert_eq!(game.capture_chains(0, 0), Vec::<Vec<Step>>::new());
}
