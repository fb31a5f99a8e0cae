use tako::game::{Game, State};
use tako::parse::parse_board;

fn state(rows: u8, cols: u8, no: (u8, u8), top: Vec<u8>, board: Vec<u8>) -> State {
    State::new(Game::new(rows, cols, no), top, board).expect("snapshot should be well formed")
}

fn empty(rows: u8, cols: u8, no: (u8, u8)) -> State {
    let top = vec![rows; cols as usize];
    let board = vec![0u8; rows as usize * cols as usize];
    state(rows, cols, no, top, board)
}

const NONE: (u8, u8) = (200, 200);

#[test]
fn parse_board_reads_numbers() {
    assert_eq!(parse_board("3 7 0 0"), Some(vec![3, 7, 0, 0]));
}

#[test]
fn parse_board_handles_mixed_whitespace() {
    assert_eq!(parse_board("1\t2\n3  4\r\n"), Some(vec![1, 2, 3, 4]));
}

#[test]
fn parse_board_rejects_letters() {
    assert_eq!(parse_board("1 a 2"), None);
}

#[test]
fn parse_board_rejects_overflow() {
    assert_eq!(parse_board("255 256"), None);
}

#[test]
fn parse_board_empty_input() {
    assert_eq!(parse_board("   "), Some(vec![]));
    assert_eq!(parse_board(""), Some(vec![]));
}

#[test]
fn game_new_keeps_fields() {
    let g = Game::new(6, 7, (3, 2));
    assert_eq!(g.row, 6);
    assert_eq!(g.col, 7);
    assert_eq!(g.no, (3, 2));
}

#[test]
fn state_new_rejects_wide_board() {
    let g = Game::new(6, 13, NONE);
    assert!(State::new(g, vec![6; 13], vec![0; 78]).is_none());
}

#[test]
fn state_new_rejects_zero_rows() {
    let g = Game::new(0, 7, NONE);
    assert!(State::new(g, vec![0; 7], vec![]).is_none());
}

#[test]
fn state_new_rejects_bad_cell_value() {
    let g = Game::new(6, 7, NONE);
    let mut board = vec![0u8; 42];
    board[10] = 3;
    assert!(State::new(g, vec![6; 7], board).is_none());
}

#[test]
fn state_new_rejects_piece_above_surface() {
    let g = Game::new(6, 7, NONE);
    let mut board = vec![0u8; 42];
    // a piece at row 5 of column 0 while the height still claims 6 free slots
    board[5 * 7] = 1;
    assert!(State::new(g, vec![6; 7], board).is_none());
}

#[test]
fn state_new_rejects_occupied_forbidden_cell() {
    let g = Game::new(6, 7, (5, 0));
    let mut board = vec![0u8; 42];
    board[5 * 7] = 1;
    let mut top = vec![6u8; 7];
    top[0] = 5;
    assert!(State::new(g, top, board).is_none());
}

#[test]
fn state_new_rejects_height_landing_on_forbidden() {
    // forbidden at (3, 2): a height of 4 would land the next piece there
    let g = Game::new(6, 7, (3, 2));
    let mut top = vec![6u8; 7];
    top[2] = 4;
    assert!(State::new(g, top, vec![0; 42]).is_none());
}

#[test]
fn apply_undo_round_trip_plain() {
    let mut s = empty(6, 7, NONE);
    let top0 = s.top.clone();
    let board0 = s.board.clone();
    let who0 = s.who;
    let r = s.do_action(3);
    assert_eq!(r, 5);
    s.undo_action(3);
    assert_eq!(s.top, top0);
    assert_eq!(s.board, board0);
    assert_eq!(s.who, who0);
}

#[test]
fn apply_undo_round_trip_with_forbidden_skip() {
    // forbidden at (3, 2): playing column 2 at height 5 lands on row 4 and
    // the free height skips the forbidden row 3, dropping to 3.
    let g = Game::new(6, 7, (3, 2));
    let mut top = vec![6u8; 7];
    top[2] = 5;
    let mut s = State::new(g, top, vec![0; 42]).unwrap();
    let top0 = s.top.clone();
    let board0 = s.board.clone();
    let r = s.do_action(2);
    assert_eq!(r, 4);
    assert_eq!(s.top[2], 3);
    assert_eq!(s.get(4, 2), 2);
    s.undo_action(2);
    assert_eq!(s.top, top0);
    assert_eq!(s.board, board0);
    assert_eq!(s.who, 2);
}

#[test]
fn mover_alternates() {
    let mut s = empty(6, 7, NONE);
    assert_eq!(s.who, 2);
    s.do_action(0);
    assert_eq!(s.who, 1);
    s.do_action(0);
    assert_eq!(s.who, 2);
}

fn horizontal_state() -> State {
    // pieces of player 1 on the bottom row, columns 0..=3
    let mut top = vec![6u8; 7];
    let mut board = vec![0u8; 42];
    for c in 0..4usize {
        board[5 * 7 + c] = 1;
        top[c] = 5;
    }
    state(6, 7, NONE, top, board)
}

#[test]
fn check_win_horizontal() {
    let s = horizontal_state();
    assert!(s.check_win(5, 0));
    assert!(s.check_win(5, 3));
}

#[test]
fn check_win_vertical() {
    let mut top = vec![6u8; 7];
    let mut board = vec![0u8; 42];
    for r in 2..6usize {
        board[r * 7 + 4] = 2;
    }
    top[4] = 2;
    let s = state(6, 7, NONE, top, board);
    assert!(s.check_win(2, 4));
    assert!(s.check_win(5, 4));
}

#[test]
fn check_win_diagonal() {
    let mut top = vec![6u8; 7];
    let mut board = vec![0u8; 42];
    // (2,0) (3,1) (4,2) (5,3) hold player 1, supported columns
    for (r, c) in [(2usize, 0usize), (3, 1), (4, 2), (5, 3)] {
        board[r * 7 + c] = 1;
        top[c] = r as u8;
        for below in (r + 1)..6 {
            if board[below * 7 + c] == 0 {
                board[below * 7 + c] = 2;
            }
        }
    }
    let s = state(6, 7, NONE, top, board);
    assert!(s.check_win(3, 1));
    assert!(s.check_win(5, 3));
}

#[test]
fn check_win_antidiagonal() {
    let mut top = vec![6u8; 7];
    let mut board = vec![0u8; 42];
    for (r, c) in [(5usize, 0usize), (4, 1), (3, 2), (2, 3)] {
        board[r * 7 + c] = 1;
        top[c] = r as u8;
        for below in (r + 1)..6 {
            if board[below * 7 + c] == 0 {
                board[below * 7 + c] = 2;
            }
        }
    }
    let s = state(6, 7, NONE, top, board);
    assert!(s.check_win(2, 3));
    assert!(s.check_win(5, 0));
}

#[test]
fn check_win_false_on_run_of_three() {
    let mut top = vec![6u8; 7];
    let mut board = vec![0u8; 42];
    for c in 0..3usize {
        board[5 * 7 + c] = 1;
        top[c] = 5;
    }
    let s = state(6, 7, NONE, top, board);
    assert!(!s.check_win(5, 0));
    assert!(!s.check_win(5, 2));
}

#[test]
fn check_win_false_on_mixed_colors() {
    let mut top = vec![6u8; 7];
    let mut board = vec![0u8; 42];
    for c in 0..4usize {
        board[5 * 7 + c] = if c == 2 { 2 } else { 1 };
        top[c] = 5;
    }
    let s = state(6, 7, NONE, top, board);
    assert!(!s.check_win(5, 0));
    assert!(!s.check_win(5, 3));
}

#[test]
fn column_order_center_out_seven() {
    let s = empty(6, 7, NONE);
    assert_eq!(s.column_order(), vec![3, 4, 2, 5, 1, 6, 0]);
}

#[test]
fn column_order_center_out_six() {
    let s = empty(6, 6, NONE);
    assert_eq!(s.column_order(), vec![2, 3, 1, 4, 0, 5]);
}

#[test]
fn column_order_each_column_exactly_once() {
    for cols in 1..=12u8 {
        let s = empty(4, cols, NONE);
        let mut order = s.column_order();
        order.sort();
        let expect: Vec<u8> = (0..cols).collect();
        assert_eq!(order, expect, "width {cols}");
    }
}

#[test]
fn actions_filters_full_columns() {
    let mut top = vec![6u8; 7];
    top[3] = 0;
    top[6] = 0;
    let mut board = vec![0u8; 42];
    for r in 0..6usize {
        board[r * 7 + 3] = 1 + ((r as u8) % 2);
        board[r * 7 + 6] = 2 - ((r as u8) % 2);
    }
    // make the filled columns consistent with the heights: alternate colors
    let s = State::new(Game::new(6, 7, NONE), top, board).unwrap();
    let acts = s.actions();
    assert!(!acts.contains(&3));
    assert!(!acts.contains(&6));
    let mut sorted = acts.clone();
    sorted.sort();
    assert_eq!(sorted, vec![0, 1, 2, 4, 5]);
}
