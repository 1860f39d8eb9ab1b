use bingo::bingo::{cols, fmt_board, fmt_cells, run_first_winner, run_last_winner, score, win};
use bingo::bingo::{Board, Game, GameError};

fn board(rows: &[&[u8]]) -> Board {
    rows.iter().map(|r| r.to_vec()).collect()
}

#[test]
fn scoring_formula() {
    // cells {1,2,3,4,5}; called prefix {1,2,3} ending in 3: 3 * (4 + 5)
    let b = board(&[&[1, 2, 3, 4, 5]]);
    let calls = vec![1u8, 2, 3];
    assert_eq!(score(&calls, &b), 27);
}

#[test]
fn win_on_row_and_column() {
    let b = board(&[&[1, 2], &[3, 4]]);
    assert_eq!(win(&[1, 2], &b), Some(vec![1, 2]));
    assert_eq!(win(&[1, 3], &b), Some(vec![1, 3]));
    assert_eq!(win(&[1, 4], &b), None);
    assert_eq!(win(&[], &b), None);
}

#[test]
fn winning_is_monotonic() {
    // once a board wins under a prefix it keeps winning as calls grow
    let b = board(&[&[1, 2], &[3, 4]]);
    let calls = vec![1u8, 2, 9, 8, 7];
    assert!(win(&calls[..2], &b).is_some());
    assert!(win(&calls[..3], &b).is_some());
    assert!(win(&calls, &b).is_some());
}

#[test]
fn empty_board_never_wins() {
    let b: Board = Vec::new();
    assert_eq!(win(&[1, 2, 3], &b), None);
}

#[test]
fn cols_transposes() {
    let b = board(&[&[1, 2], &[3, 4]]);
    assert_eq!(cols(&b), board(&[&[1, 3], &[2, 4]]));
}

#[test]
fn first_winner_canonical_example() {
    let calls = vec![7u8, 4, 9, 5, 11, 17, 23, 2, 0, 14, 21, 24];
    let boards = vec![
        board(&[
            &[22, 13, 17, 11, 0],
            &[8, 2, 23, 4, 24],
            &[21, 9, 14, 16, 7],
            &[6, 10, 3, 18, 5],
            &[1, 12, 20, 15, 19],
        ]),
        board(&[
            &[3, 15, 0, 2, 22],
            &[9, 18, 13, 17, 5],
            &[19, 8, 7, 25, 23],
            &[20, 11, 10, 24, 4],
            &[14, 21, 16, 12, 6],
        ]),
        board(&[
            &[14, 21, 17, 24, 4],
            &[10, 16, 15, 9, 19],
            &[18, 8, 23, 26, 20],
            &[22, 11, 13, 6, 5],
            &[2, 0, 12, 3, 7],
        ]),
    ];
    // board index 2 completes its row [14, 21, 17, 24, 4] on call 24 at
    // step 12; unused sum 188, score 188 * 24
    assert_eq!(run_first_winner(&calls, &boards), Ok((2, 12, 4512)));
    assert_eq!(calls[11], 24);
}

#[test]
fn first_and_last_agree_on_single_board() {
    let calls = vec![2u8, 1];
    let boards = vec![board(&[&[1, 2], &[3, 4]])];
    let first = run_first_winner(&calls, &boards);
    let last = run_last_winner(&calls, &boards);
    assert_eq!(first, last);
    assert_eq!(first, Ok((0, 2, 7)));
}

#[test]
fn no_winner_reported() {
    let calls = vec![9u8, 8];
    let boards = vec![board(&[&[1, 2], &[3, 4]])];
    assert_eq!(run_first_winner(&calls, &boards), Err(GameError::NoWinner));
    assert_eq!(run_last_winner(&calls, &boards), Err(GameError::NoWinner));
}

#[test]
fn runs_are_deterministic() {
    let calls = vec![1u8, 2, 3, 4];
    let boards = vec![board(&[&[1, 2]]), board(&[&[3, 4]])];
    assert_eq!(run_first_winner(&calls, &boards), run_first_winner(&calls, &boards));
    assert_eq!(run_last_winner(&calls, &boards), run_last_winner(&calls, &boards));
}

#[test]
fn elimination_ordering() {
    // A and B tie at step 3, C survives to step 7 and is the last winner
    let calls = vec![1u8, 2, 3, 4, 5, 6, 7];
    let boards = vec![
        board(&[&[1, 3], &[8, 9]]),
        board(&[&[2, 3], &[10, 11]]),
        board(&[&[6, 7], &[12, 13]]),
    ];
    assert_eq!(run_last_winner(&calls, &boards), Ok((2, 7, 175)));
    assert_eq!(run_first_winner(&calls, &boards), Ok((0, 3, 51)));
}

#[test]
fn same_step_ties_break_by_index() {
    let calls = vec![1u8, 2];
    let boards = vec![board(&[&[1, 2], &[3, 4]]), board(&[&[2, 1], &[4, 3]])];
    // lowest index wins first, highest index is removed last
    assert_eq!(run_first_winner(&calls, &boards), Ok((0, 2, 14)));
    assert_eq!(run_last_winner(&calls, &boards), Ok((1, 2, 14)));
}

#[test]
fn ragged_board_is_invalid() {
    let calls = vec![1u8, 2];
    let boards = vec![vec![vec![1u8, 2], vec![3u8]]];
    assert_eq!(run_first_winner(&calls, &boards), Err(GameError::InvalidBoard));
    assert_eq!(run_last_winner(&calls, &boards), Err(GameError::InvalidBoard));
}

#[test]
fn no_boards_means_no_winner() {
    let calls = vec![1u8, 2];
    let boards: Vec<Board> = Vec::new();
    assert_eq!(run_first_winner(&calls, &boards), Err(GameError::NoWinner));
    assert_eq!(run_last_winner(&calls, &boards), Err(GameError::NoWinner));
}

#[test]
fn game_play_reports_win_event() {
    let calls = vec![9u8, 1, 2];
    let boards = vec![board(&[&[1, 2], &[3, 4]])];
    let mut game = Game::new(calls, boards);
    let w = game.play().expect("the board should win");
    assert_eq!(w.index, 0);
    assert_eq!(w.step, 3);
    assert_eq!(w.winning_number, 2);
    // unused cells 3 + 4, last call 2
    assert_eq!(w.score, 14);
    assert_eq!(game.called(), &[9, 1, 2]);
}

#[test]
fn game_play_exhausts_calls() {
    let calls = vec![9u8];
    let boards = vec![board(&[&[1, 2]])];
    let mut game = Game::new(calls, boards);
    assert!(game.play().is_none());
}

#[test]
fn formats_cells_right_aligned() {
    assert_eq!(fmt_cells(&[1, 22, 100]), " 1 22 100");
    assert_eq!(fmt_cells(&[]), "");
    assert_eq!(fmt_cells(&[0]), " 0");
    assert_eq!(fmt_cells(&[255]), "255");
}

#[test]
fn formats_board_rows() {
    let b = board(&[&[1, 2], &[3, 40]]);
    assert_eq!(fmt_board(&b), " 1  2\n 3 40");
}
