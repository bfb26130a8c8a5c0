use connect_torus::board::{modulo, Board};
use connect_torus::Player;

fn sorted(mut v: Vec<(usize, usize)>) -> Vec<(usize, usize)> {
    v.sort();
    v
}

#[test]
fn modulo_is_mathematical() {
    assert_eq!(modulo(5, 3), 2);
    assert_eq!(modulo(-1, 3), 2);
    assert_eq!(modulo(-3, 3), 0);
    assert_eq!(modulo(0, 3), 0);
    assert_eq!(modulo(-1, 7), 6);
    for n in -20..20 {
        assert!(modulo(n, 7) >= 0);
        assert!(modulo(n, 7) < 7);
    }
}

#[test]
fn new_board_is_empty() {
    let b = Board::new(7, 6);
    assert_eq!(b.width, 7);
    assert_eq!(b.height, 6);
    assert_eq!(b.board.len(), 7);
    for col in &b.board {
        assert_eq!(col.len(), 6);
        for cell in col {
            assert!(cell.is_none());
        }
    }
}

#[test]
fn insert_fills_lowest_row_first() {
    let mut b = Board::new(7, 6);
    assert_eq!(b.insert(3, &Player::One).unwrap(), 0);
    assert_eq!(b.insert(3, &Player::Two).unwrap(), 1);
    assert_eq!(b.insert(3, &Player::One).unwrap(), 2);
    assert_eq!(b.board[3][0], Some(Player::One));
    assert_eq!(b.board[3][1], Some(Player::Two));
    assert_eq!(b.board[3][2], Some(Player::One));
    assert_eq!(b.board[3][3], None);
    // untouched columns stay empty
    assert!(b.board[0].iter().all(|c| c.is_none()));
}

#[test]
fn insert_into_full_column_fails_and_changes_nothing() {
    let mut b = Board::new(4, 3);
    for i in 0..3 {
        let p = if i % 2 == 0 { Player::One } else { Player::Two };
        assert_eq!(b.insert(2, &p).unwrap(), i);
    }
    let before = b.board.clone();
    assert!(b.insert(2, &Player::One).is_err());
    assert_eq!(b.board, before);
}

#[test]
fn shift_coords_wraps_negative_steps() {
    let b = Board::new(7, 6);
    // one step left from column 0 lands on the rightmost column
    assert_eq!(b.shift_coords((0, 0), (1, 0), -1), (6, 0));
    // one step down from row 0 lands on the top row
    assert_eq!(b.shift_coords((0, 0), (0, -1), 1), (0, 5));
    assert_eq!(b.shift_coords((3, 2), (1, 1), 4), (0, 0));
    assert_eq!(b.shift_coords((3, 2), (1, 1), -4), (6, 4));
}

#[test]
fn check_win_detects_each_direction_at_any_offset() {
    // horizontal run at columns 2..=4
    let mut b = Board::new(9, 9);
    for col in 2..=4 {
        b.insert(col, &Player::One).unwrap();
    }
    for col in 2..=4 {
        assert!(b.check_win(col, 0, &Player::One, 3));
    }
    assert!(!b.check_win(2, 0, &Player::Two, 3));

    // vertical run in column 5
    let mut b = Board::new(9, 9);
    for _ in 0..3 {
        b.insert(5, &Player::One).unwrap();
    }
    for row in 0..3 {
        assert!(b.check_win(5, row, &Player::One, 3));
    }

    // diagonal run (0,0), (1,1), (2,2)
    let mut b = Board::new(9, 9);
    b.insert(0, &Player::One).unwrap();
    b.insert(1, &Player::Two).unwrap();
    b.insert(1, &Player::One).unwrap();
    b.insert(2, &Player::Two).unwrap();
    b.insert(2, &Player::Two).unwrap();
    b.insert(2, &Player::One).unwrap();
    assert!(b.check_win(0, 0, &Player::One, 3));
    assert!(b.check_win(1, 1, &Player::One, 3));
    assert!(b.check_win(2, 2, &Player::One, 3));

    // anti-diagonal run (0,2), (1,1), (2,0)
    let mut b = Board::new(9, 9);
    b.insert(0, &Player::Two).unwrap();
    b.insert(0, &Player::Two).unwrap();
    b.insert(0, &Player::One).unwrap();
    b.insert(1, &Player::Two).unwrap();
    b.insert(1, &Player::One).unwrap();
    b.insert(2, &Player::One).unwrap();
    assert!(b.check_win(0, 2, &Player::One, 3));
    assert!(b.check_win(1, 1, &Player::One, 3));
    assert!(b.check_win(2, 0, &Player::One, 3));
}

#[test]
fn check_win_needs_the_full_run() {
    let mut b = Board::new(9, 9);
    for col in 2..=4 {
        b.insert(col, &Player::One).unwrap();
    }
    assert!(!b.check_win(3, 0, &Player::One, 4));
    let mut b = Board::new(9, 9);
    b.insert(4, &Player::One).unwrap();
    assert!(!b.check_win(4, 0, &Player::One, 2));
}

#[test]
fn end_to_end_vertical_win() {
    let mut b = Board::new(7, 6);
    assert_eq!(b.insert(0, &Player::One).unwrap(), 0);
    assert_eq!(b.insert(0, &Player::One).unwrap(), 1);
    assert_eq!(b.insert(0, &Player::One).unwrap(), 2);
    assert_eq!(b.insert(1, &Player::Two).unwrap(), 0);
    assert_eq!(b.insert(0, &Player::One).unwrap(), 3);
    assert!(b.check_win(0, 3, &Player::One, 4));
    let chips = b.find_winning_chips(0, 3, &Player::One, 4);
    assert_eq!(sorted(chips), vec![(0, 0), (0, 1), (0, 2), (0, 3)]);
}

#[test]
fn wraparound_horizontal_win() {
    let mut b = Board::new(7, 6);
    for col in [5, 6, 0, 1] {
        b.insert(col, &Player::One).unwrap();
    }
    assert!(b.check_win(1, 0, &Player::One, 4));
    assert!(b.check_win(5, 0, &Player::One, 4));
    let chips = b.find_winning_chips(1, 0, &Player::One, 4);
    assert_eq!(sorted(chips), vec![(0, 0), (1, 0), (5, 0), (6, 0)]);
}

#[test]
fn winning_chips_cover_crossing_lines() {
    // a vertical and a horizontal line through the same final drop
    let mut b = Board::new(7, 6);
    // column 3 gets two chips below the crossing point
    b.insert(3, &Player::One).unwrap();
    b.insert(3, &Player::One).unwrap();
    // columns 2, 4, 5 get stacks of height 2 topped with the row-2 run
    for col in [2, 4, 5] {
        b.insert(col, &Player::Two).unwrap();
        b.insert(col, &Player::Two).unwrap();
        b.insert(col, &Player::One).unwrap();
    }
    // the final drop completes a vertical run of 3 and a horizontal run of 4
    let row = b.insert(3, &Player::One).unwrap();
    assert_eq!(row, 2);
    assert!(b.check_win(3, 2, &Player::One, 3));
    let chips = b.find_winning_chips(3, 2, &Player::One, 3);
    assert_eq!(
        sorted(chips),
        vec![(2, 2), (3, 0), (3, 1), (3, 2), (4, 2), (5, 2)]
    );
}

#[test]
fn short_board_wrapped_line_counts_as_win() {
    // accepted quirk: a 3-wide board whose bottom row is filled by one player
    // registers a 4-run win, because the scan window wraps onto the same
    // cells more than once
    let mut b = Board::new(3, 5);
    for col in 0..3 {
        b.insert(col, &Player::One).unwrap();
    }
    assert!(b.check_win(1, 0, &Player::One, 4));
    // the adjacency walk, by contrast, sees a closed loop of only 3 cells,
    // which is shorter than the win length, so no chips qualify
    let chips = b.find_winning_chips(1, 0, &Player::One, 4);
    assert!(chips.is_empty());
}

#[test]
fn full_wrapped_loop_chips_qualify_when_long_enough() {
    // a filled bottom row of 4 cells is a closed loop that reaches the win
    // length exactly, so the walk reports the whole loop
    let mut b = Board::new(4, 3);
    for col in 0..4 {
        b.insert(col, &Player::Two).unwrap();
    }
    assert!(b.check_win(2, 0, &Player::Two, 4));
    let chips = b.find_winning_chips(2, 0, &Player::Two, 4);
    assert_eq!(sorted(chips), vec![(0, 0), (1, 0), (2, 0), (3, 0)]);
}
