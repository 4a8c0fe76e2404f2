use tiles2048::board::{shift_rows, Board, Direction};
use tiles2048::row::Bias;

fn board(rows: Vec<Vec<i16>>) -> Board {
    match Board::from_rows(rows) {
        Some(board) => board,
        None => panic!("the rows make no board"),
    }
}

fn tiles(board: &Board) -> usize {
    board.items().iter().map(|row| row.iter().filter(|v| **v != 0).count()).sum()
}

/// Holds `after` against `slid` with one tile added: the place of the new
/// tile must be empty in `slid`, its value 2 or 4, and every other cell as in
/// `slid`.
fn one_tile_added(slid: &Vec<Vec<i16>>, after: &Vec<Vec<i16>>) {
    assert_eq!(after.len(), slid.len());
    let mut added = 0;
    for i in 0..slid.len() {
        assert_eq!(after[i].len(), slid[i].len());
        for j in 0..slid[i].len() {
            if after[i][j] != slid[i][j] {
                assert_eq!(slid[i][j], 0);
                assert!(after[i][j] == 2 || after[i][j] == 4);
                added += 1;
            }
        }
    }
    assert_eq!(added, 1);
}

#[test]
fn fresh_board_holds_two_tiles_of_two_or_four() {
    for _ in 0..200 {
        let board = Board::new(4);
        assert_eq!(board.size(), 4);
        assert_eq!(board.items().len(), 4);
        let mut tiles = 0;
        let mut blanks = 0;
        for row in board.items() {
            assert_eq!(row.len(), 4);
            for v in row {
                if *v == 0 {
                    blanks += 1;
                } else {
                    assert!(*v == 2 || *v == 4);
                    tiles += 1;
                }
            }
        }
        assert_eq!(tiles, 2);
        assert_eq!(blanks, 14);
    }
}

#[test]
fn fresh_boards_of_other_sizes() {
    let none = Board::new(0);
    assert_eq!(none.size(), 0);
    assert!(none.items().is_empty());
    let one = Board::new(1);
    assert!(one.items()[0][0] == 2 || one.items()[0][0] == 4);
    for _ in 0..50 {
        let two = Board::new(2);
        assert_eq!(tiles(&two), 2);
        let seven = Board::new(7);
        assert_eq!(seven.items().len(), 7);
        assert_eq!(tiles(&seven), 2);
    }
}

#[test]
fn fresh_boards_use_every_cell_and_both_values() {
    let mut seen = vec![vec![false; 3]; 3];
    let mut twos = 0;
    let mut fours = 0;
    for _ in 0..2000 {
        let board = Board::new(3);
        for i in 0..3 {
            for j in 0..3 {
                match board.items()[i][j] {
                    0 => {}
                    2 => {
                        seen[i][j] = true;
                        twos += 1;
                    }
                    _ => {
                        seen[i][j] = true;
                        fours += 1;
                    }
                }
            }
        }
    }
    assert!(seen.iter().all(|row| row.iter().all(|cell| *cell)));
    assert!(twos > fours);
    assert!(fours > 0);
}

#[test]
fn from_rows_takes_legal_squares_only() {
    assert!(Board::from_rows(vec![vec![2, 0], vec![0, 4]]).is_some());
    assert!(Board::from_rows(vec![]).is_some());
    assert!(Board::from_rows(vec![vec![2, 0], vec![0]]).is_none());
    assert!(Board::from_rows(vec![vec![2, 0, 0], vec![0, 0, 4]]).is_none());
    assert!(Board::from_rows(vec![vec![2, 0], vec![0, 6]]).is_none());
    assert!(Board::from_rows(vec![vec![1]]).is_none());
    let made = board(vec![vec![2, 0], vec![0, 4]]);
    assert_eq!(made.items(), &vec![vec![2, 0], vec![0, 4]]);
    assert_eq!(made.size(), 2);
}

#[test]
fn blank_board_is_left_alone_by_every_move() {
    for direction in [Direction::UP, Direction::DOWN, Direction::LEFT, Direction::RIGHT] {
        let mut blank = board(vec![vec![0; 4]; 4]);
        assert!(blank.can_shift(direction));
        blank.shift(direction);
        assert_eq!(blank.items(), &vec![vec![0; 4]; 4]);
    }
}

#[test]
fn move_that_changes_nothing_adds_no_tile() {
    let rows = vec![vec![2, 4, 0, 0], vec![8, 0, 0, 0], vec![2, 0, 0, 0], vec![4, 16, 32, 0]];
    let mut stuck = board(rows.clone());
    stuck.shift(Direction::LEFT);
    assert_eq!(stuck.items(), &rows);
    let full = vec![vec![2, 4], vec![4, 2]];
    for direction in [Direction::UP, Direction::DOWN, Direction::LEFT, Direction::RIGHT] {
        let mut stuck = board(full.clone());
        stuck.shift(direction);
        assert_eq!(stuck.items(), &full);
    }
}

#[test]
fn move_left_slides_rows_and_adds_one_tile() {
    let mut moved = board(vec![
        vec![2, 0, 2, 0],
        vec![0, 4, 4, 4],
        vec![2, 4, 8, 16],
        vec![0, 0, 0, 8],
    ]);
    moved.shift(Direction::LEFT);
    let slid =
        vec![vec![4, 0, 0, 0], vec![8, 4, 0, 0], vec![2, 4, 8, 16], vec![8, 0, 0, 0]];
    one_tile_added(&slid, moved.items());
}

#[test]
fn move_right_slides_rows_and_adds_one_tile() {
    let mut moved = board(vec![
        vec![2, 0, 2, 0],
        vec![0, 4, 4, 4],
        vec![2, 4, 8, 16],
        vec![8, 0, 0, 0],
    ]);
    moved.shift(Direction::RIGHT);
    let slid =
        vec![vec![0, 0, 0, 4], vec![0, 0, 4, 8], vec![2, 4, 8, 16], vec![0, 0, 0, 8]];
    one_tile_added(&slid, moved.items());
}

#[test]
fn move_up_slides_columns_and_adds_one_tile() {
    let mut moved = board(vec![
        vec![2, 0, 2, 0],
        vec![0, 4, 2, 8],
        vec![2, 4, 2, 0],
        vec![0, 4, 0, 8],
    ]);
    moved.shift(Direction::UP);
    let slid =
        vec![vec![4, 8, 4, 16], vec![0, 4, 2, 0], vec![0, 0, 0, 0], vec![0, 0, 0, 0]];
    one_tile_added(&slid, moved.items());
}

#[test]
fn move_down_slides_columns_and_adds_one_tile() {
    let mut moved = board(vec![
        vec![2, 0, 2, 0],
        vec![0, 4, 2, 8],
        vec![2, 4, 2, 0],
        vec![0, 4, 0, 8],
    ]);
    moved.shift(Direction::DOWN);
    let slid =
        vec![vec![0, 0, 0, 0], vec![0, 0, 0, 0], vec![0, 4, 2, 0], vec![4, 8, 4, 16]];
    one_tile_added(&slid, moved.items());
}

#[test]
fn new_tile_goes_to_the_one_cell_that_a_merge_freed() {
    for _ in 0..20 {
        let mut moved = board(vec![vec![2, 2], vec![4, 8]]);
        moved.shift(Direction::LEFT);
        let rows = moved.items();
        assert_eq!(rows[0][0], 4);
        assert!(rows[0][1] == 2 || rows[0][1] == 4);
        assert_eq!(rows[1], vec![4, 8]);
    }
}

#[test]
fn move_adds_at_most_one_tile_to_the_count() {
    let start = vec![vec![2, 2, 4, 4], vec![0, 0, 0, 2], vec![8, 8, 8, 8], vec![0, 0, 0, 0]];
    let mut moved = board(start.clone());
    let before = tiles(&moved);
    moved.shift(Direction::LEFT);
    assert_eq!(tiles(&moved), 2 + 1 + 2 + 1);
    assert!(tiles(&moved) <= before + 1);
    let mut slid_only = board(vec![vec![0, 2], vec![0, 0]]);
    slid_only.shift(Direction::LEFT);
    assert_eq!(tiles(&slid_only), 2);
    let mut kept = board(vec![vec![2, 0], vec![0, 0]]);
    kept.shift(Direction::LEFT);
    assert_eq!(tiles(&kept), 1);
}

#[test]
fn shift_rows_moves_every_row_and_adds_nothing() {
    let mut moved = board(vec![vec![0, 2, 2], vec![4, 0, 4], vec![2, 4, 8]]);
    assert!(shift_rows(&mut moved, Bias::Left));
    assert_eq!(moved.items(), &vec![vec![4, 0, 0], vec![8, 0, 0], vec![2, 4, 8]]);
    assert!(!shift_rows(&mut moved, Bias::Left));
    assert!(shift_rows(&mut moved, Bias::Right));
    assert_eq!(moved.items(), &vec![vec![0, 0, 4], vec![0, 0, 8], vec![2, 4, 8]]);
    assert!(!shift_rows(&mut moved, Bias::Right));
}

#[test]
fn transposed_board_holds_the_columns_as_rows() {
    let start = board(vec![vec![2, 4, 8], vec![0, 16, 0], vec![32, 0, 64]]);
    let flipped = start.transposed();
    assert_eq!(flipped.items(), &vec![vec![2, 0, 32], vec![4, 16, 0], vec![8, 0, 64]]);
    assert_eq!(flipped.size(), 3);
    assert_eq!(start.items(), &vec![vec![2, 4, 8], vec![0, 16, 0], vec![32, 0, 64]]);
    assert_eq!(flipped.transposed().items(), start.items());
}

#[test]
fn empty_cells_come_in_reading_order() {
    let some = board(vec![vec![2, 0, 0], vec![0, 4, 0], vec![8, 8, 8]]);
    assert_eq!(some.empty_cells(), vec![(0, 1), (0, 2), (1, 0), (1, 2)]);
    let full = board(vec![vec![2, 4], vec![4, 2]]);
    assert!(full.empty_cells().is_empty());
    let blank = board(vec![vec![0, 0], vec![0, 0]]);
    assert_eq!(blank.empty_cells(), vec![(0, 0), (0, 1), (1, 0), (1, 1)]);
}

#[test]
fn spawn_at_fills_the_empty_cell_that_is_picked() {
    let mut some = board(vec![vec![2, 0], vec![0, 4]]);
    assert!(some.spawn_at(1, 10));
    assert_eq!(some.items(), &vec![vec![2, 0], vec![2, 4]]);
    assert!(some.spawn_at(0, 80));
    assert_eq!(some.items(), &vec![vec![2, 4], vec![2, 4]]);
    assert!(!some.spawn_at(0, 0));
    assert_eq!(some.items(), &vec![vec![2, 4], vec![2, 4]]);
}

#[test]
fn spawn_at_refuses_a_pick_past_the_empty_cells() {
    let mut some = board(vec![vec![2, 0], vec![0, 4]]);
    assert!(!some.spawn_at(2, 0));
    assert!(!some.spawn_at(usize::MAX, 0));
    assert_eq!(some.items(), &vec![vec![2, 0], vec![0, 4]]);
}

#[test]
fn roll_below_eighty_gives_a_two_and_any_other_a_four() {
    for (roll, value) in [(0usize, 2i16), (79, 2), (80, 4), (99, 4), (100, 4)] {
        let mut blank = board(vec![vec![0]]);
        assert!(blank.spawn_at(0, roll));
        assert_eq!(blank.items(), &vec![vec![value]]);
    }
}

#[test]
fn add_random_waits_for_a_changed_board_unless_forced() {
    let mut some = board(vec![vec![2, 0], vec![0, 0]]);
    assert!(!some.add_random(false));
    assert_eq!(some.items(), &vec![vec![2, 0], vec![0, 0]]);
    assert!(some.add_random(true));
    one_tile_added(&vec![vec![2, 0], vec![0, 0]], some.items());
    assert!(!some.add_random(false));
    assert_eq!(tiles(&some), 2);
}

#[test]
fn add_random_fills_a_board_and_then_reports_no_room() {
    let mut filling = board(vec![vec![0; 3]; 3]);
    for count in 1..=9 {
        assert!(filling.add_random(true));
        assert_eq!(tiles(&filling), count);
    }
    let full = filling.items().clone();
    assert!(!filling.add_random(true));
    assert_eq!(filling.items(), &full);
}

#[test]
fn can_shift_tells_the_move_whose_merge_is_too_large() {
    let large = board(vec![vec![16384, 16384], vec![0, 2]]);
    assert!(!large.can_shift(Direction::LEFT));
    assert!(!large.can_shift(Direction::RIGHT));
    assert!(large.can_shift(Direction::UP));
    assert!(large.can_shift(Direction::DOWN));
    let tall = board(vec![vec![16384, 2], vec![16384, 4]]);
    assert!(tall.can_shift(Direction::LEFT));
    assert!(!tall.can_shift(Direction::UP));
    assert!(!tall.can_shift(Direction::DOWN));
    let fine = board(vec![vec![8192, 8192], vec![8192, 8192]]);
    for direction in [Direction::UP, Direction::DOWN, Direction::LEFT, Direction::RIGHT] {
        assert!(fine.can_shift(direction));
    }
}

#[test]
fn play_keeps_the_board_square_and_legal() {
    let mut played = Board::new(4);
    let moves = [Direction::LEFT, Direction::UP, Direction::RIGHT, Direction::DOWN];
    for step in 0..400 {
        let direction = moves[step % 4];
        assert!(played.can_shift(direction));
        let before = tiles(&played);
        played.shift(direction);
        assert!(tiles(&played) <= before + 1);
        assert_eq!(played.items().len(), 4);
        for row in played.items() {
            assert_eq!(row.len(), 4);
            for v in row {
                assert!(*v == 0 || (*v >= 2 && (*v & (*v - 1)) == 0));
            }
        }
    }
}
