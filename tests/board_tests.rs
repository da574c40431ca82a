use minesweeper::board::{Board, Difficulty, Tile, TileState};

fn mines_on(board: &Board) -> usize {
    let &(h, w) = board.get_size();
    let mut n = 0;
    for y in 0..h {
        for x in 0..w {
            if board.tile((y, x)) == Tile::Mine {
                n += 1;
            }
        }
    }
    n
}

fn count_states(board: &Board, s: TileState) -> usize {
    let &(h, w) = board.get_size();
    let mut n = 0;
    for y in 0..h {
        for x in 0..w {
            if board.tile_state((y, x)) == s {
                n += 1;
            }
        }
    }
    n
}

fn covered_safe(board: &Board) -> usize {
    let &(h, w) = board.get_size();
    let mut n = 0;
    for y in 0..h {
        for x in 0..w {
            if board.tile((y, x)) != Tile::Mine && board.tile_state((y, x)) != TileState::Uncovered {
                n += 1;
            }
        }
    }
    n
}

fn mines_around(board: &Board, (y, x): (usize, usize)) -> u8 {
    let mut n = 0;
    for p in board.neighbor_coords((y, x)) {
        if board.tile(p) == Tile::Mine {
            n += 1;
        }
    }
    n
}

fn numbers_hold(board: &Board) -> bool {
    let &(h, w) = board.get_size();
    for y in 0..h {
        for x in 0..w {
            if let Tile::Safe(n) = board.tile((y, x)) {
                if n != mines_around(board, (y, x)) {
                    return false;
                }
            }
        }
    }
    true
}

#[test]
fn empty_board_is_all_hidden_zeros() {
    let board = Board::make_empty((4, 9));
    assert_eq!(*board.get_size(), (4, 9));
    assert_eq!(board.get_flags_left(), 0);
    assert_eq!(board.get_safe_squares_left(), 36);
    for y in 0..4 {
        for x in 0..9 {
            assert_eq!(board.tile((y, x)), Tile::Safe(0));
            assert_eq!(board.tile_state((y, x)), TileState::Hidden);
        }
    }
}

#[test]
fn make_random_places_the_mines() {
    let board = Board::make_random((9, 9), 10).unwrap();
    assert_eq!(*board.get_size(), (9, 9));
    assert_eq!(mines_on(&board), 10);
    assert_eq!(board.get_flags_left(), 10);
    assert_eq!(board.get_safe_squares_left(), 71);
    assert!(numbers_hold(&board));
    assert_eq!(count_states(&board, TileState::Hidden), 81);
}

#[test]
fn make_random_at_half_density() {
    let board = Board::make_random((1, 7), 3).unwrap();
    assert_eq!(mines_on(&board), 3);
    assert_eq!(board.get_safe_squares_left(), 4);
    let board = Board::make_random((50, 50), 1250).unwrap();
    assert_eq!(mines_on(&board), 1250);
    assert!(numbers_hold(&board));
}

#[test]
fn make_random_rejects_small_sizes() {
    assert_eq!(Board::make_random((0, 9), 1).err(), Some("Board size must be at least 7x1"));
    assert_eq!(Board::make_random((9, 6), 1).err(), Some("Board size must be at least 7x1"));
}

#[test]
fn make_random_rejects_large_sizes() {
    assert_eq!(Board::make_random((51, 9), 1).err(), Some("Board size may not be greater than 50x50"));
    assert_eq!(Board::make_random((9, 51), 1).err(), Some("Board size may not be greater than 50x50"));
}

#[test]
fn make_random_rejects_bad_mine_counts() {
    let msg = "Mine density must be greater than 0% and no more than 50%";
    assert_eq!(Board::make_random((9, 9), 0).err(), Some(msg));
    assert_eq!(Board::make_random((9, 9), 41).err(), Some(msg));
    assert!(Board::make_random((9, 9), 40).is_ok());
}

#[test]
fn difficulty_presets() {
    assert_eq!(Difficulty::beginner(), Difficulty { size: (9, 9), mines: 10 });
    assert_eq!(Difficulty::intermediate(), Difficulty { size: (16, 16), mines: 40 });
    assert_eq!(Difficulty::expert(), Difficulty { size: (16, 30), mines: 99 });
    let board = Difficulty::expert().new_game().unwrap();
    assert_eq!(*board.get_size(), (16, 30));
    assert_eq!(mines_on(&board), 99);
    let bad = Difficulty { size: (3, 3), mines: 1 };
    assert_eq!(bad.new_game().err(), Some("Board size must be at least 7x1"));
}

#[test]
fn place_mine_at_raises_the_numbers_around() {
    let mut board = Board::make_empty((3, 3));
    assert!(board.place_mine_at((1, 1)));
    for y in 0..3 {
        for x in 0..3 {
            if (y, x) == (1, 1) {
                assert_eq!(board.tile((y, x)), Tile::Mine);
            } else {
                assert_eq!(board.tile((y, x)), Tile::Safe(1));
            }
        }
    }
    assert_eq!(board.get_flags_left(), 1);
    assert_eq!(board.get_safe_squares_left(), 8);
    assert!(!board.place_mine_at((1, 1)));
    assert_eq!(board.get_flags_left(), 1);
}

#[test]
fn center_mine_reveal_corner_has_no_cascade() {
    let mut board = Board::make_empty((3, 3));
    board.place_mine_at((1, 1));
    let changed = board.left_click((0, 0));
    assert_eq!(changed, vec![(0, 0)]);
    assert_eq!(board.tile_state((0, 0)), TileState::Uncovered);
    assert_eq!(count_states(&board, TileState::Uncovered), 1);
    assert_eq!(board.get_safe_squares_left(), 7);
}

#[test]
fn zero_mine_board_single_click_uncovers_all() {
    let mut board = Board::make_empty((5, 8));
    let changed = board.left_click((2, 3));
    assert_eq!(changed.len(), 40);
    assert_eq!(count_states(&board, TileState::Uncovered), 40);
    assert_eq!(board.get_safe_squares_left(), 0);
}

#[test]
fn cascade_stops_at_numbers() {
    let mut board = Board::make_empty((1, 7));
    board.place_mine_at((0, 6));
    let mut changed = board.left_click((0, 0));
    changed.sort();
    assert_eq!(changed, vec![(0, 0), (0, 1), (0, 2), (0, 3), (0, 4), (0, 5)]);
    assert_eq!(board.tile_state((0, 6)), TileState::Hidden);
    assert_eq!(board.get_safe_squares_left(), 0);
}

#[test]
fn cascade_does_not_enter_question_marks() {
    let mut board = Board::make_empty((1, 7));
    board.place_mine_at((0, 6));
    board.right_click((0, 2));
    board.right_click((0, 2));
    assert_eq!(board.tile_state((0, 2)), TileState::QuestionMark);
    let mut changed = board.left_click((0, 0));
    changed.sort();
    assert_eq!(changed, vec![(0, 0), (0, 1)]);
    assert_eq!(board.tile_state((0, 2)), TileState::QuestionMark);
    let mut changed = board.left_click((0, 2));
    changed.sort();
    assert_eq!(changed, vec![(0, 2), (0, 3), (0, 4), (0, 5)]);
    assert_eq!(board.get_safe_squares_left(), 0);
}

fn chord_board() -> Board {
    let mut board = Board::make_empty((2, 2));
    board.place_mine_at((0, 1));
    board.place_mine_at((1, 0));
    assert_eq!(board.tile((0, 0)), Tile::Safe(2));
    assert_eq!(board.left_click((0, 0)), vec![(0, 0)]);
    board
}

#[test]
fn chord_with_matching_flags_reveals_the_rest() {
    let mut board = chord_board();
    board.right_click((0, 1));
    board.right_click((1, 0));
    let changed = board.left_click((0, 0));
    assert_eq!(changed, vec![(1, 1)]);
    assert_eq!(board.tile_state((1, 1)), TileState::Uncovered);
    assert_eq!(board.tile_state((0, 1)), TileState::Flagged);
    assert_eq!(board.get_safe_squares_left(), 0);
}

#[test]
fn chord_with_too_few_flags_does_nothing() {
    let mut board = chord_board();
    board.right_click((0, 1));
    let changed = board.left_click((0, 0));
    assert!(changed.is_empty());
    assert_eq!(board.tile_state((1, 1)), TileState::Hidden);
    assert_eq!(board.tile_state((1, 0)), TileState::Hidden);
    assert_eq!(board.get_safe_squares_left(), 1);
}

#[test]
fn chord_with_wrong_flags_uncovers_a_mine() {
    let mut board = chord_board();
    board.right_click((0, 1));
    board.right_click((1, 1));
    let mut changed = board.left_click((0, 0));
    changed.sort();
    assert_eq!(changed, vec![(1, 0)]);
    assert_eq!(board.tile_state((1, 0)), TileState::Uncovered);
}

#[test]
fn left_click_on_flag_changes_nothing() {
    let mut board = Board::make_random((9, 9), 10).unwrap();
    board.right_click((4, 4));
    let flags = board.get_flags_left();
    let safe = board.get_safe_squares_left();
    let changed = board.left_click((4, 4));
    assert!(changed.is_empty());
    assert_eq!(board.tile_state((4, 4)), TileState::Flagged);
    assert_eq!(count_states(&board, TileState::Flagged), 1);
    assert_eq!(count_states(&board, TileState::Hidden), 80);
    assert_eq!(board.get_flags_left(), flags);
    assert_eq!(board.get_safe_squares_left(), safe);
}

#[test]
fn right_click_cycles_through_flag_and_question_mark() {
    let mut board = Board::make_random((9, 9), 10).unwrap();
    assert_eq!(board.right_click((2, 3)), vec![(2, 3)]);
    assert_eq!(board.tile_state((2, 3)), TileState::Flagged);
    assert_eq!(board.get_flags_left(), 9);
    assert_eq!(board.right_click((2, 3)), vec![(2, 3)]);
    assert_eq!(board.tile_state((2, 3)), TileState::QuestionMark);
    assert_eq!(board.get_flags_left(), 10);
    assert_eq!(board.right_click((2, 3)), vec![(2, 3)]);
    assert_eq!(board.tile_state((2, 3)), TileState::Hidden);
    assert_eq!(board.get_flags_left(), 10);
}

#[test]
fn right_click_on_uncovered_cell_does_nothing() {
    let mut board = Board::make_empty((2, 7));
    board.left_click((0, 0));
    assert!(board.right_click((1, 1)).is_empty());
    assert_eq!(board.tile_state((1, 1)), TileState::Uncovered);
    assert_eq!(board.get_flags_left(), 0);
}

#[test]
fn flags_may_outnumber_mines() {
    let mut board = Board::make_empty((1, 7));
    board.place_mine_at((0, 0));
    for x in 0..7 {
        board.right_click((0, x));
    }
    assert_eq!(board.get_flags_left(), -6);
}

#[test]
fn counters_follow_the_cells() {
    let mut board = Board::make_random((16, 16), 40).unwrap();
    board.ensure_safe_start((8, 8));
    board.left_click((8, 8));
    for i in 0..16 {
        board.right_click((i, (i * 7) % 16));
        board.right_click((i, (i * 3) % 16));
    }
    let flagged = count_states(&board, TileState::Flagged) as isize;
    assert_eq!(board.get_flags_left(), 40 - flagged);
    assert_eq!(board.get_safe_squares_left(), covered_safe(&board) as isize);
    assert!(numbers_hold(&board));
}

#[test]
fn ensure_safe_start_clears_the_window() {
    for _ in 0..20 {
        let mut board = Board::make_random((9, 9), 40).unwrap();
        board.ensure_safe_start((4, 4));
        assert_eq!(board.tile((4, 4)), Tile::Safe(0));
        assert_eq!(mines_on(&board), 40);
        assert!(numbers_hold(&board));
        assert_eq!(board.get_flags_left(), 40);
        assert_eq!(board.get_safe_squares_left(), 41);
    }
}

#[test]
fn ensure_safe_start_on_narrow_board() {
    for _ in 0..20 {
        let mut board = Board::make_random((1, 7), 3).unwrap();
        board.ensure_safe_start((0, 0));
        assert_eq!(board.tile((0, 0)), Tile::Safe(0));
        assert_ne!(board.tile((0, 1)), Tile::Mine);
        assert_eq!(mines_on(&board), 3);
    }
}

#[test]
fn relocate_mine_sequence_keeps_mine_count() {
    let mut board = Board::make_random((9, 9), 10).unwrap();
    for y in 0..9 {
        for x in 0..9 {
            board.relocate_mine((y, x));
            assert_eq!(mines_on(&board), 10);
        }
    }
    assert!(numbers_hold(&board));
    assert_eq!(board.get_flags_left(), 10);
    assert_eq!(board.get_safe_squares_left(), 71);
}

#[test]
fn relocate_mine_on_safe_cell_is_a_no_op() {
    let mut board = Board::make_empty((3, 7));
    board.place_mine_at((0, 0));
    board.relocate_mine((2, 6));
    assert_eq!(board.tile((0, 0)), Tile::Mine);
    assert_eq!(mines_on(&board), 1);
}

#[test]
fn reveal_all_uncovers_everything_and_keeps_counters() {
    let mut board = Board::make_random((9, 9), 10).unwrap();
    board.right_click((0, 0));
    board.reveal_all();
    assert_eq!(count_states(&board, TileState::Uncovered), 81);
    assert_eq!(board.get_flags_left(), 9);
    assert_eq!(board.get_safe_squares_left(), 71);
}

#[test]
fn neighbor_coords_clip_at_edges() {
    let board = Board::make_empty((3, 3));
    assert_eq!(board.neighbor_coords((0, 0)), vec![(0, 0), (0, 1), (1, 0), (1, 1)]);
    assert_eq!(
        board.neighbor_coords((1, 1)),
        vec![(0, 0), (0, 1), (0, 2), (1, 0), (1, 1), (1, 2), (2, 0), (2, 1), (2, 2)]
    );
    assert_eq!(board.neighbor_coords((2, 1)), vec![(1, 0), (1, 1), (1, 2), (2, 0), (2, 1), (2, 2)]);
    let row = Board::make_empty((1, 7));
    assert_eq!(row.neighbor_coords((0, 6)), vec![(0, 5), (0, 6)]);
}

#[test]
fn reveal_lists_the_clicked_cell_first() {
    let mut board = Board::make_empty((4, 7));
    board.place_mine_at((3, 6));
    let changed = board.left_click((1, 2));
    assert_eq!(changed[0], (1, 2));
    assert_eq!(changed.len(), 27);
    let mut board = Board::make_empty((1, 7));
    board.place_mine_at((0, 6));
    board.right_click((0, 3));
    board.right_click((0, 3));
    let changed = board.left_click((0, 3));
    assert_eq!(changed[0], (0, 3));
}

#[test]
fn ensure_safe_start_leaves_a_safe_start_alone() {
    let mut board = Board::make_empty((3, 7));
    board.place_mine_at((0, 6));
    board.place_mine_at((2, 5));
    board.ensure_safe_start((1, 1));
    assert_eq!(board.tile((0, 6)), Tile::Mine);
    assert_eq!(board.tile((2, 5)), Tile::Mine);
    assert_eq!(board.get_flags_left(), 2);
    assert_eq!(board.get_safe_squares_left(), 19);
}

#[test]
fn ensure_safe_start_keeps_mines_outside_the_window() {
    for _ in 0..20 {
        let mut board = Board::make_random((9, 9), 40).unwrap();
        let mut outside = vec![];
        for y in 0..9usize {
            for x in 0..9usize {
                let near = y + 1 >= 4 && y <= 5 && x + 1 >= 4 && x <= 5;
                if !near && board.tile((y, x)) == Tile::Mine {
                    outside.push((y, x));
                }
            }
        }
        board.ensure_safe_start((4, 4));
        for p in outside {
            assert_eq!(board.tile(p), Tile::Mine);
        }
    }
}

#[test]
fn grids_and_clone_read_the_same_cells() {
    let mut board = Board::make_empty((2, 7));
    board.place_mine_at((1, 3));
    board.right_click((0, 0));
    let copy = board.clone();
    for y in 0..2 {
        for x in 0..7 {
            assert_eq!(board.get_tiles().at((y, x)), board.tile((y, x)));
            assert_eq!(board.get_tilestates().at((y, x)), board.tile_state((y, x)));
            assert_eq!(copy.tile((y, x)), board.tile((y, x)));
            assert_eq!(copy.tile_state((y, x)), board.tile_state((y, x)));
        }
    }
    assert_eq!(copy.get_flags_left(), board.get_flags_left());
    assert_eq!(copy.get_safe_squares_left(), board.get_safe_squares_left());
}
