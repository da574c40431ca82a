use minesweeper::board::{Board, Tile, TileState};
use minesweeper::game::{left_release, mine_counter_value, stage_after_frame, timer_tick, GameStage};
use minesweeper::sprites::{counter_digits, get_7seg_frame, FaceSprite, TileSprite};
use minesweeper::ui::UIState;

#[test]
fn ui_state_starts_empty() {
    let ui = UIState::new();
    assert_eq!(ui.left_clicked_tile, None);
    assert_eq!(ui.right_clicked_tile, None);
    assert!(!ui.face_clicked);
}

#[test]
fn first_release_makes_a_safe_start() {
    for _ in 0..10 {
        let mut board = Board::make_random((9, 9), 40).unwrap();
        let stage = left_release(&mut board, GameStage::Pre, (4, 4));
        assert_eq!(stage, GameStage::Playing);
        assert_eq!(board.tile((4, 4)), Tile::Safe(0));
        assert_eq!(board.tile_state((4, 4)), TileState::Uncovered);
    }
}

#[test]
fn release_on_a_mine_loses() {
    let mut board = Board::make_empty((2, 7));
    board.place_mine_at((1, 6));
    let stage = left_release(&mut board, GameStage::Playing, (1, 6));
    assert_eq!(stage, GameStage::Exploded);
    let mut board = Board::make_empty((1, 7));
    board.place_mine_at((0, 6));
    let stage = left_release(&mut board, GameStage::Playing, (0, 0));
    assert_eq!(stage, GameStage::Playing);
    assert_eq!(stage_after_frame(stage, board.get_safe_squares_left()), GameStage::Complete);
}

#[test]
fn stage_after_frame_only_completes_games_in_play() {
    assert_eq!(stage_after_frame(GameStage::Playing, 0), GameStage::Complete);
    assert_eq!(stage_after_frame(GameStage::Playing, 3), GameStage::Playing);
    assert_eq!(stage_after_frame(GameStage::Pre, 0), GameStage::Pre);
    assert_eq!(stage_after_frame(GameStage::Exploded, 0), GameStage::Exploded);
}

#[test]
fn timer_counts_seconds_in_play() {
    assert_eq!(timer_tick(GameStage::Playing, 5, 10, 60), (5, 9));
    assert_eq!(timer_tick(GameStage::Playing, 5, 1, 60), (6, 60));
    assert_eq!(timer_tick(GameStage::Pre, 5, 1, 60), (5, 1));
    assert_eq!(timer_tick(GameStage::Playing, usize::MAX, 0, 60), (usize::MAX, 60));
}

#[test]
fn mine_counter_shows_zero_below_zero() {
    assert_eq!(mine_counter_value(-3), 0);
    assert_eq!(mine_counter_value(0), 0);
    assert_eq!(mine_counter_value(42), 42);
}

#[test]
fn counter_digits_and_frames() {
    assert_eq!(counter_digits(7), (0, 0, 7));
    assert_eq!(counter_digits(123), (1, 2, 3));
    assert_eq!(counter_digits(4567), (5, 6, 7));
    assert_eq!(get_7seg_frame(1), 0);
    assert_eq!(get_7seg_frame(0), 9);
    assert_eq!(get_7seg_frame(9), 8);
}

#[test]
fn tile_sprites_follow_state_and_stage() {
    assert_eq!(TileSprite::for_cell(GameStage::Playing, TileState::Hidden, Tile::Mine, false), TileSprite::Hidden);
    assert_eq!(TileSprite::for_cell(GameStage::Playing, TileState::Hidden, Tile::Safe(1), true), TileSprite::HiddenClick);
    assert_eq!(TileSprite::for_cell(GameStage::Exploded, TileState::Hidden, Tile::Mine, true), TileSprite::Mine);
    assert_eq!(TileSprite::for_cell(GameStage::Exploded, TileState::Flagged, Tile::Safe(0), false), TileSprite::IncorrectFlag);
    assert_eq!(TileSprite::for_cell(GameStage::Exploded, TileState::Flagged, Tile::Mine, false), TileSprite::Flagged);
    assert_eq!(TileSprite::for_cell(GameStage::Exploded, TileState::QuestionMark, Tile::Mine, false), TileSprite::MineExploded);
    assert_eq!(TileSprite::for_cell(GameStage::Pre, TileState::QuestionMark, Tile::Mine, true), TileSprite::QuestionMarkClick);
    assert_eq!(TileSprite::for_cell(GameStage::Playing, TileState::Uncovered, Tile::Safe(3), false), TileSprite::Safe3);
    assert_eq!(TileSprite::for_cell(GameStage::Playing, TileState::Uncovered, Tile::Mine, false), TileSprite::MineExploded);
    assert_eq!(TileSprite::for_number(9), TileSprite::QuestionMark);
}

#[test]
fn sprite_sheet_origins() {
    assert_eq!(TileSprite::Hidden.clip_origin(), (2, 53));
    assert_eq!(TileSprite::Safe0.clip_origin(), (19, 53));
    assert_eq!(TileSprite::Safe8.clip_origin(), (121, 70));
    assert_eq!(FaceSprite::Dead.clip_origin(), (110, 26));
    assert_eq!(FaceSprite::Happy.clip_origin(), (2, 26));
}

#[test]
fn face_follows_the_game() {
    assert_eq!(FaceSprite::for_game(GameStage::Playing, true, None), FaceSprite::HappyPressed);
    assert_eq!(FaceSprite::for_game(GameStage::Exploded, false, None), FaceSprite::Dead);
    assert_eq!(FaceSprite::for_game(GameStage::Complete, false, None), FaceSprite::Cool);
    assert_eq!(FaceSprite::for_game(GameStage::Playing, false, Some(TileState::Hidden)), FaceSprite::Scared);
    assert_eq!(FaceSprite::for_game(GameStage::Pre, false, Some(TileState::Flagged)), FaceSprite::Happy);
    assert_eq!(FaceSprite::for_game(GameStage::Playing, false, None), FaceSprite::Happy);
}

use minesweeper::options::{choose_difficulty, Choice, Given, MineChoice, OptionValues};

fn no_options() -> OptionValues {
    OptionValues {
        help: false,
        beginner: false,
        intermediate: false,
        expert: false,
        width: Given::Absent,
        height: Given::Absent,
        mines: Given::Absent,
        density: Given::Absent,
    }
}

#[test]
fn options_help_and_nothing() {
    let mut o = no_options();
    assert_eq!(choose_difficulty(&o), Err(Some("A board size is required (use -1, -2, -3, -x, or -y)")));
    o.help = true;
    o.beginner = true;
    assert_eq!(choose_difficulty(&o), Err(None));
}

#[test]
fn options_presets() {
    let mut o = no_options();
    o.expert = true;
    assert_eq!(choose_difficulty(&o), Ok(Choice { size: (16, 30), mines: MineChoice::Count(99) }));
    o.width = Given::Valid(20);
    o.mines = Given::Valid(5);
    assert_eq!(choose_difficulty(&o), Ok(Choice { size: (16, 20), mines: MineChoice::Count(5) }));
    o.beginner = true;
    assert_eq!(choose_difficulty(&o), Err(Some("Only one difficulty may be specified")));
}

#[test]
fn options_square_and_density() {
    let mut o = no_options();
    o.width = Given::Valid(12);
    o.density = Given::Valid(());
    assert_eq!(choose_difficulty(&o), Ok(Choice { size: (12, 12), mines: MineChoice::Density }));
    o.mines = Given::Valid(3);
    assert_eq!(choose_difficulty(&o), Err(Some("Mine count and mine density are mutually exclusive")));
    let mut o = no_options();
    o.height = Given::Valid(8);
    assert_eq!(choose_difficulty(&o), Err(Some("A number or density of mines is required (use -m or -d)")));
    o.beginner = true;
    o.density = Given::Valid(());
    assert_eq!(choose_difficulty(&o), Err(Some("Mine count and mine density are mutually exclusive")));
}

#[test]
fn options_unreadable_values() {
    let mut o = no_options();
    o.density = Given::Invalid;
    assert_eq!(
        choose_difficulty(&o),
        Err(Some("Mine density must be a decimal number greater than 0.0 and no more than 0.5"))
    );
    o.mines = Given::Invalid;
    assert_eq!(choose_difficulty(&o), Err(Some("Mine count must be a positive integer")));
    o.height = Given::Invalid;
    assert_eq!(choose_difficulty(&o), Err(Some("Height must be a positive integer")));
    o.width = Given::Invalid;
    assert_eq!(choose_difficulty(&o), Err(Some("Width must be a positive integer")));
}

#[test]
fn release_in_play_plays_the_click() {
    let mut board = Board::make_empty((1, 7));
    board.place_mine_at((0, 6));
    let stage = left_release(&mut board, GameStage::Playing, (0, 5));
    assert_eq!(stage, GameStage::Playing);
    assert_eq!(board.tile_state((0, 5)), TileState::Uncovered);
    assert_eq!(board.tile_state((0, 4)), TileState::Hidden);
}
