//! The course of one game: its stage, and what a click does to it.
use vstd::prelude::*;

use crate::board::{lemma_same_tiles, only, window_of, Board, Tile, TileState};
use crate::count::Pos;

verus! {

/// Where a game stands.
#[derive(Clone, Copy, Debug, PartialEq, Eq, Structural)]
pub enum GameStage {
    /// No cell uncovered yet; the first left click makes a safe start.
    Pre,
    Playing,
    /// A mine was uncovered.
    Exploded,
    /// Every safe cell is uncovered.
    Complete,
}

/// A cell that a cascade reaches was covered before it.
proof fn lemma_reached_was_covered(b: &Board, from: spec_fn(Pos) -> bool, p: Pos)
    requires
        b.cascade_reaches(from, p),
    ensures
        b.state_at(p) != TileState::Uncovered,
{
    let path = choose|path: Seq<Pos>| #[trigger] b.is_cascade_path(from, path) && path.last() == p;
    if path.len() > 1 {
        assert(b.state_at(path[path.len() - 1]) == TileState::Hidden);
    }
}

/// A left click released on `pos`: on the first click the start is made safe, then the
/// click is played. The game is lost when the click uncovered a mine.
pub fn left_release(board: &mut Board, stage: GameStage, pos: Pos) -> (next: GameStage)
    requires
        old(board).well_formed(),
        old(board).in_bounds(pos),
        stage == GameStage::Pre || stage == GameStage::Playing,
        stage == GameStage::Pre ==> old(board).nothing_uncovered(),
    ensures
        final(board).well_formed(),
        final(board).mine_count() == old(board).mine_count(),
        stage == GameStage::Pre ==> final(board).tile_at(pos) == Tile::Safe(0),
        stage == GameStage::Playing ==> final(board).click_played(old(board), pos),
        stage == GameStage::Pre ==> exists|m: Board|
            m.well_formed() && m.same_states(old(board)) && m.mine_count() == old(board).mine_count()
                && m.tile_at(pos) == Tile::Safe(0) && #[trigger] final(board).click_played(&m, pos),
        next == GameStage::Exploded || next == GameStage::Playing,
        next == GameStage::Exploded <==> exists|p: Pos|
            final(board).in_bounds(p) && final(board).is_mine_at(p) && #[trigger] final(board).state_at(p)
                != old(board).state_at(p),
{
    let mut next = stage;
    if stage == GameStage::Pre {
        board.ensure_safe_start(pos);
        next = GameStage::Playing;
    }
    let ghost mid = *board;
    let changed = board.left_click(pos);
    proof {
        lemma_same_tiles(&mid, board);
        assert(board.click_played(&mid, pos));
        assert forall|p: Pos| mid.in_bounds(p) implies (#[trigger] board.state_at(p) != mid.state_at(p)
            <==> changed@.contains(p)) by {
            if mid.click_uncovers(pos, p) {
                match mid.state_at(pos) {
                    TileState::Hidden | TileState::QuestionMark => {
                        lemma_reached_was_covered(&mid, only(pos), p);
                    },
                    _ => {
                        lemma_reached_was_covered(&mid, window_of(pos), p);
                    },
                }
            }
        }
    }
    let mut exploded = false;
    let mut i: usize = 0;
    while i < changed.len()
        invariant
            i <= changed.len(),
            board.well_formed(),
            forall|p: Pos| #[trigger] changed@.contains(p) ==> board.in_bounds(p) && board.state_at(p) == TileState::Uncovered,
            exploded <==> exists|j: int| 0 <= j < i && board.is_mine_at(#[trigger] changed@[j]),
        decreases changed.len() - i,
    {
        let p = changed[i];
        proof {
            assert(changed@.contains(p));
        }
        if board.tile(p) == Tile::Mine && board.tile_state(p) == TileState::Uncovered {
            exploded = true;
        }
        i += 1;
    }
    proof {
        if exploded {
            let j = choose|j: int| 0 <= j < i && board.is_mine_at(#[trigger] changed@[j]);
            let p = changed@[j];
            assert(changed@.contains(p));
            assert(board.state_at(p) != mid.state_at(p));
        }
        if exists|p: Pos| board.in_bounds(p) && board.is_mine_at(p) && #[trigger] board.state_at(p) != old(board).state_at(p) {
            let p = choose|p: Pos| board.in_bounds(p) && board.is_mine_at(p) && #[trigger] board.state_at(p) != old(board).state_at(p);
            assert(mid.state_at(p) == old(board).state_at(p));
            assert(changed@.contains(p));
            let j = choose|j: int| 0 <= j < changed@.len() && changed@[j] == p;
            assert(board.is_mine_at(changed@[j]));
        }
    }
    if exploded {
        GameStage::Exploded
    } else {
        GameStage::Playing
    }
}

/// The stage after a frame: a game in play is complete once no safe cell is left covered.
pub fn stage_after_frame(stage: GameStage, safe_squares_left: isize) -> (next: GameStage)
    ensures
        next == if stage == GameStage::Playing && safe_squares_left == 0 {
            GameStage::Complete
        } else {
            stage
        },
{
    if stage == GameStage::Playing && safe_squares_left == 0 {
        GameStage::Complete
    } else {
        stage
    }
}

/// The timer after one frame: while in play, a second passes each `tick_rate` frames. Returns
/// (seconds, frames left in this second); the seconds stop at `usize::MAX`.
pub fn timer_tick(stage: GameStage, seconds: usize, ticks: usize, tick_rate: usize) -> (r: (usize, usize))
    ensures
        stage != GameStage::Playing ==> r == (seconds, ticks),
        stage == GameStage::Playing && ticks <= 1 ==> r == (if seconds < usize::MAX { (seconds + 1) as usize } else { seconds }, tick_rate),
        stage == GameStage::Playing && ticks > 1 ==> r == (seconds, (ticks - 1) as usize),
{
    if stage != GameStage::Playing {
        (seconds, ticks)
    } else if ticks <= 1 {
        (if seconds < usize::MAX { seconds + 1 } else { seconds }, tick_rate)
    } else {
        (seconds, ticks - 1)
    }
}

/// What the mine counter shows: the flags left, or zero when more flags than mines are down.
pub fn mine_counter_value(flags_left: isize) -> (r: usize)
    ensures
        r == if flags_left < 0 { 0 } else { flags_left as int },
{
    if flags_left < 0 {
        0
    } else {
        flags_left as usize
    }
}

} // verus!
