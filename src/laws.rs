//! Laws of play that follow from the contracts of `Board`.
use vstd::prelude::*;

use crate::board::{
    adjacent, flag_delta, lemma_cascade_extend, next_flag_state, only, Board, Tile, TileState,
};
use crate::count::{in_rect, lemma_count_zero_iff_none, Pos};

verus! {

/// On a consistent board the safe-square counter is zero exactly when every safe cell is
/// uncovered: that is when the game is won.
pub proof fn lemma_won_iff_no_safe_left(b: &Board)
    requires
        b.consistent(),
    ensures
        b.safe_left() == 0 <==> forall|p: Pos|
            b.in_bounds(p) && !b.is_mine_at(p) ==> #[trigger] b.state_at(p) == TileState::Uncovered,
{
    let f = |q: Pos| b.tile_at(q) is Safe && b.state_at(q) != TileState::Uncovered;
    lemma_count_zero_iff_none(f, b.height(), b.width());
    if b.safe_left() == 0 {
        assert forall|p: Pos| b.in_bounds(p) && !b.is_mine_at(p) implies #[trigger] b.state_at(p)
            == TileState::Uncovered by {
            assert(in_rect(p, b.height(), b.width()));
        }
    }
}

/// Steps from `p` one cell toward `s` on each axis where they differ.
pub open spec fn step_toward(p: Pos, s: Pos) -> Pos {
    (
        if p.0 < s.0 {
            (p.0 + 1) as usize
        } else if p.0 > s.0 {
            (p.0 - 1) as usize
        } else {
            p.0
        },
        if p.1 < s.1 {
            (p.1 + 1) as usize
        } else if p.1 > s.1 {
            (p.1 - 1) as usize
        } else {
            p.1
        },
    )
}

/// Moves needed between two cells when a move may go to any cell of the 3x3 window.
pub open spec fn king_distance(p: Pos, s: Pos) -> nat {
    let dy = if p.0 >= s.0 { (p.0 - s.0) as nat } else { (s.0 - p.0) as nat };
    let dx = if p.1 >= s.1 { (p.1 - s.1) as nat } else { (s.1 - p.1) as nat };
    if dy >= dx { dy } else { dx }
}

/// On a board without mines where every cell is hidden, every cell holds `Safe(0)`.
proof fn lemma_no_mines_all_zero(b: &Board)
    requires
        b.well_formed(),
        b.mine_count() == 0,
    ensures
        forall|p: Pos| b.in_bounds(p) ==> #[trigger] b.tile_at(p) == Tile::Safe(0),
{
    lemma_count_zero_iff_none(|q: Pos| b.is_mine_at(q), b.height(), b.width());
    assert forall|p: Pos| b.in_bounds(p) implies #[trigger] b.tile_at(p) == Tile::Safe(0) by {
        assert(in_rect(p, b.height(), b.width()));
        lemma_count_zero_iff_none(|q: Pos| adjacent(q, p) && b.is_mine_at(q), b.height(), b.width());
        assert forall|q: Pos| #[trigger] in_rect(q, b.height(), b.width()) implies !(adjacent(q, p)
            && b.is_mine_at(q)) by {}
    }
}

proof fn lemma_reaches_by_steps(b: &Board, s: Pos, p: Pos)
    requires
        b.in_bounds(s),
        b.in_bounds(p),
        forall|q: Pos| b.in_bounds(q) ==> #[trigger] b.tile_at(q) == Tile::Safe(0),
        forall|q: Pos| b.in_bounds(q) ==> #[trigger] b.state_at(q) == TileState::Hidden,
    ensures
        b.cascade_reaches(only(s), p),
    decreases king_distance(p, s),
{
    if p == s {
        let path = seq![s];
        assert(b.is_cascade_path(only(s), path));
        assert(path.last() == p);
    } else {
        let q = step_toward(p, s);
        lemma_reaches_by_steps(b, s, q);
        let path = choose|path: Seq<Pos>| #[trigger] b.is_cascade_path(only(s), path) && path.last() == q;
        lemma_cascade_extend(b, only(s), path, p);
        assert(path.push(p).last() == p);
    }
}

/// On a board without mines where every cell is hidden, a left click anywhere uncovers
/// every cell.
pub proof fn lemma_no_mines_one_click_clears(b: &Board, start: Pos)
    requires
        b.well_formed(),
        b.mine_count() == 0,
        forall|p: Pos| b.in_bounds(p) ==> #[trigger] b.state_at(p) == TileState::Hidden,
        b.in_bounds(start),
    ensures
        forall|p: Pos| b.in_bounds(p) ==> #[trigger] b.click_uncovers(start, p),
{
    lemma_no_mines_all_zero(b);
    assert forall|p: Pos| b.in_bounds(p) implies #[trigger] b.click_uncovers(start, p) by {
        lemma_reaches_by_steps(b, start, p);
    }
}

/// Three right clicks on a hidden cell leave it hidden, and the flag counter where it was.
pub proof fn lemma_three_right_clicks(b: &Board, pos: Pos)
    requires
        b.state_at(pos) == TileState::Hidden,
    ensures
        next_flag_state(next_flag_state(next_flag_state(b.state_at(pos)))) == TileState::Hidden,
        flag_delta(b.state_at(pos)) + flag_delta(next_flag_state(b.state_at(pos))) + flag_delta(
            next_flag_state(next_flag_state(b.state_at(pos))),
        ) == 0,
{
}

} // verus!
