//! The board: its cells, the rules that change them, and the counters kept beside them.
use vstd::prelude::*;

use crate::count::{
    count_cells, count_in_row, in_rect, lemma_count_complement, lemma_count_ext, lemma_count_mono,
    lemma_count_update, lemma_count_zero_iff_none, Pos,
};
use crate::grid::{has_shape, state_rows, tile_rows, StateGrid, TileGrid};
use crate::random::random_below;

verus! {

/// What a cell holds: a mine, or the number of mines among its neighbours.
#[derive(Clone, Copy, Debug, PartialEq, Eq, Structural)]
pub enum Tile {
    Mine,
    Safe(u8),
}

/// What the player sees of a cell.
#[derive(Clone, Copy, Debug, PartialEq, Eq, Structural)]
pub enum TileState {
    Hidden,
    Flagged,
    QuestionMark,
    Uncovered,
}

/// A Minesweeper board.
#[derive(Debug)]
pub struct Board {
    /// (height, width)
    size: Pos,
    /// Mines and numbers.
    tiles: TileGrid,
    /// Visibility, flags and question marks.
    tilestates: StateGrid,
    /// Mines minus flags; negative when there are more flags than mines.
    flags_left: isize,
    /// Safe cells not uncovered yet.
    safe_squares_left: isize,
}

/// Why a board of this size and mine count cannot be made, if it cannot: the size must be
/// between 1x7 and 50x50 (height x width), and the mines more than none and at most half of
/// the cells.
pub open spec fn config_error(size: (usize, usize), mines: usize) -> Option<Seq<char>> {
    if size.0 < 1 || size.1 < 7 {
        Some("Board size must be at least 7x1"@)
    } else if 50 < size.0 || 50 < size.1 {
        Some("Board size may not be greater than 50x50"@)
    } else if mines == 0 || (size.0 * size.1) / 2 < mines {
        Some("Mine density must be greater than 0% and no more than 50%"@)
    } else {
        None
    }
}

/// Random cells drawn for one mine before placement falls back to the first free cell.
const PLACEMENT_DRAWS: u32 = 1000;

/// Rounds of relocation tried for a safe start before its window is cleared cell by cell.
const SAFE_START_ROUNDS: u32 = 1000;

/// `p` lies in the 3x3 window centred on `q` (or is `q`).
pub open spec fn adjacent(p: Pos, q: Pos) -> bool {
    -1 <= p.0 - q.0 <= 1 && -1 <= p.1 - q.1 <= 1
}

/// `p` comes before `q` in row-major order.
pub open spec fn row_major_before(p: Pos, q: Pos) -> bool {
    p.0 < q.0 || (p.0 == q.0 && p.1 < q.1)
}

/// First row (or column) of the window around `v`.
pub open spec fn window_lo(v: usize) -> usize {
    if v == 0 {
        0
    } else {
        (v - 1) as usize
    }
}

/// One past the last row (or column) of the window around `v`, on an axis of length `n`.
pub open spec fn window_hi(v: usize, n: usize) -> usize {
    if v + 2 <= n {
        (v + 2) as usize
    } else {
        n
    }
}

/// Cells of row `r` before column `w` that lie in the window around `p`: at most the window's
/// columns below `w`.
proof fn lemma_window_row(p: Pos, r: usize, w: usize)
    ensures
        count_in_row(|q: Pos| adjacent(q, p), r, w) <= span(window_lo(p.1) as int, p.1 + 2, w as int),
        (r + 1 < p.0 || r > p.0 + 1) ==> count_in_row(|q: Pos| adjacent(q, p), r, w) == 0,
    decreases w,
{
    if w > 0 {
        lemma_window_row(p, r, (w - 1) as usize);
    }
}

/// Length of `[lo, min(hi, n))`, or zero.
pub open spec fn span(lo: int, hi: int, n: int) -> int {
    let top = if hi < n { hi } else { n };
    if top <= lo { 0 } else { top - lo }
}

/// The window around `p` holds at most three cells of each of at most three rows.
proof fn lemma_window_cells(p: Pos, h: usize, w: usize)
    ensures
        count_cells(|q: Pos| adjacent(q, p), h, w) <= 3 * span(window_lo(p.0) as int, p.0 + 2, h as int),
    decreases h,
{
    if h > 0 {
        let r = (h - 1) as usize;
        lemma_window_cells(p, r, w);
        lemma_window_row(p, r, w);
    }
}

/// At most nine cells, and at most three per row of the board, lie in a window.
pub proof fn lemma_window_bound(p: Pos, h: usize, w: usize)
    ensures
        count_cells(|q: Pos| adjacent(q, p), h, w) <= 9,
        count_cells(|q: Pos| adjacent(q, p), h, w) <= 3 * h,
{
    lemma_window_cells(p, h, w);
}

/// Mines around a cell are at most nine.
proof fn lemma_mines_around_bound(b: &Board, p: Pos)
    ensures
        b.mines_around(p) <= 9,
{
    lemma_count_mono(|q: Pos| adjacent(q, p) && b.is_mine_at(q), |q: Pos| adjacent(q, p), b.height(), b.width());
    lemma_window_bound(p, b.height(), b.width());
}


/// `t` with its number raised by one; a mine stays a mine.
pub open spec fn bumped(t: Tile) -> Tile {
    match t {
        Tile::Safe(n) => Tile::Safe((n + 1) as u8),
        Tile::Mine => Tile::Mine,
    }
}

/// `t` with its number lowered by one; a mine stays a mine.
pub open spec fn dimmed(t: Tile) -> Tile {
    match t {
        Tile::Safe(n) => Tile::Safe((n - 1) as u8),
        Tile::Mine => Tile::Mine,
    }
}

/// Cells of the window around `pos`, other than `pos`, that come before `(y, x)` in row-major
/// order.
pub open spec fn window_before(q: Pos, pos: Pos, y: usize, x: usize) -> bool {
    adjacent(q, pos) && q != pos && (q.0 < y || (q.0 == y && q.1 < x))
}

/// Picks `pos` alone.
pub open spec fn only(pos: Pos) -> spec_fn(Pos) -> bool {
    |q: Pos| q == pos
}

/// Picks the cells of the window around `pos`.
pub open spec fn window_of(pos: Pos) -> spec_fn(Pos) -> bool {
    |q: Pos| adjacent(q, pos)
}

/// A cascade path that ends on a `Safe(0)` cell goes on to any hidden cell of its window.
pub proof fn lemma_cascade_extend(b: &Board, from: spec_fn(Pos) -> bool, path: Seq<Pos>, n: Pos)
    requires
        b.is_cascade_path(from, path),
        b.tile_at(path.last()) == Tile::Safe(0),
        adjacent(n, path.last()),
        b.in_bounds(n),
        b.state_at(n) == TileState::Hidden,
    ensures
        b.is_cascade_path(from, path.push(n)),
{
    let p2 = path.push(n);
    assert forall|i: int| 0 <= i < p2.len() - 1 implies b.tile_at(#[trigger] p2[i]) == Tile::Safe(0)
        && adjacent(p2[i + 1], p2[i]) by {
        if i < path.len() - 1 {
            assert(p2[i] == path[i] && p2[i + 1] == path[i + 1]);
        }
    }
    assert forall|i: int| 1 <= i < p2.len() implies b.state_at(#[trigger] p2[i]) == TileState::Hidden by {
        if i < path.len() {
            assert(p2[i] == path[i]);
        }
    }
    assert forall|i: int| 0 <= i < p2.len() implies b.in_bounds(#[trigger] p2[i]) by {
        if i < path.len() {
            assert(p2[i] == path[i]);
        }
    }
}

/// A set of cells that holds every start and, with every `Safe(0)` cell, every hidden cell of
/// its window, holds the end of every cascade path.
proof fn lemma_cascade_complete(
    b: &Board,
    from: spec_fn(Pos) -> bool,
    reached: Seq<Pos>,
    path: Seq<Pos>,
)
    requires
        b.is_cascade_path(from, path),
        forall|p: Pos| b.is_start(from, p) ==> #[trigger] reached.contains(p),
        forall|q: Pos, n: Pos|
            #[trigger] reached.contains(q) && b.tile_at(q) == Tile::Safe(0) && b.in_bounds(n) && adjacent(n, q)
                && b.state_at(n) == TileState::Hidden ==> #[trigger] reached.contains(n),
    ensures
        reached.contains(path.last()),
    decreases path.len(),
{
    if path.len() > 1 {
        let prefix = path.drop_last();
        assert forall|i: int| 0 <= i < prefix.len() - 1 implies b.tile_at(#[trigger] prefix[i]) == Tile::Safe(0)
            && adjacent(prefix[i + 1], prefix[i]) by {
            assert(prefix[i] == path[i] && prefix[i + 1] == path[i + 1]);
        }
        assert forall|i: int| 1 <= i < prefix.len() implies b.state_at(#[trigger] prefix[i]) == TileState::Hidden by {
            assert(prefix[i] == path[i]);
        }
        assert forall|i: int| 0 <= i < prefix.len() implies b.in_bounds(#[trigger] prefix[i]) by {
            assert(prefix[i] == path[i]);
        }
        lemma_cascade_complete(b, from, reached, prefix);
        let k = path.len() - 2;
        assert(prefix.last() == path[k]);
        assert(b.tile_at(path[k]) == Tile::Safe(0) && adjacent(path[k + 1], path[k]));
        assert(b.in_bounds(path[k + 1]));
        assert(b.state_at(path[k + 1]) == TileState::Hidden);
    }
}

/// What a pushed sequence contains.
proof fn lemma_push_contains(s: Seq<Pos>, x: Pos)
    ensures
        forall|p: Pos| #[trigger] s.push(x).contains(p) <==> s.contains(p) || p == x,
        s.no_duplicates() && !s.contains(x) ==> s.push(x).no_duplicates(),
{
    if s.no_duplicates() && !s.contains(x) {
        let t = s.push(x);
        assert forall|i: int, j: int| 0 <= i < t.len() && 0 <= j < t.len() && i != j implies t[i] != t[j] by {
            if i < s.len() && j < s.len() {
                assert(t[i] == s[i] && t[j] == s[j]);
            } else if i < s.len() {
                assert(t[i] == s[i]);
            } else if j < s.len() {
                assert(t[j] == s[j]);
            }
        }
    }
    assert forall|p: Pos| #[trigger] s.push(x).contains(p) <==> s.contains(p) || p == x by {
        if s.push(x).contains(p) && p != x {
            let j = choose|j: int| 0 <= j < s.push(x).len() && s.push(x)[j] == p;
            assert(s[j] == p);
        }
        if s.contains(p) {
            let j = choose|j: int| 0 <= j < s.len() && s[j] == p;
            assert(s.push(x)[j] == p);
        }
        assert(s.push(x)[s.len() as int] == x);
    }
}

/// The state a right click moves a cell to.
pub open spec fn next_flag_state(s: TileState) -> TileState {
    match s {
        TileState::Hidden => TileState::Flagged,
        TileState::Flagged => TileState::QuestionMark,
        TileState::QuestionMark => TileState::Hidden,
        TileState::Uncovered => TileState::Uncovered,
    }
}

/// What a right click on a cell in state `s` adds to the flag counter.
pub open spec fn flag_delta(s: TileState) -> int {
    match s {
        TileState::Hidden => -1,
        TileState::Flagged => 1,
        _ => 0,
    }
}

/// Every count is at most the number of cells.
proof fn lemma_count_le_area(f: spec_fn(Pos) -> bool, h: usize, w: usize)
    ensures
        count_cells(f, h, w) <= h * w,
{
    lemma_count_complement(f, |q: Pos| !f(q), h, w);
}

/// Two boards of one size whose mines differ at `pos` alone: the counts of mines differ by one,
/// around the cells next to `pos` and over the board.
proof fn lemma_mine_flip(a: &Board, b: &Board, pos: Pos)
    requires
        a.height() == b.height(),
        a.width() == b.width(),
        a.in_bounds(pos),
        forall|r: Pos| a.in_bounds(r) && r != pos ==> (#[trigger] b.is_mine_at(r)) == a.is_mine_at(r),
        b.is_mine_at(pos) != a.is_mine_at(pos),
    ensures
        forall|q: Pos|
            #[trigger] b.mines_around(q) == a.mines_around(q) + if adjacent(pos, q) {
                if b.is_mine_at(pos) {
                    1int
                } else {
                    -1int
                }
            } else {
                0int
            },
        b.mine_count() == a.mine_count() + if b.is_mine_at(pos) {
            1int
        } else {
            -1int
        },
{
    let (h, w) = (a.height(), a.width());
    assert forall|q: Pos| #[trigger] b.mines_around(q) == a.mines_around(q) + if adjacent(pos, q) {
        if b.is_mine_at(pos) {
            1int
        } else {
            -1int
        }
    } else {
        0int
    } by {
        let f = |r: Pos| adjacent(r, q) && a.is_mine_at(r);
        let g = |r: Pos| adjacent(r, q) && b.is_mine_at(r);
        assert forall|r: Pos| #[trigger] in_rect(r, h, w) && r != pos implies f(r) == g(r) by {}
        lemma_count_update(f, g, h, w, pos);
    }
    let f = |r: Pos| a.is_mine_at(r);
    let g = |r: Pos| b.is_mine_at(r);
    assert forall|r: Pos| #[trigger] in_rect(r, h, w) && r != pos implies f(r) == g(r) by {}
    lemma_count_update(f, g, h, w, pos);
}

/// A board with the tiles of a consistent board has its numbers right and its mine count.
pub proof fn lemma_same_tiles(a: &Board, b: &Board)
    requires
        b.same_tiles(a),
        a.numbers_correct(),
    ensures
        b.numbers_correct(),
        b.mine_count() == a.mine_count(),
        forall|q: Pos| #[trigger] b.mines_around(q) == a.mines_around(q),
{
    let (h, w) = (a.height(), a.width());
    assert forall|q: Pos| #[trigger] b.mines_around(q) == a.mines_around(q) by {
        let f = |r: Pos| adjacent(r, q) && a.is_mine_at(r);
        let g = |r: Pos| adjacent(r, q) && b.is_mine_at(r);
        assert forall|r: Pos| #[trigger] in_rect(r, h, w) implies f(r) == g(r) by {
            assert(b.in_bounds(r));
        }
        lemma_count_ext(f, g, h, w);
    }
    let f = |r: Pos| a.is_mine_at(r);
    let g = |r: Pos| b.is_mine_at(r);
    assert forall|r: Pos| #[trigger] in_rect(r, h, w) implies f(r) == g(r) by {
        assert(b.in_bounds(r));
    }
    lemma_count_ext(f, g, h, w);
}

/// A board at least seven cells wide whose mines take at most half its cells has room for
/// them outside any 3x3 window, so a safe start can be made on it.
pub proof fn lemma_half_density_leaves_room(h: int, w: int, m: int)
    requires
        h >= 1,
        w >= 7,
        0 <= m,
        2 * m <= h * w,
    ensures
        m + 3 * (if h < 3 { h } else { 3 }) <= h * w,
{
    if h >= 3 {
        assert(h * w >= 21) by (nonlinear_arith)
            requires
                h >= 3,
                w >= 7,
        ;
    } else if h == 2 {
        assert(h * w == 2 * w);
    } else {
        assert(h * w == w);
    }
}

impl Clone for Board {
    fn clone(&self) -> (b: Board)
        ensures
            b.same_tiles(self),
            b.same_states(self),
            b.flags() == self.flags(),
            b.safe_left() == self.safe_left(),
    {
        Board {
            size: self.size,
            tiles: self.tiles.duplicate(),
            tilestates: self.tilestates.duplicate(),
            flags_left: self.flags_left,
            safe_squares_left: self.safe_squares_left,
        }
    }
}

impl Board {
    pub closed spec fn height(&self) -> usize {
        self.size.0
    }

    pub closed spec fn width(&self) -> usize {
        self.size.1
    }

    pub closed spec fn tile_at(&self, p: Pos) -> Tile {
        tile_rows(self.tiles)[p.0 as int][p.1 as int]
    }

    pub closed spec fn state_at(&self, p: Pos) -> TileState {
        state_rows(self.tilestates)[p.0 as int][p.1 as int]
    }

    pub closed spec fn flags(&self) -> int {
        self.flags_left as int
    }

    pub closed spec fn safe_left(&self) -> int {
        self.safe_squares_left as int
    }

    /// The arrays have the board's size, and the size fits what `ndarray` can hold.
    pub closed spec fn shaped(&self) -> bool {
        &&& has_shape(tile_rows(self.tiles), self.size.0, self.size.1)
        &&& has_shape(state_rows(self.tilestates), self.size.0, self.size.1)
        &&& self.size.0 <= isize::MAX
        &&& self.size.1 <= isize::MAX
        &&& self.size.0 * self.size.1 <= isize::MAX
    }

    pub open spec fn area(&self) -> int {
        self.height() * self.width()
    }

    pub open spec fn in_bounds(&self, p: Pos) -> bool {
        in_rect(p, self.height(), self.width())
    }

    pub open spec fn is_mine_at(&self, p: Pos) -> bool {
        self.tile_at(p) is Mine
    }

    /// Mines in the window around `p` (a mine at `p` itself included).
    pub open spec fn mines_around(&self, p: Pos) -> nat {
        count_cells(|q: Pos| adjacent(q, p) && self.is_mine_at(q), self.height(), self.width())
    }

    /// Every safe cell holds the number of mines around it.
    pub open spec fn numbers_correct(&self) -> bool {
        forall|p: Pos|
            self.in_bounds(p) && (#[trigger] self.tile_at(p)) is Safe ==> self.tile_at(p)->Safe_0
                == self.mines_around(p)
    }

    pub open spec fn mine_count(&self) -> nat {
        count_cells(|q: Pos| self.is_mine_at(q), self.height(), self.width())
    }

    pub open spec fn flagged_count(&self) -> nat {
        count_cells(|q: Pos| self.state_at(q) == TileState::Flagged, self.height(), self.width())
    }

    /// Safe cells that are not uncovered.
    pub open spec fn covered_safe_count(&self) -> nat {
        count_cells(
            |q: Pos| self.tile_at(q) is Safe && self.state_at(q) != TileState::Uncovered,
            self.height(),
            self.width(),
        )
    }

    /// Cells not uncovered.
    pub open spec fn covered_count(&self) -> nat {
        count_cells(|q: Pos| self.state_at(q) != TileState::Uncovered, self.height(), self.width())
    }

    /// The least room a 3x3 window can take on this board.
    pub open spec fn window_room(&self) -> int {
        3 * if self.height() < 3 {
            self.height() as int
        } else {
            3
        }
    }

    /// The mines fit outside any 3x3 window, so a safe start can always be made.
    pub open spec fn has_room(&self) -> bool {
        self.mine_count() == 0 || self.mine_count() + self.window_room() <= self.area()
    }

    /// The flag counter: mines minus flags.
    pub open spec fn flags_consistent(&self) -> bool {
        self.flags() == self.mine_count() - self.flagged_count()
    }

    /// The safe-square counter: safe cells not yet uncovered.
    pub open spec fn safe_left_consistent(&self) -> bool {
        self.safe_left() == self.covered_safe_count()
    }

    /// The numbers and both counters agree with the cells.
    pub open spec fn consistent(&self) -> bool {
        &&& self.shaped()
        &&& self.numbers_correct()
        &&& self.flags_consistent()
        &&& self.safe_left_consistent()
    }

    /// What holds of every board that play can reach.
    pub open spec fn well_formed(&self) -> bool {
        &&& self.consistent()
        &&& self.has_room()
    }

    /// No cell has been uncovered yet: the board is still before its first move.
    pub open spec fn nothing_uncovered(&self) -> bool {
        forall|p: Pos| self.in_bounds(p) ==> #[trigger] self.state_at(p) != TileState::Uncovered
    }

    /// `p` is where uncovering starts from the cells picked by `from`: a picked cell on the
    /// board that is hidden or question-marked.
    pub open spec fn is_start(&self, from: spec_fn(Pos) -> bool, p: Pos) -> bool {
        &&& self.in_bounds(p)
        &&& from(p)
        &&& (self.state_at(p) == TileState::Hidden || self.state_at(p) == TileState::QuestionMark)
    }

    /// A chain of cells along which uncovering spreads: it begins at a start, each next cell
    /// lies in the window of the one before, every cell but the last holds `Safe(0)`, and every
    /// cell after the first is hidden (a question mark stops the spread).
    pub open spec fn is_cascade_path(&self, from: spec_fn(Pos) -> bool, path: Seq<Pos>) -> bool {
        &&& path.len() > 0
        &&& self.is_start(from, path[0])
        &&& forall|i: int| 0 <= i < path.len() ==> self.in_bounds(#[trigger] path[i])
        &&& forall|i: int|
            0 <= i < path.len() - 1 ==> self.tile_at(#[trigger] path[i]) == Tile::Safe(0) && adjacent(
                path[i + 1],
                path[i],
            )
        &&& forall|i: int| 1 <= i < path.len() ==> self.state_at(#[trigger] path[i]) == TileState::Hidden
    }

    /// Uncovering from the cells picked by `from` reaches `p`.
    pub open spec fn cascade_reaches(&self, from: spec_fn(Pos) -> bool, p: Pos) -> bool {
        exists|path: Seq<Pos>| #[trigger] self.is_cascade_path(from, path) && path.last() == p
    }

    /// Flagged cells in the window around `p`.
    pub open spec fn flags_around(&self, p: Pos) -> nat {
        count_cells(
            |q: Pos| adjacent(q, p) && self.state_at(q) == TileState::Flagged,
            self.height(),
            self.width(),
        )
    }

    /// A chord on `p` goes ahead: `p` is safe and exactly as many flags as its number lie
    /// around it.
    pub open spec fn chord_fires(&self, p: Pos) -> bool {
        self.tile_at(p) is Safe && self.flags_around(p) == self.tile_at(p)->Safe_0
    }

    /// A left click on `pos` uncovers `p`.
    pub open spec fn click_uncovers(&self, pos: Pos, p: Pos) -> bool {
        match self.state_at(pos) {
            TileState::Hidden | TileState::QuestionMark => self.cascade_reaches(only(pos), p),
            TileState::Flagged => false,
            TileState::Uncovered => self.chord_fires(pos) && self.cascade_reaches(window_of(pos), p),
        }
    }

    /// `self` is `before` after a left click on `pos`: the tiles are kept, and exactly the cells
    /// that the click uncovers are uncovered.
    pub open spec fn click_played(&self, before: &Board, pos: Pos) -> bool {
        &&& self.same_tiles(before)
        &&& forall|p: Pos|
            before.in_bounds(p) ==> #[trigger] self.state_at(p) == if before.click_uncovers(pos, p) {
                TileState::Uncovered
            } else {
                before.state_at(p)
            }
    }

    /// Same size and same tiles.
    pub open spec fn same_tiles(&self, other: &Board) -> bool {
        &&& self.height() == other.height()
        &&& self.width() == other.width()
        &&& forall|p: Pos| self.in_bounds(p) ==> #[trigger] self.tile_at(p) == other.tile_at(p)
    }

    /// Same size and same states.
    pub open spec fn same_states(&self, other: &Board) -> bool {
        &&& self.height() == other.height()
        &&& self.width() == other.width()
        &&& forall|p: Pos| self.in_bounds(p) ==> #[trigger] self.state_at(p) == other.state_at(p)
    }
}

impl Board {
    /// The size of the board: (height, width).
    pub fn get_size(&self) -> (r: &Pos)
        ensures
            r.0 == self.height(),
            r.1 == self.width(),
    {
        &self.size
    }

    /// The mines and numbers of the board.
    pub fn get_tiles(&self) -> (r: &TileGrid)
        ensures
            forall|p: Pos| self.in_bounds(p) ==> #[trigger] tile_rows(*r)[p.0 as int][p.1 as int] == self.tile_at(p),
    {
        &self.tiles
    }

    /// The visibility of every cell.
    pub fn get_tilestates(&self) -> (r: &StateGrid)
        ensures
            forall|p: Pos| self.in_bounds(p) ==> #[trigger] state_rows(*r)[p.0 as int][p.1 as int] == self.state_at(p),
    {
        &self.tilestates
    }

    /// Mines minus flags.
    pub fn get_flags_left(&self) -> (r: isize)
        ensures
            r == self.flags(),
    {
        self.flags_left
    }

    /// Safe cells not yet uncovered; zero means the game is won.
    pub fn get_safe_squares_left(&self) -> (r: isize)
        ensures
            r == self.safe_left(),
    {
        self.safe_squares_left
    }

    /// The tile at `pos`.
    pub fn tile(&self, pos: Pos) -> (t: Tile)
        requires
            self.shaped(),
            self.in_bounds(pos),
        ensures
            t == self.tile_at(pos),
    {
        self.tiles.get(pos)
    }

    /// The state of the cell at `pos`.
    pub fn tile_state(&self, pos: Pos) -> (s: TileState)
        requires
            self.shaped(),
            self.in_bounds(pos),
        ensures
            s == self.state_at(pos),
    {
        self.tilestates.get(pos)
    }

    fn set_tile(&mut self, pos: Pos, t: Tile)
        requires
            old(self).shaped(),
            old(self).in_bounds(pos),
        ensures
            final(self).shaped(),
            final(self).same_states(old(self)),
            final(self).height() == old(self).height(),
            final(self).width() == old(self).width(),
            forall|p: Pos| old(self).in_bounds(p) ==> #[trigger] final(self).tile_at(p) == if p == pos { t } else { old(self).tile_at(p) },
            final(self).flags() == old(self).flags(),
            final(self).safe_left() == old(self).safe_left(),
    {
        self.tiles.set(pos, t);
    }

    fn set_state(&mut self, pos: Pos, s: TileState)
        requires
            old(self).shaped(),
            old(self).in_bounds(pos),
        ensures
            final(self).shaped(),
            final(self).same_tiles(old(self)),
            final(self).height() == old(self).height(),
            final(self).width() == old(self).width(),
            forall|p: Pos| old(self).in_bounds(p) ==> #[trigger] final(self).state_at(p) == if p == pos { s } else { old(self).state_at(p) },
            final(self).flags() == old(self).flags(),
            final(self).safe_left() == old(self).safe_left(),
    {
        self.tilestates.set(pos, s);
    }

    fn y_neighbor_range(&self, y: usize) -> (r: (usize, usize))
        requires
            self.shaped(),
            y < self.height(),
        ensures
            r.0 == window_lo(y),
            r.1 == window_hi(y, self.height()),
    {
        let lo = if y == 0 { 0 } else { y - 1 };
        let hi = if y + 2 <= self.size.0 { y + 2 } else { self.size.0 };
        (lo, hi)
    }

    fn x_neighbor_range(&self, x: usize) -> (r: (usize, usize))
        requires
            self.shaped(),
            x < self.width(),
        ensures
            r.0 == window_lo(x),
            r.1 == window_hi(x, self.width()),
    {
        let lo = if x == 0 { 0 } else { x - 1 };
        let hi = if x + 2 <= self.size.1 { x + 2 } else { self.size.1 };
        (lo, hi)
    }

    /// Puts a mine at `pos` if it holds none, and raises the number of every safe cell around
    /// it. Returns whether a mine was put.
    pub fn place_mine_at(&mut self, pos: Pos) -> (placed: bool)
        requires
            old(self).consistent(),
            old(self).nothing_uncovered(),
            old(self).in_bounds(pos),
        ensures
            placed == (old(self).tile_at(pos) is Safe),
            final(self).consistent(),
            final(self).same_states(old(self)),
            forall|q: Pos|
                final(self).in_bounds(q) ==> (#[trigger] final(self).is_mine_at(q) <==> old(self).is_mine_at(q)
                    || q == pos),
            !placed ==> *final(self) == *old(self),
            final(self).mine_count() == old(self).mine_count() + if placed { 1int } else { 0int },
    {
        if let Tile::Mine = self.tile(pos) {
            return false;
        }
        let ghost start = *self;
        proof {
            assert forall|q: Pos| start.in_bounds(q) && (#[trigger] start.tile_at(q)) is Safe implies
                start.tile_at(q)->Safe_0 <= 9 by {
                lemma_mines_around_bound(&start, q);
            }
            lemma_count_le_area(|q: Pos| start.is_mine_at(q), start.height(), start.width());
        }
        self.set_tile(pos, Tile::Mine);
        let ghost mid = *self;
        let (ylo, yhi) = self.y_neighbor_range(pos.0);
        let (xlo, xhi) = self.x_neighbor_range(pos.1);
        let mut y = ylo;
        while y < yhi
            invariant
                ylo <= y <= yhi,
                ylo == window_lo(pos.0),
                yhi == window_hi(pos.0, mid.height()),
                xlo == window_lo(pos.1),
                xhi == window_hi(pos.1, mid.width()),
                mid.in_bounds(pos),
                mid.shaped(),
                self.shaped(),
                self.same_states(&mid),
                self.height() == mid.height(),
                self.width() == mid.width(),
                self.flags() == mid.flags(),
                self.safe_left() == mid.safe_left(),
                forall|q: Pos| mid.in_bounds(q) && (#[trigger] mid.tile_at(q)) is Safe ==> mid.tile_at(q)->Safe_0 <= 9,
                forall|q: Pos|
                    mid.in_bounds(q) ==> #[trigger] self.tile_at(q) == if adjacent(q, pos) && q.0 < y {
                        bumped(mid.tile_at(q))
                    } else {
                        mid.tile_at(q)
                    },
            decreases yhi - y,
        {
            let mut x = xlo;
            while x < xhi
                invariant
                    ylo <= y < yhi,
                    xlo <= x <= xhi,
                    ylo == window_lo(pos.0),
                    yhi == window_hi(pos.0, mid.height()),
                    xlo == window_lo(pos.1),
                    xhi == window_hi(pos.1, mid.width()),
                    mid.in_bounds(pos),
                    mid.shaped(),
                    self.shaped(),
                    self.same_states(&mid),
                    self.height() == mid.height(),
                    self.width() == mid.width(),
                    self.flags() == mid.flags(),
                    self.safe_left() == mid.safe_left(),
                    forall|q: Pos| mid.in_bounds(q) && (#[trigger] mid.tile_at(q)) is Safe ==> mid.tile_at(q)->Safe_0 <= 9,
                    forall|q: Pos|
                        mid.in_bounds(q) ==> #[trigger] self.tile_at(q) == if adjacent(q, pos) && (q.0 < y || (q.0
                            == y && q.1 < x)) {
                            bumped(mid.tile_at(q))
                        } else {
                            mid.tile_at(q)
                        },
                decreases xhi - x,
            {
                if let Tile::Safe(n) = self.tile((y, x)) {
                    self.set_tile((y, x), Tile::Safe(n + 1));
                } else {
                    self.set_tile((y, x), Tile::Mine);
                }
                x += 1;
            }
            y += 1;
        }
        proof {
            assert forall|r: Pos| start.in_bounds(r) && r != pos implies (#[trigger] self.is_mine_at(r))
                == start.is_mine_at(r) by {}
            lemma_mine_flip(&start, self, pos);
            lemma_count_le_area(|q: Pos| self.is_mine_at(q), self.height(), self.width());
        }
        let ghost pre = *self;
        self.flags_left = self.flags_left + 1;
        self.safe_squares_left = self.safe_squares_left - 1;
        proof {
            assert forall|r: Pos| #[trigger] self.tile_at(r) == pre.tile_at(r) && self.state_at(r)
                == pre.state_at(r) by {}
            assert forall|r: Pos| start.in_bounds(r) && r != pos implies (#[trigger] self.is_mine_at(r))
                == start.is_mine_at(r) by {}
            lemma_mine_flip(&start, self, pos);
            assert forall|q: Pos| self.in_bounds(q) && (#[trigger] self.tile_at(q)) is Safe implies
                self.tile_at(q)->Safe_0 == self.mines_around(q) by {
                assert(adjacent(pos, q) == adjacent(q, pos));
            }
            let fs = |q: Pos| start.state_at(q) == TileState::Flagged;
            let gs = |q: Pos| self.state_at(q) == TileState::Flagged;
            assert forall|q: Pos| #[trigger] in_rect(q, start.height(), start.width()) implies fs(q) == gs(q) by {
                assert(start.in_bounds(q));
                assert(pre.state_at(q) == mid.state_at(q));
            }
            lemma_count_ext(fs, gs, start.height(), start.width());
            let fc = |q: Pos| start.tile_at(q) is Safe && start.state_at(q) != TileState::Uncovered;
            let gc = |q: Pos| self.tile_at(q) is Safe && self.state_at(q) != TileState::Uncovered;
            assert forall|q: Pos| #[trigger] in_rect(q, start.height(), start.width()) && q != pos implies fc(q) == gc(q) by {
                assert(start.in_bounds(q));
                assert(pre.state_at(q) == mid.state_at(q));
            }
            lemma_count_update(fc, gc, start.height(), start.width(), pos);
        }
        true
    }

    /// Takes the mine off `pos`, if there is one: the cell gets the number of mines around it,
    /// and every safe cell around it loses one. Returns whether a mine was taken.
    fn remove_mine(&mut self, pos: Pos) -> (removed: bool)
        requires
            old(self).consistent(),
            old(self).nothing_uncovered(),
            old(self).in_bounds(pos),
        ensures
            removed == old(self).is_mine_at(pos),
            final(self).consistent(),
            final(self).same_states(old(self)),
            forall|q: Pos|
                final(self).in_bounds(q) ==> (#[trigger] final(self).is_mine_at(q) <==> old(self).is_mine_at(q)
                    && q != pos),
            !removed ==> *final(self) == *old(self),
            final(self).mine_count() == old(self).mine_count() - if removed { 1int } else { 0int },
    {
        if let Tile::Safe(_) = self.tile(pos) {
            return false;
        }
        let ghost start = *self;
        proof {
            assert forall|q: Pos| start.in_bounds(q) && (#[trigger] start.tile_at(q)) is Safe && adjacent(q, pos)
                implies start.tile_at(q)->Safe_0 >= 1 by {
                lemma_count_zero_iff_none(|r: Pos| adjacent(r, q) && start.is_mine_at(r), start.height(), start.width());
                assert(in_rect(pos, start.height(), start.width()));
            }
            lemma_count_le_area(|q: Pos| start.is_mine_at(q), start.height(), start.width());
            lemma_count_mono(
                |q: Pos| start.tile_at(q) is Safe && start.state_at(q) != TileState::Uncovered,
                |q: Pos| !start.is_mine_at(q),
                start.height(),
                start.width(),
            );
            lemma_count_complement(|q: Pos| start.is_mine_at(q), |q: Pos| !start.is_mine_at(q), start.height(), start.width());
            lemma_count_zero_iff_none(|q: Pos| start.is_mine_at(q), start.height(), start.width());
            assert(in_rect(pos, start.height(), start.width()));
        }
        self.set_tile(pos, Tile::Safe(0));
        let ghost mid = *self;
        let (ylo, yhi) = self.y_neighbor_range(pos.0);
        let (xlo, xhi) = self.x_neighbor_range(pos.1);
        let mut mines: u8 = 0;
        let mut y = ylo;
        proof {
            lemma_count_zero_iff_none(|q: Pos| window_before(q, pos, y, xlo) && mid.is_mine_at(q), mid.height(), mid.width());
            lemma_count_le_area(|q: Pos| start.state_at(q) == TileState::Flagged, start.height(), start.width());
        }
        while y < yhi
            invariant
                ylo <= y <= yhi,
                ylo == window_lo(pos.0),
                yhi == window_hi(pos.0, mid.height()),
                xlo == window_lo(pos.1),
                xhi == window_hi(pos.1, mid.width()),
                mid.in_bounds(pos),
                mid.shaped(),
                self.shaped(),
                self.same_states(&mid),
                self.height() == mid.height(),
                self.width() == mid.width(),
                self.flags() == mid.flags(),
                self.safe_left() == mid.safe_left(),
                forall|q: Pos|
                    mid.in_bounds(q) && (#[trigger] mid.tile_at(q)) is Safe && adjacent(q, pos) && q != pos
                        ==> mid.tile_at(q)->Safe_0 >= 1,
                forall|q: Pos|
                    mid.in_bounds(q) ==> #[trigger] self.tile_at(q) == if window_before(q, pos, y, xlo) {
                        dimmed(mid.tile_at(q))
                    } else {
                        mid.tile_at(q)
                    },
                mines == count_cells(|q: Pos| window_before(q, pos, y, xlo) && mid.is_mine_at(q), mid.height(), mid.width()),
            decreases yhi - y,
        {
            let mut x = xlo;
            proof {
                lemma_window_bound(pos, mid.height(), mid.width());
            }
            while x < xhi
                invariant
                    ylo <= y < yhi,
                    xlo <= x <= xhi,
                    ylo == window_lo(pos.0),
                    yhi == window_hi(pos.0, mid.height()),
                    xlo == window_lo(pos.1),
                    xhi == window_hi(pos.1, mid.width()),
                    mid.in_bounds(pos),
                    mid.shaped(),
                    self.shaped(),
                    self.same_states(&mid),
                    self.height() == mid.height(),
                    self.width() == mid.width(),
                    self.flags() == mid.flags(),
                    self.safe_left() == mid.safe_left(),
                    forall|q: Pos|
                        mid.in_bounds(q) && (#[trigger] mid.tile_at(q)) is Safe && adjacent(q, pos) && q != pos
                            ==> mid.tile_at(q)->Safe_0 >= 1,
                    forall|q: Pos|
                        mid.in_bounds(q) ==> #[trigger] self.tile_at(q) == if window_before(q, pos, y, x) {
                            dimmed(mid.tile_at(q))
                        } else {
                            mid.tile_at(q)
                        },
                    mines == count_cells(|q: Pos| window_before(q, pos, y, x) && mid.is_mine_at(q), mid.height(), mid.width()),
                    count_cells(|q: Pos| adjacent(q, pos), mid.height(), mid.width()) <= 9,
                decreases xhi - x,
            {
                let ghost f = |q: Pos| window_before(q, pos, y, x) && mid.is_mine_at(q);
                let ghost g = |q: Pos| window_before(q, pos, y, (x + 1) as usize) && mid.is_mine_at(q);
                proof {
                    assert forall|q: Pos| #[trigger] in_rect(q, mid.height(), mid.width()) && q != (y, x) implies f(q) == g(q) by {}
                    lemma_count_update(f, g, mid.height(), mid.width(), (y, x));
                    lemma_count_mono(g, |q: Pos| adjacent(q, pos), mid.height(), mid.width());
                }
                if y != pos.0 || x != pos.1 {
                    match self.tile((y, x)) {
                        Tile::Safe(n) => {
                            self.set_tile((y, x), Tile::Safe(n - 1));
                        },
                        Tile::Mine => {
                            mines = mines + 1;
                            self.set_tile((y, x), Tile::Mine);
                        },
                    }
                }
                x += 1;
            }
            proof {
                let f = |q: Pos| window_before(q, pos, y, xhi) && mid.is_mine_at(q);
                let g = |q: Pos| window_before(q, pos, (y + 1) as usize, xlo) && mid.is_mine_at(q);
                assert forall|q: Pos| #[trigger] in_rect(q, mid.height(), mid.width()) implies f(q) == g(q) by {}
                lemma_count_ext(f, g, mid.height(), mid.width());
                assert forall|q: Pos| mid.in_bounds(q) implies window_before(q, pos, y, xhi) == window_before(q, pos, (y + 1) as usize, xlo) by {}
            }
            y += 1;
        }
        self.set_tile(pos, Tile::Safe(mines));
        let ghost pre = *self;
        self.flags_left = self.flags_left - 1;
        self.safe_squares_left = self.safe_squares_left + 1;
        proof {
            assert forall|r: Pos| #[trigger] self.tile_at(r) == pre.tile_at(r) && self.state_at(r)
                == pre.state_at(r) by {}
            assert forall|r: Pos| start.in_bounds(r) && r != pos implies (#[trigger] self.is_mine_at(r))
                == start.is_mine_at(r) by {
                assert(pre.tile_at(r) == mid.tile_at(r) || pre.tile_at(r) == dimmed(mid.tile_at(r)));
            }
            lemma_mine_flip(&start, self, pos);
            let f = |q: Pos| window_before(q, pos, yhi, xlo) && mid.is_mine_at(q);
            let g = |q: Pos| adjacent(q, pos) && self.is_mine_at(q);
            assert forall|q: Pos| #[trigger] in_rect(q, mid.height(), mid.width()) implies f(q) == g(q) by {
                assert(mid.in_bounds(q));
                assert(pre.tile_at(q) == mid.tile_at(q) || pre.tile_at(q) == dimmed(mid.tile_at(q)) || q == pos);
            }
            lemma_count_ext(f, g, mid.height(), mid.width());
            assert forall|q: Pos| self.in_bounds(q) && (#[trigger] self.tile_at(q)) is Safe implies
                self.tile_at(q)->Safe_0 == self.mines_around(q) by {
                assert(adjacent(pos, q) == adjacent(q, pos));
            }
            let fs = |q: Pos| start.state_at(q) == TileState::Flagged;
            let gs = |q: Pos| self.state_at(q) == TileState::Flagged;
            assert forall|q: Pos| #[trigger] in_rect(q, start.height(), start.width()) implies fs(q) == gs(q) by {
                assert(start.in_bounds(q));
                assert(pre.state_at(q) == mid.state_at(q));
            }
            lemma_count_ext(fs, gs, start.height(), start.width());
            let fc = |q: Pos| start.tile_at(q) is Safe && start.state_at(q) != TileState::Uncovered;
            let gc = |q: Pos| self.tile_at(q) is Safe && self.state_at(q) != TileState::Uncovered;
            assert forall|q: Pos| #[trigger] in_rect(q, start.height(), start.width()) && q != pos implies fc(q) == gc(q) by {
                assert(start.in_bounds(q));
                assert(pre.state_at(q) == mid.state_at(q));
                assert(pre.tile_at(q) == mid.tile_at(q) || pre.tile_at(q) == dimmed(mid.tile_at(q)));
            }
            lemma_count_update(fc, gc, start.height(), start.width(), pos);
        }
        true
    }

    /// Puts a mine on a safe cell drawn at random. The draws are bounded so that placement
    /// always ends; if every draw hits a mine, the first safe cell in row-major order takes it.
    fn place_mine(&mut self)
        requires
            old(self).consistent(),
            old(self).nothing_uncovered(),
            old(self).mine_count() < old(self).area(),
        ensures
            final(self).consistent(),
            final(self).same_states(old(self)),
            final(self).mine_count() == old(self).mine_count() + 1,
            exists|p: Pos|
                old(self).in_bounds(p) && !old(self).is_mine_at(p) && forall|q: Pos|
                    old(self).in_bounds(q) ==> (#[trigger] final(self).is_mine_at(q) <==> old(self).is_mine_at(q)
                        || q == p),
    {
        let (h, w) = self.size;
        proof {
            assert(h > 0 && w > 0) by (nonlinear_arith)
                requires
                    h * w > 0,
            ;
        }
        let mut draws: u32 = 0;
        while draws < PLACEMENT_DRAWS
            invariant
                *self == *old(self),
                old(self).consistent(),
                old(self).nothing_uncovered(),
                h == old(self).height(),
                w == old(self).width(),
                h > 0,
                w > 0,
            decreases PLACEMENT_DRAWS - draws,
        {
            let y = random_below(h);
            let x = random_below(w);
            if self.place_mine_at((y, x)) {
                assert(old(self).in_bounds((y, x)) && !old(self).is_mine_at((y, x)));
                return;
            }
            draws += 1;
        }
        let mut y: usize = 0;
        while y < h
            invariant
                *self == *old(self),
                old(self).consistent(),
                old(self).nothing_uncovered(),
                h == old(self).height(),
                w == old(self).width(),
                y <= h,
                forall|q: Pos| old(self).in_bounds(q) && q.0 < y ==> #[trigger] old(self).is_mine_at(q),
            decreases h - y,
        {
            let mut x: usize = 0;
            while x < w
                invariant
                    *self == *old(self),
                    old(self).consistent(),
                    old(self).nothing_uncovered(),
                    h == old(self).height(),
                    w == old(self).width(),
                    y < h,
                    x <= w,
                    forall|q: Pos|
                        old(self).in_bounds(q) && (q.0 < y || (q.0 == y && q.1 < x)) ==> #[trigger] old(
                            self,
                        ).is_mine_at(q),
                decreases w - x,
            {
                if self.place_mine_at((y, x)) {
                    assert(old(self).in_bounds((y, x)) && !old(self).is_mine_at((y, x)));
                    return;
                }
                x += 1;
            }
            y += 1;
        }
        proof {
            let b = *old(self);
            lemma_count_complement(|q: Pos| b.is_mine_at(q), |q: Pos| !b.is_mine_at(q), b.height(), b.width());
            lemma_count_zero_iff_none(|q: Pos| !b.is_mine_at(q), b.height(), b.width());
            assert forall|p: Pos| #[trigger] in_rect(p, b.height(), b.width()) implies !!b.is_mine_at(p) by {
                assert(b.in_bounds(p));
            }
        }
    }

    /// Takes the mine off `pos`, if there is one, and puts it back on a cell drawn at random
    /// (maybe `pos` again).
    pub fn relocate_mine(&mut self, pos: Pos)
        requires
            old(self).well_formed(),
            old(self).nothing_uncovered(),
            old(self).in_bounds(pos),
        ensures
            final(self).well_formed(),
            final(self).nothing_uncovered(),
            final(self).same_states(old(self)),
            final(self).mine_count() == old(self).mine_count(),
            !old(self).is_mine_at(pos) ==> *final(self) == *old(self),
            old(self).is_mine_at(pos) ==> exists|p: Pos|
                old(self).in_bounds(p) && (p == pos || !old(self).is_mine_at(p)) && forall|q: Pos|
                    old(self).in_bounds(q) ==> (#[trigger] final(self).is_mine_at(q) <==> (old(
                        self,
                    ).is_mine_at(q) && q != pos) || q == p),
    {
        let ghost before = *self;
        if self.remove_mine(pos) {
            let ghost mid = *self;
            proof {
                lemma_count_le_area(|q: Pos| before.is_mine_at(q), before.height(), before.width());
            }
            self.place_mine();
            proof {
                let p = choose|p: Pos|
                    mid.in_bounds(p) && !mid.is_mine_at(p) && forall|q: Pos|
                        mid.in_bounds(q) ==> (#[trigger] self.is_mine_at(q) <==> mid.is_mine_at(q) || q == p);
                assert forall|q: Pos|
                    before.in_bounds(q) implies (#[trigger] self.is_mine_at(q) <==> (before.is_mine_at(q) && q
                        != pos) || q == p) by {
                    assert(mid.is_mine_at(q) <==> before.is_mine_at(q) && q != pos);
                }
                assert(mid.is_mine_at(p) <==> before.is_mine_at(p) && p != pos);
            }
        }
    }

    /// Moves the mine at `q`, if any, to the first safe cell in row-major order that lies
    /// outside the window around `start`.
    fn move_mine_clear_of(&mut self, q: Pos, start: Pos)
        requires
            old(self).well_formed(),
            old(self).nothing_uncovered(),
            old(self).in_bounds(q),
            old(self).in_bounds(start),
            adjacent(q, start),
        ensures
            final(self).well_formed(),
            final(self).nothing_uncovered(),
            final(self).same_states(old(self)),
            final(self).mine_count() == old(self).mine_count(),
            !final(self).is_mine_at(q),
            forall|r: Pos|
                old(self).in_bounds(r) && adjacent(r, start) && !old(self).is_mine_at(r) ==> !(
                #[trigger] final(self).is_mine_at(r)),
            forall|r: Pos|
                old(self).in_bounds(r) && r != q && old(self).is_mine_at(r) ==> #[trigger] final(self).is_mine_at(r),
    {
        let ghost before = *self;
        if !self.remove_mine(q) {
            return;
        }
        let ghost mid = *self;
        let (h, w) = self.size;
        let mut y: usize = 0;
        while y < h
            invariant
                *self == mid,
                mid.height() == before.height(),
                mid.same_states(&before),
                mid.mine_count() + 1 == before.mine_count(),
                before.well_formed(),
                before == *old(self),
                adjacent(q, start),
                mid.width() == before.width(),
                forall|r: Pos| before.in_bounds(r) ==> (#[trigger] mid.is_mine_at(r) <==> before.is_mine_at(r) && r != q),
                mid.consistent(),
                mid.nothing_uncovered(),
                h == mid.height(),
                w == mid.width(),
                y <= h,
                start.0 < h,
                start.1 < w,
                q.0 < h,
                q.1 < w,
                forall|r: Pos| mid.in_bounds(r) && r.0 < y ==> adjacent(r, start) || #[trigger] mid.is_mine_at(r),
            decreases h - y,
        {
            let mut x: usize = 0;
            while x < w
                invariant
                    *self == mid,
                    mid.height() == before.height(),
                    mid.same_states(&before),
                    mid.mine_count() + 1 == before.mine_count(),
                    before.well_formed(),
                    before == *old(self),
                    adjacent(q, start),
                    mid.width() == before.width(),
                    forall|r: Pos| before.in_bounds(r) ==> (#[trigger] mid.is_mine_at(r) <==> before.is_mine_at(r) && r != q),
                    mid.consistent(),
                    mid.nothing_uncovered(),
                    h == mid.height(),
                    w == mid.width(),
                    y < h,
                    x <= w,
                    start.0 < h,
                    start.1 < w,
                    q.0 < h,
                    q.1 < w,
                    forall|r: Pos|
                        mid.in_bounds(r) && (r.0 < y || (r.0 == y && r.1 < x)) ==> adjacent(r, start)
                            || #[trigger] mid.is_mine_at(r),
                decreases w - x,
            {
                let outside = y + 1 < start.0 || y > start.0 + 1 || x + 1 < start.1 || x > start.1 + 1;
                if outside && self.place_mine_at((y, x)) {
                    proof {
                        assert forall|r: Pos|
                            before.in_bounds(r) && adjacent(r, start) && !before.is_mine_at(r) implies !(
                            #[trigger] self.is_mine_at(r)) by {
                            assert(mid.is_mine_at(r) <==> before.is_mine_at(r) && r != q);
                        }
                        assert(mid.is_mine_at(q) <==> before.is_mine_at(q) && q != q);
                        assert(self.is_mine_at(q) <==> mid.is_mine_at(q) || q == (y, x));
                        assert forall|r: Pos| before.in_bounds(r) && r != q && before.is_mine_at(r) implies
                            #[trigger] self.is_mine_at(r) by {
                            assert(mid.is_mine_at(r) <==> before.is_mine_at(r) && r != q);
                        }
                        assert forall|r: Pos| before.in_bounds(r) implies #[trigger] self.state_at(r) == before.state_at(r) by {
                            assert(mid.state_at(r) == before.state_at(r));
                        }
                    }
                    return;
                }
                x += 1;
            }
            y += 1;
        }
        proof {
            let adj = |r: Pos| adjacent(r, start);
            let away = |r: Pos| !adjacent(r, start);
            assert forall|r: Pos| #[trigger] in_rect(r, h, w) && away(r) implies mid.is_mine_at(r) by {
                assert(mid.in_bounds(r));
            }
            lemma_count_mono(away, |r: Pos| mid.is_mine_at(r), h, w);
            lemma_count_complement(adj, away, h, w);
            lemma_window_bound(start, h, w);
        }
    }

    /// Makes `start` a safe cell with no mine around it, moving the mines of its window
    /// elsewhere: first by relocating them at random, round after round; if that has not
    /// succeeded after a bounded number of rounds, by moving each of them to the first free
    /// cell outside the window.
    pub fn ensure_safe_start(&mut self, start: Pos)
        requires
            old(self).well_formed(),
            old(self).nothing_uncovered(),
            old(self).in_bounds(start),
        ensures
            final(self).well_formed(),
            final(self).nothing_uncovered(),
            final(self).same_states(old(self)),
            final(self).mine_count() == old(self).mine_count(),
            final(self).tile_at(start) == Tile::Safe(0),
            old(self).tile_at(start) == Tile::Safe(0) ==> *final(self) == *old(self),
            forall|r: Pos|
                old(self).in_bounds(r) && !adjacent(r, start) && old(self).is_mine_at(r)
                    ==> #[trigger] final(self).is_mine_at(r),
    {
        let mut rounds: u32 = 0;
        while rounds < SAFE_START_ROUNDS
            invariant
                self.well_formed(),
                self.nothing_uncovered(),
                self.same_states(old(self)),
                self.mine_count() == old(self).mine_count(),
                self.in_bounds(start),
                forall|r: Pos| old(self).in_bounds(r) && !adjacent(r, start) && old(self).is_mine_at(r) ==> #[trigger] self.is_mine_at(r),
                self.height() == old(self).height(),
                self.width() == old(self).width(),
                old(self).tile_at(start) == Tile::Safe(0) ==> *self == *old(self),
            decreases SAFE_START_ROUNDS - rounds,
        {
            if self.tile(start) == Tile::Safe(0) {
                return;
            }
            assert(old(self).tile_at(start) != Tile::Safe(0));
            let (ylo, yhi) = self.y_neighbor_range(start.0);
            let (xlo, xhi) = self.x_neighbor_range(start.1);
            let mut y = ylo;
            while y < yhi
                invariant
                    self.well_formed(),
                    self.nothing_uncovered(),
                    self.same_states(old(self)),
                    self.mine_count() == old(self).mine_count(),
                    self.in_bounds(start),
                    forall|r: Pos| old(self).in_bounds(r) && !adjacent(r, start) && old(self).is_mine_at(r) ==> #[trigger] self.is_mine_at(r),
                    self.height() == old(self).height(),
                    self.width() == old(self).width(),
                    ylo <= y <= yhi,
                    ylo == window_lo(start.0),
                    yhi == window_hi(start.0, self.height()),
                    xlo == window_lo(start.1),
                    xhi == window_hi(start.1, self.width()),
                    old(self).tile_at(start) != Tile::Safe(0),
                decreases yhi - y,
            {
                let mut x = xlo;
                while x < xhi
                    invariant
                        self.well_formed(),
                        self.nothing_uncovered(),
                        self.same_states(old(self)),
                        self.mine_count() == old(self).mine_count(),
                        self.in_bounds(start),
                        forall|r: Pos| old(self).in_bounds(r) && !adjacent(r, start) && old(self).is_mine_at(r) ==> #[trigger] self.is_mine_at(r),
                        self.height() == old(self).height(),
                        self.width() == old(self).width(),
                        ylo <= y < yhi,
                        xlo <= x <= xhi,
                        ylo == window_lo(start.0),
                        yhi == window_hi(start.0, self.height()),
                        xlo == window_lo(start.1),
                        xhi == window_hi(start.1, self.width()),
                        old(self).tile_at(start) != Tile::Safe(0),
                    decreases xhi - x,
                {
                    self.relocate_mine((y, x));
                    x += 1;
                }
                y += 1;
            }
            rounds += 1;
        }
        if self.tile(start) == Tile::Safe(0) {
            return;
        }
        let (ylo, yhi) = self.y_neighbor_range(start.0);
        let (xlo, xhi) = self.x_neighbor_range(start.1);
        let mut y = ylo;
        while y < yhi
            invariant
                self.well_formed(),
                self.nothing_uncovered(),
                self.same_states(old(self)),
                self.mine_count() == old(self).mine_count(),
                self.in_bounds(start),
                forall|r: Pos| old(self).in_bounds(r) && !adjacent(r, start) && old(self).is_mine_at(r) ==> #[trigger] self.is_mine_at(r),
                self.height() == old(self).height(),
                self.width() == old(self).width(),
                ylo <= y <= yhi,
                ylo == window_lo(start.0),
                yhi == window_hi(start.0, self.height()),
                xlo == window_lo(start.1),
                xhi == window_hi(start.1, self.width()),
                forall|r: Pos| self.in_bounds(r) && adjacent(r, start) && r.0 < y ==> !#[trigger] self.is_mine_at(r),
            decreases yhi - y,
        {
            let mut x = xlo;
            while x < xhi
                invariant
                    self.well_formed(),
                    self.nothing_uncovered(),
                    self.same_states(old(self)),
                    self.mine_count() == old(self).mine_count(),
                    self.in_bounds(start),
                    forall|r: Pos| old(self).in_bounds(r) && !adjacent(r, start) && old(self).is_mine_at(r) ==> #[trigger] self.is_mine_at(r),
                    self.height() == old(self).height(),
                    self.width() == old(self).width(),
                    ylo <= y < yhi,
                    xlo <= x <= xhi,
                    ylo == window_lo(start.0),
                    yhi == window_hi(start.0, self.height()),
                    xlo == window_lo(start.1),
                    xhi == window_hi(start.1, self.width()),
                    forall|r: Pos|
                        self.in_bounds(r) && adjacent(r, start) && (r.0 < y || (r.0 == y && r.1 < x)) ==> !#[trigger] self.is_mine_at(r),
                decreases xhi - x,
            {
                self.move_mine_clear_of((y, x), start);
                x += 1;
            }
            y += 1;
        }
        proof {
            let b = *self;
            lemma_count_zero_iff_none(|r: Pos| adjacent(r, start) && b.is_mine_at(r), b.height(), b.width());
            assert forall|r: Pos| #[trigger] in_rect(r, b.height(), b.width()) implies !(adjacent(r, start) && b.is_mine_at(r)) by {
                assert(b.in_bounds(r));
            }
            assert(adjacent(start, start));
        }
    }

    /// A board of the given size with `mines` mines placed at random, every cell hidden.
    /// The size must be between 1x7 and 50x50 (height x width), and the mines must take more
    /// than none and at most half of the cells; otherwise the error says which rule failed.
    pub fn make_random(size: (usize, usize), mines: usize) -> (r: Result<Board, &'static str>)
        ensures
            r is Err <==> config_error(size, mines) is Some,
            r matches Err(e) ==> config_error(size, mines) == Some(e@),
            r matches Ok(b) ==> {
                &&& b.well_formed()
                &&& b.height() == size.0
                &&& b.width() == size.1
                &&& b.mine_count() == mines
                &&& forall|p: Pos| b.in_bounds(p) ==> #[trigger] b.state_at(p) == TileState::Hidden
                &&& b.flags() == mines
                &&& b.safe_left() == size.0 * size.1 - mines
            },
    {
        if size.0 < 1 || size.1 < 7 {
            return Err("Board size must be at least 7x1");
        }
        if 50 < size.0 || 50 < size.1 {
            return Err("Board size may not be greater than 50x50");
        }
        proof {
            assert(size.0 * size.1 <= 2500) by (nonlinear_arith)
                requires
                    size.0 <= 50,
                    size.1 <= 50,
            ;
        }
        if mines == 0 || size.0 * size.1 / 2 < mines {
            return Err("Mine density must be greater than 0% and no more than 50%");
        }
        let mut board = Board::make_empty(size);
        let mut placed: usize = 0;
        while placed < mines
            invariant
                board.well_formed(),
                board.nothing_uncovered(),
                board.height() == size.0,
                board.width() == size.1,
                1 <= size.0 <= 50,
                7 <= size.1 <= 50,
                0 < mines <= (size.0 * size.1) / 2,
                placed <= mines,
                board.mine_count() == placed,
                forall|p: Pos| board.in_bounds(p) ==> #[trigger] board.state_at(p) == TileState::Hidden,
            decreases mines - placed,
        {
            let ghost before = board;
            board.place_mine();
            proof {
                lemma_half_density_leaves_room(size.0 as int, size.1 as int, placed + 1);
                assert forall|p: Pos| board.in_bounds(p) implies #[trigger] board.state_at(p) == TileState::Hidden by {
                    assert(before.state_at(p) == TileState::Hidden);
                }
            }
            placed += 1;
        }
        proof {
            lemma_count_zero_iff_none(|q: Pos| board.state_at(q) == TileState::Flagged, size.0, size.1);
            let cs = |q: Pos| board.tile_at(q) is Safe && board.state_at(q) != TileState::Uncovered;
            let safe = |q: Pos| !board.is_mine_at(q);
            assert forall|q: Pos| #[trigger] in_rect(q, size.0, size.1) implies cs(q) == safe(q) by {
                assert(board.in_bounds(q));
            }
            lemma_count_ext(cs, safe, size.0, size.1);
            lemma_count_complement(|q: Pos| board.is_mine_at(q), safe, size.0, size.1);
        }
        Ok(board)
    }

    /// Uncovers the hidden or question-marked cell `pos`; the safe-square counter follows.
    fn uncover(&mut self, pos: Pos)
        requires
            old(self).consistent(),
            old(self).in_bounds(pos),
            old(self).state_at(pos) == TileState::Hidden || old(self).state_at(pos) == TileState::QuestionMark,
        ensures
            final(self).consistent(),
            final(self).same_tiles(old(self)),
            forall|p: Pos|
                old(self).in_bounds(p) ==> #[trigger] final(self).state_at(p) == if p == pos {
                    TileState::Uncovered
                } else {
                    old(self).state_at(p)
                },
            final(self).covered_count() + 1 == old(self).covered_count(),
    {
        let ghost start = *self;
        let safe = if let Tile::Safe(_) = self.tile(pos) { true } else { false };
        proof {
            lemma_count_le_area(
                |q: Pos| start.tile_at(q) is Safe && start.state_at(q) != TileState::Uncovered,
                start.height(),
                start.width(),
            );
        }
        if safe {
            self.safe_squares_left = self.safe_squares_left - 1;
        }
        let ghost mid = *self;
        proof {
            assert forall|r: Pos| #[trigger] mid.tile_at(r) == start.tile_at(r) && mid.state_at(r)
                == start.state_at(r) by {}
        }
        self.set_state(pos, TileState::Uncovered);
        proof {
            let (h, w) = (start.height(), start.width());
            assert forall|q: Pos| #[trigger] in_rect(q, h, w) implies self.tile_at(q) == start.tile_at(q) by {
                assert(start.in_bounds(q));
                assert(mid.tile_at(q) == start.tile_at(q));
            }
            lemma_same_tiles(&start, self);
            let fs = |q: Pos| start.state_at(q) == TileState::Flagged;
            let gs = |q: Pos| self.state_at(q) == TileState::Flagged;
            assert forall|q: Pos| #[trigger] in_rect(q, h, w) && q != pos implies fs(q) == gs(q) by {
                assert(start.in_bounds(q));
                assert(mid.state_at(q) == start.state_at(q));
            }
            lemma_count_update(fs, gs, h, w, pos);
            let fc = |q: Pos| start.tile_at(q) is Safe && start.state_at(q) != TileState::Uncovered;
            let gc = |q: Pos| self.tile_at(q) is Safe && self.state_at(q) != TileState::Uncovered;
            assert forall|q: Pos| #[trigger] in_rect(q, h, w) && q != pos implies fc(q) == gc(q) by {
                assert(start.in_bounds(q));
                assert(mid.state_at(q) == start.state_at(q));
                assert(mid.tile_at(q) == start.tile_at(q));
            }
            lemma_count_update(fc, gc, h, w, pos);
            let fu = |q: Pos| start.state_at(q) != TileState::Uncovered;
            let gu = |q: Pos| self.state_at(q) != TileState::Uncovered;
            assert forall|q: Pos| #[trigger] in_rect(q, h, w) && q != pos implies fu(q) == gu(q) by {
                assert(start.in_bounds(q));
                assert(mid.state_at(q) == start.state_at(q));
            }
            lemma_count_update(fu, gu, h, w, pos);
            assert(mid.state_at(pos) == start.state_at(pos));
            assert(mid.tile_at(pos) == start.tile_at(pos));
        }
    }

    /// Uncovers every cell that a cascade from the cells picked by `from` reaches. `starts`
    /// lists the starts. Returns the cells uncovered, each once.
    ///
    /// The cascade runs on a work list: a cell is uncovered when it is pushed, so the state
    /// itself marks the cells already seen.
    fn uncover_from(&mut self, starts: Vec<Pos>, Ghost(from): Ghost<spec_fn(Pos) -> bool>) -> (changed: Vec<Pos>)
        requires
            old(self).consistent(),
            starts@.no_duplicates(),
            forall|p: Pos| starts@.contains(p) <==> old(self).is_start(from, p),
        ensures
            final(self).consistent(),
            final(self).same_tiles(old(self)),
            forall|p: Pos|
                old(self).in_bounds(p) ==> #[trigger] final(self).state_at(p) == if old(self).cascade_reaches(from, p) {
                    TileState::Uncovered
                } else {
                    old(self).state_at(p)
                },
            forall|p: Pos| #[trigger] changed@.contains(p) <==> old(self).in_bounds(p) && old(self).cascade_reaches(from, p),
            changed@.no_duplicates(),
            changed@.len() >= starts@.len(),
            forall|k: int| 0 <= k < starts@.len() ==> changed@[k] == starts@[k],
    {
        let ghost s0 = *self;
        let mut changed: Vec<Pos> = Vec::new();
        let mut stack: Vec<Pos> = Vec::new();
        let mut i: usize = 0;
        while i < starts.len()
            invariant
                s0 == *old(self),
                s0.consistent(),
                self.consistent(),
                self.same_tiles(&s0),
                i <= starts.len(),
                starts@.no_duplicates(),
                forall|p: Pos| starts@.contains(p) <==> s0.is_start(from, p),
                changed@ == starts@.take(i as int),
                stack@ == starts@.take(i as int),
                forall|p: Pos|
                    s0.in_bounds(p) ==> #[trigger] self.state_at(p) == if changed@.contains(p) {
                        TileState::Uncovered
                    } else {
                        s0.state_at(p)
                    },
            decreases starts.len() - i,
        {
            let p = starts[i];
            proof {
                assert(starts@.contains(p));
                if starts@.take(i as int).contains(p) {
                    let j = choose|j: int| 0 <= j < i && starts@.take(i as int)[j] == p;
                    assert(starts@[j] == starts@[i as int]);
                }
            }
            self.uncover(p);
            proof {
                lemma_push_contains(changed@, p);
                assert(starts@.take(i + 1) == starts@.take(i as int).push(p));
            }
            changed.push(p);
            stack.push(p);
            i += 1;
        }
        proof {
            assert(starts@.take(i as int) == starts@);
            assert forall|p: Pos| #[trigger] changed@.contains(p) implies s0.in_bounds(p) && s0.cascade_reaches(from, p) by {
                let path = seq![p];
                assert(s0.is_cascade_path(from, path));
            }
        }
        while stack.len() > 0
            invariant
                s0 == *old(self),
                s0.consistent(),
                self.consistent(),
                self.same_tiles(&s0),
                forall|p: Pos|
                    s0.in_bounds(p) ==> #[trigger] self.state_at(p) == if changed@.contains(p) {
                        TileState::Uncovered
                    } else {
                        s0.state_at(p)
                    },
                forall|p: Pos| #[trigger] changed@.contains(p) ==> s0.in_bounds(p) && s0.cascade_reaches(from, p),
                forall|p: Pos| s0.is_start(from, p) ==> #[trigger] changed@.contains(p),
                changed@.no_duplicates(),
                changed@.len() >= starts@.len(),
                forall|k: int| 0 <= k < starts@.len() ==> changed@[k] == starts@[k],
                stack@.no_duplicates(),
                forall|p: Pos| #[trigger] stack@.contains(p) ==> changed@.contains(p),
                forall|q: Pos, n: Pos|
                    #[trigger] changed@.contains(q) && !stack@.contains(q) && s0.tile_at(q) == Tile::Safe(0)
                        && s0.in_bounds(n) && adjacent(n, q) && s0.state_at(n) == TileState::Hidden
                        ==> #[trigger] changed@.contains(n),
            decreases 2 * self.covered_count() + stack@.len(),
        {
            let ghost measure = 2 * self.covered_count() + stack@.len();
            let ghost stack0 = stack@;
            let q = match stack.pop() {
                Some(q) => q,
                None => {
                    return changed;
                },
            };
            proof {
                assert(stack0.contains(q));
                assert(stack@ == stack0.drop_last());
                assert(stack0 == stack@.push(q));
                lemma_push_contains(stack@, q);
                if stack@.contains(q) {
                    let j = choose|j: int| 0 <= j < stack@.len() && stack@[j] == q;
                    assert(stack0[j] == stack0[stack0.len() - 1]);
                }
                assert forall|p: Pos| #[trigger] stack@.contains(p) implies changed@.contains(p) by {
                    assert(stack0.contains(p));
                }
            }
            if self.tile(q) == Tile::Safe(0) {
                let (ylo, yhi) = self.y_neighbor_range(q.0);
                let (xlo, xhi) = self.x_neighbor_range(q.1);
                let mut y = ylo;
                while y < yhi
                    invariant
                        s0 == *old(self),
                        s0.consistent(),
                        self.consistent(),
                        self.same_tiles(&s0),
                        s0.in_bounds(q),
                        s0.tile_at(q) == Tile::Safe(0),
                        changed@.contains(q),
                        !stack@.contains(q),
                        ylo <= y <= yhi,
                        ylo == window_lo(q.0),
                        yhi == window_hi(q.0, s0.height()),
                        xlo == window_lo(q.1),
                        xhi == window_hi(q.1, s0.width()),
                        forall|p: Pos|
                            s0.in_bounds(p) ==> #[trigger] self.state_at(p) == if changed@.contains(p) {
                                TileState::Uncovered
                            } else {
                                s0.state_at(p)
                            },
                        forall|p: Pos| #[trigger] changed@.contains(p) ==> s0.in_bounds(p) && s0.cascade_reaches(from, p),
                        forall|p: Pos| s0.is_start(from, p) ==> #[trigger] changed@.contains(p),
                        changed@.no_duplicates(),
                        changed@.len() >= starts@.len(),
                        forall|k: int| 0 <= k < starts@.len() ==> changed@[k] == starts@[k],
                        stack@.no_duplicates(),
                        forall|p: Pos| #[trigger] stack@.contains(p) ==> changed@.contains(p),
                        forall|q2: Pos, n: Pos|
                            #[trigger] changed@.contains(q2) && !stack@.contains(q2) && q2 != q && s0.tile_at(q2)
                                == Tile::Safe(0) && s0.in_bounds(n) && adjacent(n, q2) && s0.state_at(n)
                                == TileState::Hidden ==> #[trigger] changed@.contains(n),
                        forall|n: Pos|
                            s0.in_bounds(n) && adjacent(n, q) && n.0 < y && s0.state_at(n) == TileState::Hidden
                                ==> #[trigger] changed@.contains(n),
                        2 * self.covered_count() + stack@.len() < measure,
                    decreases yhi - y,
                {
                    let mut x = xlo;
                    while x < xhi
                        invariant
                            s0 == *old(self),
                            s0.consistent(),
                            self.consistent(),
                            self.same_tiles(&s0),
                            s0.in_bounds(q),
                            s0.tile_at(q) == Tile::Safe(0),
                            changed@.contains(q),
                            !stack@.contains(q),
                            ylo <= y < yhi,
                            xlo <= x <= xhi,
                            ylo == window_lo(q.0),
                            yhi == window_hi(q.0, s0.height()),
                            xlo == window_lo(q.1),
                            xhi == window_hi(q.1, s0.width()),
                            forall|p: Pos|
                                s0.in_bounds(p) ==> #[trigger] self.state_at(p) == if changed@.contains(p) {
                                    TileState::Uncovered
                                } else {
                                    s0.state_at(p)
                                },
                            forall|p: Pos| #[trigger] changed@.contains(p) ==> s0.in_bounds(p) && s0.cascade_reaches(from, p),
                            forall|p: Pos| s0.is_start(from, p) ==> #[trigger] changed@.contains(p),
                            changed@.no_duplicates(),
                            changed@.len() >= starts@.len(),
                            forall|k: int| 0 <= k < starts@.len() ==> changed@[k] == starts@[k],
                            stack@.no_duplicates(),
                            forall|p: Pos| #[trigger] stack@.contains(p) ==> changed@.contains(p),
                            forall|q2: Pos, n: Pos|
                                #[trigger] changed@.contains(q2) && !stack@.contains(q2) && q2 != q && s0.tile_at(q2)
                                    == Tile::Safe(0) && s0.in_bounds(n) && adjacent(n, q2) && s0.state_at(n)
                                    == TileState::Hidden ==> #[trigger] changed@.contains(n),
                            forall|n: Pos|
                                s0.in_bounds(n) && adjacent(n, q) && (n.0 < y || (n.0 == y && n.1 < x)) && s0.state_at(n)
                                    == TileState::Hidden ==> #[trigger] changed@.contains(n),
                            2 * self.covered_count() + stack@.len() < measure,
                        decreases xhi - x,
                    {
                        let n = (y, x);
                        if self.tile_state(n) == TileState::Hidden {
                            proof {
                                assert(!changed@.contains(n));
                                assert(s0.state_at(n) == TileState::Hidden);
                                let path = choose|path: Seq<Pos>| #[trigger] s0.is_cascade_path(from, path) && path.last() == q;
                                lemma_cascade_extend(&s0, from, path, n);
                                assert(path.push(n).last() == n);
                            }
                            proof {
                                lemma_push_contains(changed@, n);
                                lemma_push_contains(stack@, n);
                                assert(!stack@.contains(n));
                            }
                            self.uncover(n);
                            changed.push(n);
                            stack.push(n);
                        }
                        x += 1;
                    }
                    y += 1;
                }
            }
        }
        proof {
            assert forall|p: Pos| s0.in_bounds(p) && s0.cascade_reaches(from, p) implies #[trigger] changed@.contains(p) by {
                let path = choose|path: Seq<Pos>| #[trigger] s0.is_cascade_path(from, path) && path.last() == p;
                lemma_cascade_complete(&s0, from, changed@, path);
            }
        }
        changed
    }

    /// Uncovers `pos` if it is hidden or question-marked and, from a `Safe(0)` cell, the hidden
    /// cells around it in turn. Returns the cells uncovered.
    fn reveal_cell(&mut self, pos: Pos) -> (r: Vec<Pos>)
        requires
            old(self).consistent(),
            old(self).in_bounds(pos),
        ensures
            final(self).consistent(),
            final(self).mine_count() == old(self).mine_count(),
            final(self).same_tiles(old(self)),
            forall|p: Pos|
                old(self).in_bounds(p) ==> #[trigger] final(self).state_at(p) == if old(self).cascade_reaches(only(pos), p) {
                    TileState::Uncovered
                } else {
                    old(self).state_at(p)
                },
            forall|p: Pos| #[trigger] r@.contains(p) <==> old(self).in_bounds(p) && old(self).cascade_reaches(only(pos), p),
            r@.no_duplicates(),
            old(self).state_at(pos) == TileState::Hidden || old(self).state_at(pos) == TileState::QuestionMark
                ==> r@.len() > 0 && r@[0] == pos,
    {
        let ghost start = *self;
        match self.tile_state(pos) {
            TileState::Hidden | TileState::QuestionMark => {
                let starts = vec![pos];
                proof {
                    assert(starts@ == seq![pos]);
                    assert forall|p: Pos| starts@.contains(p) <==> start.is_start(only(pos), p) by {
                        if p == pos {
                            assert(starts@[0] == p);
                        }
                    }
                }
                let r = self.uncover_from(starts, Ghost(only(pos)));
                proof {
                    lemma_same_tiles(&start, self);
                }
                r
            },
            _ => {
                proof {
                    assert forall|p: Pos| !start.cascade_reaches(only(pos), p) by {
                        if start.cascade_reaches(only(pos), p) {
                            let path = choose|path: Seq<Pos>| #[trigger] start.is_cascade_path(only(pos), path) && path.last() == p;
                            assert(start.is_start(only(pos), path[0]));
                        }
                    }
                }
                Vec::new()
            },
        }
    }

    /// Number of flagged cells in the window around `pos`.
    fn count_flags_around(&self, pos: Pos) -> (n: usize)
        requires
            self.shaped(),
            self.in_bounds(pos),
        ensures
            n == self.flags_around(pos),
    {
        let (ylo, yhi) = self.y_neighbor_range(pos.0);
        let (xlo, xhi) = self.x_neighbor_range(pos.1);
        let ghost h = self.height();
        let ghost w = self.width();
        let mut flags: usize = 0;
        let mut y = ylo;
        proof {
            lemma_count_zero_iff_none(
                |q: Pos| adjacent(q, pos) && row_major_before(q, (ylo, xlo)) && self.state_at(q) == TileState::Flagged,
                h,
                w,
            );
            lemma_window_bound(pos, h, w);
        }
        while y < yhi
            invariant
                ylo <= y <= yhi,
                ylo == window_lo(pos.0),
                yhi == window_hi(pos.0, h),
                xlo == window_lo(pos.1),
                xhi == window_hi(pos.1, w),
                h == self.height(),
                w == self.width(),
                self.shaped(),
                self.in_bounds(pos),
                count_cells(|q: Pos| adjacent(q, pos), h, w) <= 9,
                flags == count_cells(
                    |q: Pos| adjacent(q, pos) && row_major_before(q, (y, xlo)) && self.state_at(q) == TileState::Flagged,
                    h,
                    w,
                ),
            decreases yhi - y,
        {
            let mut x = xlo;
            while x < xhi
                invariant
                    ylo <= y < yhi,
                    xlo <= x <= xhi,
                    ylo == window_lo(pos.0),
                    yhi == window_hi(pos.0, h),
                    xlo == window_lo(pos.1),
                    xhi == window_hi(pos.1, w),
                    h == self.height(),
                    w == self.width(),
                    self.shaped(),
                    self.in_bounds(pos),
                    count_cells(|q: Pos| adjacent(q, pos), h, w) <= 9,
                    flags == count_cells(
                        |q: Pos| adjacent(q, pos) && row_major_before(q, (y, x)) && self.state_at(q) == TileState::Flagged,
                        h,
                        w,
                    ),
                decreases xhi - x,
            {
                let ghost f = |q: Pos| adjacent(q, pos) && row_major_before(q, (y, x)) && self.state_at(q) == TileState::Flagged;
                let ghost g = |q: Pos| adjacent(q, pos) && row_major_before(q, (y, (x + 1) as usize)) && self.state_at(q) == TileState::Flagged;
                proof {
                    assert forall|q: Pos| #[trigger] in_rect(q, h, w) && q != (y, x) implies f(q) == g(q) by {}
                    lemma_count_update(f, g, h, w, (y, x));
                    lemma_count_mono(g, |q: Pos| adjacent(q, pos), h, w);
                }
                if self.tile_state((y, x)) == TileState::Flagged {
                    flags = flags + 1;
                }
                x += 1;
            }
            proof {
                let f = |q: Pos| adjacent(q, pos) && row_major_before(q, (y, xhi)) && self.state_at(q) == TileState::Flagged;
                let g = |q: Pos| adjacent(q, pos) && row_major_before(q, ((y + 1) as usize, xlo)) && self.state_at(q) == TileState::Flagged;
                assert forall|q: Pos| #[trigger] in_rect(q, h, w) implies f(q) == g(q) by {}
                lemma_count_ext(f, g, h, w);
            }
            y += 1;
        }
        proof {
            let f = |q: Pos| adjacent(q, pos) && row_major_before(q, (yhi, xlo)) && self.state_at(q) == TileState::Flagged;
            let g = |q: Pos| adjacent(q, pos) && self.state_at(q) == TileState::Flagged;
            assert forall|q: Pos| #[trigger] in_rect(q, h, w) implies f(q) == g(q) by {}
            lemma_count_ext(f, g, h, w);
        }
        flags
    }

    /// Chord on an uncovered number: when exactly as many flags as its number lie around
    /// `pos`, uncovers every hidden or question-marked cell around it, each with its cascade.
    /// Returns the cells uncovered.
    fn reveal_adjacent(&mut self, pos: Pos) -> (r: Vec<Pos>)
        requires
            old(self).consistent(),
            old(self).in_bounds(pos),
        ensures
            final(self).consistent(),
            final(self).mine_count() == old(self).mine_count(),
            final(self).same_tiles(old(self)),
            forall|p: Pos|
                old(self).in_bounds(p) ==> #[trigger] final(self).state_at(p) == if old(self).chord_fires(pos)
                    && old(self).cascade_reaches(window_of(pos), p) {
                    TileState::Uncovered
                } else {
                    old(self).state_at(p)
                },
            forall|p: Pos|
                #[trigger] r@.contains(p) <==> old(self).chord_fires(pos) && old(self).in_bounds(p)
                    && old(self).cascade_reaches(window_of(pos), p),
            r@.no_duplicates(),
    {
        let ghost start = *self;
        if let Tile::Safe(n) = self.tile(pos) {
            let flags = self.count_flags_around(pos);
            if flags == n as usize {
                let (ylo, yhi) = self.y_neighbor_range(pos.0);
                let (xlo, xhi) = self.x_neighbor_range(pos.1);
                let mut starts: Vec<Pos> = Vec::new();
                let mut y = ylo;
                while y < yhi
                    invariant
                        *self == start,
                        start.shaped(),
                        start.in_bounds(pos),
                        ylo <= y <= yhi,
                        ylo == window_lo(pos.0),
                        yhi == window_hi(pos.0, start.height()),
                        xlo == window_lo(pos.1),
                        xhi == window_hi(pos.1, start.width()),
                        starts@.no_duplicates(),
                        forall|p: Pos| #[trigger] starts@.contains(p) <==> start.is_start(window_of(pos), p) && row_major_before(p, (y, xlo)),
                    decreases yhi - y,
                {
                    let mut x = xlo;
                    while x < xhi
                        invariant
                            *self == start,
                            start.shaped(),
                            start.in_bounds(pos),
                            ylo <= y < yhi,
                            xlo <= x <= xhi,
                            ylo == window_lo(pos.0),
                            yhi == window_hi(pos.0, start.height()),
                            xlo == window_lo(pos.1),
                            xhi == window_hi(pos.1, start.width()),
                            starts@.no_duplicates(),
                            forall|p: Pos| #[trigger] starts@.contains(p) <==> start.is_start(window_of(pos), p) && row_major_before(p, (y, x)),
                        decreases xhi - x,
                    {
                        let s = self.tile_state((y, x));
                        if s == TileState::Hidden || s == TileState::QuestionMark {
                            proof {
                                lemma_push_contains(starts@, (y, x));
                            }
                            starts.push((y, x));
                        }
                        x += 1;
                    }
                    y += 1;
                }
                let r = self.uncover_from(starts, Ghost(window_of(pos)));
                proof {
                    lemma_same_tiles(&start, self);
                }
                return r;
            }
        }
        Vec::new()
    }

    /// Right click: hidden becomes flagged, flagged becomes question-marked, question-marked
    /// becomes hidden; an uncovered cell stays. Returns `[pos]`, or nothing for an uncovered cell.
    fn cycle_flag(&mut self, pos: Pos) -> (r: Vec<Pos>)
        requires
            old(self).consistent(),
            old(self).in_bounds(pos),
        ensures
            final(self).consistent(),
            final(self).mine_count() == old(self).mine_count(),
            final(self).same_tiles(old(self)),
            forall|p: Pos|
                old(self).in_bounds(p) ==> #[trigger] final(self).state_at(p) == if p == pos {
                    next_flag_state(old(self).state_at(pos))
                } else {
                    old(self).state_at(p)
                },
            final(self).flags() == old(self).flags() + flag_delta(old(self).state_at(pos)),
            final(self).safe_left() == old(self).safe_left(),
            r@ == if old(self).state_at(pos) == TileState::Uncovered {
                Seq::<Pos>::empty()
            } else {
                seq![pos]
            },
    {
        let ghost start = *self;
        let ghost h = self.height();
        let ghost w = self.width();
        proof {
            lemma_count_le_area(|q: Pos| start.state_at(q) == TileState::Flagged, h, w);
            lemma_count_le_area(|q: Pos| start.is_mine_at(q), h, w);
        }
        let s = self.tile_state(pos);
        let next = match s {
            TileState::Hidden => TileState::Flagged,
            TileState::Flagged => TileState::QuestionMark,
            TileState::QuestionMark => TileState::Hidden,
            TileState::Uncovered => {
                return Vec::new();
            },
        };
        if s == TileState::Hidden {
            proof {
                let f = |q: Pos| start.state_at(q) == TileState::Flagged;
                lemma_count_complement(f, |q: Pos| !f(q), h, w);
                lemma_count_zero_iff_none(|q: Pos| !f(q), h, w);
                assert(in_rect(pos, h, w));
            }
            self.flags_left = self.flags_left - 1;
        } else if s == TileState::Flagged {
            proof {
                lemma_count_zero_iff_none(|q: Pos| start.state_at(q) == TileState::Flagged, h, w);
                assert(in_rect(pos, h, w));
            }
            self.flags_left = self.flags_left + 1;
        }
        let ghost mid = *self;
        proof {
            assert forall|r: Pos| #[trigger] mid.tile_at(r) == start.tile_at(r) && mid.state_at(r)
                == start.state_at(r) by {}
        }
        self.set_state(pos, next);
        proof {
            assert forall|q: Pos| #[trigger] in_rect(q, h, w) implies self.tile_at(q) == start.tile_at(q) by {
                assert(start.in_bounds(q));
                assert(mid.tile_at(q) == start.tile_at(q));
            }
            lemma_same_tiles(&start, self);
            let fs = |q: Pos| start.state_at(q) == TileState::Flagged;
            let gs = |q: Pos| self.state_at(q) == TileState::Flagged;
            assert forall|q: Pos| #[trigger] in_rect(q, h, w) && q != pos implies fs(q) == gs(q) by {
                assert(start.in_bounds(q));
                assert(mid.state_at(q) == start.state_at(q));
            }
            lemma_count_update(fs, gs, h, w, pos);
            let fc = |q: Pos| start.tile_at(q) is Safe && start.state_at(q) != TileState::Uncovered;
            let gc = |q: Pos| self.tile_at(q) is Safe && self.state_at(q) != TileState::Uncovered;
            assert forall|q: Pos| #[trigger] in_rect(q, h, w) && q != pos implies fc(q) == gc(q) by {
                assert(start.in_bounds(q));
                assert(mid.state_at(q) == start.state_at(q));
                assert(mid.tile_at(q) == start.tile_at(q));
            }
            lemma_count_update(fc, gc, h, w, pos);
            assert(mid.state_at(pos) == start.state_at(pos));
            assert(mid.tile_at(pos) == start.tile_at(pos));
        }
        vec![pos]
    }

    /// Left click on `pos`: a hidden or question-marked cell is revealed, a flagged one is left
    /// alone, an uncovered one is chorded. Returns the cells uncovered.
    pub fn left_click(&mut self, pos: Pos) -> (r: Vec<Pos>)
        requires
            old(self).consistent(),
            old(self).in_bounds(pos),
        ensures
            final(self).consistent(),
            final(self).mine_count() == old(self).mine_count(),
            final(self).same_tiles(old(self)),
            forall|p: Pos|
                old(self).in_bounds(p) ==> #[trigger] final(self).state_at(p) == if old(self).click_uncovers(pos, p) {
                    TileState::Uncovered
                } else {
                    old(self).state_at(p)
                },
            forall|p: Pos| #[trigger] r@.contains(p) <==> old(self).in_bounds(p) && old(self).click_uncovers(pos, p),
            r@.no_duplicates(),
            old(self).state_at(pos) == TileState::Hidden || old(self).state_at(pos) == TileState::QuestionMark
                ==> r@.len() > 0 && r@[0] == pos,
            old(self).state_at(pos) == TileState::Flagged ==> *final(self) == *old(self) && r@.len() == 0,
    {
        match self.tile_state(pos) {
            TileState::Hidden | TileState::QuestionMark => self.reveal_cell(pos),
            TileState::Flagged => Vec::new(),
            TileState::Uncovered => self.reveal_adjacent(pos),
        }
    }

    /// Right click on `pos`: cycles hidden, flagged and question-marked. Returns `[pos]`, or
    /// nothing for an uncovered cell.
    pub fn right_click(&mut self, pos: Pos) -> (r: Vec<Pos>)
        requires
            old(self).consistent(),
            old(self).in_bounds(pos),
        ensures
            final(self).consistent(),
            final(self).mine_count() == old(self).mine_count(),
            final(self).same_tiles(old(self)),
            forall|p: Pos|
                old(self).in_bounds(p) ==> #[trigger] final(self).state_at(p) == if p == pos {
                    next_flag_state(old(self).state_at(pos))
                } else {
                    old(self).state_at(p)
                },
            final(self).flags() == old(self).flags() + flag_delta(old(self).state_at(pos)),
            final(self).safe_left() == old(self).safe_left(),
            r@ == if old(self).state_at(pos) == TileState::Uncovered {
                Seq::<Pos>::empty()
            } else {
                seq![pos]
            },
    {
        self.cycle_flag(pos)
    }

    /// Uncovers every cell, for showing the board once the game is lost. The counters are left
    /// as they were.
    pub fn reveal_all(&mut self)
        requires
            old(self).shaped(),
        ensures
            final(self).shaped(),
            final(self).same_tiles(old(self)),
            forall|p: Pos| final(self).in_bounds(p) ==> #[trigger] final(self).state_at(p) == TileState::Uncovered,
            final(self).flags() == old(self).flags(),
            final(self).safe_left() == old(self).safe_left(),
    {
        self.tilestates.fill(TileState::Uncovered);
    }

    /// The cells of the 3x3 window around `pos` that lie on the board, in row-major order.
    pub fn neighbor_coords(&self, pos: Pos) -> (r: Vec<Pos>)
        requires
            self.shaped(),
            self.in_bounds(pos),
        ensures
            forall|p: Pos| #[trigger] r@.contains(p) <==> self.in_bounds(p) && adjacent(p, pos),
            forall|i: int, j: int| 0 <= i < j < r@.len() ==> row_major_before(#[trigger] r@[i], #[trigger] r@[j]),
    {
        let (ylo, yhi) = self.y_neighbor_range(pos.0);
        let (xlo, xhi) = self.x_neighbor_range(pos.1);
        let mut r: Vec<Pos> = Vec::new();
        let mut y = ylo;
        while y < yhi
            invariant
                self.shaped(),
                self.in_bounds(pos),
                ylo <= y <= yhi,
                ylo == window_lo(pos.0),
                yhi == window_hi(pos.0, self.height()),
                xlo == window_lo(pos.1),
                xhi == window_hi(pos.1, self.width()),
                forall|p: Pos| #[trigger] r@.contains(p) <==> self.in_bounds(p) && adjacent(p, pos) && row_major_before(p, (y, xlo)),
                forall|i: int| 0 <= i < r@.len() ==> row_major_before(#[trigger] r@[i], (y, xlo)),
                forall|i: int, j: int| 0 <= i < j < r@.len() ==> row_major_before(#[trigger] r@[i], #[trigger] r@[j]),
            decreases yhi - y,
        {
            let mut x = xlo;
            while x < xhi
                invariant
                    self.shaped(),
                    self.in_bounds(pos),
                    ylo <= y < yhi,
                    xlo <= x <= xhi,
                    ylo == window_lo(pos.0),
                    yhi == window_hi(pos.0, self.height()),
                    xlo == window_lo(pos.1),
                    xhi == window_hi(pos.1, self.width()),
                    forall|p: Pos| #[trigger] r@.contains(p) <==> self.in_bounds(p) && adjacent(p, pos) && row_major_before(p, (y, x)),
                    forall|i: int| 0 <= i < r@.len() ==> row_major_before(#[trigger] r@[i], (y, x)),
                    forall|i: int, j: int| 0 <= i < j < r@.len() ==> row_major_before(#[trigger] r@[i], #[trigger] r@[j]),
                decreases xhi - x,
            {
                proof {
                    lemma_push_contains(r@, (y, x));
                }
                r.push((y, x));
                x += 1;
            }
            y += 1;
        }
        r
    }

    /// Sets a safe cell's number to the count of mines around it; a mine is left alone.
    fn recompute_number(&mut self, pos: Pos)
        requires
            old(self).shaped(),
            old(self).in_bounds(pos),
        ensures
            final(self).shaped(),
            final(self).same_states(old(self)),
            final(self).height() == old(self).height(),
            final(self).width() == old(self).width(),
            forall|p: Pos|
                old(self).in_bounds(p) ==> #[trigger] final(self).tile_at(p) == if p == pos && old(self).tile_at(pos) is Safe {
                    Tile::Safe(old(self).mines_around(pos) as u8)
                } else {
                    old(self).tile_at(p)
                },
            final(self).flags() == old(self).flags(),
            final(self).safe_left() == old(self).safe_left(),
    {
        if let Tile::Mine = self.tile(pos) {
            return;
        }
        let (ylo, yhi) = self.y_neighbor_range(pos.0);
        let (xlo, xhi) = self.x_neighbor_range(pos.1);
        let ghost h = self.height();
        let ghost w = self.width();
        let mut n: u8 = 0;
        let mut y = ylo;
        proof {
            lemma_count_zero_iff_none(
                |q: Pos| adjacent(q, pos) && row_major_before(q, (ylo, xlo)) && self.is_mine_at(q),
                h,
                w,
            );
            lemma_window_bound(pos, h, w);
        }
        while y < yhi
            invariant
                ylo <= y <= yhi,
                ylo == window_lo(pos.0),
                yhi == window_hi(pos.0, h),
                xlo == window_lo(pos.1),
                xhi == window_hi(pos.1, w),
                h == self.height(),
                w == self.width(),
                self.shaped(),
                self.in_bounds(pos),
                count_cells(|q: Pos| adjacent(q, pos), h, w) <= 9,
                n == count_cells(|q: Pos| adjacent(q, pos) && row_major_before(q, (y, xlo)) && self.is_mine_at(q), h, w),
            decreases yhi - y,
        {
            let mut x = xlo;
            while x < xhi
                invariant
                    ylo <= y < yhi,
                    xlo <= x <= xhi,
                    ylo == window_lo(pos.0),
                    yhi == window_hi(pos.0, h),
                    xlo == window_lo(pos.1),
                    xhi == window_hi(pos.1, w),
                    h == self.height(),
                    w == self.width(),
                    self.shaped(),
                    self.in_bounds(pos),
                    count_cells(|q: Pos| adjacent(q, pos), h, w) <= 9,
                    n == count_cells(|q: Pos| adjacent(q, pos) && row_major_before(q, (y, x)) && self.is_mine_at(q), h, w),
                decreases xhi - x,
            {
                let ghost f = |q: Pos| adjacent(q, pos) && row_major_before(q, (y, x)) && self.is_mine_at(q);
                let ghost g = |q: Pos| adjacent(q, pos) && row_major_before(q, (y, (x + 1) as usize)) && self.is_mine_at(q);
                proof {
                    assert forall|q: Pos| #[trigger] in_rect(q, h, w) && q != (y, x) implies f(q) == g(q) by {}
                    lemma_count_update(f, g, h, w, (y, x));
                    lemma_count_mono(g, |q: Pos| adjacent(q, pos), h, w);
                }
                if let Tile::Mine = self.tile((y, x)) {
                    n = n + 1;
                }
                x += 1;
            }
            proof {
                let f = |q: Pos| adjacent(q, pos) && row_major_before(q, (y, xhi)) && self.is_mine_at(q);
                let g = |q: Pos| adjacent(q, pos) && row_major_before(q, ((y + 1) as usize, xlo)) && self.is_mine_at(q);
                assert forall|q: Pos| #[trigger] in_rect(q, h, w) implies f(q) == g(q) by {}
                lemma_count_ext(f, g, h, w);
            }
            y += 1;
        }
        proof {
            let f = |q: Pos| adjacent(q, pos) && row_major_before(q, (yhi, xlo)) && self.is_mine_at(q);
            let g = |q: Pos| adjacent(q, pos) && self.is_mine_at(q);
            assert forall|q: Pos| #[trigger] in_rect(q, h, w) implies f(q) == g(q) by {}
            lemma_count_ext(f, g, h, w);
        }
        self.set_tile(pos, Tile::Safe(n));
    }

    /// A board of the given size with no mines, every cell hidden.
    pub fn make_empty(size: (usize, usize)) -> (b: Board)
        requires
            size.0 <= isize::MAX,
            size.1 <= isize::MAX,
            size.0 * size.1 <= isize::MAX,
        ensures
            b.well_formed(),
            b.height() == size.0,
            b.width() == size.1,
            forall|p: Pos| b.in_bounds(p) ==> #[trigger] b.tile_at(p) == Tile::Safe(0),
            forall|p: Pos| b.in_bounds(p) ==> #[trigger] b.state_at(p) == TileState::Hidden,
            b.mine_count() == 0,
            b.flags() == 0,
            b.safe_left() == size.0 * size.1,
    {
        let b = Board {
            size: size,
            tiles: TileGrid::filled(size.0, size.1, Tile::Safe(0)),
            tilestates: StateGrid::filled(size.0, size.1, TileState::Hidden),
            flags_left: 0,
            safe_squares_left: (size.0 * size.1) as isize,
        };
        proof {
            assert forall|p: Pos| b.in_bounds(p) implies #[trigger] b.tile_at(p) == Tile::Safe(0) by {}
            assert forall|p: Pos| b.in_bounds(p) implies #[trigger] b.state_at(p) == TileState::Hidden by {}
            lemma_count_zero_iff_none(|q: Pos| b.is_mine_at(q), size.0, size.1);
            lemma_count_zero_iff_none(|q: Pos| b.state_at(q) == TileState::Flagged, size.0, size.1);
            assert forall|p: Pos| b.in_bounds(p) && (#[trigger] b.tile_at(p)) is Safe implies
                b.tile_at(p)->Safe_0 == b.mines_around(p) by {
                lemma_count_zero_iff_none(|q: Pos| adjacent(q, p) && b.is_mine_at(q), size.0, size.1);
            }
            let none = |q: Pos| false;
            let all = |q: Pos| b.tile_at(q) is Safe && b.state_at(q) != TileState::Uncovered;
            lemma_count_complement(all, none, size.0, size.1);
            lemma_count_zero_iff_none(none, size.0, size.1);
        }
        b
    }
}

/// Board dimensions and mine count of a game.
#[derive(Debug, PartialEq, Eq)]
pub struct Difficulty {
    /// (height, width)
    pub size: (usize, usize),
    pub mines: usize,
}

impl Difficulty {
    /// 9x9 with 10 mines.
    pub fn beginner() -> (d: Difficulty)
        ensures
            d == (Difficulty { size: (9, 9), mines: 10 }),
    {
        Difficulty { size: (9, 9), mines: 10 }
    }

    /// 16x16 with 40 mines.
    pub fn intermediate() -> (d: Difficulty)
        ensures
            d == (Difficulty { size: (16, 16), mines: 40 }),
    {
        Difficulty { size: (16, 16), mines: 40 }
    }

    /// 16 rows by 30 columns with 99 mines.
    pub fn expert() -> (d: Difficulty)
        ensures
            d == (Difficulty { size: (16, 30), mines: 99 }),
    {
        Difficulty { size: (16, 30), mines: 99 }
    }

    /// A new random board of this size and mine count; fails as `Board::make_random` does.
    pub fn new_game(&self) -> (r: Result<Board, &'static str>)
        ensures
            r is Err <==> config_error(self.size, self.mines) is Some,
            r matches Err(e) ==> config_error(self.size, self.mines) == Some(e@),
            r matches Ok(b) ==> {
                &&& b.well_formed()
                &&& b.height() == self.size.0
                &&& b.width() == self.size.1
                &&& b.mine_count() == self.mines
                &&& forall|p: Pos| b.in_bounds(p) ==> #[trigger] b.state_at(p) == TileState::Hidden
                &&& b.flags() == self.mines
                &&& b.safe_left() == self.size.0 * self.size.1 - self.mines
            },
    {
        Board::make_random(self.size, self.mines)
    }
}

} // verus!
