//! The two cell arrays of a board, kept in `ndarray` arrays.
use vstd::prelude::*;

use crate::board::{Tile, TileState};
use crate::count::Pos;

verus! {

/// The mine or number of every cell, in an `ndarray::Array2`.
#[derive(Debug)]
#[verifier::external_body]
pub struct TileGrid {
    cells: ndarray::Array2<Tile>,
}

/// The visibility of every cell, in an `ndarray::Array2`.
#[derive(Debug)]
#[verifier::external_body]
pub struct StateGrid {
    cells: ndarray::Array2<TileState>,
}

/// What a tile array holds, row by row.
pub uninterp spec fn tile_rows(g: TileGrid) -> Seq<Seq<Tile>>;

/// What a state array holds, row by row.
pub uninterp spec fn state_rows(g: StateGrid) -> Seq<Seq<TileState>>;

/// `h` rows of `w` copies of `v`.
pub open spec fn uniform_rows<T>(h: usize, w: usize, v: T) -> Seq<Seq<T>> {
    Seq::new(h as nat, |r: int| Seq::new(w as nat, |c: int| v))
}

/// `rows` with the cell `p` set to `v`.
pub open spec fn set_cell<T>(rows: Seq<Seq<T>>, p: Pos, v: T) -> Seq<Seq<T>> {
    rows.update(p.0 as int, rows[p.0 as int].update(p.1 as int, v))
}

/// `rows` has `h` rows of `w` cells each.
pub open spec fn has_shape<T>(rows: Seq<Seq<T>>, h: usize, w: usize) -> bool {
    rows.len() == h && forall|r: int| 0 <= r < h ==> #[trigger] rows[r].len() == w
}

impl TileGrid {
    /// The cell at `p`: (row, column).
    pub fn at(&self, p: Pos) -> (t: Tile)
        requires
            p.0 < tile_rows(*self).len(),
            p.1 < tile_rows(*self)[p.0 as int].len(),
        ensures
            t == tile_rows(*self)[p.0 as int][p.1 as int],
    {
        self.get(p)
    }

    /// Relies on `Array2::from_elem`: `h` rows of `w` copies of `t`. It panics when the
    /// product of the nonzero lengths exceeds `isize::MAX`.
    #[verifier::external_body]
    pub(crate) fn filled(h: usize, w: usize, t: Tile) -> (g: TileGrid)
        requires
            h <= isize::MAX,
            w <= isize::MAX,
            h * w <= isize::MAX,
        ensures
            tile_rows(g) == uniform_rows(h, w, t),
    {
        TileGrid { cells: ndarray::Array2::from_elem((h, w), t) }
    }

    /// Relies on `Clone` of `Array2`: a new array of the same shape holding clones of the
    /// elements.
    #[verifier::external_body]
    pub(crate) fn duplicate(&self) -> (g: TileGrid)
        ensures
            tile_rows(g) == tile_rows(*self),
    {
        TileGrid { cells: self.cells.clone() }
    }

    /// Relies on `Index` of `Array2` at `(row, column)`, which panics out of bounds.
    #[verifier::external_body]
    pub(crate) fn get(&self, p: Pos) -> (t: Tile)
        requires
            p.0 < tile_rows(*self).len(),
            p.1 < tile_rows(*self)[p.0 as int].len(),
        ensures
            t == tile_rows(*self)[p.0 as int][p.1 as int],
    {
        self.cells[p]
    }

    /// Relies on `IndexMut` of `Array2` at `(row, column)`, which panics out of bounds.
    #[verifier::external_body]
    pub(crate) fn set(&mut self, p: Pos, t: Tile)
        requires
            p.0 < tile_rows(*old(self)).len(),
            p.1 < tile_rows(*old(self))[p.0 as int].len(),
        ensures
            tile_rows(*final(self)) == set_cell(tile_rows(*old(self)), p, t),
    {
        self.cells[p] = t;
    }
}

impl StateGrid {
    /// The cell at `p`: (row, column).
    pub fn at(&self, p: Pos) -> (s: TileState)
        requires
            p.0 < state_rows(*self).len(),
            p.1 < state_rows(*self)[p.0 as int].len(),
        ensures
            s == state_rows(*self)[p.0 as int][p.1 as int],
    {
        self.get(p)
    }

    /// Relies on `Array2::from_elem`: `h` rows of `w` copies of `s`. It panics when the
    /// product of the nonzero lengths exceeds `isize::MAX`.
    #[verifier::external_body]
    pub(crate) fn filled(h: usize, w: usize, s: TileState) -> (g: StateGrid)
        requires
            h <= isize::MAX,
            w <= isize::MAX,
            h * w <= isize::MAX,
        ensures
            state_rows(g) == uniform_rows(h, w, s),
    {
        StateGrid { cells: ndarray::Array2::from_elem((h, w), s) }
    }

    /// Relies on `Clone` of `Array2`: a new array of the same shape holding clones of the
    /// elements.
    #[verifier::external_body]
    pub(crate) fn duplicate(&self) -> (g: StateGrid)
        ensures
            state_rows(g) == state_rows(*self),
    {
        StateGrid { cells: self.cells.clone() }
    }

    /// Relies on `Index` of `Array2` at `(row, column)`, which panics out of bounds.
    #[verifier::external_body]
    pub(crate) fn get(&self, p: Pos) -> (s: TileState)
        requires
            p.0 < state_rows(*self).len(),
            p.1 < state_rows(*self)[p.0 as int].len(),
        ensures
            s == state_rows(*self)[p.0 as int][p.1 as int],
    {
        self.cells[p]
    }

    /// Relies on `IndexMut` of `Array2` at `(row, column)`, which panics out of bounds.
    #[verifier::external_body]
    pub(crate) fn set(&mut self, p: Pos, s: TileState)
        requires
            p.0 < state_rows(*old(self)).len(),
            p.1 < state_rows(*old(self))[p.0 as int].len(),
        ensures
            state_rows(*final(self)) == set_cell(state_rows(*old(self)), p, s),
    {
        self.cells[p] = s;
    }

    /// Relies on `ArrayBase::fill`: every element becomes a copy of `s`; the shape stays.
    #[verifier::external_body]
    pub(crate) fn fill(&mut self, s: TileState)
        ensures
            state_rows(*final(self)) == Seq::new(
                state_rows(*old(self)).len(),
                |r: int| Seq::new(state_rows(*old(self))[r].len(), |c: int| s),
            ),
    {
        self.cells.fill(s);
    }
}

} // verus!
