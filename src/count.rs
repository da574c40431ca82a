//! Counting the cells of a rectangular grid that satisfy a predicate.
use vstd::prelude::*;

verus! {

/// A cell of the grid: (row, column).
pub type Pos = (usize, usize);

/// Number of cells `(r, c)` with `c < w` that satisfy `f`.
pub open spec fn count_in_row(f: spec_fn(Pos) -> bool, r: usize, w: usize) -> nat
    decreases w,
{
    if w == 0 {
        0
    } else {
        count_in_row(f, r, (w - 1) as usize) + if f((r, (w - 1) as usize)) {
            1nat
        } else {
            0nat
        }
    }
}

/// Number of cells `(r, c)` with `r < h` and `c < w` that satisfy `f`.
pub open spec fn count_cells(f: spec_fn(Pos) -> bool, h: usize, w: usize) -> nat
    decreases h,
{
    if h == 0 {
        0
    } else {
        count_cells(f, (h - 1) as usize, w) + count_in_row(f, (h - 1) as usize, w)
    }
}

pub open spec fn in_rect(p: Pos, h: usize, w: usize) -> bool {
    p.0 < h && p.1 < w
}

/// Predicates that agree on a row count the same.
pub proof fn lemma_row_ext(f: spec_fn(Pos) -> bool, g: spec_fn(Pos) -> bool, r: usize, w: usize)
    requires
        forall|c: usize| c < w ==> #[trigger] f((r, c)) == g((r, c)),
    ensures
        count_in_row(f, r, w) == count_in_row(g, r, w),
    decreases w,
{
    if w > 0 {
        lemma_row_ext(f, g, r, (w - 1) as usize);
    }
}

/// Predicates that agree on the rectangle count the same.
pub proof fn lemma_count_ext(f: spec_fn(Pos) -> bool, g: spec_fn(Pos) -> bool, h: usize, w: usize)
    requires
        forall|p: Pos| #[trigger] in_rect(p, h, w) ==> f(p) == g(p),
    ensures
        count_cells(f, h, w) == count_cells(g, h, w),
    decreases h,
{
    if h > 0 {
        let r = (h - 1) as usize;
        assert forall|c: usize| c < w implies #[trigger] f((r, c)) == g((r, c)) by {
            assert(in_rect((r, c), h, w));
        }
        lemma_row_ext(f, g, r, w);
        assert forall|p: Pos| #[trigger] in_rect(p, r, w) implies f(p) == g(p) by {
            assert(in_rect(p, h, w));
        }
        lemma_count_ext(f, g, r, w);
    }
}

proof fn lemma_row_update(f: spec_fn(Pos) -> bool, g: spec_fn(Pos) -> bool, r: usize, w: usize, c0: usize)
    requires
        forall|c: usize| c < w && c != c0 ==> #[trigger] f((r, c)) == g((r, c)),
    ensures
        c0 < w ==> count_in_row(g, r, w) == count_in_row(f, r, w) - (if f((r, c0)) { 1int } else { 0int })
            + (if g((r, c0)) { 1int } else { 0int }),
        c0 >= w ==> count_in_row(g, r, w) == count_in_row(f, r, w),
    decreases w,
{
    if w > 0 {
        lemma_row_update(f, g, r, (w - 1) as usize, c0);
    }
}

/// Predicates that differ at one cell `p` of the rectangle at most: the counts differ by what
/// the two say of `p`.
pub proof fn lemma_count_update(f: spec_fn(Pos) -> bool, g: spec_fn(Pos) -> bool, h: usize, w: usize, p: Pos)
    requires
        in_rect(p, h, w),
        forall|q: Pos| #[trigger] in_rect(q, h, w) && q != p ==> f(q) == g(q),
    ensures
        count_cells(g, h, w) == count_cells(f, h, w) - (if f(p) { 1int } else { 0int }) + (if g(p) {
            1int
        } else {
            0int
        }),
    decreases h,
{
    let r = (h - 1) as usize;
    assert forall|c: usize| c < w && (r, c) != p implies #[trigger] f((r, c)) == g((r, c)) by {
        assert(in_rect((r, c), h, w));
    }
    if p.0 == r {
        assert forall|c: usize| c < w && c != p.1 implies #[trigger] f((r, c)) == g((r, c)) by {
            assert(in_rect((r, c), h, w));
        }
        lemma_row_update(f, g, r, w, p.1);
        assert forall|q: Pos| #[trigger] in_rect(q, r, w) implies f(q) == g(q) by {
            assert(in_rect(q, h, w));
        }
        lemma_count_ext(f, g, r, w);
    } else {
        assert forall|c: usize| c < w implies #[trigger] f((r, c)) == g((r, c)) by {
            assert(in_rect((r, c), h, w));
        }
        lemma_row_ext(f, g, r, w);
        assert forall|q: Pos| #[trigger] in_rect(q, r, w) && q != p implies f(q) == g(q) by {
            assert(in_rect(q, h, w));
        }
        lemma_count_update(f, g, r, w, p);
    }
}

proof fn lemma_row_mono(f: spec_fn(Pos) -> bool, g: spec_fn(Pos) -> bool, r: usize, w: usize)
    requires
        forall|c: usize| c < w && #[trigger] f((r, c)) ==> g((r, c)),
    ensures
        count_in_row(f, r, w) <= count_in_row(g, r, w),
    decreases w,
{
    if w > 0 {
        lemma_row_mono(f, g, r, (w - 1) as usize);
    }
}

/// A predicate implied by another on the rectangle counts at least as many cells.
pub proof fn lemma_count_mono(f: spec_fn(Pos) -> bool, g: spec_fn(Pos) -> bool, h: usize, w: usize)
    requires
        forall|p: Pos| #[trigger] in_rect(p, h, w) && f(p) ==> g(p),
    ensures
        count_cells(f, h, w) <= count_cells(g, h, w),
    decreases h,
{
    if h > 0 {
        let r = (h - 1) as usize;
        assert forall|c: usize| c < w && #[trigger] f((r, c)) implies g((r, c)) by {
            assert(in_rect((r, c), h, w));
        }
        lemma_row_mono(f, g, r, w);
        assert forall|p: Pos| #[trigger] in_rect(p, r, w) && f(p) implies g(p) by {
            assert(in_rect(p, h, w));
        }
        lemma_count_mono(f, g, r, w);
    }
}

proof fn lemma_row_complement(f: spec_fn(Pos) -> bool, g: spec_fn(Pos) -> bool, r: usize, w: usize)
    requires
        forall|c: usize| c < w ==> #[trigger] g((r, c)) == !f((r, c)),
    ensures
        count_in_row(f, r, w) + count_in_row(g, r, w) == w,
    decreases w,
{
    if w > 0 {
        lemma_row_complement(f, g, r, (w - 1) as usize);
    }
}

/// A predicate and its negation together count every cell of the rectangle.
pub proof fn lemma_count_complement(f: spec_fn(Pos) -> bool, g: spec_fn(Pos) -> bool, h: usize, w: usize)
    requires
        forall|p: Pos| #[trigger] in_rect(p, h, w) ==> g(p) == !f(p),
    ensures
        count_cells(f, h, w) + count_cells(g, h, w) == h * w,
    decreases h,
{
    if h > 0 {
        let r = (h - 1) as usize;
        assert forall|c: usize| c < w implies #[trigger] g((r, c)) == !f((r, c)) by {
            assert(in_rect((r, c), h, w));
        }
        lemma_row_complement(f, g, r, w);
        assert forall|p: Pos| #[trigger] in_rect(p, r, w) implies g(p) == !f(p) by {
            assert(in_rect(p, h, w));
        }
        lemma_count_complement(f, g, r, w);
        assert(h * w == r * w + w) by (nonlinear_arith)
            requires
                r == h - 1,
        ;
    }
}

/// A predicate that holds nowhere on the rectangle counts nothing; one that holds somewhere
/// counts something.
pub proof fn lemma_count_zero_iff_none(f: spec_fn(Pos) -> bool, h: usize, w: usize)
    ensures
        count_cells(f, h, w) == 0 <==> forall|p: Pos| #[trigger] in_rect(p, h, w) ==> !f(p),
{
    let none = |p: Pos| false;
    if forall|p: Pos| #[trigger] in_rect(p, h, w) ==> !f(p) {
        lemma_count_mono(f, none, h, w);
        lemma_count_zero(none, h, w);
    } else {
        let p = choose|p: Pos| #[trigger] in_rect(p, h, w) && f(p);
        let only = |q: Pos| q == p;
        lemma_count_mono(only, f, h, w);
        lemma_count_update(none, only, h, w, p);
        lemma_count_zero(none, h, w);
    }
}

proof fn lemma_count_zero(f: spec_fn(Pos) -> bool, h: usize, w: usize)
    requires
        forall|p: Pos| #[trigger] f(p) == false,
    ensures
        count_cells(f, h, w) == 0,
    decreases h,
{
    if h > 0 {
        lemma_row_zero(f, (h - 1) as usize, w);
        lemma_count_zero(f, (h - 1) as usize, w);
    }
}

proof fn lemma_row_zero(f: spec_fn(Pos) -> bool, r: usize, w: usize)
    requires
        forall|p: Pos| #[trigger] f(p) == false,
    ensures
        count_in_row(f, r, w) == 0,
    decreases w,
{
    if w > 0 {
        lemma_row_zero(f, r, (w - 1) as usize);
    }
}

} // verus!
