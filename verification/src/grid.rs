//! Points of a square grid that satisfy a predicate, listed row by row, and
//! how many there are.
use vstd::prelude::*;

verus! {

/// The points `(x, z)` with `z_lo <= z < z_end` that satisfy `p`, by increasing `z`.
pub open spec fn row_points(x: int, z_lo: int, z_end: int, p: spec_fn(int, int) -> bool) -> Seq<
    (int, int),
>
    decreases z_end - z_lo,
{
    if z_end <= z_lo {
        Seq::empty()
    } else {
        row_points(x, z_lo, z_end - 1, p) + if p(x, z_end - 1) {
            seq![(x, z_end - 1)]
        } else {
            Seq::empty()
        }
    }
}

/// The rows `x_lo <= x < x_end`, each from `z_lo` to `z_end`, one after the other.
pub open spec fn grid_points(
    x_lo: int,
    x_end: int,
    z_lo: int,
    z_end: int,
    p: spec_fn(int, int) -> bool,
) -> Seq<(int, int)>
    decreases x_end - x_lo,
{
    if x_end <= x_lo {
        Seq::empty()
    } else {
        grid_points(x_lo, x_end - 1, z_lo, z_end, p) + row_points(x_end - 1, z_lo, z_end, p)
    }
}

/// The points of the square `[-r, r] x [-r, r]` that satisfy `p`, `x` major, `z` minor.
pub open spec fn square_points(r: int, p: spec_fn(int, int) -> bool) -> Seq<(int, int)> {
    grid_points(-r, r + 1, -r, r + 1, p)
}

/// How many points of one row satisfy `p`.
pub open spec fn row_count(x: int, z_lo: int, z_end: int, p: spec_fn(int, int) -> bool) -> int
    decreases z_end - z_lo,
{
    if z_end <= z_lo {
        0
    } else {
        row_count(x, z_lo, z_end - 1, p) + if p(x, z_end - 1) {
            1int
        } else {
            0int
        }
    }
}

/// How many points of a grid satisfy `p`.
pub open spec fn grid_count(
    x_lo: int,
    x_end: int,
    z_lo: int,
    z_end: int,
    p: spec_fn(int, int) -> bool,
) -> int
    decreases x_end - x_lo,
{
    if x_end <= x_lo {
        0
    } else {
        grid_count(x_lo, x_end - 1, z_lo, z_end, p) + row_count(x_end - 1, z_lo, z_end, p)
    }
}

/// The number of points of the square `[-r, r] x [-r, r]` that satisfy `p`.
pub open spec fn square_count(r: int, p: spec_fn(int, int) -> bool) -> int {
    grid_count(-r, r + 1, -r, r + 1, p)
}

pub proof fn lemma_row_len(x: int, z_lo: int, z_end: int, p: spec_fn(int, int) -> bool)
    ensures
        row_points(x, z_lo, z_end, p).len() == row_count(x, z_lo, z_end, p),
    decreases z_end - z_lo,
{
    if z_end > z_lo {
        lemma_row_len(x, z_lo, z_end - 1, p);
    }
}

pub proof fn lemma_grid_len(
    x_lo: int,
    x_end: int,
    z_lo: int,
    z_end: int,
    p: spec_fn(int, int) -> bool,
)
    ensures
        grid_points(x_lo, x_end, z_lo, z_end, p).len() == grid_count(x_lo, x_end, z_lo, z_end, p),
    decreases x_end - x_lo,
{
    if x_end > x_lo {
        lemma_grid_len(x_lo, x_end - 1, z_lo, z_end, p);
        lemma_row_len(x_end - 1, z_lo, z_end, p);
    }
}

pub proof fn lemma_row_count_nonneg(x: int, z_lo: int, z_end: int, p: spec_fn(int, int) -> bool)
    ensures
        0 <= row_count(x, z_lo, z_end, p),
    decreases z_end - z_lo,
{
    if z_end > z_lo {
        lemma_row_count_nonneg(x, z_lo, z_end - 1, p);
    }
}

pub proof fn lemma_grid_count_nonneg(
    x_lo: int,
    x_end: int,
    z_lo: int,
    z_end: int,
    p: spec_fn(int, int) -> bool,
)
    ensures
        0 <= grid_count(x_lo, x_end, z_lo, z_end, p),
    decreases x_end - x_lo,
{
    if x_end > x_lo {
        lemma_grid_count_nonneg(x_lo, x_end - 1, z_lo, z_end, p);
        lemma_row_count_nonneg(x_end - 1, z_lo, z_end, p);
    }
}

/// A row splits at any point between its ends.
pub proof fn lemma_row_split(x: int, z_lo: int, m: int, z_end: int, p: spec_fn(int, int) -> bool)
    requires
        z_lo <= m <= z_end,
    ensures
        row_count(x, z_lo, z_end, p) == row_count(x, z_lo, m, p) + row_count(x, m, z_end, p),
    decreases z_end - m,
{
    if z_end > m {
        lemma_row_split(x, z_lo, m, z_end - 1, p);
    }
}

/// Counting over a row depends only on the predicate's values in that row.
pub proof fn lemma_row_ext(
    x: int,
    z_lo: int,
    z_end: int,
    p: spec_fn(int, int) -> bool,
    q: spec_fn(int, int) -> bool,
)
    requires
        forall|z: int| z_lo <= z < z_end ==> #[trigger] p(x, z) == q(x, z),
    ensures
        row_count(x, z_lo, z_end, p) == row_count(x, z_lo, z_end, q),
    decreases z_end - z_lo,
{
    if z_end > z_lo {
        lemma_row_ext(x, z_lo, z_end - 1, p, q);
    }
}

/// A row where the predicate never holds counts nothing.
pub proof fn lemma_row_zero(x: int, z_lo: int, z_end: int, p: spec_fn(int, int) -> bool)
    requires
        forall|z: int| z_lo <= z < z_end ==> !#[trigger] p(x, z),
    ensures
        row_count(x, z_lo, z_end, p) == 0,
    decreases z_end - z_lo,
{
    if z_end > z_lo {
        lemma_row_zero(x, z_lo, z_end - 1, p);
    }
}

/// Where the predicate holds everywhere, a row counts its length.
pub proof fn lemma_row_full(x: int, z_lo: int, z_end: int, p: spec_fn(int, int) -> bool)
    requires
        z_lo <= z_end,
        forall|z: int| z_lo <= z < z_end ==> #[trigger] p(x, z),
    ensures
        row_count(x, z_lo, z_end, p) == z_end - z_lo,
    decreases z_end - z_lo,
{
    if z_end > z_lo {
        lemma_row_full(x, z_lo, z_end - 1, p);
    }
}

/// Counts of two predicates that never hold together add up to the count of either.
pub proof fn lemma_row_disjoint(
    x: int,
    z_lo: int,
    z_end: int,
    p: spec_fn(int, int) -> bool,
    q: spec_fn(int, int) -> bool,
    pq: spec_fn(int, int) -> bool,
)
    requires
        forall|z: int| z_lo <= z < z_end ==> !(#[trigger] p(x, z) && q(x, z)),
        forall|z: int| z_lo <= z < z_end ==> #[trigger] pq(x, z) == (p(x, z) || q(x, z)),
    ensures
        row_count(x, z_lo, z_end, pq) == row_count(x, z_lo, z_end, p) + row_count(
            x,
            z_lo,
            z_end,
            q,
        ),
    decreases z_end - z_lo,
{
    if z_end > z_lo {
        lemma_row_disjoint(x, z_lo, z_end - 1, p, q, pq);
    }
}

/// A row counts no more for a weaker predicate than for a stronger one.
pub proof fn lemma_row_mono(
    x: int,
    z_lo: int,
    z_end: int,
    p: spec_fn(int, int) -> bool,
    q: spec_fn(int, int) -> bool,
)
    requires
        forall|z: int| z_lo <= z < z_end && #[trigger] p(x, z) ==> q(x, z),
    ensures
        row_count(x, z_lo, z_end, p) <= row_count(x, z_lo, z_end, q),
    decreases z_end - z_lo,
{
    if z_end > z_lo {
        lemma_row_mono(x, z_lo, z_end - 1, p, q);
    }
}

/// Shrinking a row to the part where the predicate can hold does not change its count.
pub proof fn lemma_row_shrink(
    x: int,
    z_lo: int,
    a: int,
    b: int,
    z_end: int,
    p: spec_fn(int, int) -> bool,
)
    requires
        z_lo <= a <= b <= z_end,
        forall|z: int| z_lo <= z < z_end && #[trigger] p(x, z) ==> a <= z < b,
    ensures
        row_count(x, z_lo, z_end, p) == row_count(x, a, b, p),
{
    lemma_row_split(x, z_lo, a, z_end, p);
    lemma_row_split(x, a, b, z_end, p);
    lemma_row_zero(x, z_lo, a, p);
    lemma_row_zero(x, b, z_end, p);
}

pub proof fn lemma_grid_split(
    x_lo: int,
    m: int,
    x_end: int,
    z_lo: int,
    z_end: int,
    p: spec_fn(int, int) -> bool,
)
    requires
        x_lo <= m <= x_end,
    ensures
        grid_count(x_lo, x_end, z_lo, z_end, p) == grid_count(x_lo, m, z_lo, z_end, p)
            + grid_count(m, x_end, z_lo, z_end, p),
    decreases x_end - m,
{
    if x_end > m {
        lemma_grid_split(x_lo, m, x_end - 1, z_lo, z_end, p);
    }
}

/// Two grids whose rows count alike count alike.
pub proof fn lemma_grid_rows_eq(
    x_lo: int,
    x_end: int,
    z_lo: int,
    z_end: int,
    p: spec_fn(int, int) -> bool,
    z_lo2: int,
    z_end2: int,
    q: spec_fn(int, int) -> bool,
)
    requires
        forall|x: int|
            x_lo <= x < x_end ==> #[trigger] row_count(x, z_lo, z_end, p) == row_count(
                x,
                z_lo2,
                z_end2,
                q,
            ),
    ensures
        grid_count(x_lo, x_end, z_lo, z_end, p) == grid_count(x_lo, x_end, z_lo2, z_end2, q),
    decreases x_end - x_lo,
{
    if x_end > x_lo {
        lemma_grid_rows_eq(x_lo, x_end - 1, z_lo, z_end, p, z_lo2, z_end2, q);
        assert(row_count(x_end - 1, z_lo, z_end, p) == row_count(x_end - 1, z_lo2, z_end2, q));
    }
}

pub proof fn lemma_grid_zero(
    x_lo: int,
    x_end: int,
    z_lo: int,
    z_end: int,
    p: spec_fn(int, int) -> bool,
)
    requires
        forall|x: int, z: int| x_lo <= x < x_end && z_lo <= z < z_end ==> !#[trigger] p(x, z),
    ensures
        grid_count(x_lo, x_end, z_lo, z_end, p) == 0,
    decreases x_end - x_lo,
{
    if x_end > x_lo {
        lemma_grid_zero(x_lo, x_end - 1, z_lo, z_end, p);
        lemma_row_zero(x_end - 1, z_lo, z_end, p);
    }
}

pub proof fn lemma_grid_full(
    x_lo: int,
    x_end: int,
    z_lo: int,
    z_end: int,
    p: spec_fn(int, int) -> bool,
)
    requires
        x_lo <= x_end,
        z_lo <= z_end,
        forall|x: int, z: int| x_lo <= x < x_end && z_lo <= z < z_end ==> #[trigger] p(x, z),
    ensures
        grid_count(x_lo, x_end, z_lo, z_end, p) == (x_end - x_lo) * (z_end - z_lo),
    decreases x_end - x_lo,
{
    if x_end > x_lo {
        lemma_grid_full(x_lo, x_end - 1, z_lo, z_end, p);
        lemma_row_full(x_end - 1, z_lo, z_end, p);
        assert((x_end - x_lo) * (z_end - z_lo) == (x_end - 1 - x_lo) * (z_end - z_lo) + (z_end
            - z_lo)) by (nonlinear_arith);
    } else {
        assert((x_end - x_lo) * (z_end - z_lo) == 0) by (nonlinear_arith)
            requires
                x_end == x_lo,
        ;
    }
}

pub proof fn lemma_grid_disjoint(
    x_lo: int,
    x_end: int,
    z_lo: int,
    z_end: int,
    p: spec_fn(int, int) -> bool,
    q: spec_fn(int, int) -> bool,
    pq: spec_fn(int, int) -> bool,
)
    requires
        forall|x: int, z: int| x_lo <= x < x_end && z_lo <= z < z_end ==> !(#[trigger] p(x, z) && q(x, z)),
        forall|x: int, z: int|
            x_lo <= x < x_end && z_lo <= z < z_end ==> #[trigger] pq(x, z) == (p(x, z) || q(x, z)),
    ensures
        grid_count(x_lo, x_end, z_lo, z_end, pq) == grid_count(x_lo, x_end, z_lo, z_end, p)
            + grid_count(x_lo, x_end, z_lo, z_end, q),
    decreases x_end - x_lo,
{
    if x_end > x_lo {
        lemma_grid_disjoint(x_lo, x_end - 1, z_lo, z_end, p, q, pq);
        lemma_row_disjoint(x_end - 1, z_lo, z_end, p, q, pq);
    }
}

pub proof fn lemma_grid_mono(
    x_lo: int,
    x_end: int,
    z_lo: int,
    z_end: int,
    p: spec_fn(int, int) -> bool,
    q: spec_fn(int, int) -> bool,
)
    requires
        forall|x: int, z: int| x_lo <= x < x_end && z_lo <= z < z_end && #[trigger] p(x, z) ==> q(x, z),
    ensures
        grid_count(x_lo, x_end, z_lo, z_end, p) <= grid_count(x_lo, x_end, z_lo, z_end, q),
    decreases x_end - x_lo,
{
    if x_end > x_lo {
        lemma_grid_mono(x_lo, x_end - 1, z_lo, z_end, p, q);
        lemma_row_mono(x_end - 1, z_lo, z_end, p, q);
    }
}

/// Counting over a square depends only on the predicate's values in that square.
pub proof fn lemma_square_ext(r: int, p: spec_fn(int, int) -> bool, q: spec_fn(int, int) -> bool)
    requires
        forall|x: int, z: int| -r <= x <= r && -r <= z <= r ==> #[trigger] p(x, z) == q(x, z),
    ensures
        square_count(r, p) == square_count(r, q),
{
    assert forall|x: int| -r <= x < r + 1 implies #[trigger] row_count(x, -r, r + 1, p)
        == row_count(x, -r, r + 1, q) by {
        assert forall|z: int| -r <= z < r + 1 implies #[trigger] p(x, z) == q(x, z) by {}
        lemma_row_ext(x, -r, r + 1, p, q);
    }
    lemma_grid_rows_eq(-r, r + 1, -r, r + 1, p, -r, r + 1, q);
}

/// Counting a predicate that only holds inside the square of radius `s` gives the
/// same number over any larger square.
pub proof fn lemma_square_shrink(s: int, r: int, p: spec_fn(int, int) -> bool)
    requires
        0 <= s <= r,
        forall|x: int, z: int| #[trigger] p(x, z) ==> -s <= x <= s && -s <= z <= s,
    ensures
        square_count(r, p) == square_count(s, p),
{
    lemma_grid_split(-r, -s, r + 1, -r, r + 1, p);
    lemma_grid_split(-s, s + 1, r + 1, -r, r + 1, p);
    lemma_grid_zero(-r, -s, -r, r + 1, p);
    lemma_grid_zero(s + 1, r + 1, -r, r + 1, p);
    assert forall|x: int| -s <= x < s + 1 implies #[trigger] row_count(x, -r, r + 1, p)
        == row_count(x, -s, s + 1, p) by {
        lemma_row_shrink(x, -r, -s, s + 1, r + 1, p);
    }
    lemma_grid_rows_eq(-s, s + 1, -r, r + 1, p, -s, s + 1, p);
}

} // verus!
