//! Chunk coordinates of a ring (circular or square) around a center, nearest first,
//! and how many chunks such a ring holds.
use crate::dist_sort::{
    dist2, dist_class, int_points, is_stable_dist_sort, lemma_nearest_first, nearest_first,
    small_points, sort_by_distance,
};
use crate::grid::{
    grid_count, grid_points, lemma_grid_count_nonneg, lemma_grid_disjoint, lemma_grid_full, lemma_grid_len, lemma_square_ext,
    lemma_square_shrink, row_count, row_points, square_count, square_points,
};
use vstd::prelude::*;

verus! {

broadcast use vstd::seq_lib::group_seq_properties;

/// The squared radius below which a ring starting at `radius_start` leaves chunks out
/// (`-1`, leaving nothing out, when the ring starts at the center).
pub open spec fn inner_radius_sq(radius_start: int) -> int {
    if radius_start > 0 {
        (radius_start - 1) * (radius_start - 1)
    } else {
        -1
    }
}

/// Whether `(x, z)` lies in the square hole of a square ring starting at `radius_start`.
pub open spec fn in_inner_square(x: int, z: int, radius_start: int) -> bool {
    radius_start > 0 && -(radius_start - 1) <= x <= radius_start - 1 && -(radius_start - 1) <= z
        <= radius_start - 1
}

/// Which offsets of the square `[-radius_end, radius_end]^2` belong to the ring.
pub open spec fn ring_pred(radius_start: int, radius_end: int, circular: bool) -> spec_fn(
    int,
    int,
) -> bool {
    |x: int, z: int|
        if circular {
            x * x + z * z <= radius_end * radius_end && x * x + z * z > inner_radius_sq(
                radius_start,
            )
        } else {
            !in_inner_square(x, z, radius_start)
        }
}

/// The offsets of the ring, `x` major and `z` minor, before sorting.
pub open spec fn ring_offsets(radius_start: int, radius_end: int, circular: bool) -> Seq<
    (int, int),
> {
    square_points(radius_end, ring_pred(radius_start, radius_end, circular))
}

/// Offsets with `x * x + z * z <= r * r`.
pub open spec fn disk_pred(r: int) -> spec_fn(int, int) -> bool {
    |x: int, z: int| x * x + z * z <= r * r
}

/// Every argument combination for which the ring can be listed without an `i32` overflow.
pub open spec fn ring_args_ok(radius_start: int, radius_end: int, circular: bool) -> bool {
    &&& radius_end <= 32767
    &&& radius_end > i32::MIN
    &&& circular ==> radius_end >= -46340
    &&& circular && radius_start > 0 ==> radius_start <= 46341
}

/// Every chunk of the ring, moved to the center, stays a valid `i32` coordinate.
pub open spec fn ring_fits_center(
    center_x: int,
    center_z: int,
    radius_start: int,
    radius_end: int,
    circular: bool,
) -> bool {
    forall|i: int|
        0 <= i < ring_offsets(radius_start, radius_end, circular).len() ==> i32::MIN <= center_x
            + (#[trigger] ring_offsets(radius_start, radius_end, circular)[i]).0 <= i32::MAX
            && i32::MIN <= center_z + ring_offsets(radius_start, radius_end, circular)[i].1
            <= i32::MAX
}

/// The ring's chunks around `(center_x, center_z)`, nearest to the center first.
pub open spec fn sorted_ring(
    center_x: int,
    center_z: int,
    radius_start: int,
    radius_end: int,
    circular: bool,
) -> Seq<(int, int)> {
    nearest_first(ring_offsets(radius_start, radius_end, circular)).map_values(
        |c: (int, int)| (c.0 + center_x, c.1 + center_z),
    )
}

/// `s`, each offset taken relative to `(center_x, center_z)`.
pub open spec fn offsets_from(s: Seq<(int, int)>, center_x: int, center_z: int) -> Seq<
    (int, int),
> {
    s.map_values(|c: (int, int)| (c.0 - center_x, c.1 - center_z))
}

proof fn lemma_sq_bound(a: int, r: int)
    requires
        -r <= a <= r,
        r <= 32767,
    ensures
        0 <= a * a <= r * r,
        r * r <= 1073676289,
{
    assert(0 <= a * a <= r * r) by (nonlinear_arith)
        requires
            -r <= a <= r,
    ;
    assert(r * r <= 1073676289) by (nonlinear_arith)
        requires
            0 <= r <= 32767,
    ;
}

proof fn lemma_points_push(v: Seq<(i32, i32)>, c: (i32, i32))
    ensures
        int_points(v.push(c)) == int_points(v).push((c.0 as int, c.1 as int)),
{
    assert(int_points(v.push(c)) =~= int_points(v).push((c.0 as int, c.1 as int)));
}

/// Every point of a grid lies in the grid.
proof fn lemma_grid_points_in(
    x_lo: int,
    x_end: int,
    z_lo: int,
    z_end: int,
    p: spec_fn(int, int) -> bool,
)
    ensures
        forall|i: int|
            0 <= i < grid_points(x_lo, x_end, z_lo, z_end, p).len() ==> x_lo <= (
            #[trigger] grid_points(x_lo, x_end, z_lo, z_end, p)[i]).0 < x_end && z_lo
                <= grid_points(x_lo, x_end, z_lo, z_end, p)[i].1 < z_end && p(
                grid_points(x_lo, x_end, z_lo, z_end, p)[i].0,
                grid_points(x_lo, x_end, z_lo, z_end, p)[i].1,
            ),
    decreases x_end - x_lo,
{
    if x_end > x_lo {
        lemma_grid_points_in(x_lo, x_end - 1, z_lo, z_end, p);
        lemma_row_points_in(x_end - 1, z_lo, z_end, p);
        let g = grid_points(x_lo, x_end - 1, z_lo, z_end, p);
        let r = row_points(x_end - 1, z_lo, z_end, p);
        assert forall|i: int|
            0 <= i < (g + r).len() implies x_lo <= (#[trigger] (g + r)[i]).0 < x_end && z_lo <= (
            g + r)[i].1 < z_end && p((g + r)[i].0, (g + r)[i].1) by {
            if i < g.len() {
                assert((g + r)[i] == g[i]);
            } else {
                assert((g + r)[i] == r[i - g.len()]);
            }
        }
    }
}

proof fn lemma_row_points_in(x: int, z_lo: int, z_end: int, p: spec_fn(int, int) -> bool)
    ensures
        forall|i: int|
            0 <= i < row_points(x, z_lo, z_end, p).len() ==> (#[trigger] row_points(
                x,
                z_lo,
                z_end,
                p,
            )[i]).0 == x && z_lo <= row_points(x, z_lo, z_end, p)[i].1 < z_end && p(
                x,
                row_points(x, z_lo, z_end, p)[i].1,
            ),
    decreases z_end - z_lo,
{
    if z_end > z_lo {
        lemma_row_points_in(x, z_lo, z_end - 1, p);
        let g = row_points(x, z_lo, z_end - 1, p);
        let t = if p(x, z_end - 1) {
            seq![(x, z_end - 1)]
        } else {
            Seq::empty()
        };
        assert forall|i: int| 0 <= i < (g + t).len() implies (#[trigger] (g + t)[i]).0 == x
            && z_lo <= (g + t)[i].1 < z_end && p(x, (g + t)[i].1) by {
            if i < g.len() {
                assert((g + t)[i] == g[i]);
            } else {
                assert((g + t)[i] == t[i - g.len()]);
            }
        }
    }
}

/// Whether `(x, z)` belongs to the ring, computed with `i32` arithmetic.
fn in_ring(x: i32, z: i32, radius_start: i32, radius_end: i32, circular: bool) -> (b: bool)
    requires
        ring_args_ok(radius_start as int, radius_end as int, circular),
        -radius_end <= x <= radius_end,
        -radius_end <= z <= radius_end,
    ensures
        b == ring_pred(radius_start as int, radius_end as int, circular)(x as int, z as int),
{
    if circular {
        proof {
            lemma_sq_bound(x as int, radius_end as int);
            lemma_sq_bound(z as int, radius_end as int);
            if radius_start > 0 {
                assert((radius_start - 1) * (radius_start - 1) <= 46340 * 46340) by (
                nonlinear_arith)
                    requires
                        0 <= radius_start - 1 <= 46340,
                ;
            }
        }
        let radius_end_squared = radius_end * radius_end;
        let radius_start_squared = if radius_start > 0 {
            (radius_start - 1) * (radius_start - 1)
        } else {
            -1
        };
        let distance_squared = x * x + z * z;
        distance_squared <= radius_end_squared && distance_squared > radius_start_squared
    } else {
        let in_start_square = if radius_start > 0 {
            let start_r = radius_start - 1;
            x >= -start_r && x <= start_r && z >= -start_r && z <= start_r
        } else {
            false
        };
        !in_start_square
    }
}

/// The ring's offsets, `x` major and `z` minor, before sorting.
fn ring_offset_list(radius_start: i32, radius_end: i32, circular: bool) -> (v: Vec<(i32, i32)>)
    requires
        ring_args_ok(radius_start as int, radius_end as int, circular),
    ensures
        int_points(v@) == ring_offsets(radius_start as int, radius_end as int, circular),
        small_points(v@),
        forall|i: int|
            0 <= i < v.len() ==> -radius_end <= (#[trigger] v@[i]).0 <= radius_end && -radius_end
                <= v@[i].1 <= radius_end,
{
    let ghost p = ring_pred(radius_start as int, radius_end as int, circular);
    let ghost lo = -radius_end;
    let ghost hi = radius_end + 1;
    let mut v: Vec<(i32, i32)> = Vec::new();
    if radius_end < 0 {
        return v;
    }
    let mut x: i32 = -radius_end;
    while x <= radius_end
        invariant
            0 <= radius_end <= 32767,
            ring_args_ok(radius_start as int, radius_end as int, circular),
            p == ring_pred(radius_start as int, radius_end as int, circular),
            lo == -radius_end,
            hi == radius_end + 1,
            -radius_end <= x <= radius_end + 1,
            int_points(v@) == grid_points(lo, x as int, lo, hi, p),
            forall|i: int|
                0 <= i < v.len() ==> -radius_end <= (#[trigger] v@[i]).0 <= radius_end
                    && -radius_end <= v@[i].1 <= radius_end,
        decreases radius_end + 1 - x,
    {
        let mut z: i32 = -radius_end;
        while z <= radius_end
            invariant
                0 <= radius_end <= 32767,
                ring_args_ok(radius_start as int, radius_end as int, circular),
                p == ring_pred(radius_start as int, radius_end as int, circular),
                lo == -radius_end,
                hi == radius_end + 1,
                -radius_end <= x <= radius_end,
                -radius_end <= z <= radius_end + 1,
                int_points(v@) == grid_points(lo, x as int, lo, hi, p) + row_points(
                    x as int,
                    lo,
                    z as int,
                    p,
                ),
                forall|i: int|
                    0 <= i < v.len() ==> -radius_end <= (#[trigger] v@[i]).0 <= radius_end
                        && -radius_end <= v@[i].1 <= radius_end,
            decreases radius_end + 1 - z,
        {
            let keep = in_ring(x, z, radius_start, radius_end, circular);
            let ghost before = int_points(v@);
            let ghost raw_before = v@;
            if keep {
                v.push((x, z));
                proof {
                    lemma_points_push(raw_before, (x, z));
                }
            }
            proof {
                let g = grid_points(lo, x as int, lo, hi, p);
                let t = if p(x as int, z as int) {
                    seq![(x as int, z as int)]
                } else {
                    Seq::<(int, int)>::empty()
                };
                assert(row_points(x as int, lo, z + 1, p) == row_points(x as int, lo, z as int, p)
                    + t);
                assert(g + (row_points(x as int, lo, z as int, p) + t) == (g + row_points(
                    x as int,
                    lo,
                    z as int,
                    p,
                )) + t);
                if keep {
                    assert(int_points(v@) == before.push((x as int, z as int)));
                    assert(before.push((x as int, z as int)) == before + t);
                } else {
                    assert(before + t == before);
                }
            }
            z = z + 1;
        }
        proof {
            assert(grid_points(lo, x + 1, lo, hi, p) == grid_points(lo, x as int, lo, hi, p)
                + row_points(x as int, lo, hi, p));
        }
        x = x + 1;
    }
    proof {
        assert forall|i: int| 0 <= i < v.len() implies -32767 <= #[trigger] v@[i].0 <= 32767
            && -32767 <= v@[i].1 <= 32767 by {
            assert(-radius_end <= v@[i].0 <= radius_end);
        }
    }
    v
}

/// All chunk coordinates of the ring between `radius_start` and `radius_end` around
/// `(center_x, center_z)`, nearest to the center first.
///
/// A circular ring holds the offsets with `(radius_start - 1)^2 < x^2 + z^2 <= radius_end^2`
/// (every offset of the disk of radius `radius_end` when `radius_start <= 0`); a square
/// ring holds the offsets of the square of radius `radius_end` outside the square of
/// radius `radius_start - 1`. Chunks at the same distance keep the order of the scan,
/// `x` major and `z` minor.
pub fn generate_radius_range_chunk_coords(
    center_x: i32,
    center_z: i32,
    radius_start: i32,
    radius_end: i32,
    circular: bool,
) -> (coords: Vec<(i32, i32)>)
    requires
        ring_args_ok(radius_start as int, radius_end as int, circular),
        ring_fits_center(
            center_x as int,
            center_z as int,
            radius_start as int,
            radius_end as int,
            circular,
        ),
    ensures
        int_points(coords@) == sorted_ring(
            center_x as int,
            center_z as int,
            radius_start as int,
            radius_end as int,
            circular,
        ),
        is_stable_dist_sort(
            offsets_from(int_points(coords@), center_x as int, center_z as int),
            ring_offsets(radius_start as int, radius_end as int, circular),
        ),
{
    let offsets = ring_offset_list(radius_start, radius_end, circular);
    let sorted = sort_by_distance(&offsets);
    let ghost ring = ring_offsets(radius_start as int, radius_end as int, circular);
    let ghost so = int_points(sorted@);
    proof {
        // every sorted offset is an offset of the ring, so it fits around the center
        assert forall|i: int| 0 <= i < so.len() implies i32::MIN <= center_x + (#[trigger] so[i]).0
            <= i32::MAX && i32::MIN <= center_z + so[i].1 <= i32::MAX by {
            let d = dist2(so[i]);
            lemma_class_member(so, d, i);
            let k = choose|k: int|
                0 <= k < dist_class(so, d).len() && dist_class(so, d)[k] == so[i];
            assert(dist_class(so, d) == dist_class(ring, d));
            lemma_class_member_back(ring, d, k);
        }
    }
    let mut coords: Vec<(i32, i32)> = Vec::new();
    let mut i: usize = 0;
    while i < sorted.len()
        invariant
            so == int_points(sorted@),
            i <= sorted.len(),
            coords.len() == i,
            forall|k: int|
                0 <= k < so.len() ==> i32::MIN <= center_x + (#[trigger] so[k]).0 <= i32::MAX
                    && i32::MIN <= center_z + so[k].1 <= i32::MAX,
            offsets_from(int_points(coords@), center_x as int, center_z as int) == so.take(
                i as int,
            ),
        decreases sorted.len() - i,
    {
        let c = sorted[i];
        assert(so[i as int] == (c.0 as int, c.1 as int));
        let moved = (center_x + c.0, center_z + c.1);
        let ghost before = int_points(coords@);
        let ghost raw_before = coords@;
        coords.push(moved);
        proof {
            lemma_points_push(raw_before, moved);
            assert(offsets_from(before.push((moved.0 as int, moved.1 as int)), center_x as int, center_z as int)
                =~= offsets_from(before, center_x as int, center_z as int).push(so[i as int]));
            assert(so.take(i + 1) == so.take(i as int).push(so[i as int]));
        }
        i = i + 1;
    }
    proof {
        assert(so.take(i as int) == so);
        lemma_nearest_first(so, ring);
        let shifted = so.map_values(|c: (int, int)| (c.0 + center_x, c.1 + center_z));
        let got = int_points(coords@);
        assert(offsets_from(got, center_x as int, center_z as int) == so);
        assert forall|k: int| 0 <= k < got.len() implies #[trigger] got[k] == shifted[k] by {
            assert(offsets_from(got, center_x as int, center_z as int)[k] == so[k]);
        }
        assert(got =~= shifted);
    }
    coords
}

proof fn lemma_class_member(s: Seq<(int, int)>, d: int, i: int)
    requires
        0 <= i < s.len(),
        dist2(s[i]) == d,
    ensures
        dist_class(s, d).contains(s[i]),
{
    s.lemma_filter_contains(|c: (int, int)| dist2(c) == d, i);
}

proof fn lemma_class_member_back(s: Seq<(int, int)>, d: int, k: int)
    requires
        0 <= k < dist_class(s, d).len(),
    ensures
        s.contains(dist_class(s, d)[k]),
{
    #[allow(deprecated)]
    s.filter_lemma(|c: (int, int)| dist2(c) == d);
    s.lemma_filter_contains_rev(|c: (int, int)| dist2(c) == d, dist_class(s, d)[k]);
}

} // verus!

verus! {

/// What `length_of_radius_range_chunk_coords` returns, before the cast to `usize`.
pub open spec fn ring_len_formula(radius_start: int, radius_end: int, circular: bool) -> int {
    if circular {
        square_count(radius_end, disk_pred(radius_end)) - if radius_start > 0 {
            square_count(radius_start - 1, disk_pred(radius_start - 1))
        } else {
            0
        }
    } else {
        (2 * radius_end + 1) * (2 * radius_end + 1) - if radius_start > 0 {
            (2 * (radius_start - 1) + 1) * (2 * (radius_start - 1) + 1)
        } else {
            0
        }
    }
}

/// The arguments for which counting the ring neither overflows nor underflows.
pub open spec fn ring_len_args_ok(radius_start: int, radius_end: int, circular: bool) -> bool {
    if circular {
        &&& -46340 <= radius_end <= 32767
        &&& radius_start > 0 ==> radius_start - 1 <= 32767
        &&& radius_start <= 0 || radius_start - 1 <= radius_end
    } else {
        &&& -23170 <= radius_end <= 23169
        &&& radius_start > 0 ==> radius_start - 1 <= 23169
    }
}

/// The number of offsets of the square of radius `r` with `x^2 + z^2 <= r^2`.
pub(crate) fn count_disk(r: i32) -> (n: usize)
    requires
        -46340 <= r <= 32767,
    ensures
        n == square_count(r as int, disk_pred(r as int)),
{
    let ghost p = disk_pred(r as int);
    proof {
        assert(0 <= r * r <= 46340 * 46340) by (nonlinear_arith)
            requires
                -46340 <= r <= 46340,
        ;
    }
    let radius_squared = r * r;
    let mut total: usize = 0;
    if r < 0 {
        return 0;
    }
    let ghost lo = -r as int;
    let ghost w = 2 * r + 1;
    let mut x: i32 = -r;
    while x <= r
        invariant
            0 <= r <= 32767,
            radius_squared == r * r,
            p == disk_pred(r as int),
            lo == -r,
            w == 2 * r + 1,
            -r <= x <= r + 1,
            total == grid_count(lo, x as int, lo, r + 1, p),
            total <= (x - lo) * w,
        decreases r + 1 - x,
    {
        let mut z: i32 = -r;
        while z <= r
            invariant
                0 <= r <= 32767,
                radius_squared == r * r,
                p == disk_pred(r as int),
                lo == -r,
                w == 2 * r + 1,
                -r <= x <= r,
                -r <= z <= r + 1,
                total == grid_count(lo, x as int, lo, r + 1, p) + row_count(
                    x as int,
                    lo,
                    z as int,
                    p,
                ),
                total <= (x - lo) * w + (z - lo),
            decreases r + 1 - z,
        {
            proof {
                lemma_sq_bound(x as int, r as int);
                lemma_sq_bound(z as int, r as int);
                assert((x - lo) * w + (z - lo) < 65535 * 65535) by (nonlinear_arith)
                    requires
                        0 <= x - lo < w,
                        0 <= z - lo < w,
                        w <= 65535,
                ;
            }
            let distance_squared = x * x + z * z;
            if distance_squared <= radius_squared {
                total = total + 1;
            }
            z = z + 1;
        }
        proof {
            assert((x - lo) * w + (r + 1 - lo) == (x + 1 - lo) * w) by (nonlinear_arith)
                requires
                    w == r + 1 - lo,
            ;
        }
        x = x + 1;
    }
    total
}

/// The number of chunks in the ring between `radius_start` and `radius_end`: for a
/// circular ring the offsets of the disk of radius `radius_end` less those of the disk of
/// radius `radius_start - 1`; for a square ring the difference of the two squares'
/// areas, cast to `usize`.
pub fn length_of_radius_range_chunk_coords(radius_start: i32, radius_end: i32, circular: bool) -> (n:
    usize)
    requires
        ring_len_args_ok(radius_start as int, radius_end as int, circular),
    ensures
        n == ring_len_formula(radius_start as int, radius_end as int, circular) as usize,
        circular ==> n == ring_len_formula(radius_start as int, radius_end as int, circular),
{
    if circular {
        let total_in_end = count_disk(radius_end);
        let total_in_start = if radius_start > 0 {
            count_disk(radius_start - 1)
        } else {
            0
        };
        proof {
            if radius_start > 0 {
                lemma_disk_split(radius_start as int - 1, radius_end as int);
                lemma_grid_count_nonneg(
                    -radius_end as int,
                    radius_end + 1,
                    -radius_end as int,
                    radius_end + 1,
                    ring_pred(radius_start as int, radius_end as int, true),
                );
            }
        }
        total_in_end - total_in_start
    } else {
        proof {
            assert(0 <= (2 * radius_end + 1) * (2 * radius_end + 1) <= 46339 * 46339) by (
            nonlinear_arith)
                requires
                    -23170 <= radius_end <= 23169,
            ;
            if radius_start > 0 {
                assert(0 <= (2 * (radius_start - 1) + 1) * (2 * (radius_start - 1) + 1) <= 46339
                    * 46339) by (nonlinear_arith)
                    requires
                        0 <= radius_start - 1 <= 23169,
                ;
            }
        }
        let outer = (2 * radius_end + 1) * (2 * radius_end + 1);
        let inner = if radius_start > 0 {
            let r = radius_start - 1;
            (2 * r + 1) * (2 * r + 1)
        } else {
            0
        };
        (outer - inner) as usize
    }
}

proof fn lemma_nonneg_sum_sq(x: int, z: int)
    ensures
        x * x + z * z >= 0,
        x * x <= x * x + z * z,
        z * z <= x * x + z * z,
{
    assert(x * x >= 0 && z * z >= 0) by (nonlinear_arith);
}

proof fn lemma_sq_le_bound(x: int, s: int)
    requires
        s >= 0,
        x * x <= s * s,
    ensures
        -s <= x <= s,
{
    if x > s {
        assert(x * x > s * s) by (nonlinear_arith)
            requires
                x > s >= 0,
        ;
    }
    if x < -s {
        assert(x * x > s * s) by (nonlinear_arith)
            requires
                x < -s,
                s >= 0,
        ;
    }
}

/// The disk of radius `re` splits into the ring from `s + 1` to `re` and the disk of
/// radius `s`.
proof fn lemma_disk_split(s: int, re: int)
    requires
        0 <= s <= re,
    ensures
        square_count(re, disk_pred(re)) == square_count(re, ring_pred(s + 1, re, true))
            + square_count(s, disk_pred(s)),
{
    let p = ring_pred(s + 1, re, true);
    let q = disk_pred(s);
    let pq = disk_pred(re);
    assert(s * s <= re * re) by (nonlinear_arith)
        requires
            0 <= s <= re,
    ;
    assert forall|x: int, z: int|
        -re <= x < re + 1 && -re <= z < re + 1 implies !(#[trigger] p(x, z) && q(x, z)) by {}
    assert forall|x: int, z: int|
        -re <= x < re + 1 && -re <= z < re + 1 implies #[trigger] pq(x, z) == (p(x, z) || q(
            x,
            z,
        )) by {}
    lemma_grid_disjoint(-re, re + 1, -re, re + 1, p, q, pq);
    assert forall|x: int, z: int| #[trigger] q(x, z) implies -s <= x <= s && -s <= z <= s by {
        lemma_nonneg_sum_sq(x, z);
        lemma_sq_le_bound(x, s);
        lemma_sq_le_bound(z, s);
    }
    lemma_square_shrink(s, re, q);
}

/// The number that `length_of_radius_range_chunk_coords` computes is the number of
/// chunks that `generate_radius_range_chunk_coords` lists for the same ring, whenever the
/// ring's start lies at most one past its end (and, for a square ring, its end is not
/// negative).
pub proof fn lemma_ring_length_matches_list(radius_start: int, radius_end: int, circular: bool)
    requires
        radius_start <= 0 || radius_start - 1 <= radius_end,
        !circular ==> radius_end >= 0,
    ensures
        ring_len_formula(radius_start, radius_end, circular) == ring_offsets(
            radius_start,
            radius_end,
            circular,
        ).len(),
{
    let re = radius_end;
    let p = ring_pred(radius_start, re, circular);
    lemma_grid_len(-re, re + 1, -re, re + 1, p);
    if circular {
        if radius_start > 0 {
            lemma_disk_split(radius_start - 1, re);
        } else {
            assert forall|x: int, z: int| -re <= x <= re && -re <= z <= re implies #[trigger] p(
                x,
                z,
            ) == disk_pred(re)(x, z) by {
                lemma_nonneg_sum_sq(x, z);
            }
            lemma_square_ext(re, p, disk_pred(re));
        }
    } else {
        let all = |x: int, z: int| true;
        lemma_grid_full(-re, re + 1, -re, re + 1, all);
        assert((re + 1 - -re) * (re + 1 - -re) == (2 * re + 1) * (2 * re + 1));
        if radius_start > 0 {
            let s = radius_start - 1;
            let q = |x: int, z: int| in_inner_square(x, z, radius_start);
            assert forall|x: int, z: int|
                -re <= x < re + 1 && -re <= z < re + 1 implies !(#[trigger] p(x, z) && q(x, z)) by {}
            assert forall|x: int, z: int|
                -re <= x < re + 1 && -re <= z < re + 1 implies #[trigger] all(x, z) == (p(x, z)
                    || q(x, z)) by {}
            lemma_grid_disjoint(-re, re + 1, -re, re + 1, p, q, all);
            assert forall|x: int, z: int| #[trigger] q(x, z) implies -s <= x <= s && -s <= z
                <= s by {}
            lemma_square_shrink(s, re, q);
            assert forall|x: int, z: int| -s <= x < s + 1 && -s <= z < s + 1 implies #[trigger] q(
                x,
                z,
            ) by {}
            lemma_grid_full(-s, s + 1, -s, s + 1, q);
            assert((s + 1 - -s) * (s + 1 - -s) == (2 * s + 1) * (2 * s + 1));
        } else {
            assert forall|x: int, z: int| -re <= x <= re && -re <= z <= re implies #[trigger] p(
                x,
                z,
            ) == all(x, z) by {}
            lemma_square_ext(re, p, all);
        }
    }
}

proof fn lemma_row_points_has(x: int, z_lo: int, z_end: int, p: spec_fn(int, int) -> bool, z: int)
    requires
        z_lo <= z < z_end,
        p(x, z),
    ensures
        row_points(x, z_lo, z_end, p).contains((x, z)),
    decreases z_end - z_lo,
{
    let g = row_points(x, z_lo, z_end - 1, p);
    let t = if p(x, z_end - 1) {
        seq![(x, z_end - 1)]
    } else {
        Seq::empty()
    };
    if z == z_end - 1 {
        assert((g + t)[g.len() as int] == (x, z));
    } else {
        lemma_row_points_has(x, z_lo, z_end - 1, p, z);
        let i = choose|i: int| 0 <= i < g.len() && g[i] == (x, z);
        assert((g + t)[i] == (x, z));
    }
}

proof fn lemma_grid_points_has(
    x_lo: int,
    x_end: int,
    z_lo: int,
    z_end: int,
    p: spec_fn(int, int) -> bool,
    x: int,
    z: int,
)
    requires
        x_lo <= x < x_end,
        z_lo <= z < z_end,
        p(x, z),
    ensures
        grid_points(x_lo, x_end, z_lo, z_end, p).contains((x, z)),
    decreases x_end - x_lo,
{
    let g = grid_points(x_lo, x_end - 1, z_lo, z_end, p);
    let r = row_points(x_end - 1, z_lo, z_end, p);
    if x == x_end - 1 {
        lemma_row_points_has(x, z_lo, z_end, p, z);
        let i = choose|i: int| 0 <= i < r.len() && r[i] == (x, z);
        assert((g + r)[g.len() + i] == (x, z));
    } else {
        lemma_grid_points_has(x_lo, x_end - 1, z_lo, z_end, p, x, z);
        let i = choose|i: int| 0 <= i < g.len() && g[i] == (x, z);
        assert((g + r)[i] == (x, z));
    }
}

/// An offset lies in the ring exactly when it lies in the square of its end radius and
/// satisfies the ring's predicate.
proof fn lemma_ring_offsets_contains(radius_start: int, radius_end: int, circular: bool, c: (int, int))
    ensures
        ring_offsets(radius_start, radius_end, circular).contains(c) <==> (-radius_end <= c.0
            <= radius_end && -radius_end <= c.1 <= radius_end && ring_pred(
            radius_start,
            radius_end,
            circular,
        )(c.0, c.1)),
{
    let p = ring_pred(radius_start, radius_end, circular);
    let s = ring_offsets(radius_start, radius_end, circular);
    lemma_grid_points_in(-radius_end, radius_end + 1, -radius_end, radius_end + 1, p);
    if s.contains(c) {
        let i = choose|i: int| 0 <= i < s.len() && s[i] == c;
        assert(s[i] == c);
    }
    if -radius_end <= c.0 <= radius_end && -radius_end <= c.1 <= radius_end && p(c.0, c.1) {
        lemma_grid_points_has(-radius_end, radius_end + 1, -radius_end, radius_end + 1, p, c.0, c.1);
    }
}

/// A stable sort by distance holds the same offsets as its input.
proof fn lemma_stable_sort_contains(out: Seq<(int, int)>, inp: Seq<(int, int)>, c: (int, int))
    requires
        is_stable_dist_sort(out, inp),
    ensures
        out.contains(c) <==> inp.contains(c),
{
    let d = dist2(c);
    if out.contains(c) {
        let i = choose|i: int| 0 <= i < out.len() && out[i] == c;
        lemma_class_member(out, d, i);
        assert(dist_class(out, d) == dist_class(inp, d));
        let k = choose|k: int| 0 <= k < dist_class(inp, d).len() && dist_class(inp, d)[k] == c;
        lemma_class_member_back(inp, d, k);
    }
    if inp.contains(c) {
        let i = choose|i: int| 0 <= i < inp.len() && inp[i] == c;
        lemma_class_member(inp, d, i);
        assert(dist_class(out, d) == dist_class(inp, d));
        let k = choose|k: int| 0 <= k < dist_class(out, d).len() && dist_class(out, d)[k] == c;
        lemma_class_member_back(out, d, k);
    }
}

/// The chunks a list holds, moved to the center, are its offsets.
proof fn lemma_offsets_from_contains(s: Seq<(int, int)>, cx: int, cz: int, c: (int, int))
    ensures
        s.contains(c) <==> offsets_from(s, cx, cz).contains((c.0 - cx, c.1 - cz)),
{
    let o = offsets_from(s, cx, cz);
    if s.contains(c) {
        let i = choose|i: int| 0 <= i < s.len() && s[i] == c;
        assert(o[i] == (c.0 - cx, c.1 - cz));
    }
    if o.contains((c.0 - cx, c.1 - cz)) {
        let i = choose|i: int| 0 <= i < o.len() && o[i] == (c.0 - cx, c.1 - cz);
        assert(s[i] == c);
    }
}

/// Splitting a ring at radius `k`: the chunks from radius 0 to `k - 1` and the chunks from
/// radius `k` to `radius_end` around the same center never share a chunk, and together
/// they are the chunks from radius 0 to `radius_end`. `all`, `inner` and `outer` are the
/// chunks that `generate_radius_range_chunk_coords` lists for the three rings, as its
/// contract describes them.
pub proof fn lemma_ring_split(
    all: Seq<(int, int)>,
    inner: Seq<(int, int)>,
    outer: Seq<(int, int)>,
    center_x: int,
    center_z: int,
    k: int,
    radius_end: int,
    circular: bool,
)
    requires
        1 <= k <= radius_end + 1,
        is_stable_dist_sort(
            offsets_from(all, center_x, center_z),
            ring_offsets(0, radius_end, circular),
        ),
        is_stable_dist_sort(offsets_from(inner, center_x, center_z), ring_offsets(0, k - 1, circular)),
        is_stable_dist_sort(
            offsets_from(outer, center_x, center_z),
            ring_offsets(k, radius_end, circular),
        ),
    ensures
        forall|c: (int, int)| #[trigger] all.contains(c) <==> inner.contains(c) || outer.contains(c),
        forall|c: (int, int)| !(#[trigger] inner.contains(c) && outer.contains(c)),
{
    assert forall|c: (int, int)| #[trigger] all.contains(c) <==> inner.contains(c) || outer.contains(
        c,
    ) by {
        let o = (c.0 - center_x, c.1 - center_z);
        lemma_offsets_from_contains(all, center_x, center_z, c);
        lemma_offsets_from_contains(inner, center_x, center_z, c);
        lemma_offsets_from_contains(outer, center_x, center_z, c);
        lemma_stable_sort_contains(offsets_from(all, center_x, center_z), ring_offsets(0, radius_end, circular), o);
        lemma_stable_sort_contains(offsets_from(inner, center_x, center_z), ring_offsets(0, k - 1, circular), o);
        lemma_stable_sort_contains(offsets_from(outer, center_x, center_z), ring_offsets(k, radius_end, circular), o);
        lemma_ring_offsets_contains(0, radius_end, circular, o);
        lemma_ring_offsets_contains(0, k - 1, circular, o);
        lemma_ring_offsets_contains(k, radius_end, circular, o);
        lemma_ring_split_offset(o.0, o.1, k, radius_end, circular);
    }
    assert forall|c: (int, int)| !(#[trigger] inner.contains(c) && outer.contains(c)) by {
        let o = (c.0 - center_x, c.1 - center_z);
        lemma_offsets_from_contains(inner, center_x, center_z, c);
        lemma_offsets_from_contains(outer, center_x, center_z, c);
        lemma_stable_sort_contains(offsets_from(inner, center_x, center_z), ring_offsets(0, k - 1, circular), o);
        lemma_stable_sort_contains(offsets_from(outer, center_x, center_z), ring_offsets(k, radius_end, circular), o);
        lemma_ring_offsets_contains(0, k - 1, circular, o);
        lemma_ring_offsets_contains(k, radius_end, circular, o);
        lemma_ring_split_offset(o.0, o.1, k, radius_end, circular);
    }
}

/// One offset of the split: it lies in the whole ring exactly when it lies in the inner or
/// the outer part, and never in both.
proof fn lemma_ring_split_offset(x: int, z: int, k: int, re: int, circular: bool)
    requires
        1 <= k <= re + 1,
    ensures
        ({
            let in_all = -re <= x <= re && -re <= z <= re && ring_pred(0, re, circular)(x, z);
            let in_inner = -(k - 1) <= x <= k - 1 && -(k - 1) <= z <= k - 1 && ring_pred(
                0,
                k - 1,
                circular,
            )(x, z);
            let in_outer = -re <= x <= re && -re <= z <= re && ring_pred(k, re, circular)(x, z);
            &&& in_all <==> in_inner || in_outer
            &&& !(in_inner && in_outer)
        }),
{
    lemma_nonneg_sum_sq(x, z);
    if circular {
        let s = k - 1;
        assert(s * s <= re * re) by (nonlinear_arith)
            requires
                0 <= s <= re,
        ;
        if x * x + z * z <= s * s {
            lemma_sq_le_bound(x, s);
            lemma_sq_le_bound(z, s);
        }
    }
}

} // verus!
