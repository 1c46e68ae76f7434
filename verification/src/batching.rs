//! Splitting a run of chunk indices into batches, and the chunk layouts that batches are
//! taken from.
use crate::dist_sort::int_points;
use crate::grid::{lemma_grid_full, lemma_grid_mono, lemma_square_shrink, square_count};
use crate::radius::{
    count_disk, disk_pred, generate_radius_range_chunk_coords, lemma_ring_length_matches_list,
    offsets_from, ring_args_ok, ring_fits_center, sorted_ring,
};
use vstd::prelude::*;

verus! {

/// The first index of the last batch of `[start, total)` cut every `batch` indices.
pub open spec fn last_batch_start(start: int, total: int, batch: int) -> int {
    start + ((total - start - 1) / batch) * batch
}

/// The number of batches `[start, total)` is cut into.
pub open spec fn batch_count(start: int, total: int, batch: int) -> int {
    if start < total {
        (total - start + batch - 1) / batch
    } else {
        0
    }
}

/// `ranges` cuts `[start, total)` into consecutive `(first index, length)` batches of
/// `batch` indices, the last one possibly shorter.
pub open spec fn is_batch_ranges(ranges: Seq<(usize, usize)>, start: int, total: int, batch: int) -> bool {
    &&& ranges.len() == batch_count(start, total, batch)
    &&& forall|i: int|
        0 <= i < ranges.len() ==> (#[trigger] ranges[i]).0 == start + i * batch && ranges[i].1 == (
        if batch <= total - ranges[i].0 {
            batch
        } else {
            total - ranges[i].0
        })
}

proof fn lemma_step_le_last(start: int, total: int, batch: int, i: int)
    requires
        batch > 0,
        i >= 0,
        start + i * batch < total,
    ensures
        start + i * batch <= last_batch_start(start, total, batch),
{
    let n = total - start - 1;
    assert(i * batch <= n);
    assert(i <= n / batch) by (nonlinear_arith)
        requires
            i * batch <= n,
            batch > 0,
            i >= 0,
    {
        vstd::arithmetic::div_mod::lemma_fundamental_div_mod(n, batch);
        vstd::arithmetic::div_mod::lemma_mod_bound(n, batch);
    }
    assert(i * batch <= (n / batch) * batch) by (nonlinear_arith)
        requires
            i <= n / batch,
            batch > 0,
    ;
}

proof fn lemma_count_exact(n: int, batch: int, i: int)
    requires
        batch > 0,
        i >= 1,
        (i - 1) * batch < n <= i * batch,
    ensures
        (n + batch - 1) / batch == i,
{
    assert((i - 1) * batch == i * batch - batch) by (nonlinear_arith);
    vstd::arithmetic::div_mod::lemma_fundamental_div_mod_converse(
        n + batch - 1,
        batch,
        i,
        n + batch - 1 - i * batch,
    );
}

/// Cuts the chunk indices `[start_index, total_chunks)` into batches of `batch_size`:
/// each batch is its first index and its length, the last one possibly shorter.
pub fn create_batch_ranges(start_index: usize, total_chunks: usize, batch_size: usize) -> (ranges:
    Vec<(usize, usize)>)
    requires
        batch_size > 0,
        start_index >= total_chunks || last_batch_start(
            start_index as int,
            total_chunks as int,
            batch_size as int,
        ) + batch_size <= usize::MAX,
    ensures
        is_batch_ranges(ranges@, start_index as int, total_chunks as int, batch_size as int),
{
    let mut ranges: Vec<(usize, usize)> = Vec::new();
    let mut batch_start = start_index;
    let ghost mut i: int = 0;
    while batch_start < total_chunks
        invariant
            batch_size > 0,
            start_index < total_chunks ==> last_batch_start(
                start_index as int,
                total_chunks as int,
                batch_size as int,
            ) + batch_size <= usize::MAX,
            i >= 0,
            batch_start == start_index + i * batch_size,
            ranges.len() == i,
            i > 0 ==> (i - 1) * batch_size < total_chunks - start_index,
            i > 0 ==> batch_start <= total_chunks + batch_size - 1,
            forall|k: int|
                0 <= k < ranges.len() ==> (#[trigger] ranges@[k]).0 == start_index + k * batch_size
                    && ranges@[k].1 == (if batch_size <= total_chunks - ranges@[k].0 {
                    batch_size as int
                } else {
                    total_chunks - ranges@[k].0
                }),
        decreases total_chunks + batch_size - batch_start,
    {
        proof {
            lemma_step_le_last(start_index as int, total_chunks as int, batch_size as int, i);
        }
        let next = batch_start + batch_size;
        let batch_end = if next < total_chunks {
            next
        } else {
            total_chunks
        };
        ranges.push((batch_start, batch_end - batch_start));
        proof {
            assert((i + 1) * batch_size == i * batch_size + batch_size) by (nonlinear_arith);
            i = i + 1;
        }
        batch_start = next;
    }
    proof {
        if start_index < total_chunks {
            assert(i >= 1);
            lemma_count_exact(total_chunks - start_index, batch_size as int, i);
        }
    }
    ranges
}

/// Batch ranges tile their span: the first starts at `start`, each starts where the one
/// before ends, each holds between one and `batch` indices, and the last ends at `total`.
pub proof fn lemma_batch_ranges_tile(ranges: Seq<(usize, usize)>, start: int, total: int, batch: int)
    requires
        batch > 0,
        is_batch_ranges(ranges, start, total, batch),
    ensures
        ranges.len() > 0 ==> ranges[0].0 == start,
        forall|i: int|
            0 <= i < ranges.len() ==> 1 <= (#[trigger] ranges[i]).1 <= batch && ranges[i].0
                + ranges[i].1 <= total,
        forall|i: int|
            0 <= i < ranges.len() - 1 ==> #[trigger] ranges[i + 1].0 == ranges[i].0 + ranges[i].1,
        ranges.len() > 0 ==> ranges.last().0 + ranges.last().1 == total,
        ranges.len() == 0 <==> start >= total,
{
    let n = ranges.len() as int;
    if start < total {
        assert(total - start + batch - 1 >= batch);
        assert((total - start + batch - 1) / batch >= 1) by (nonlinear_arith)
            requires
                total - start + batch - 1 >= batch,
                batch > 0,
        ;
        assert((n - 1) * batch <= total - start - 1) by (nonlinear_arith)
            requires
                n == (total - start + batch - 1) / batch,
                batch > 0,
        {
            vstd::arithmetic::div_mod::lemma_fundamental_div_mod(total - start + batch - 1, batch);
            vstd::arithmetic::div_mod::lemma_mod_bound(total - start + batch - 1, batch);
        }
        assert(n * batch >= total - start) by (nonlinear_arith)
            requires
                n == (total - start + batch - 1) / batch,
                batch > 0,
        {
            vstd::arithmetic::div_mod::lemma_fundamental_div_mod(total - start + batch - 1, batch);
            vstd::arithmetic::div_mod::lemma_mod_bound(total - start + batch - 1, batch);
        }
        assert forall|i: int| 0 <= i < n implies 1 <= (#[trigger] ranges[i]).1 <= batch
            && ranges[i].0 + ranges[i].1 <= total by {
            assert(i * batch <= (n - 1) * batch) by (nonlinear_arith)
                requires
                    i <= n - 1,
                    batch > 0,
            ;
        }
        assert forall|i: int| 0 <= i < n - 1 implies #[trigger] ranges[i + 1].0 == ranges[i].0
            + ranges[i].1 by {
            assert((i + 1) * batch == i * batch + batch) by (nonlinear_arith);
            assert((i + 1) * batch <= (n - 1) * batch) by (nonlinear_arith)
                requires
                    i + 1 <= n - 1,
                    batch > 0,
            ;
        }
        assert(ranges[n - 1] == ranges.last());
        assert((n - 1) * batch + batch == n * batch) by (nonlinear_arith);
    }
}

/// The number of chunks of the disk of chunk radius `r` around a center: the offsets
/// `(x, z)` with `x * x + z * z <= r * r` (none when `r` is negative).
pub open spec fn disk_count(r: int) -> int {
    square_count(r, disk_pred(r))
}

/// The largest chunk radius whose disk can be counted without an `i32` overflow.
pub const MAX_DISK_RADIUS: i32 = 32767;

/// The number of chunks of the disk of chunk radius `radius` around a center.
pub fn calculate_chunks_for_chunk_radius(radius: i32) -> (n: usize)
    requires
        -46340 <= radius <= MAX_DISK_RADIUS,
    ensures
        n == disk_count(radius as int),
{
    count_disk(radius)
}

/// A block radius as a chunk radius: `radius / 16` rounded up.
pub open spec fn block_to_chunk_radius(radius: int) -> int {
    (radius + 15) / 16
}

/// The number of chunks of the disk whose chunk radius covers block radius `radius`.
pub fn calculate_chunks_for_block_radius(radius: i32) -> (n: usize)
    requires
        -741455 <= radius <= 524272,
    ensures
        n == disk_count(block_to_chunk_radius(radius as int)),
{
    let chunk_radius = if radius > 0 {
        (radius + 15) / 16
    } else {
        -((-radius) / 16)
    };
    proof {
        let r = radius as int;
        if r <= 0 {
            vstd::arithmetic::div_mod::lemma_fundamental_div_mod(-r, 16);
            vstd::arithmetic::div_mod::lemma_mod_bound(-r, 16);
            let q = (-r) / 16;
            let m = (-r) % 16;
            if m == 0 {
                vstd::arithmetic::div_mod::lemma_fundamental_div_mod_converse(r + 15, 16, -q, 15);
            } else {
                vstd::arithmetic::div_mod::lemma_fundamental_div_mod_converse(
                    r + 15,
                    16,
                    -q,
                    15 - m,
                );
            }
        }
    }
    calculate_chunks_for_chunk_radius(chunk_radius)
}

/// The first radius from `r` on whose disk holds at least `n` chunks (the largest
/// countable radius when none below it does).
pub open spec fn first_radius_from(r: int, n: int) -> int
    decreases MAX_DISK_RADIUS - r,
{
    if r >= MAX_DISK_RADIUS || disk_count(r) >= n {
        r
    } else {
        first_radius_from(r + 1, n)
    }
}

/// The smallest radius whose disk holds at least `n` chunks.
pub open spec fn radius_for_chunks(n: int) -> int {
    first_radius_from(0, n)
}

/// The smallest chunk radius whose disk holds at least `target_chunks` chunks.
pub fn calculate_radius_for_chunks(target_chunks: usize) -> (radius: i32)
    requires
        target_chunks <= disk_count(MAX_DISK_RADIUS as int),
    ensures
        0 <= radius <= MAX_DISK_RADIUS,
        disk_count(radius as int) >= target_chunks,
        radius == 0 || disk_count(radius - 1) < target_chunks,
        radius == radius_for_chunks(target_chunks as int),
{
    let mut radius: i32 = 0;
    while calculate_chunks_for_chunk_radius(radius) < target_chunks
        invariant
            0 <= radius <= MAX_DISK_RADIUS,
            target_chunks <= disk_count(MAX_DISK_RADIUS as int),
            radius == 0 || disk_count(radius - 1) < target_chunks,
            first_radius_from(radius as int, target_chunks as int) == radius_for_chunks(
                target_chunks as int,
            ),
        decreases MAX_DISK_RADIUS - radius,
    {
        radius = radius + 1;
    }
    radius
}

/// The chunks of the disk of radius `radius` around `(center_x, center_z)`, nearest first.
pub fn generate_radius_coords(center_x: i32, center_z: i32, radius: i32) -> (coords: Vec<
    (i32, i32),
>)
    requires
        ring_args_ok(0, radius as int, true),
        ring_fits_center(center_x as int, center_z as int, 0, radius as int, true),
    ensures
        int_points(coords@) == sorted_ring(center_x as int, center_z as int, 0, radius as int, true),
        coords.len() == disk_count(radius as int),
{
    let coords = generate_radius_range_chunk_coords(center_x, center_z, 0, radius, true);
    proof {
        lemma_ring_length_matches_list(0, radius as int, true);
        assert(offsets_from(int_points(coords@), center_x as int, center_z as int).len()
            == coords.len());
    }
    coords
}

/// The batch of `size` entries of `all` from `start`, cut at the end of `all`, and empty
/// when it starts past that end.
pub open spec fn batch_slice(all: Seq<(int, int)>, start: int, size: int) -> Seq<(int, int)> {
    if start < all.len() {
        all.subrange(start, if start + size <= all.len() { start + size } else { all.len() as int })
    } else {
        Seq::empty()
    }
}

/// Batch `[start_index, start_index + batch_size)` of the disk's chunk list, cut at its end.
pub fn generate_radius_batch_coords(
    start_index: usize,
    batch_size: usize,
    center_x: i32,
    center_z: i32,
    radius: i32,
) -> (coords: Vec<(i32, i32)>)
    requires
        ring_args_ok(0, radius as int, true),
        ring_fits_center(center_x as int, center_z as int, 0, radius as int, true),
        start_index + batch_size <= usize::MAX,
    ensures
        int_points(coords@) == batch_slice(
            sorted_ring(center_x as int, center_z as int, 0, radius as int, true),
            start_index as int,
            batch_size as int,
        ),
{
    let all_coords = generate_radius_coords(center_x, center_z, radius);
    let end = if start_index + batch_size < all_coords.len() {
        start_index + batch_size
    } else {
        all_coords.len()
    };
    let mut coords: Vec<(i32, i32)> = Vec::new();
    if start_index < all_coords.len() {
        let mut i = start_index;
        while i < end
            invariant
                start_index <= i <= end <= all_coords.len(),
                coords@ == all_coords@.subrange(start_index as int, i as int),
            decreases end - i,
        {
            coords.push(all_coords[i]);
            proof {
                assert(all_coords@.subrange(start_index as int, i + 1) == all_coords@.subrange(
                    start_index as int,
                    i as int,
                ).push(all_coords@[i as int]));
            }
            i = i + 1;
        }
        proof {
            assert(int_points(coords@) =~= int_points(all_coords@).subrange(
                start_index as int,
                end as int,
            ));
        }
    } else {
        proof {
            assert(int_points(coords@) =~= Seq::<(int, int)>::empty());
        }
    }
    coords
}

} // verus!

verus! {

/// `g` is the ceiling of the square root of `n`.
pub open spec fn is_ceil_sqrt(g: int, n: int) -> bool {
    g >= 0 && g * g >= n && (g == 0 || (g - 1) * (g - 1) < n)
}

/// The ceiling of the square root of `n`.
pub open spec fn ceil_sqrt(n: int) -> int {
    choose|g: int| is_ceil_sqrt(g, n)
}

proof fn lemma_ceil_sqrt_unique(g: int, n: int)
    requires
        is_ceil_sqrt(g, n),
    ensures
        ceil_sqrt(n) == g,
{
    let c = ceil_sqrt(n);
    assert(is_ceil_sqrt(c, n));
    if c < g {
        assert(c * c <= (g - 1) * (g - 1)) by (nonlinear_arith)
            requires
                0 <= c <= g - 1,
        ;
    }
    if g < c {
        assert(g * g <= (c - 1) * (c - 1)) by (nonlinear_arith)
            requires
                0 <= g <= c - 1,
        ;
    }
}

/// The ceiling of the square root of `n`, for `n` up to `2^52`.
fn ceil_sqrt_exec(n: u64) -> (g: u64)
    requires
        n <= 0x10_0000_0000_0000,
    ensures
        is_ceil_sqrt(g as int, n as int),
        g <= 0x400_0000,
{
    let mut lo: u64 = 0;
    let mut hi: u64 = 0x400_0000;
    while lo < hi
        invariant
            lo <= hi <= 0x400_0000,
            hi * hi >= n,
            lo == 0 || (lo - 1) * (lo - 1) < n,
        decreases hi - lo,
    {
        let mid = lo + (hi - lo) / 2;
        proof {
            assert(mid * mid <= 0x400_0000 * 0x400_0000) by (nonlinear_arith)
                requires
                    mid <= 0x400_0000,
            ;
        }
        if mid * mid >= n {
            hi = mid;
        } else {
            lo = mid + 1;
        }
    }
    proof {
        assert(lo * lo >= 0) by (nonlinear_arith);
    }
    lo
}

/// The row of index `i` in a grid `g` wide, as an `i32` (wrapping as `as` does).
pub open spec fn grid_row(i: int, g: int) -> i32 {
    (i / g) as i32
}

/// The square-grid layout's rows, shifted by half the grid, stay above `i32::MIN`.
pub open spec fn batch_coords_fit(start_index: int, batch_size: int, total_chunks: int) -> bool {
    let g = ceil_sqrt(total_chunks);
    forall|i: int|
        start_index <= i < start_index + batch_size ==> #[trigger] grid_row(i, g) - g / 2
            >= i32::MIN
}

/// Chunk `i` of the square grid for `total` chunks: column `i % g` and row `i / g`, both
/// shifted back by half the grid, `g` being the ceiling of the square root of `total`.
pub open spec fn square_grid_point(i: int, total: int) -> (i32, i32) {
    let g = ceil_sqrt(total);
    ((((i % g) as i32) - g / 2) as i32, (((i / g) as i32) - g / 2) as i32)
}

/// Chunks `[start_index, start_index + batch_size)` of a square grid wide enough for
/// `total_chunks` chunks (the ceiling of its square root), row by row, shifted so that
/// the grid is about centered on the origin.
pub fn generate_batch_coords(start_index: usize, batch_size: usize, total_chunks: usize) -> (coords:
    Vec<(i32, i32)>)
    requires
        total_chunks <= 0x10_0000_0000_0000,
        total_chunks > 0 || batch_size == 0,
        start_index + batch_size <= usize::MAX,
        batch_coords_fit(start_index as int, batch_size as int, total_chunks as int),
    ensures
        coords.len() == batch_size,
        forall|k: int|
            0 <= k < batch_size ==> #[trigger] coords@[k] == square_grid_point(
                start_index + k,
                total_chunks as int,
            ),
{
    let grid_size = ceil_sqrt_exec(total_chunks as u64) as usize;
    proof {
        lemma_ceil_sqrt_unique(grid_size as int, total_chunks as int);
        if total_chunks > 0 && grid_size == 0 {
            assert(grid_size * grid_size == 0);
        }
    }
    let half_grid = grid_size as i32 / 2;
    let mut coords: Vec<(i32, i32)> = Vec::new();
    let end = start_index + batch_size;
    let mut i = start_index;
    while i < end
        invariant
            start_index <= i <= end,
            end == start_index + batch_size,
            grid_size == ceil_sqrt(total_chunks as int),
            grid_size <= 0x400_0000,
            total_chunks > 0 || batch_size == 0,
            batch_size > 0 ==> grid_size > 0,
            half_grid == grid_size / 2,
            batch_coords_fit(start_index as int, batch_size as int, total_chunks as int),
            coords.len() == i - start_index,
            forall|k: int|
                0 <= k < coords.len() ==> {
                    let g = grid_size as int;
                    let j = start_index + k;
                    #[trigger] coords@[k] == ((((j % g) as i32) - g / 2) as i32, (((j / g) as i32)
                        - g / 2) as i32)
                },
        decreases end - i,
    {
        proof {
            vstd::arithmetic::div_mod::lemma_mod_bound(i as int, grid_size as int);
            assert(grid_row(i as int, grid_size as int) - half_grid >= i32::MIN);
        }
        let x = (i % grid_size) as i32 - half_grid;
        let z = #[verifier::truncate] ((i / grid_size) as i32) - half_grid;
        coords.push((x, z));
        i = i + 1;
    }
    coords
}

/// The disk of the largest radius `calculate_radius_for_chunks` can return holds more than
/// a billion chunks, so it takes every target of up to a billion chunks.
pub proof fn lemma_disk_holds_a_billion()
    ensures
        disk_count(MAX_DISK_RADIUS as int) >= 1_000_000_000,
{
    let r = MAX_DISK_RADIUS as int;
    let s: int = 23169;
    let inner = |x: int, z: int| -s <= x <= s && -s <= z <= s;
    assert forall|x: int, z: int|
        -r <= x < r + 1 && -r <= z < r + 1 && #[trigger] inner(x, z) implies disk_pred(r)(x, z) by {
        assert(x * x <= s * s) by (nonlinear_arith)
            requires
                -s <= x <= s,
        ;
        assert(z * z <= s * s) by (nonlinear_arith)
            requires
                -s <= z <= s,
        ;
    }
    lemma_grid_mono(-r, r + 1, -r, r + 1, inner, disk_pred(r));
    lemma_square_shrink(s, r, inner);
    lemma_grid_full(-s, s + 1, -s, s + 1, inner);
}

} // verus!
