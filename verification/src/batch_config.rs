//! The settings of a run that generates a fixed number of chunks, either as a disk around
//! a center or as a square grid around the origin, and the chunks of each of its batches.
use crate::batching::{
    batch_coords_fit, batch_slice, calculate_radius_for_chunks, disk_count, generate_batch_coords,
    generate_radius_batch_coords, radius_for_chunks, square_grid_point, MAX_DISK_RADIUS,
};
use crate::dist_sort::int_points;
use crate::generation_config::DEFAULT_SEED;
use crate::radius::{ring_args_ok, ring_fits_center, sorted_ring};
use vstd::prelude::*;

verus! {

/// The settings of a run over a fixed number of chunks.
#[derive(Debug, Clone, Copy)]
pub struct Config {
    /// How many chunks are already done.
    pub chunks_start_index: usize,
    pub chunk_batch_size: usize,
    /// How many chunks the square grid holds, when the run does not use a disk.
    pub chunks_to_load: usize,
    pub center_x: i32,
    pub center_z: i32,
    /// Whether the chunks are those of a disk around the center.
    pub use_radius_generation: bool,
    /// The disk's radius; without one, the smallest radius whose square holds the run's
    /// chunks.
    pub radius: Option<i32>,
    pub seed: u64,
}

impl Default for Config {
    /// A disk of radius 25 around the origin, in batches of 1000 chunks.
    fn default() -> (c: Self)
        ensures
            c.chunks_start_index == 0,
            c.chunk_batch_size == 1000,
            c.chunks_to_load == 10000,
            c.center_x == 0,
            c.center_z == 0,
            c.use_radius_generation,
            c.radius == Some(25i32),
            c.seed == DEFAULT_SEED,
    {
        Config {
            chunks_start_index: 0,
            chunk_batch_size: 1000,
            chunks_to_load: 10000,
            center_x: 0,
            center_z: 0,
            use_radius_generation: true,
            radius: Some(25),
            seed: DEFAULT_SEED,
        }
    }
}

/// The radius of the disk that a run of `total_chunks` chunks uses.
pub open spec fn effective_radius(radius: Option<i32>, total_chunks: int) -> int {
    match radius {
        Some(r) => r as int,
        None => radius_for_chunks(total_chunks),
    }
}

/// The arguments for which the batch `[start_index, start_index + batch_size)` of a run
/// over `total_chunks` chunks can be listed without overflow.
pub open spec fn batch_coords_ok(
    config: Config,
    start_index: int,
    batch_size: int,
    total_chunks: int,
) -> bool {
    if config.use_radius_generation {
        let r = effective_radius(config.radius, total_chunks);
        &&& config.radius is None ==> total_chunks <= disk_count(MAX_DISK_RADIUS as int)
        &&& ring_args_ok(0, r, true)
        &&& ring_fits_center(config.center_x as int, config.center_z as int, 0, r, true)
        &&& start_index + batch_size <= usize::MAX
    } else {
        &&& total_chunks <= 0x10_0000_0000_0000
        &&& total_chunks > 0 || batch_size == 0
        &&& start_index + batch_size <= usize::MAX
        &&& batch_coords_fit(start_index, batch_size, total_chunks)
    }
}

impl Config {
    /// The chunks of the batch `[start_index, start_index + batch_size)` of a run over
    /// `total_chunks` chunks: that part of the disk's list, nearest first, when the run uses
    /// a disk, else that part of the square grid.
    pub fn batch_coords(&self, start_index: usize, batch_size: usize, total_chunks: usize) -> (coords:
        Vec<(i32, i32)>)
        requires
            batch_coords_ok(*self, start_index as int, batch_size as int, total_chunks as int),
        ensures
            self.use_radius_generation ==> int_points(coords@) == batch_slice(
                sorted_ring(
                    self.center_x as int,
                    self.center_z as int,
                    0,
                    effective_radius(self.radius, total_chunks as int),
                    true,
                ),
                start_index as int,
                batch_size as int,
            ),
            !self.use_radius_generation ==> coords.len() == batch_size && forall|k: int|
                0 <= k < batch_size ==> #[trigger] coords@[k] == square_grid_point(
                    start_index + k,
                    total_chunks as int,
                ),
    {
        if self.use_radius_generation {
            let actual_radius = match self.radius {
                Some(r) => r,
                None => calculate_radius_for_chunks(total_chunks),
            };
            generate_radius_batch_coords(
                start_index,
                batch_size,
                self.center_x,
                self.center_z,
                actual_radius,
            )
        } else {
            generate_batch_coords(start_index, batch_size, total_chunks)
        }
    }
}

} // verus!
