//! The settings of a generation run: seed, the ring of chunks to generate, batching, and
//! how the height maps are stored.
use crate::radius::{length_of_radius_range_chunk_coords, ring_len_args_ok, ring_len_formula};
use vstd::prelude::*;

verus! {

/// How the stored height maps are compressed.
#[allow(inconsistent_fields)]
#[derive(Debug, Clone, Copy, PartialEq, Eq, Structural)]
pub enum CompressionType {
    /// Stored as they are.
    Uncompressed,
    Gzip { level: u32 },
    Zstd { level: i32 },
}

/// The settings of a generation run.
#[derive(Debug, Clone)]
pub struct Config {
    pub seed: u64,
    /// How many chunks of the ring's list are already done.
    pub chunk_radius_start_index: usize,
    pub chunk_radius_center_x: i32,
    pub chunk_radius_center_z: i32,
    pub chunk_radius_start: i32,
    pub chunk_radius_end: i32,
    pub chunk_radius_circular: bool,
    pub zarr_enabled: bool,
    pub zarr_storage_location: String,
    pub zarr_chunk_region_size: usize,
    pub chunk_batch_size: usize,
    /// `none`, `gzip` or `zstd`, in any case.
    pub zarr_compression: String,
    pub zarr_compression_level: i32,
}

/// The seed that the default settings generate with.
pub const DEFAULT_SEED: u64 = 8221611027149008269;

impl Default for Config {
    /// A circular ring of radius 20 around the origin, in batches of 1000 chunks, stored
    /// with zstd at level 3.
    fn default() -> (c: Self)
        ensures
            c.seed == DEFAULT_SEED,
            c.chunk_radius_start_index == 0,
            c.chunk_radius_center_x == 0,
            c.chunk_radius_center_z == 0,
            c.chunk_radius_start == 0,
            c.chunk_radius_end == 20,
            c.chunk_radius_circular,
            c.chunk_batch_size == 1000,
            c.zarr_enabled,
            c.zarr_storage_location@ == "./.zarr_data_test"@,
            c.zarr_chunk_region_size == 64,
            c.zarr_compression@ == "zstd"@,
            c.zarr_compression_level == 3,
    {
        Config {
            seed: DEFAULT_SEED,
            chunk_radius_start_index: 0,
            chunk_radius_center_x: 0,
            chunk_radius_center_z: 0,
            chunk_radius_start: 0,
            chunk_radius_end: 20,
            chunk_radius_circular: true,
            chunk_batch_size: 1000,
            zarr_enabled: true,
            zarr_storage_location: "./.zarr_data_test".to_owned(),
            zarr_chunk_region_size: 64,
            zarr_compression: "zstd".to_owned(),
            zarr_compression_level: 3,
        }
    }
}

/// What `str::to_lowercase` returns for a string.
pub uninterp spec fn lowercase(s: Seq<char>) -> Seq<char>;

/// Calls `str::to_lowercase`, which maps each character to its lowercase form under
/// Unicode's rules. The contract claims only that the result depends on the string
/// alone: it names that result `lowercase` and says nothing of its characters.
#[verifier::external_body]
fn to_lowercase(s: &str) -> (lowered: String)
    ensures
        lowered@ == lowercase(s@),
{
    s.to_lowercase()
}

/// The compression that a lowercase name selects: `none`, `gzip` (with the level's bits
/// read as unsigned) or, for `zstd` and any other name, `zstd`.
pub open spec fn compression_of(lowered: Seq<char>, level: i32) -> CompressionType {
    if lowered == "none"@ {
        CompressionType::Uncompressed
    } else if lowered == "gzip"@ {
        CompressionType::Gzip { level: level as u32 }
    } else {
        CompressionType::Zstd { level }
    }
}

/// The compression that the lowercase name `lowered` selects at `level`.
pub fn compression_from_lowercase(lowered: &String, level: i32) -> (c: CompressionType)
    ensures
        c == compression_of(lowered@, level),
{
    let none_name = "none".to_owned();
    let gzip_name = "gzip".to_owned();
    if *lowered == none_name {
        CompressionType::Uncompressed
    } else if *lowered == gzip_name {
        CompressionType::Gzip { level: level as u32 }
    } else {
        CompressionType::Zstd { level }
    }
}

/// Whether `name`, read without regard to case, names a compression: `none`, `gzip` or
/// `zstd`.
pub fn is_known_compression(name: &String) -> (known: bool)
    ensures
        known == (lowercase(name@) == "none"@ || lowercase(name@) == "gzip"@ || lowercase(name@)
            == "zstd"@),
{
    let lowered = to_lowercase(name.as_str());
    let none_name = "none".to_owned();
    let gzip_name = "gzip".to_owned();
    let zstd_name = "zstd".to_owned();
    lowered == none_name || lowered == gzip_name || lowered == zstd_name
}

impl Config {
    /// The compression that `zarr_compression` names, read without regard to case; an
    /// unknown name falls back to zstd.
    pub fn get_zarr_compression(&self) -> (c: CompressionType)
        ensures
            c == compression_of(lowercase(self.zarr_compression@), self.zarr_compression_level),
    {
        let lowered = to_lowercase(self.zarr_compression.as_str());
        compression_from_lowercase(&lowered, self.zarr_compression_level)
    }
}

/// The number of chunks in the ring that `config` describes.
pub fn calculate_total_chunks(config: &Config) -> (n: usize)
    requires
        ring_len_args_ok(
            config.chunk_radius_start as int,
            config.chunk_radius_end as int,
            config.chunk_radius_circular,
        ),
    ensures
        n == ring_len_formula(
            config.chunk_radius_start as int,
            config.chunk_radius_end as int,
            config.chunk_radius_circular,
        ) as usize,
{
    length_of_radius_range_chunk_coords(
        config.chunk_radius_start,
        config.chunk_radius_end,
        config.chunk_radius_circular,
    )
}

} // verus!
