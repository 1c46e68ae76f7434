//! Surface height scanning and chunk scheduling for voxel terrain.
pub mod grid;
pub mod dist_sort;
pub mod radius;
pub mod surface;
pub mod batching;
pub mod batch_run;
pub mod shutdown;
pub mod chunk_queue;
pub mod generation_config;
pub mod zarr_chunks;
pub mod batch_config;
pub mod location_config;
pub mod cli;
pub mod block_fill;
pub mod sampler_log;
pub mod scan_requests;
