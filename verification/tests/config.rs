use ekko::batch_config;
use ekko::generation_config::{calculate_total_chunks, is_known_compression, CompressionType, Config};
use ekko::location_config;

fn disk_count(r: i32) -> usize {
    let mut n = 0;
    for x in -r..=r {
        for z in -r..=r {
            if x * x + z * z <= r * r {
                n += 1;
            }
        }
    }
    n
}

#[test]
fn generation_defaults() {
    let c = Config::default();
    assert_eq!(c.seed, 8221611027149008269);
    assert_eq!(c.chunk_radius_start_index, 0);
    assert_eq!((c.chunk_radius_center_x, c.chunk_radius_center_z), (0, 0));
    assert_eq!((c.chunk_radius_start, c.chunk_radius_end), (0, 20));
    assert!(c.chunk_radius_circular);
    assert_eq!(c.chunk_batch_size, 1000);
    assert!(c.zarr_enabled);
    assert_eq!(c.zarr_storage_location, "./.zarr_data_test");
    assert_eq!(c.zarr_chunk_region_size, 64);
    assert_eq!(c.zarr_compression, "zstd");
    assert_eq!(c.zarr_compression_level, 3);
}

#[test]
fn compression_names_ignore_case() {
    let mut c = Config::default();
    assert_eq!(c.get_zarr_compression(), CompressionType::Zstd { level: 3 });
    c.zarr_compression = "GZip".to_string();
    c.zarr_compression_level = 6;
    assert_eq!(c.get_zarr_compression(), CompressionType::Gzip { level: 6 });
    c.zarr_compression = "NONE".to_string();
    assert_eq!(c.get_zarr_compression(), CompressionType::Uncompressed);
}

#[test]
fn unknown_compression_falls_back_to_zstd() {
    let mut c = Config::default();
    c.zarr_compression = "lz4".to_string();
    c.zarr_compression_level = 9;
    assert_eq!(c.get_zarr_compression(), CompressionType::Zstd { level: 9 });
}

#[test]
fn gzip_level_keeps_its_bits() {
    let mut c = Config::default();
    c.zarr_compression = "gzip".to_string();
    c.zarr_compression_level = -1;
    assert_eq!(c.get_zarr_compression(), CompressionType::Gzip { level: u32::MAX });
}

#[test]
fn total_chunks_of_the_default_ring() {
    let c = Config::default();
    assert_eq!(calculate_total_chunks(&c), disk_count(20));
    let mut square = Config::default();
    square.chunk_radius_circular = false;
    square.chunk_radius_start = 2;
    square.chunk_radius_end = 4;
    assert_eq!(calculate_total_chunks(&square), 81 - 9);
}

#[test]
fn batch_run_defaults() {
    let c = batch_config::Config::default();
    assert_eq!(c.chunks_start_index, 0);
    assert_eq!(c.chunk_batch_size, 1000);
    assert_eq!(c.chunks_to_load, 10000);
    assert_eq!((c.center_x, c.center_z), (0, 0));
    assert!(c.use_radius_generation);
    assert_eq!(c.radius, Some(25));
    assert_eq!(c.seed, 8221611027149008269);
}

#[test]
fn batch_coords_from_the_disk() {
    let c = batch_config::Config::default();
    assert_eq!(c.batch_coords(0, 5, 10000), vec![(0, 0), (-1, 0), (0, -1), (0, 1), (1, 0)]);
    let mut no_radius = c;
    no_radius.radius = None;
    no_radius.center_x = 3;
    let coords = no_radius.batch_coords(10, 10, 10);
    assert_eq!(coords.len(), 3);
}

#[test]
fn batch_coords_from_the_square_grid() {
    let mut c = batch_config::Config::default();
    c.use_radius_generation = false;
    assert_eq!(c.batch_coords(0, 4, 4), vec![(-1, -1), (0, -1), (-1, 0), (0, 0)]);
}

#[test]
fn location_default() {
    assert_eq!(location_config::Config::default().zarr_storage_location, "./.zarr_data_test");
}

#[test]
fn known_compression_names_ignore_case() {
    assert!(is_known_compression(&"GZip".to_string()));
    assert!(is_known_compression(&"none".to_string()));
    assert!(is_known_compression(&"ZSTD".to_string()));
    assert!(!is_known_compression(&"lz4".to_string()));
    assert!(!is_known_compression(&"".to_string()));
}
