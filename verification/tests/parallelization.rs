use ekko::batching::{
    calculate_chunks_for_block_radius, calculate_chunks_for_chunk_radius,
    calculate_radius_for_chunks, create_batch_ranges, generate_batch_coords,
    generate_radius_batch_coords, generate_radius_coords,
};

#[test]
fn test_radius_calculations() {
    assert_eq!(calculate_chunks_for_chunk_radius(0), 1);
    assert_eq!(calculate_chunks_for_chunk_radius(1), 5);

    for chunks in [1, 5, 13, 25, 49, 100] {
        let radius = calculate_radius_for_chunks(chunks);
        assert!(calculate_chunks_for_chunk_radius(radius) >= chunks);
        if radius > 0 {
            assert!(calculate_chunks_for_chunk_radius(radius - 1) < chunks);
        }
    }
}

#[test]
fn test_batch_ranges() {
    let ranges = create_batch_ranges(0, 1000, 100);
    assert_eq!(ranges.len(), 10);
    assert_eq!(ranges[0], (0, 100));
    assert_eq!(ranges[9], (900, 100));

    let ranges = create_batch_ranges(0, 950, 100);
    assert_eq!(ranges.len(), 10);
    assert_eq!(ranges[9], (900, 50));
}

#[test]
fn disk_counts_of_small_radii() {
    assert_eq!(calculate_chunks_for_chunk_radius(2), 13);
    assert_eq!(calculate_chunks_for_chunk_radius(3), 29);
    assert_eq!(calculate_chunks_for_chunk_radius(-1), 0);
}

#[test]
fn block_radius_rounds_up_to_chunks() {
    assert_eq!(calculate_chunks_for_block_radius(0), 1);
    assert_eq!(calculate_chunks_for_block_radius(16), 5);
    assert_eq!(calculate_chunks_for_block_radius(17), 13);
    assert_eq!(calculate_chunks_for_block_radius(-16), 0);
}

#[test]
fn radius_for_chunks_is_smallest_covering_radius() {
    assert_eq!(calculate_radius_for_chunks(0), 0);
    assert_eq!(calculate_radius_for_chunks(1), 0);
    assert_eq!(calculate_radius_for_chunks(2), 1);
    assert_eq!(calculate_radius_for_chunks(6), 2);
    assert_eq!(calculate_radius_for_chunks(14), 3);
    assert_eq!(calculate_radius_for_chunks(29), 3);
}

#[test]
fn batch_ranges_edges() {
    assert!(create_batch_ranges(10, 10, 4).is_empty());
    assert!(create_batch_ranges(12, 10, 4).is_empty());
    assert_eq!(create_batch_ranges(5, 12, 4), vec![(5, 4), (9, 3)]);
    assert_eq!(create_batch_ranges(0, 3, 10), vec![(0, 3)]);
}

#[test]
fn batch_ranges_tile_the_run() {
    let ranges = create_batch_ranges(7, 103, 9);
    let mut next = 7;
    for (start, len) in &ranges {
        assert_eq!(*start, next);
        assert!(*len >= 1 && *len <= 9);
        next += len;
    }
    assert_eq!(next, 103);
}

#[test]
fn radius_coords_nearest_first() {
    let coords = generate_radius_coords(10, -3, 1);
    assert_eq!(coords, vec![(10, -3), (9, -3), (10, -4), (10, -2), (11, -3)]);
    assert_eq!(coords.len(), calculate_chunks_for_chunk_radius(1));
}

#[test]
fn radius_coords_count_matches_disk_count() {
    for r in 0..8 {
        assert_eq!(generate_radius_coords(0, 0, r).len(), calculate_chunks_for_chunk_radius(r));
    }
}

#[test]
fn radius_batches_slice_the_disk() {
    assert_eq!(generate_radius_batch_coords(1, 2, 10, -3, 1), vec![(9, -3), (10, -4)]);
    assert_eq!(generate_radius_batch_coords(3, 10, 10, -3, 1), vec![(10, -2), (11, -3)]);
    assert!(generate_radius_batch_coords(5, 3, 10, -3, 1).is_empty());
}

#[test]
fn square_grid_batches() {
    assert_eq!(generate_batch_coords(0, 4, 4), vec![(-1, -1), (0, -1), (-1, 0), (0, 0)]);
    assert_eq!(generate_batch_coords(5, 2, 10), vec![(-1, -1), (0, -1)]);
    assert!(generate_batch_coords(3, 0, 0).is_empty());
}
