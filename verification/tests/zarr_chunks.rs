use ekko::zarr_chunks::{
    calculate_chunk_size_mb, find_all_chunks, generate_chunk_coords, get_chunk_dimensions,
    group_chunks_into_batches,
};

#[test]
fn all_chunks_of_a_grid_in_order() {
    let chunks = find_all_chunks(Some(vec![2, 3]));
    assert_eq!(
        chunks,
        vec![vec![0, 0], vec![0, 1], vec![0, 2], vec![1, 0], vec![1, 1], vec![1, 2]]
    );
}

#[test]
fn grids_without_chunks() {
    assert!(find_all_chunks(None).is_empty());
    assert!(find_all_chunks(Some(vec![0, 5])).is_empty());
    assert_eq!(find_all_chunks(Some(Vec::new())), vec![Vec::<u64>::new()]);
}

#[test]
fn coords_keep_the_prefix() {
    let mut current = vec![7];
    let mut all = vec![vec![9, 9, 9]];
    generate_chunk_coords(&mut current, &[2, 1], &mut all);
    assert_eq!(current, vec![7]);
    assert_eq!(all, vec![vec![9, 9, 9], vec![7, 0, 0], vec![7, 1, 0]]);
}

#[test]
fn chunk_dimensions() {
    assert_eq!(get_chunk_dimensions(Some(vec![4, 5, 2])), (40, vec![4, 5, 2]));
    assert_eq!(get_chunk_dimensions(None), (65536, vec![256, 256]));
    assert_eq!(get_chunk_dimensions(Some(Vec::new())), (1, Vec::new()));
}

#[test]
fn chunk_memory_in_whole_mebibytes() {
    assert_eq!(calculate_chunk_size_mb(65536), 0);
    assert_eq!(calculate_chunk_size_mb(1048576), 12);
    assert_eq!(calculate_chunk_size_mb(100000), 1);
}

fn size_for(mb: usize) -> usize {
    (mb * 1048576 + 11) / 12
}

#[test]
fn batches_fill_up_to_the_budget() {
    let chunks: Vec<Vec<u64>> = (0..5).map(|i| vec![i]).collect();
    let sizes: Vec<usize> = [5, 5, 5, 20, 1].iter().map(|&mb| size_for(mb)).collect();
    for (s, mb) in sizes.iter().zip([5, 5, 5, 20, 1]) {
        assert_eq!(calculate_chunk_size_mb(*s), mb);
    }
    let batches = group_chunks_into_batches(chunks.clone(), &sizes, 10);
    assert_eq!(
        batches,
        vec![vec![vec![0], vec![1]], vec![vec![2]], vec![vec![3]], vec![vec![4]]]
    );
    let flat: Vec<Vec<u64>> = batches.into_iter().flatten().collect();
    assert_eq!(flat, chunks);
}

#[test]
fn small_chunks_share_a_batch() {
    let chunks: Vec<Vec<u64>> = (0..4).map(|i| vec![i, i]).collect();
    let sizes = vec![65536; 4];
    let batches = group_chunks_into_batches(chunks.clone(), &sizes, 0);
    assert_eq!(batches, vec![chunks]);
    assert!(group_chunks_into_batches(Vec::new(), &Vec::new(), 5).is_empty());
}

#[test]
fn heights_from_stored_bytes() {
    let stored: Vec<i64> = vec![65, -3, 200];
    let bytes: &[u8] = bytemuck::cast_slice(&stored);
    assert_eq!(ekko::zarr_chunks::bytes_to_heights(bytes), Some(stored.clone()));
    assert_eq!(ekko::zarr_chunks::bytes_to_heights(&bytes[..7]), None);
}

#[test]
fn heights_from_unaligned_bytes() {
    let stored: Vec<i64> = vec![-7, 123456789];
    let mut buffer: Vec<u8> = vec![0u8];
    buffer.extend_from_slice(bytemuck::cast_slice(&stored));
    assert_eq!(ekko::zarr_chunks::bytes_to_heights(&buffer[1..]), Some(stored));
    assert_eq!(ekko::zarr_chunks::bytes_to_heights(&buffer[..0]), Some(Vec::new()));
    assert_eq!(ekko::zarr_chunks::bytes_to_heights(&buffer[..10]), None);
}

#[test]
fn heights_read_in_one_of_the_two_byte_orders() {
    let bytes: Vec<u8> = vec![1, 0, 0, 0, 0, 0, 0, 0, 255, 255, 255, 255, 255, 255, 255, 255];
    let heights = ekko::zarr_chunks::bytes_to_heights(&bytes).unwrap();
    assert!(heights[0] == 1 || heights[0] == 1i64 << 56);
    assert_eq!(heights[1], -1);
}
