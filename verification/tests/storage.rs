use ekko::chunk_queue::{chunk_rows, ChunkQueue};

fn height_map(base: i64) -> Vec<i64> {
    (0..256).map(|i| base + i).collect()
}

#[test]
fn queue_hands_out_full_batches() {
    let mut queue = ChunkQueue::new(2);
    assert!(queue.is_queue_empty());
    assert!(queue.queue_chunk(0, 0, height_map(0)).is_none());
    assert_eq!(queue.queue_size(), 1);
    let batch = queue.queue_chunk(1, -1, height_map(100)).expect("a full batch");
    assert_eq!(batch.len(), 2);
    assert_eq!((batch[0].0, batch[0].1), (0, 0));
    assert_eq!((batch[1].0, batch[1].1), (1, -1));
    assert_eq!(batch[1].2[3], 103);
    assert!(queue.is_queue_empty());
}

#[test]
fn flush_returns_what_is_waiting() {
    let mut queue = ChunkQueue::new(10);
    queue.queue_chunk(3, 4, height_map(0));
    queue.queue_chunk(5, 6, height_map(0));
    let rest = queue.flush_queue();
    assert_eq!(rest.len(), 2);
    assert_eq!((rest[1].0, rest[1].1), (5, 6));
    assert_eq!(queue.queue_size(), 0);
    assert!(queue.flush_queue().is_empty());
}

#[test]
fn queue_keeps_every_chunk_in_order() {
    let mut queue = ChunkQueue::new(3);
    let mut out: Vec<(i32, i32)> = Vec::new();
    for i in 0..10 {
        if let Some(batch) = queue.queue_chunk(i, -i, height_map(i as i64)) {
            assert_eq!(batch.len(), 3);
            out.extend(batch.iter().map(|c| (c.0, c.1)));
        }
        assert!(queue.queue_size() < 3);
    }
    out.extend(queue.flush_queue().iter().map(|c| (c.0, c.1)));
    let expected: Vec<(i32, i32)> = (0..10).map(|i| (i, -i)).collect();
    assert_eq!(out, expected);
}

#[test]
fn rows_cover_every_block_column() {
    let chunks = vec![(2, -1, height_map(60)), (0, 3, height_map(-5))];
    let rows = chunk_rows(&chunks);
    assert_eq!(rows.heights.len(), 512);
    assert_eq!(rows.chunk_xs[0], 2);
    assert_eq!(rows.local_xs[17], 1);
    assert_eq!(rows.local_zs[17], 1);
    assert_eq!(rows.heights[17], 77);
    assert_eq!(rows.world_xs[17], 33);
    assert_eq!(rows.world_zs[17], -15);
    assert_eq!(rows.chunk_zs[256], 3);
    assert_eq!(rows.world_xs[511], 15);
    assert_eq!(rows.world_zs[511], 63);
    assert_eq!(rows.heights[511], 250);
}

#[test]
fn rows_of_no_chunks() {
    let rows = chunk_rows(&Vec::new());
    assert!(rows.chunk_xs.is_empty());
    assert!(rows.world_zs.is_empty());
}
