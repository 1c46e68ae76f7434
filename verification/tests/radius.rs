use ekko::dist_sort::sort_by_distance;
use ekko::radius::{generate_radius_range_chunk_coords, length_of_radius_range_chunk_coords};

#[test]
fn square_ring_without_center() {
    let coords = generate_radius_range_chunk_coords(0, 0, 1, 1, false);
    assert_eq!(
        coords,
        vec![(-1, 0), (0, -1), (0, 1), (1, 0), (-1, -1), (-1, 1), (1, -1), (1, 1)]
    );
    assert_eq!(length_of_radius_range_chunk_coords(1, 1, false), 8);
}

#[test]
fn circular_ring_between_radii() {
    let coords = generate_radius_range_chunk_coords(5, 7, 2, 2, true);
    assert_eq!(
        coords,
        vec![(4, 6), (4, 8), (6, 6), (6, 8), (3, 7), (5, 5), (5, 9), (7, 7)]
    );
    assert_eq!(length_of_radius_range_chunk_coords(2, 2, true), 8);
}

#[test]
fn ring_lengths_match_listed_chunks() {
    for (start, end, circular) in [(0, 20, true), (3, 9, true), (0, 6, false), (2, 5, false), (1, 0, true)] {
        let coords = generate_radius_range_chunk_coords(-4, 11, start, end, circular);
        assert_eq!(coords.len(), length_of_radius_range_chunk_coords(start, end, circular));
    }
}

#[test]
fn square_ring_count() {
    assert_eq!(length_of_radius_range_chunk_coords(1, 3, false), 48);
    assert_eq!(length_of_radius_range_chunk_coords(0, 3, false), 49);
}

#[test]
fn ring_is_sorted_by_distance() {
    let coords = generate_radius_range_chunk_coords(100, -100, 0, 6, true);
    let d = |c: &(i32, i32)| (c.0 - 100) * (c.0 - 100) + (c.1 + 100) * (c.1 + 100);
    for w in coords.windows(2) {
        assert!(d(&w[0]) <= d(&w[1]));
    }
    assert_eq!(coords[0], (100, -100));
}

#[test]
fn stable_sort_by_distance() {
    let v = vec![(2, 0), (0, 1), (1, 1), (-1, 0), (0, 0), (0, -2)];
    assert_eq!(
        sort_by_distance(&v),
        vec![(0, 0), (0, 1), (-1, 0), (1, 1), (2, 0), (0, -2)]
    );
}

#[test]
fn ring_splits_into_inner_and_outer_parts() {
    for circular in [true, false] {
        let all = generate_radius_range_chunk_coords(3, -2, 0, 4, circular);
        let inner = generate_radius_range_chunk_coords(3, -2, 0, 1, circular);
        let outer = generate_radius_range_chunk_coords(3, -2, 2, 4, circular);
        assert!(inner.iter().all(|c| !outer.contains(c)));
        assert!(all.iter().all(|c| inner.contains(c) || outer.contains(c)));
        assert!(inner.iter().chain(outer.iter()).all(|c| all.contains(c)));
        assert_eq!(inner.len() + outer.len(), all.len());
    }
}
