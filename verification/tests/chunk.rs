use voxel_server::chunk::{
    chunk_in_range, chunks_in_radius, ChunkCoord, CHUNK_RENDER_DISTANCE, CHUNK_SIZE,
    CHUNK_UNLOAD_MARGIN,
};
use voxel_server::chunk_set::{load_candidates, ChunkSet};

fn at(x: i32, y: i32, z: i32) -> ChunkCoord {
    ChunkCoord::new(x, y, z)
}

#[test]
fn constants() {
    assert_eq!(CHUNK_SIZE, 32);
    assert_eq!(CHUNK_RENDER_DISTANCE, 12);
    assert_eq!(CHUNK_UNLOAD_MARGIN, 2);
}

#[test]
fn radius_zero_is_the_centre_alone() {
    assert_eq!(chunks_in_radius(at(3, -4, 5), 0), vec![at(3, -4, 5)]);
}

#[test]
fn negative_radius_is_empty() {
    assert!(chunks_in_radius(at(0, 0, 0), -1).is_empty());
    assert!(chunks_in_radius(at(0, 0, 0), i32::MIN).is_empty());
}

#[test]
fn radius_one_is_the_cube_in_x_y_z_order() {
    let cube = chunks_in_radius(at(10, 20, 30), 1);
    assert_eq!(cube.len(), 27);
    assert_eq!(cube[0], at(9, 19, 29));
    assert_eq!(cube[1], at(9, 19, 30));
    assert_eq!(cube[3], at(9, 20, 29));
    assert_eq!(cube[9], at(10, 19, 29));
    assert_eq!(cube[13], at(10, 20, 30));
    assert_eq!(cube[26], at(11, 21, 31));
}

#[test]
fn cube_holds_exactly_the_chunks_in_range() {
    let centre = at(-2, 7, 1);
    let cube = chunks_in_radius(centre, 3);
    assert_eq!(cube.len(), 7 * 7 * 7);
    for x in -7..=3 {
        for y in 2..=12 {
            for z in -4..=6 {
                let c = at(x, y, z);
                assert_eq!(cube.contains(&c), chunk_in_range(centre, c, 3));
            }
        }
    }
}

#[test]
fn default_render_distance_gives_15625_chunks() {
    assert_eq!(chunks_in_radius(at(0, 0, 0), CHUNK_RENDER_DISTANCE).len(), 15625);
}

#[test]
fn cube_is_cut_at_the_edge_of_the_coordinate_space() {
    let cube = chunks_in_radius(at(i32::MAX, i32::MIN, 0), 1);
    assert_eq!(cube.len(), 2 * 2 * 3);
    assert!(cube.contains(&at(i32::MAX, i32::MIN, -1)));
    assert!(cube.contains(&at(i32::MAX - 1, i32::MIN + 1, 1)));
}

#[test]
fn range_is_the_largest_difference_per_axis() {
    assert!(chunk_in_range(at(0, 0, 0), at(2, -2, 2), 2));
    assert!(!chunk_in_range(at(0, 0, 0), at(3, 0, 0), 2));
    assert!(!chunk_in_range(at(0, 0, 0), at(0, 0, -3), 2));
    assert!(chunk_in_range(at(5, 5, 5), at(5, 5, 5), 0));
    assert!(!chunk_in_range(at(5, 5, 5), at(5, 5, 5), -1));
    assert!(!chunk_in_range(at(i32::MIN, 0, 0), at(i32::MAX, 0, 0), i32::MAX));
    assert_eq!(at(i32::MIN, 0, 0).chebyshev(at(i32::MAX, 0, 0)), u32::MAX as i64);
}

#[test]
fn squared_distance_does_not_overflow() {
    assert_eq!(at(1, 2, 3).distance_squared(at(4, 6, 3)), 25);
    let far = at(i32::MIN, i32::MIN, i32::MIN).distance_squared(at(i32::MAX, i32::MAX, i32::MAX));
    assert_eq!(far, 3 * (u32::MAX as u128) * (u32::MAX as u128));
}

#[test]
fn keys_are_distinct() {
    let cube = chunks_in_radius(at(0, 0, 0), 4);
    let mut keys: Vec<u128> = cube.iter().map(|c| c.pack()).collect();
    keys.push(at(i32::MIN, i32::MIN, i32::MIN).pack());
    keys.push(at(i32::MAX, i32::MAX, i32::MAX).pack());
    keys.sort();
    keys.dedup();
    assert_eq!(keys.len(), cube.len() + 2);
    assert_eq!(at(i32::MIN, i32::MIN, i32::MIN).pack(), 0);
    assert_eq!(at(0, 0, 1).pack() - at(0, 0, 0).pack(), 1);
}

#[test]
fn chunk_set_keeps_insertion_order_and_refuses_duplicates() {
    let mut set = ChunkSet::new();
    assert!(set.insert(at(1, 1, 1)));
    assert!(set.insert(at(0, 0, 0)));
    assert!(!set.insert(at(1, 1, 1)));
    assert_eq!(set.len(), 2);
    assert_eq!(set.get(0), at(1, 1, 1));
    assert_eq!(set.get(1), at(0, 0, 0));
    assert!(set.contains(at(0, 0, 0)));
    assert!(!set.contains(at(0, 0, 1)));
}

#[test]
fn retain_within_splits_by_range_and_keeps_order() {
    let mut set = ChunkSet::new();
    for c in [at(0, 0, 0), at(5, 0, 0), at(1, 1, 1), at(0, -4, 0), at(2, 2, 2), at(0, 0, 3)] {
        set.insert(c);
    }
    let dropped = set.retain_within(at(0, 0, 0), 2);
    assert_eq!(dropped, vec![at(5, 0, 0), at(0, -4, 0), at(0, 0, 3)]);
    assert_eq!(set.len(), 3);
    assert_eq!(set.get(0), at(0, 0, 0));
    assert_eq!(set.get(1), at(1, 1, 1));
    assert_eq!(set.get(2), at(2, 2, 2));
    assert!(!set.contains(at(5, 0, 0)));
    assert!(set.insert(at(5, 0, 0)));
    assert!(set.retain_within(at(0, 0, 0), 5).is_empty());
}

#[test]
fn load_candidates_are_nearest_first() {
    let anchor = at(4, -1, 9);
    let chunks = load_candidates(anchor, 2, &ChunkSet::new());
    assert_eq!(chunks.len(), 125);
    assert_eq!(chunks[0], anchor);
    let first_six: Vec<ChunkCoord> = chunks[1..7].to_vec();
    assert_eq!(
        first_six,
        vec![at(3, -1, 9), at(4, -2, 9), at(4, -1, 8), at(4, -1, 10), at(4, 0, 9), at(5, -1, 9)]
    );
    for pair in chunks.windows(2) {
        let a = (pair[0].distance_squared(anchor), pair[0].x, pair[0].y, pair[0].z);
        let b = (pair[1].distance_squared(anchor), pair[1].x, pair[1].y, pair[1].z);
        assert!(a < b);
    }
    assert_eq!(*chunks.last().unwrap(), at(6, 1, 11));
}

#[test]
fn load_candidates_leave_out_what_is_loaded() {
    let anchor = at(0, 0, 0);
    let mut loaded = ChunkSet::new();
    loaded.insert(at(0, 0, 0));
    loaded.insert(at(1, 0, 0));
    loaded.insert(at(9, 9, 9));
    let chunks = load_candidates(anchor, 1, &loaded);
    assert_eq!(chunks.len(), 25);
    assert!(!chunks.contains(&at(0, 0, 0)));
    assert!(!chunks.contains(&at(1, 0, 0)));
    assert!(chunks.contains(&at(-1, 0, 0)));
    for c in &chunks {
        assert!(chunk_in_range(anchor, *c, 1));
    }
}

#[test]
fn load_candidates_at_default_distance() {
    let chunks = load_candidates(at(0, 1, 0), CHUNK_RENDER_DISTANCE, &ChunkSet::new());
    assert_eq!(chunks.len(), 15625);
    assert_eq!(chunks[0], at(0, 1, 0));
    assert_eq!(chunks[15624], at(12, 13, 12));
}
