use std::sync::Arc;
use voxel_server::chunk::ChunkCoord;
use voxel_server::terrain::{ChunkPayload, ColumnHeights, Terrain, TerrainGenerator};
use voxel_server::voxel::{UVec3, Voxel, VoxelBuffer};

fn at(x: i32, y: i32, z: i32) -> ChunkCoord {
    ChunkCoord::new(x, y, z)
}

fn cell(x: u32, y: u32, z: u32) -> UVec3 {
    UVec3::new(x, y, z)
}

#[test]
fn voxel_tags() {
    assert_eq!(Voxel::empty(), Voxel(0));
    assert_eq!(Voxel::dirt(), Voxel(1));
    assert_eq!(Voxel::stone(), Voxel(2));
    assert!(Voxel::empty().is_empty());
    assert!(!Voxel::dirt().is_empty());
    assert!(!Voxel(7).is_empty());
}

#[test]
fn new_buffer_is_empty_and_set_changes_one_cell() {
    let mut buffer = VoxelBuffer::new(UVec3::new(3, 4, 5));
    assert_eq!(buffer.voxels.len(), 60);
    assert!(buffer.voxels.iter().all(|v| v.is_empty()));
    buffer.set(cell(2, 3, 4), Voxel::stone());
    buffer.set(cell(1, 0, 0), Voxel::dirt());
    assert_eq!(buffer.get(cell(2, 3, 4)), Voxel::stone());
    assert_eq!(buffer.get(cell(1, 0, 0)), Voxel::dirt());
    assert_eq!(buffer.voxels[59], Voxel::stone());
    assert_eq!(buffer.voxels[1], Voxel::dirt());
    assert_eq!(buffer.voxels.iter().filter(|v| !v.is_empty()).count(), 2);
}

#[test]
fn well_formed_buffers_hold_one_voxel_per_cell() {
    assert!(VoxelBuffer::new(UVec3::new(3, 4, 5)).is_well_formed());
    assert!(VoxelBuffer::new(UVec3::new(0, 4, 5)).is_well_formed());
    assert!(!VoxelBuffer { size: UVec3::new(2, 2, 2), voxels: vec![Voxel(0); 7] }.is_well_formed());
    assert!(!VoxelBuffer { size: UVec3::splat(u32::MAX), voxels: Vec::new() }.is_well_formed());
}

#[test]
fn linear_index_is_x_then_y_then_z() {
    let mut buffer = VoxelBuffer::new(UVec3::new(4, 3, 2));
    buffer.set(cell(1, 2, 1), Voxel(9));
    assert_eq!(buffer.voxels[1 + 2 * 4 + 1 * 4 * 3], Voxel(9));
    assert_eq!(UVec3::new(4, 3, 2).cells(), 24);
    assert_eq!(UVec3::splat(32), UVec3::new(32, 32, 32));
    assert_eq!(UVec3::splat(u32::MAX).cells(), (u32::MAX as u128).pow(3));
}

#[test]
fn column_heights_need_one_height_per_column() {
    assert!(ColumnHeights::from_vec(vec![0; 1024]).is_some());
    assert!(ColumnHeights::from_vec(vec![0; 1023]).is_none());
    assert!(ColumnHeights::from_vec(vec![0; 1025]).is_none());
    assert!(ColumnHeights::from_vec(Vec::new()).is_none());
    let mut heights = vec![0; 1024];
    heights[3 * 32 + 7] = 41;
    let heights = ColumnHeights::from_vec(heights).unwrap();
    assert_eq!(heights.get(3, 7), 41);
    assert_eq!(heights.get(7, 3), 0);
    assert_eq!(ColumnHeights::flat(-5).get(31, 31), -5);
}

#[test]
fn flat_terrain_is_stone_dirt_and_air() {
    let generator = TerrainGenerator::new(123);
    assert_eq!(generator.seed, 123);
    let buffer = generator.generate(at(0, 0, 0), &ColumnHeights::flat(20));
    assert_eq!(buffer.size, UVec3::splat(32));
    assert_eq!(buffer.voxels.len(), 32 * 32 * 32);
    for x in [0u32, 13, 31] {
        for z in [0u32, 5, 31] {
            for y in 0..32u32 {
                let expected = if y < 16 {
                    Voxel::stone()
                } else if y < 20 {
                    Voxel::dirt()
                } else {
                    Voxel::empty()
                };
                assert_eq!(buffer.get(cell(x, y, z)), expected, "cell {} {} {}", x, y, z);
            }
        }
    }
}

#[test]
fn terrain_follows_the_column_heights() {
    let mut heights = vec![10; 1024];
    heights[2 * 32 + 5] = 40;
    let heights = ColumnHeights::from_vec(heights).unwrap();
    let generator = TerrainGenerator::new(1);
    let low = generator.generate(at(7, 0, -3), &heights);
    assert_eq!(low.get(cell(2, 31, 5)), Voxel::stone());
    assert_eq!(low.get(cell(5, 31, 2)), Voxel::empty());
    assert_eq!(low.get(cell(0, 5, 0)), Voxel::stone());
    assert_eq!(low.get(cell(0, 6, 0)), Voxel::dirt());
    assert_eq!(low.get(cell(0, 9, 0)), Voxel::dirt());
    assert_eq!(low.get(cell(0, 10, 0)), Voxel::empty());
    let high = generator.generate(at(7, 1, -3), &heights);
    assert_eq!(high.get(cell(2, 3, 5)), Voxel::stone());
    assert_eq!(high.get(cell(2, 4, 5)), Voxel::dirt());
    assert_eq!(high.get(cell(2, 7, 5)), Voxel::dirt());
    assert_eq!(high.get(cell(2, 8, 5)), Voxel::empty());
    assert!(high.get(cell(0, 0, 0)).is_empty());
    let below = generator.generate(at(0, -1, 0), &heights);
    assert!(below.voxels.iter().all(|v| *v == Voxel::stone()));
}

#[test]
fn generation_is_deterministic() {
    let mut heights = Vec::new();
    for i in 0..1024 {
        heights.push((i * 7919) % 64 - 10);
    }
    let heights = ColumnHeights::from_vec(heights).unwrap();
    let one = TerrainGenerator::new(5).generate(at(1, 0, 2), &heights);
    let two = TerrainGenerator::new(5).generate(at(1, 0, 2), &heights);
    assert_eq!(one, two);
}

#[test]
fn generation_at_the_edge_of_the_world_does_not_overflow() {
    let top = TerrainGenerator::new(0).generate(at(0, i32::MAX, 0), &ColumnHeights::flat(i32::MAX));
    assert!(top.voxels.iter().all(|v| v.is_empty()));
    let bottom =
        TerrainGenerator::new(0).generate(at(0, i32::MIN, 0), &ColumnHeights::flat(i32::MIN));
    assert!(bottom.voxels.iter().all(|v| *v == Voxel::stone()));
    let hollow = TerrainGenerator::new(0).generate(at(0, 0, 0), &ColumnHeights::flat(i32::MIN));
    assert!(hollow.voxels.iter().all(|v| v.is_empty()));
    let deep = TerrainGenerator::new(0).generate(at(0, i32::MIN, 0), &ColumnHeights::flat(0));
    assert!(deep.voxels.iter().all(|v| *v == Voxel::stone()));
}

#[test]
fn request_twice_queues_one_job() {
    let mut terrain = Terrain::new(9);
    assert_eq!(terrain.generator().seed, 9);
    terrain.request(at(1, 2, 3));
    terrain.request(at(1, 2, 3));
    terrain.request(at(0, 0, 0));
    terrain.request(at(1, 2, 3));
    assert!(terrain.is_pending(at(1, 2, 3)));
    assert!(terrain.get(at(1, 2, 3)).is_none());
    assert_eq!(terrain.take_requests(), vec![at(1, 2, 3), at(0, 0, 0)]);
    assert!(terrain.take_requests().is_empty());
    terrain.request(at(1, 2, 3));
    assert!(terrain.take_requests().is_empty());
}

#[test]
fn poll_caches_and_returns_each_result_once() {
    let mut terrain = Terrain::new(9);
    terrain.request(at(1, 2, 3));
    let jobs = terrain.take_requests();
    let generator = terrain.generator();
    let results: Vec<ChunkPayload> = jobs
        .iter()
        .map(|pos| ChunkPayload {
            pos: *pos,
            data: Arc::new(generator.generate(*pos, &ColumnHeights::flat(70))),
        })
        .collect();
    let expected = results.clone();
    let ready = terrain.poll(results);
    assert_eq!(ready, expected);
    assert_eq!(ready.iter().filter(|r| r.pos == at(1, 2, 3)).count(), 1);
    assert!(!terrain.is_pending(at(1, 2, 3)));
    let cached = terrain.get(at(1, 2, 3)).unwrap();
    assert!(Arc::ptr_eq(&cached, &expected[0].data));
    assert!(terrain.poll(Vec::new()).is_empty());
    terrain.request(at(1, 2, 3));
    assert!(!terrain.is_pending(at(1, 2, 3)));
    assert!(terrain.take_requests().is_empty());
}

#[test]
fn set_caches_and_clears_pending() {
    let mut terrain = Terrain::new(0);
    terrain.request(at(4, 4, 4));
    let data = Arc::new(VoxelBuffer::new(UVec3::splat(1)));
    terrain.set(at(4, 4, 4), data.clone());
    assert!(!terrain.is_pending(at(4, 4, 4)));
    assert!(Arc::ptr_eq(&terrain.get(at(4, 4, 4)).unwrap(), &data));
    assert!(terrain.get(at(4, 4, 5)).is_none());
}
