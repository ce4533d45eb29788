use voxel_stream::block::Block;
use voxel_stream::chunk::{Chunk, TerrainData, CHUNK_VOLUME};
use voxel_stream::chunk_manager::ChunkManager;
use voxel_stream::raycast::FixedVec3;
use voxel_stream::vec3i::Vec3i;

/// An all-air chunk at the given grid coordinate, built directly.
fn empty_chunk(position: Vec3i) -> Chunk {
    Chunk {
        position,
        world_position: Vec3i::new(position.x * 32, position.y * 32, position.z * 32),
        blocks: vec![Block::AIR; CHUNK_VOLUME],
        is_empty: true,
        mesh: None,
    }
}

fn solid_chunk(position: Vec3i) -> Chunk {
    let mut c = empty_chunk(position);
    c.blocks = vec![Block::STONE; CHUNK_VOLUME];
    c.is_empty = false;
    c
}

/// Terrain samples that generate an all-air chunk at an underground
/// coordinate.
fn blank_caves(position: Vec3i) -> TerrainData {
    assert!(position.y < 0);
    TerrainData::Caves { density: vec![0u32; CHUNK_VOLUME] }
}

fn dense_caves(position: Vec3i) -> TerrainData {
    assert!(position.y < 0);
    TerrainData::Caves { density: vec![20u32; CHUNK_VOLUME] }
}

fn drain(mgr: &mut ChunkManager, terrain: fn(Vec3i) -> TerrainData) {
    loop {
        let jobs = mgr.take_data_jobs(64);
        if jobs.is_empty() {
            break;
        }
        let generated: Vec<Chunk> = jobs.iter().map(|p| Chunk::new(*p, &terrain(*p))).collect();
        mgr.build_chunk_data_in_queue(generated);
    }
    for _ in 0..64 {
        mgr.build_chunk_mesh_in_queue(64);
    }
}

fn in_window(center: Vec3i, r: i32, p: Vec3i) -> bool {
    (p.x - center.x).abs() <= r && (p.y - center.y).abs() <= r && (p.z - center.z).abs() <= r
}

#[test]
fn streaming_window_converges() {
    let mut mgr = ChunkManager::new(1);
    let center = Vec3i::new(0, -2, 0);
    mgr.update_around(center);
    assert_eq!(mgr.chunk_data_load_queue.len(), 27);
    drain(&mut mgr, dense_caves);

    // exactly the window is loaded, and no queue holds anything outside it
    assert_eq!(mgr.chunk_map.len(), 27);
    for dx in -1..=1 {
        for dy in -1..=1 {
            for dz in -1..=1 {
                let p = Vec3i::new(center.x + dx, center.y + dy, center.z + dz);
                assert!(mgr.get_chunk(p).is_some());
            }
        }
    }
    assert!(mgr.chunk_data_load_queue.is_empty());
    assert!(mgr.chunk_mesh_load_queue.is_empty());
    assert!(mgr.chunk_mesh_reload_queue.is_empty());
    assert!(mgr.chunk_neighbor_loaded_queue.is_empty());
    for p in &mgr.chunks_with_missing_neighbors {
        assert!(in_window(center, 1, *p));
    }

    // moving the observer prunes everything to the new window
    let center2 = Vec3i::new(5, -2, 5);
    mgr.update_around(center2);
    drain(&mut mgr, dense_caves);
    assert_eq!(mgr.chunk_map.len(), 27);
    for c in &mgr.chunk_map {
        assert!(in_window(center2, 1, c.position));
    }
    assert!(mgr.chunk_data_load_queue.is_empty());
}

#[test]
fn data_queue_is_sorted_nearest_first() {
    let mut mgr = ChunkManager::new(2);
    let center = Vec3i::new(0, -3, 0);
    mgr.update_around(center);
    let q = &mgr.chunk_data_load_queue;
    assert_eq!(q.len(), 125);
    assert_eq!(q[0], center);
    let d2 = |p: &Vec3i| {
        let (dx, dy, dz) = (p.x - center.x, p.y - center.y, p.z - center.z);
        dx * dx + dy * dy + dz * dz
    };
    for i in 1..q.len() {
        assert!(d2(&q[i - 1]) <= d2(&q[i]));
    }
}

#[test]
fn reload_is_serviced_before_plain_load() {
    let mut mgr = ChunkManager::new(3);
    let a = Vec3i::new(0, -2, 0);
    let b = Vec3i::new(2, -2, 2);
    mgr.insert_generated_chunk(empty_chunk(a)); // empty: not queued for meshing
    mgr.insert_generated_chunk(solid_chunk(b)); // queued for a first mesh
    assert_eq!(mgr.chunk_mesh_load_queue, vec![b]);

    // an edit queues a rebuild for the chunk at `a`
    mgr.set_block(Vec3i::new(1, -63, 1), Block::STONE);
    assert_eq!(mgr.chunk_mesh_reload_queue, vec![a]);

    // with a budget of one task, the rebuild wins over the plain load
    let jobs = mgr.take_mesh_jobs(1);
    assert_eq!(jobs, vec![a]);
    assert_eq!(mgr.chunk_mesh_load_queue, vec![b]);
    assert!(mgr.chunk_mesh_reload_queue.is_empty());
}

#[test]
fn boundary_edit_invalidates_both_chunks_and_no_others() {
    let mut mgr = ChunkManager::new(3);
    let owner = Vec3i::new(0, 0, 0);
    let right = Vec3i::new(1, 0, 0);
    mgr.insert_generated_chunk(empty_chunk(owner));
    mgr.insert_generated_chunk(empty_chunk(right));

    // a voxel on the shared boundary of the two loaded chunks
    mgr.set_block(Vec3i::new(31, 5, 5), Block::STONE);
    let reload = &mgr.chunk_mesh_reload_queue;
    assert_eq!(reload.len(), 2);
    assert!(reload.contains(&owner));
    assert!(reload.contains(&right));
}

#[test]
fn unloaded_edit_is_a_no_op() {
    let mut mgr = ChunkManager::new(3);
    mgr.set_block(Vec3i::new(100, 100, 100), Block::STONE);
    assert!(mgr.chunk_mesh_reload_queue.is_empty());
    assert!(mgr.get_block(Vec3i::new(100, 100, 100)).is_none());
}

#[test]
fn orphaned_mesh_work_requeues_data_load() {
    let mut mgr = ChunkManager::new(3);
    let gone = Vec3i::new(0, 0, 0);
    mgr.apply_mesh_result(gone, None, false);
    assert_eq!(mgr.chunk_data_load_queue, vec![gone]);
}

#[test]
fn neighbor_arrival_unblocks_deferred_chunk() {
    let mut mgr = ChunkManager::new(3);
    let blocked = Vec3i::new(0, -2, 0);
    mgr.insert_generated_chunk(solid_chunk(blocked));
    // mesh it with every neighbor absent: faces defer, the chunk is marked
    mgr.build_chunk_mesh_in_queue(8);
    assert!(mgr.chunks_with_missing_neighbors.contains(&blocked));
    assert!(mgr.chunk_mesh_load_queue.is_empty());

    // a neighbor arrives: the blocked chunk moves to the unblocked queue
    mgr.insert_generated_chunk(solid_chunk(Vec3i::new(1, -2, 0)));
    assert!(mgr.chunk_neighbor_loaded_queue.contains(&blocked));
}

#[test]
fn get_and_set_block_round_trip() {
    let mut mgr = ChunkManager::new(3);
    mgr.insert_generated_chunk(empty_chunk(Vec3i::new(-1, -1, -1)));
    let w = Vec3i::new(-5, -7, -9);
    assert_eq!(mgr.get_block(w), Some(Block::AIR));
    mgr.set_block(w, Block::LEAVES);
    assert_eq!(mgr.get_block(w), Some(Block::LEAVES));
}

#[test]
fn ray_cast_hits_stone_through_open_air() {
    let mut mgr = ChunkManager::new(3);
    mgr.insert_generated_chunk(empty_chunk(Vec3i::new(0, 0, 0)));
    mgr.set_block(Vec3i::new(5, 5, 5), Block::STONE);

    // from (0, 5, 5) toward +x with reach 10: the stone at (5, 5, 5) is hit
    // through its -x face
    let origin = FixedVec3::new(0, 5 * 1024, 5 * 1024);
    let toward_x = FixedVec3::new(1024, 0, 0);
    let hit = mgr.ray_cast(origin, toward_x, 10 * 1024);
    assert_eq!(hit, Some((Vec3i::new(5, 5, 5), Vec3i::new(-1, 0, 0))));
}

#[test]
fn ray_cast_misses_beyond_reach() {
    let mut mgr = ChunkManager::new(3);
    mgr.insert_generated_chunk(empty_chunk(Vec3i::new(0, 0, 0)));
    mgr.set_block(Vec3i::new(5, 5, 5), Block::STONE);
    let origin = FixedVec3::new(0, 5 * 1024, 5 * 1024);
    let toward_x = FixedVec3::new(1024, 0, 0);
    assert_eq!(mgr.ray_cast(origin, toward_x, 3 * 1024), None);
    // and a ray pointed away never hits
    let away = FixedVec3::new(-1024, 0, 0);
    assert_eq!(mgr.ray_cast(origin, away, 10 * 1024), None);
}

#[test]
fn ray_cast_reports_entry_face_on_each_axis() {
    let mut mgr = ChunkManager::new(3);
    mgr.insert_generated_chunk(empty_chunk(Vec3i::new(0, 0, 0)));
    mgr.set_block(Vec3i::new(5, 5, 5), Block::STONE);
    let reach = 10 * 1024;
    let from_above = mgr.ray_cast(
        FixedVec3::new(5 * 1024 + 512, 9 * 1024, 5 * 1024 + 512),
        FixedVec3::new(0, -1024, 0),
        reach,
    );
    assert_eq!(from_above, Some((Vec3i::new(5, 5, 5), Vec3i::new(0, 1, 0))));
    let from_front = mgr.ray_cast(
        FixedVec3::new(5 * 1024 + 512, 5 * 1024 + 512, 1024),
        FixedVec3::new(0, 0, 1024),
        reach,
    );
    assert_eq!(from_front, Some((Vec3i::new(5, 5, 5), Vec3i::new(0, 0, -1))));
}

#[test]
fn streaming_window_converges_with_blank_terrain() {
    let mut mgr = ChunkManager::new(1);
    let center = Vec3i::new(0, -2, 0);
    mgr.update_around(center);
    drain(&mut mgr, blank_caves);
    assert_eq!(mgr.chunk_map.len(), 27);
    assert!(mgr.chunk_data_load_queue.is_empty());
    assert!(mgr.chunk_mesh_load_queue.is_empty());
    assert!(mgr.chunks_with_missing_neighbors.is_empty());
}

#[test]
fn ray_crosses_chunk_borders() {
    let mut mgr = ChunkManager::new(3);
    mgr.insert_generated_chunk(empty_chunk(Vec3i::new(0, 0, 0)));
    mgr.insert_generated_chunk(empty_chunk(Vec3i::new(1, 0, 0)));
    mgr.set_block(Vec3i::new(33, 5, 5), Block::STONE);
    let hit = mgr.ray_cast(
        FixedVec3::new(30 * 1024, 5 * 1024 + 512, 5 * 1024 + 512),
        FixedVec3::new(1024, 0, 0),
        10 * 1024,
    );
    assert_eq!(hit, Some((Vec3i::new(33, 5, 5), Vec3i::new(-1, 0, 0))));
}

#[test]
fn update_around_prunes_pending_rebuilds() {
    let mut mgr = ChunkManager::new(1);
    let here = Vec3i::new(0, 0, 0);
    mgr.insert_generated_chunk(empty_chunk(here));
    mgr.set_block(Vec3i::new(1, 1, 1), Block::STONE);
    assert_eq!(mgr.chunk_mesh_reload_queue, vec![here]);

    // the observer moves far away: the pending rebuild leaves with its chunk
    mgr.update_around(Vec3i::new(50, 0, 50));
    assert!(mgr.chunk_mesh_reload_queue.is_empty());
    assert!(mgr.chunk_map.is_empty());
    assert_eq!(mgr.chunk_data_load_queue.len(), 27);
}

#[test]
fn batch_fold_equals_one_by_one_inserts() {
    let a = Vec3i::new(0, -2, 0);
    let b = Vec3i::new(1, -2, 0);
    let mut batched = ChunkManager::new(3);
    batched.build_chunk_data_in_queue(vec![solid_chunk(a), solid_chunk(b)]);

    let mut stepped = ChunkManager::new(3);
    stepped.insert_generated_chunk(solid_chunk(a));
    stepped.insert_generated_chunk(solid_chunk(b));

    assert_eq!(batched.chunk_map.len(), stepped.chunk_map.len());
    for (x, y) in batched.chunk_map.iter().zip(stepped.chunk_map.iter()) {
        assert_eq!(x.position, y.position);
        assert_eq!(x.blocks, y.blocks);
        assert_eq!(x.is_empty, y.is_empty);
    }
    assert_eq!(batched.chunk_mesh_load_queue, stepped.chunk_mesh_load_queue);
    assert_eq!(batched.chunk_neighbor_loaded_queue, stepped.chunk_neighbor_loaded_queue);
}

#[test]
fn rebuild_reattaches_exact_geometry() {
    // a chunk with one solid voxel, all neighbors loaded: after the mesh
    // batch its chunk carries the six-face geometry
    let mut mgr = ChunkManager::new(3);
    let home = Vec3i::new(0, -2, 0);
    let mut c = empty_chunk(home);
    c.set_block(Vec3i::new(5, 5, 5), Block::STONE);
    mgr.insert_generated_chunk(c);
    for f in 0..6 {
        let d = [(0, 0, -1), (0, 0, 1), (-1, 0, 0), (1, 0, 0), (0, -1, 0), (0, 1, 0)][f];
        mgr.insert_generated_chunk(empty_chunk(Vec3i::new(home.x + d.0, home.y + d.1, home.z + d.2)));
    }
    mgr.build_chunk_mesh_in_queue(16);
    let chunk = mgr.get_chunk(home).unwrap();
    let mesh = chunk.mesh.as_ref().unwrap();
    assert_eq!(mesh.vertices.len(), 24);
    assert_eq!(mesh.indices.len(), 36);
    assert!(mgr.chunks_with_missing_neighbors.is_empty());
    assert!(mgr.chunk_mesh_load_queue.is_empty());
}
