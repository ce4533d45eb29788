use noise::{NoiseFn, Perlin};
use voxel_stream::block::Block;
use voxel_stream::chunk::{Chunk, TerrainData, CHUNK_SIZE, CHUNK_VOLUME};
use voxel_stream::vec3i::Vec3i;

const N: usize = CHUNK_SIZE;

fn voxel_index(x: usize, y: usize, z: usize) -> usize {
    N * N * z + N * y + x
}

/// Surface terrain samples for a chunk, computed like the renderer's noise
/// stage: 2-D coherent noise per column mapped to a world height.
fn surface_heights(position: Vec3i) -> TerrainData {
    let perlin = Perlin::new(0);
    let mut heights = Vec::with_capacity(N * N);
    for z in 0..N {
        for x in 0..N {
            let wx = position.x as f64 * N as f64 + x as f64 + 0.5;
            let wz = position.z as f64 * N as f64 + z as f64 + 0.5;
            let v = ((perlin.get([wx / 50.0, wz / 50.0]) + 1.0) / 2.0 * N as f64) as u32;
            heights.push(v);
        }
    }
    TerrainData::Surface { heights }
}

/// Underground terrain samples: 3-D coherent noise per voxel.
fn cave_density(position: Vec3i) -> TerrainData {
    let perlin = Perlin::new(0);
    let mut density = vec![0u32; CHUNK_VOLUME];
    for x in 0..N {
        for y in 0..N {
            for z in 0..N {
                let wx = position.x as f64 * N as f64 + x as f64 + 0.5;
                let wy = position.y as f64 * N as f64 + y as f64 + 0.5;
                let wz = position.z as f64 * N as f64 + z as f64 + 0.5;
                let v = ((perlin.get([wx / 30.0, wy / 30.0, wz / 30.0]) + 1.0) / 2.0
                    * (N - 1) as f64) as u32;
                density[voxel_index(x, y, z)] = v;
            }
        }
    }
    TerrainData::Caves { density }
}

#[test]
fn generation_is_deterministic_surface() {
    let pos = Vec3i::new(2, 0, -3);
    let t1 = surface_heights(pos);
    let t2 = surface_heights(pos);
    let c1 = Chunk::new(pos, &t1);
    let c2 = Chunk::new(pos, &t2);
    assert_eq!(c1.blocks, c2.blocks);
    assert_eq!(c1.is_empty, c2.is_empty);
}

#[test]
fn generation_is_deterministic_caves() {
    let pos = Vec3i::new(-1, -2, 4);
    let c1 = Chunk::new(pos, &cave_density(pos));
    let c2 = Chunk::new(pos, &cave_density(pos));
    assert_eq!(c1.blocks, c2.blocks);
}

#[test]
fn surface_rule_exact_values() {
    let pos = Vec3i::new(0, 0, 0);
    let heights = vec![5u32; N * N];
    let chunk = Chunk::new(pos, &TerrainData::Surface { heights });
    for y in 0..N {
        let expected = if y < 5 {
            Block::DIRT
        } else if y == 5 {
            Block::GRASS
        } else {
            Block::AIR
        };
        assert_eq!(chunk.blocks[voxel_index(7, y, 9)], expected);
    }
    assert!(!chunk.is_empty);
    assert_eq!(chunk.position, pos);
    assert_eq!(chunk.world_position, Vec3i::new(0, 0, 0));
}

#[test]
fn surface_height_compares_against_world_y() {
    // one chunk up, the same heights are far below every voxel: all air
    let pos = Vec3i::new(0, 1, 0);
    let heights = vec![5u32; N * N];
    let chunk = Chunk::new(pos, &TerrainData::Surface { heights });
    assert!(chunk.is_empty);
    for i in 0..CHUNK_VOLUME {
        assert_eq!(chunk.blocks[i], Block::AIR);
    }
}

#[test]
fn cave_rule_exact_threshold() {
    let pos = Vec3i::new(0, -1, 0);
    let mut density = vec![0u32; CHUNK_VOLUME];
    density[voxel_index(1, 2, 3)] = 17; // just above the threshold
    density[voxel_index(4, 5, 6)] = 16; // at the threshold: stays air
    let chunk = Chunk::new(pos, &TerrainData::Caves { density });
    assert_eq!(chunk.blocks[voxel_index(1, 2, 3)], Block::STONE);
    assert_eq!(chunk.blocks[voxel_index(4, 5, 6)], Block::AIR);
    assert!(!chunk.is_empty);
    assert_eq!(chunk.world_position, Vec3i::new(0, -32, 0));
}

#[test]
fn emptiness_tracks_every_edit() {
    let pos = Vec3i::new(0, -1, 0);
    let density = vec![0u32; CHUNK_VOLUME];
    let mut chunk = Chunk::new(pos, &TerrainData::Caves { density });
    assert!(chunk.is_empty);

    let changed = chunk.set_block(Vec3i::new(3, 4, 5), Block::LOG);
    assert!(changed);
    assert!(!chunk.is_empty);

    // writing the same value again changes nothing
    let changed_again = chunk.set_block(Vec3i::new(3, 4, 5), Block::LOG);
    assert!(!changed_again);
    assert!(!chunk.is_empty);

    let cleared = chunk.set_block(Vec3i::new(3, 4, 5), Block::AIR);
    assert!(cleared);
    assert!(chunk.is_empty);
}

#[test]
fn coordinate_round_trip() {
    let cases = [
        Vec3i::new(0, 0, 0),
        Vec3i::new(31, 32, 33),
        Vec3i::new(-1, -32, -33),
        Vec3i::new(-64, 100, -100),
        Vec3i::new(5, 5, 5),
    ];
    for w in cases {
        let c = Chunk::world_to_chunk_pos(w);
        let l = Chunk::world_to_local_pos(w);
        for (cw, cc, cl) in [(w.x, c.x, l.x), (w.y, c.y, l.y), (w.z, c.z, l.z)] {
            assert!(0 <= cl && cl < N as i32);
            assert_eq!(32 * cc + cl, cw);
        }
    }
    assert_eq!(Chunk::world_to_chunk_pos(Vec3i::new(-1, -1, -1)), Vec3i::new(-1, -1, -1));
    assert_eq!(Chunk::world_to_local_pos(Vec3i::new(-1, -1, -1)), Vec3i::new(31, 31, 31));
}

#[test]
fn block_face_uv_table() {
    assert_eq!(Block::AIR.get_uv(0), 0);
    assert_eq!(Block::GRASS.get_uv(0), 0);
    assert_eq!(Block::GRASS.get_uv(3), 0);
    assert_eq!(Block::GRASS.get_uv(4), 2);
    assert_eq!(Block::GRASS.get_uv(5), 1);
    assert_eq!(Block::DIRT.get_uv(2), 2);
    assert_eq!(Block::STONE.get_uv(1), 3);
    assert_eq!(Block::LOG.get_uv(0), 5);
    assert_eq!(Block::LOG.get_uv(5), 4);
    assert_eq!(Block::PLANK.get_uv(4), 6);
    assert_eq!(Block::LEAVES.get_uv(3), 7);
}
