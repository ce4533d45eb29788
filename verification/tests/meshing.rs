use voxel_stream::block::Block;
use voxel_stream::chunk::{Chunk, ChunkMeshData, Vertex, CHUNK_SIZE, CHUNK_VOLUME};
use voxel_stream::vec3i::Vec3i;

const N: i32 = CHUNK_SIZE as i32;

/// An all-air chunk at the given grid coordinate, built directly.
fn empty_chunk(position: Vec3i) -> Chunk {
    Chunk {
        position,
        world_position: Vec3i::new(position.x * N, position.y * N, position.z * N),
        blocks: vec![Block::AIR; CHUNK_VOLUME],
        is_empty: true,
        mesh: None,
    }
}

/// The voxel and face a mesh quad belongs to, decoded from its first vertex.
fn quad_cell_and_face(chunk: &Chunk, v: &Vertex) -> (Vec3i, u32) {
    let local = Vec3i::new(
        v.voxel_position.x - chunk.world_position.x,
        v.voxel_position.y - chunk.world_position.y,
        v.voxel_position.z - chunk.world_position.z,
    );
    let face = (v.packed_data >> 18) & 7;
    (local, face)
}

fn quads(chunk: &Chunk, mesh: &ChunkMeshData) -> Vec<(Vec3i, u32)> {
    assert_eq!(mesh.vertices.len() % 4, 0);
    assert_eq!(mesh.indices.len(), mesh.vertices.len() / 4 * 6);
    (0..mesh.vertices.len() / 4)
        .map(|j| quad_cell_and_face(chunk, &mesh.vertices[4 * j]))
        .collect()
}

#[test]
fn empty_chunk_yields_no_mesh() {
    let chunk = empty_chunk(Vec3i::new(0, 0, 0));
    let (mesh, missing) = chunk.generate_mesh([None, None, None, None, None, None]);
    assert!(mesh.is_none());
    assert!(!missing);
}

#[test]
fn single_voxel_emits_six_faces() {
    let mut chunk = empty_chunk(Vec3i::new(0, 1, 0));
    chunk.set_block(Vec3i::new(5, 5, 5), Block::STONE);
    let (mesh, missing) = chunk.generate_mesh([None, None, None, None, None, None]);
    assert!(!missing); // the voxel touches no chunk border
    let mesh = mesh.unwrap();
    let qs = quads(&chunk, &mesh);
    assert_eq!(qs.len(), 6);
    for face in 0..6u32 {
        assert_eq!(
            qs.iter().filter(|(c, f)| *c == Vec3i::new(5, 5, 5) && *f == face).count(),
            1
        );
    }
}

#[test]
fn packed_vertex_exact_value() {
    let mut chunk = empty_chunk(Vec3i::new(0, 1, 0));
    chunk.set_block(Vec3i::new(5, 5, 5), Block::STONE);
    let (mesh, _) = chunk.generate_mesh([None, None, None, None, None, None]);
    let mesh = mesh.unwrap();
    // first emitted face: front face (0) of the voxel; first corner (0,0,0)
    // packed as uv << 21 | face << 18 | x << 12 | y << 6 | z
    let expected = (3u32 << 21) | (0 << 18) | (5 << 12) | (5 << 6) | 5;
    assert_eq!(mesh.vertices[0].packed_data, expected);
    assert_eq!(mesh.vertices[0].voxel_position, Vec3i::new(5, 37, 5));
    assert_eq!(&mesh.indices[0..6], &[0, 1, 2, 0, 2, 3]);
}

#[test]
fn hidden_faces_between_solid_pair() {
    let mut chunk = empty_chunk(Vec3i::new(0, 1, 0));
    chunk.set_block(Vec3i::new(5, 5, 5), Block::STONE);
    chunk.set_block(Vec3i::new(6, 5, 5), Block::STONE);
    let nbrs: Vec<Chunk> = (0..6)
        .map(|f| {
            let d = [(0, 0, -1), (0, 0, 1), (-1, 0, 0), (1, 0, 0), (0, -1, 0), (0, 1, 0)][f];
            empty_chunk(Vec3i::new(d.0, 1 + d.1, d.2))
        })
        .collect();
    let (mesh, missing) = chunk.generate_mesh([
        Some(&nbrs[0]),
        Some(&nbrs[1]),
        Some(&nbrs[2]),
        Some(&nbrs[3]),
        Some(&nbrs[4]),
        Some(&nbrs[5]),
    ]);
    assert!(!missing);
    let mesh = mesh.unwrap();
    let qs = quads(&chunk, &mesh);
    // two touching cubes show ten faces; the shared face never appears
    assert_eq!(qs.len(), 10);
    assert_eq!(qs.iter().filter(|(c, f)| *c == Vec3i::new(5, 5, 5) && *f == 3).count(), 0);
    assert_eq!(qs.iter().filter(|(c, f)| *c == Vec3i::new(6, 5, 5) && *f == 2).count(), 0);
    // each solid/air boundary contributes exactly one face
    assert_eq!(qs.iter().filter(|(c, f)| *c == Vec3i::new(5, 5, 5) && *f == 2).count(), 1);
    assert_eq!(qs.iter().filter(|(c, f)| *c == Vec3i::new(6, 5, 5) && *f == 3).count(), 1);
}

#[test]
fn missing_neighbor_defers_and_self_heals() {
    // a voxel on the -x border of its chunk
    let mut chunk = empty_chunk(Vec3i::new(0, 1, 0));
    chunk.set_block(Vec3i::new(0, 5, 5), Block::STONE);

    let (mesh_absent, missing_absent) = chunk.generate_mesh([None, None, None, None, None, None]);
    assert!(missing_absent);
    let mesh_absent = mesh_absent.unwrap();
    // the border face is withheld while the neighbor is unknown
    assert_eq!(quads(&chunk, &mesh_absent).len(), 5);

    let nbrs: Vec<Chunk> = (0..6)
        .map(|f| {
            let d = [(0, 0, -1), (0, 0, 1), (-1, 0, 0), (1, 0, 0), (0, -1, 0), (0, 1, 0)][f];
            empty_chunk(Vec3i::new(d.0, 1 + d.1, d.2))
        })
        .collect();
    let all = [
        Some(&nbrs[0]),
        Some(&nbrs[1]),
        Some(&nbrs[2]),
        Some(&nbrs[3]),
        Some(&nbrs[4]),
        Some(&nbrs[5]),
    ];
    let (mesh_full, missing_full) = chunk.generate_mesh(all);
    assert!(!missing_full);
    let mesh_full = mesh_full.unwrap();
    let full_quads = quads(&chunk, &mesh_full);
    // once the neighbor is present the withheld face converges in
    assert_eq!(full_quads.len(), 6);
    assert!(quads(&chunk, &mesh_absent).len() < full_quads.len());

    // and a re-mesh with the same surroundings is bit-identical
    let (mesh_again, _) = chunk.generate_mesh(all);
    let mesh_again = mesh_again.unwrap();
    assert_eq!(mesh_full.vertices, mesh_again.vertices);
    assert_eq!(mesh_full.indices, mesh_again.indices);
}

#[test]
fn solid_neighbor_hides_border_face() {
    let mut chunk = empty_chunk(Vec3i::new(0, 1, 0));
    chunk.set_block(Vec3i::new(0, 5, 5), Block::STONE);
    // the left neighbor holds a solid voxel wrapped to local x = 31
    let mut left = empty_chunk(Vec3i::new(-1, 1, 0));
    left.set_block(Vec3i::new(31, 5, 5), Block::STONE);
    let others: Vec<Chunk> = (0..5).map(|i| empty_chunk(Vec3i::new(10 + i, 1, 0))).collect();
    let (mesh, missing) = chunk.generate_mesh([
        Some(&others[0]),
        Some(&others[1]),
        Some(&left),
        Some(&others[2]),
        Some(&others[3]),
        Some(&others[4]),
    ]);
    assert!(!missing);
    let qs = quads(&chunk, &mesh.unwrap());
    assert_eq!(qs.len(), 5);
    assert_eq!(qs.iter().filter(|(c, f)| *c == Vec3i::new(0, 5, 5) && *f == 2).count(), 0);
}

#[test]
fn load_mesh_clears_on_empty_geometry() {
    let mut chunk = empty_chunk(Vec3i::new(0, 0, 0));
    chunk.load_mesh(ChunkMeshData { vertices: Vec::new(), indices: Vec::new() });
    assert!(chunk.mesh.is_none());

    let mut solid = empty_chunk(Vec3i::new(0, 1, 0));
    solid.set_block(Vec3i::new(1, 1, 1), Block::PLANK);
    let (mesh, _) = solid.generate_mesh([None, None, None, None, None, None]);
    solid.load_mesh(mesh.unwrap());
    assert!(solid.mesh.is_some());
    assert_eq!(solid.mesh.as_ref().unwrap().vertices.len(), 24);
}

#[test]
fn full_chunk_shows_only_its_shell() {
    let mut chunk = empty_chunk(Vec3i::new(0, 1, 0));
    for i in 0..CHUNK_VOLUME {
        chunk.blocks[i] = Block::STONE;
    }
    chunk.is_empty = false;
    let nbrs: Vec<Chunk> = (0..6)
        .map(|f| {
            let d = [(0, 0, -1), (0, 0, 1), (-1, 0, 0), (1, 0, 0), (0, -1, 0), (0, 1, 0)][f];
            empty_chunk(Vec3i::new(d.0, 1 + d.1, d.2))
        })
        .collect();
    let (mesh, missing) = chunk.generate_mesh([
        Some(&nbrs[0]),
        Some(&nbrs[1]),
        Some(&nbrs[2]),
        Some(&nbrs[3]),
        Some(&nbrs[4]),
        Some(&nbrs[5]),
    ]);
    assert!(!missing);
    // every interior face is hidden: only the six 32-by-32 sides remain
    assert_eq!(quads(&chunk, &mesh.unwrap()).len(), 6 * 32 * 32);

    // against absent neighbors even the shell is withheld
    let (mesh2, missing2) = chunk.generate_mesh([None, None, None, None, None, None]);
    assert!(missing2);
    assert_eq!(quads(&chunk, &mesh2.unwrap()).len(), 0);
}
