//! Chunks: fixed-size voxel cubes, procedural generation from integer
//! terrain samples, and cross-chunk-aware mesh extraction.

use vstd::prelude::*;

use crate::block::{spec_get_uv, Block};
use crate::vec3i::Vec3i;

verus! {

/// Side length of a chunk, in voxels.
pub const CHUNK_SIZE: usize = 32;

/// Number of voxels in a chunk (`CHUNK_SIZE` cubed).
pub const CHUNK_VOLUME: usize = 32768;

/// Largest chunk-grid coordinate magnitude the library accepts; keeps all
/// world-voxel coordinates comfortably inside `i32`.
pub const CHUNK_COORD_LIMIT: i32 = 1000000;

/// Position of voxel `(x, y, z)` in a chunk's flat block array.
pub open spec fn voxel_index(x: int, y: int, z: int) -> int {
    1024 * z + 32 * y + x
}

/// True when `(x, y, z)` lies inside a chunk's local coordinate cube.
pub open spec fn valid_local(x: int, y: int, z: int) -> bool {
    0 <= x < 32 && 0 <= y < 32 && 0 <= z < 32
}

/// Every voxel of `s` is `AIR`.
pub open spec fn all_air(s: Seq<Block>) -> bool {
    forall|i: int| 0 <= i < s.len() ==> s[i] == Block::AIR
}

/// `voxel_index` maps the local coordinate cube one-to-one onto `0..32768`.
pub proof fn lemma_voxel_index_inverse(i: int)
    requires
        0 <= i < 32768,
    ensures
        valid_local(i % 32, (i / 32) % 32, i / 1024),
        voxel_index(i % 32, (i / 32) % 32, i / 1024) == i,
{
    assert(valid_local(i % 32, (i / 32) % 32, i / 1024) && voxel_index(
        i % 32,
        (i / 32) % 32,
        i / 1024,
    ) == i) by (nonlinear_arith)
        requires
            0 <= i < 32768,
    ;
}

/// A packed render vertex: `packed_data` holds the local corner position,
/// face direction and texture index; `voxel_position` is the owning voxel's
/// world coordinate.
#[derive(Copy, Clone, PartialEq, Eq, Structural, Debug)]
pub struct Vertex {
    pub packed_data: u32,
    pub voxel_position: Vec3i,
}

/// Plain vertex/index arrays produced by mesh extraction; an external
/// renderer turns these into GPU buffers.
pub struct ChunkMeshData {
    pub vertices: Vec<Vertex>,
    pub indices: Vec<u32>,
}

/// Integer terrain samples a chunk is generated from. A surface chunk
/// (world Y origin at or above zero) carries one target height per `(x, z)`
/// column, indexed `32 * z + x`; an underground chunk carries one density
/// sample per voxel, indexed like the block array.
pub enum TerrainData {
    Surface { heights: Vec<u32> },
    Caves { density: Vec<u32> },
}

impl TerrainData {
    /// The samples fit the chunk at `position`: the variant matches the sign
    /// of the chunk's world Y origin and the sample array has full size.
    pub open spec fn wf_for(self, position: Vec3i) -> bool {
        match self {
            TerrainData::Surface { heights } => position.y >= 0 && heights@.len() == 1024,
            TerrainData::Caves { density } => position.y < 0 && density@.len() == 32768,
        }
    }
}

/// The block that generation assigns to local voxel `(x, y, z)` of the chunk
/// at `position`: underground, density above the fixed threshold becomes
/// `STONE`; on the surface, the column's target height becomes `GRASS`,
/// everything below it `DIRT`, everything above it `AIR`.
pub open spec fn gen_block(position: Vec3i, terrain: TerrainData, x: int, y: int, z: int) -> Block {
    match terrain {
        TerrainData::Caves { density } => if density@[voxel_index(x, y, z)] > 16 {
            Block::STONE
        } else {
            Block::AIR
        },
        TerrainData::Surface { heights } => {
            let h = heights@[32 * z + x];
            let wy = 32 * position.y + y;
            if h == wy {
                Block::GRASS
            } else if h > wy {
                Block::DIRT
            } else {
                Block::AIR
            }
        },
    }
}

/// Cells strictly before `(cx, cy, cz)` in generation order (`x` outermost,
/// then `y`, then `z`).
pub open spec fn gen_before(cx: int, cy: int, cz: int, x: int, y: int, z: int) -> bool {
    cx < x || (cx == x && (cy < y || (cy == y && cz < z)))
}

/// Offset toward the adjacent cell checked for face `face`: faces are
/// numbered front `0` (-z), back `1` (+z), left `2` (-x), right `3` (+x),
/// bottom `4` (-y), top `5` (+y).
pub open spec fn face_dx(face: int) -> int {
    if face == 2 {
        -1
    } else if face == 3 {
        1
    } else {
        0
    }
}

pub open spec fn face_dy(face: int) -> int {
    if face == 4 {
        -1
    } else if face == 5 {
        1
    } else {
        0
    }
}

pub open spec fn face_dz(face: int) -> int {
    if face == 0 {
        -1
    } else if face == 1 {
        1
    } else {
        0
    }
}

/// Whether the cell adjacent to `(x, y, z)` across `face` lets the face show:
/// inside the chunk, the adjacent voxel must be `AIR`; outside, the adjacent
/// voxel of the bordering chunk (wrapped into its local coordinates) must be
/// `AIR`, and an absent bordering chunk never lets a face show.
pub open spec fn face_visible(
    c: Chunk,
    nbrs: Seq<Option<Chunk>>,
    x: int,
    y: int,
    z: int,
    face: int,
) -> bool {
    let ax = x + face_dx(face);
    let ay = y + face_dy(face);
    let az = z + face_dz(face);
    if valid_local(ax, ay, az) {
        c.spec_block(ax, ay, az) == Block::AIR
    } else {
        match nbrs[face] {
            Some(n) => n.spec_block(ax % 32, ay % 32, az % 32) == Block::AIR,
            None => false,
        }
    }
}

/// The mesher emits face `face` of voxel `(x, y, z)`: the voxel is solid and
/// the adjacent cell lets the face show.
pub open spec fn face_emitted(
    c: Chunk,
    nbrs: Seq<Option<Chunk>>,
    x: int,
    y: int,
    z: int,
    face: int,
) -> bool {
    c.spec_block(x, y, z) != Block::AIR && face_visible(c, nbrs, x, y, z, face)
}

/// Face `face` of solid voxel `(x, y, z)` had to be skipped because the
/// bordering chunk it depends on is not loaded.
pub open spec fn face_deferred(
    c: Chunk,
    nbrs: Seq<Option<Chunk>>,
    x: int,
    y: int,
    z: int,
    face: int,
) -> bool {
    &&& c.spec_block(x, y, z) != Block::AIR
    &&& !valid_local(x + face_dx(face), y + face_dy(face), z + face_dz(face))
    &&& nbrs[face] is None
}

/// Linear id of face `face` of voxel `(x, y, z)` in mesh-emission order
/// (`x` outermost, then `y`, `z`, `face`).
pub open spec fn fid(x: int, y: int, z: int, face: int) -> int {
    6144 * x + 192 * y + 6 * z + face
}

pub open spec fn fid_x(l: int) -> int {
    l / 6144
}

pub open spec fn fid_y(l: int) -> int {
    (l / 192) % 32
}

pub open spec fn fid_z(l: int) -> int {
    (l / 6) % 32
}

pub open spec fn fid_face(l: int) -> int {
    l % 6
}

pub open spec fn fid_emitted(c: Chunk, nbrs: Seq<Option<Chunk>>, l: int) -> bool {
    face_emitted(c, nbrs, fid_x(l), fid_y(l), fid_z(l), fid_face(l))
}

pub open spec fn fid_deferred(c: Chunk, nbrs: Seq<Option<Chunk>>, l: int) -> bool {
    face_deferred(c, nbrs, fid_x(l), fid_y(l), fid_z(l), fid_face(l))
}

/// Decoding the id of face `face` of `(x, y, z)` gives the components back.
pub proof fn lemma_fid_decode(x: int, y: int, z: int, face: int)
    requires
        valid_local(x, y, z),
        0 <= face < 6,
    ensures
        0 <= fid(x, y, z, face) < 196608,
        fid_x(fid(x, y, z, face)) == x,
        fid_y(fid(x, y, z, face)) == y,
        fid_z(fid(x, y, z, face)) == z,
        fid_face(fid(x, y, z, face)) == face,
{
    assert(0 <= fid(x, y, z, face) < 196608 && fid_x(fid(x, y, z, face)) == x && fid_y(
        fid(x, y, z, face),
    ) == y && fid_z(fid(x, y, z, face)) == z && fid_face(fid(x, y, z, face)) == face)
        by (nonlinear_arith)
        requires
            valid_local(x, y, z),
            0 <= face < 6,
    ;
}

/// The ids below `n` of the faces the mesher emits, in emission order.
pub open spec fn faces_up_to(c: Chunk, nbrs: Seq<Option<Chunk>>, n: int) -> Seq<int>
    decreases n,
{
    if n <= 0 {
        Seq::empty()
    } else if fid_emitted(c, nbrs, n - 1) {
        faces_up_to(c, nbrs, n - 1).push(n - 1)
    } else {
        faces_up_to(c, nbrs, n - 1)
    }
}

/// The ids of all faces the mesher emits for `c` against `nbrs`.
pub open spec fn mesh_faces(c: Chunk, nbrs: Seq<Option<Chunk>>) -> Seq<int> {
    faces_up_to(c, nbrs, 196608)
}

pub open spec fn any_deferred_up_to(c: Chunk, nbrs: Seq<Option<Chunk>>, n: int) -> bool {
    exists|l: int| 0 <= l < n && fid_deferred(c, nbrs, l)
}

/// Some face of `c` had to be skipped because a bordering chunk is missing.
pub open spec fn mesh_deferred(c: Chunk, nbrs: Seq<Option<Chunk>>) -> bool {
    any_deferred_up_to(c, nbrs, 196608)
}

/// The emitted-face list is strictly increasing, stays below `n`, and holds
/// exactly the emitted ids below `n`.
pub proof fn lemma_faces_up_to_props(c: Chunk, nbrs: Seq<Option<Chunk>>, n: int)
    requires
        n >= 0,
    ensures
        faces_up_to(c, nbrs, n).len() <= n,
        forall|k: int|
            0 <= k < faces_up_to(c, nbrs, n).len() ==> 0 <= #[trigger] faces_up_to(c, nbrs, n)[k]
                < n,
        forall|k1: int, k2: int|
            0 <= k1 < k2 < faces_up_to(c, nbrs, n).len() ==> faces_up_to(c, nbrs, n)[k1]
                < faces_up_to(c, nbrs, n)[k2],
    decreases n,
{
    if n > 0 {
        lemma_faces_up_to_props(c, nbrs, n - 1);
    }
}

/// A face id is in the emitted-face list exactly when it is an emitted face.
pub proof fn lemma_faces_up_to_membership(c: Chunk, nbrs: Seq<Option<Chunk>>, n: int, l: int)
    requires
        n >= 0,
    ensures
        faces_up_to(c, nbrs, n).contains(l) <==> (0 <= l < n && fid_emitted(c, nbrs, l)),
    decreases n,
{
    if n == 0 {
        assert(!faces_up_to(c, nbrs, 0).contains(l));
    } else {
        lemma_faces_up_to_membership(c, nbrs, n - 1, l);
        let prev = faces_up_to(c, nbrs, n - 1);
        let cur = faces_up_to(c, nbrs, n);
        if fid_emitted(c, nbrs, n - 1) {
            assert(cur == prev.push(n - 1));
            if l == n - 1 {
                assert(cur[prev.len() as int] == l);
                assert(cur.contains(l));
            } else if prev.contains(l) {
                let k = choose|k: int| 0 <= k < prev.len() && prev[k] == l;
                assert(cur[k] == l);
                assert(cur.contains(l));
            } else if cur.contains(l) {
                let k = choose|k: int| 0 <= k < cur.len() && cur[k] == l;
                assert(prev[k] == l);
            }
        }
    }
}

/// The four cube corners of face `face` in emission order, as indices into
/// the fixed corner table.
pub open spec fn face_corner_index(face: int, i: int) -> int {
    if face == 0 {
        seq![0int, 1, 2, 3][i]
    } else if face == 1 {
        seq![5int, 4, 7, 6][i]
    } else if face == 2 {
        seq![4int, 0, 3, 7][i]
    } else if face == 3 {
        seq![1int, 5, 6, 2][i]
    } else if face == 4 {
        seq![4int, 5, 1, 0][i]
    } else {
        seq![3int, 2, 6, 7][i]
    }
}

/// Corner `ci` of the unit cube.
pub open spec fn corner_x(ci: int) -> int {
    if ci == 1 || ci == 2 || ci == 5 || ci == 6 {
        1
    } else {
        0
    }
}

pub open spec fn corner_y(ci: int) -> int {
    if ci == 2 || ci == 3 || ci == 6 || ci == 7 {
        1
    } else {
        0
    }
}

pub open spec fn corner_z(ci: int) -> int {
    if ci >= 4 {
        1
    } else {
        0
    }
}

/// Corner `i` of emitted face `l`: the local corner position, face direction
/// and texture index packed into one word, plus the owning voxel's world
/// coordinate.
pub open spec fn face_vertex(c: Chunk, l: int, i: int) -> Vertex {
    let x = fid_x(l);
    let y = fid_y(l);
    let z = fid_z(l);
    let face = fid_face(l);
    let ci = face_corner_index(face, i);
    let px = x + corner_x(ci);
    let py = y + corner_y(ci);
    let pz = z + corner_z(ci);
    let uv = spec_get_uv(c.spec_block(x, y, z), face) as int;
    Vertex {
        packed_data: (2097152 * uv + 262144 * face + 4096 * px + 64 * py + pz) as u32,
        voxel_position: Vec3i {
            x: (c.world_position.x + x) as i32,
            y: (c.world_position.y + y) as i32,
            z: (c.world_position.z + z) as i32,
        },
    }
}

/// The four vertices of the `j`-th emitted face stand at positions
/// `4j..4j+4` of the vertex array.
pub open spec fn quad_verts_ok(c: Chunk, verts: Seq<Vertex>, faces: Seq<int>, j: int) -> bool {
    &&& verts[4 * j] == face_vertex(c, faces[j], 0)
    &&& verts[4 * j + 1] == face_vertex(c, faces[j], 1)
    &&& verts[4 * j + 2] == face_vertex(c, faces[j], 2)
    &&& verts[4 * j + 3] == face_vertex(c, faces[j], 3)
}

/// The six indices of the `j`-th emitted face form its two triangles.
pub open spec fn quad_inds_ok(inds: Seq<u32>, j: int) -> bool {
    &&& inds[6 * j] == 4 * j
    &&& inds[6 * j + 1] == 4 * j + 1
    &&& inds[6 * j + 2] == 4 * j + 2
    &&& inds[6 * j + 3] == 4 * j
    &&& inds[6 * j + 4] == 4 * j + 2
    &&& inds[6 * j + 5] == 4 * j + 3
}

/// `m` is exactly the mesh the emitted-face list describes: four vertices
/// and six indices per emitted face, in emission order.
pub open spec fn mesh_matches(c: Chunk, nbrs: Seq<Option<Chunk>>, m: ChunkMeshData) -> bool {
    let faces = mesh_faces(c, nbrs);
    &&& m.vertices@.len() == 4 * faces.len()
    &&& m.indices@.len() == 6 * faces.len()
    &&& (forall|j: int| 0 <= j < faces.len() ==> #[trigger] quad_verts_ok(c, m.vertices@, faces, j))
    &&& (forall|j: int| 0 <= j < faces.len() ==> #[trigger] quad_inds_ok(m.indices@, j))
}

/// The face on the other side of a shared voxel boundary.
pub open spec fn opposite_face(face: int) -> int {
    if face % 2 == 0 {
        face + 1
    } else {
        face - 1
    }
}

/// The six bordering chunks handed to the mesher, as values.
pub open spec fn nbrs_view(neighbors: [Option<&Chunk>; 6]) -> Seq<Option<Chunk>> {
    Seq::new(
        6,
        |f: int|
            match neighbors@[f] {
                Some(c) => Some(*c),
                None => None,
            },
    )
}

/// Every bordering chunk that is present is well-formed.
pub open spec fn nbrs_wf(nbrs: Seq<Option<Chunk>>) -> bool {
    forall|f: int| 0 <= f < 6 ==> ((#[trigger] nbrs[f]) matches Some(n) ==> n.wf())
}

/// After `n` face ids were considered, the vertex and index arrays describe
/// exactly the faces emitted so far, and `missing` records whether any face
/// was deferred so far.
spec fn mesh_loop_inv(
    c: Chunk,
    nbrs: Seq<Option<Chunk>>,
    verts: Seq<Vertex>,
    inds: Seq<u32>,
    missing: bool,
    n: int,
) -> bool {
    let faces = faces_up_to(c, nbrs, n);
    &&& verts.len() == 4 * faces.len()
    &&& inds.len() == 6 * faces.len()
    &&& (forall|j: int| 0 <= j < faces.len() ==> #[trigger] quad_verts_ok(c, verts, faces, j))
    &&& (forall|j: int| 0 <= j < faces.len() ==> #[trigger] quad_inds_ok(inds, j))
    &&& missing == any_deferred_up_to(c, nbrs, n)
}

/// Neither the list of emitted faces nor the deferred flag moves across the
/// six faces of an `AIR` voxel.
proof fn lemma_skip_air(c: Chunk, nbrs: Seq<Option<Chunk>>, x: int, y: int, z: int)
    requires
        valid_local(x, y, z),
        c.spec_block(x, y, z) == Block::AIR,
    ensures
        faces_up_to(c, nbrs, fid(x, y, z, 0) + 6) == faces_up_to(c, nbrs, fid(x, y, z, 0)),
        any_deferred_up_to(c, nbrs, fid(x, y, z, 0) + 6) == any_deferred_up_to(
            c,
            nbrs,
            fid(x, y, z, 0),
        ),
{
    let n = fid(x, y, z, 0);
    assert forall|f: int| 0 <= f < 6 implies !(#[trigger] fid_emitted(c, nbrs, n + f))
        && !fid_deferred(c, nbrs, n + f) by {
        lemma_fid_decode(x, y, z, f);
        assert(fid(x, y, z, f) == n + f);
    }
    assert(faces_up_to(c, nbrs, n + 1) == faces_up_to(c, nbrs, n));
    assert(faces_up_to(c, nbrs, n + 2) == faces_up_to(c, nbrs, n + 1));
    assert(faces_up_to(c, nbrs, n + 3) == faces_up_to(c, nbrs, n + 2));
    assert(faces_up_to(c, nbrs, n + 4) == faces_up_to(c, nbrs, n + 3));
    assert(faces_up_to(c, nbrs, n + 5) == faces_up_to(c, nbrs, n + 4));
    assert(faces_up_to(c, nbrs, n + 6) == faces_up_to(c, nbrs, n + 5));
    lemma_deferred_step(c, nbrs, n);
    lemma_deferred_step(c, nbrs, n + 1);
    lemma_deferred_step(c, nbrs, n + 2);
    lemma_deferred_step(c, nbrs, n + 3);
    lemma_deferred_step(c, nbrs, n + 4);
    lemma_deferred_step(c, nbrs, n + 5);
}

/// A face that is not deferred does not change the deferred flag.
proof fn lemma_deferred_step(c: Chunk, nbrs: Seq<Option<Chunk>>, n: int)
    requires
        n >= 0,
        !fid_deferred(c, nbrs, n),
    ensures
        any_deferred_up_to(c, nbrs, n + 1) == any_deferred_up_to(c, nbrs, n),
{
    if any_deferred_up_to(c, nbrs, n + 1) {
        let l = choose|l: int| 0 <= l < n + 1 && fid_deferred(c, nbrs, l);
        assert(l < n);
        assert(any_deferred_up_to(c, nbrs, n));
    }
    if any_deferred_up_to(c, nbrs, n) {
        let l = choose|l: int| 0 <= l < n && fid_deferred(c, nbrs, l);
        assert(0 <= l < n + 1 && fid_deferred(c, nbrs, l));
    }
}

/// The offset toward the cell a face is checked against.
pub(crate) fn face_delta(face: usize) -> (r: (i32, i32, i32))
    requires
        face < 6,
    ensures
        r.0 == face_dx(face as int),
        r.1 == face_dy(face as int),
        r.2 == face_dz(face as int),
{
    if face == 0 {
        (0, 0, -1)
    } else if face == 1 {
        (0, 0, 1)
    } else if face == 2 {
        (-1, 0, 0)
    } else if face == 3 {
        (1, 0, 0)
    } else if face == 4 {
        (0, -1, 0)
    } else {
        (0, 1, 0)
    }
}

/// Corner `i` of face `face` in the fixed corner table.
fn face_corner(face: usize, i: usize) -> (r: usize)
    requires
        face < 6,
        i < 4,
    ensures
        r == face_corner_index(face as int, i as int),
        r < 8,
{
    if face == 0 {
        if i == 0 {
            0
        } else if i == 1 {
            1
        } else if i == 2 {
            2
        } else {
            3
        }
    } else if face == 1 {
        if i == 0 {
            5
        } else if i == 1 {
            4
        } else if i == 2 {
            7
        } else {
            6
        }
    } else if face == 2 {
        if i == 0 {
            4
        } else if i == 1 {
            0
        } else if i == 2 {
            3
        } else {
            7
        }
    } else if face == 3 {
        if i == 0 {
            1
        } else if i == 1 {
            5
        } else if i == 2 {
            6
        } else {
            2
        }
    } else if face == 4 {
        if i == 0 {
            4
        } else if i == 1 {
            5
        } else if i == 2 {
            1
        } else {
            0
        }
    } else {
        if i == 0 {
            3
        } else if i == 1 {
            2
        } else if i == 2 {
            6
        } else {
            7
        }
    }
}

/// The unit-cube corner with index `ci`.
fn corner_offset(ci: usize) -> (r: (usize, usize, usize))
    requires
        ci < 8,
    ensures
        r.0 == corner_x(ci as int),
        r.1 == corner_y(ci as int),
        r.2 == corner_z(ci as int),
{
    if ci == 0 {
        (0, 0, 0)
    } else if ci == 1 {
        (1, 0, 0)
    } else if ci == 2 {
        (1, 1, 0)
    } else if ci == 3 {
        (0, 1, 0)
    } else if ci == 4 {
        (0, 0, 1)
    } else if ci == 5 {
        (1, 0, 1)
    } else if ci == 6 {
        (1, 1, 1)
    } else {
        (0, 1, 1)
    }
}

/// Wrap an out-of-range local coordinate into the bordering chunk's local
/// coordinate space.
fn wrap_coord(v: i32) -> (r: i32)
    requires
        -32 <= v < 64,
    ensures
        r == (v as int) % 32,
        0 <= r < 32,
{
    if v < 0 {
        v + 32
    } else if v >= 32 {
        v - 32
    } else {
        v
    }
}

/// Scan a full block array and report whether every voxel is `AIR`.
fn scan_all_air(blocks: &Vec<Block>) -> (r: bool)
    ensures
        r == all_air(blocks@),
{
    let mut empty = true;
    let mut i: usize = 0;
    let n = blocks.len();
    while i < n
        invariant
            i <= n,
            n == blocks@.len(),
            empty <==> (forall|j: int| 0 <= j < i ==> blocks@[j] == Block::AIR),
        decreases n - i,
    {
        if !matches!(blocks[i], Block::AIR) {
            empty = false;
        }
        i += 1;
    }
    empty
}

/// A cube of side `CHUNK_SIZE` of voxels: the unit of streaming, meshing and
/// editing. `blocks` is flat, indexed by `voxel_index`; `mesh` is present
/// exactly while the chunk has generated geometry attached.
pub struct Chunk {
    pub position: Vec3i,
    pub world_position: Vec3i,
    pub blocks: Vec<Block>,
    pub is_empty: bool,
    pub mesh: Option<ChunkMeshData>,
}

impl Chunk {
    /// Well-formedness: full block array, bounded grid position, world
    /// position derived from the grid position, and `is_empty` tracking
    /// whether every voxel is `AIR`.
    pub open spec fn wf(self) -> bool {
        &&& self.blocks@.len() == 32768
        &&& -CHUNK_COORD_LIMIT <= self.position.x <= CHUNK_COORD_LIMIT
        &&& -CHUNK_COORD_LIMIT <= self.position.y <= CHUNK_COORD_LIMIT
        &&& -CHUNK_COORD_LIMIT <= self.position.z <= CHUNK_COORD_LIMIT
        &&& self.world_position.x == 32 * self.position.x
        &&& self.world_position.y == 32 * self.position.y
        &&& self.world_position.z == 32 * self.position.z
        &&& (self.is_empty <==> all_air(self.blocks@))
    }

    /// The block at local voxel `(x, y, z)`.
    pub open spec fn spec_block(self, x: int, y: int, z: int) -> Block {
        self.blocks@[voxel_index(x, y, z)]
    }

    /// Generate the chunk at `position` from `terrain`. The result is a pure
    /// function of the arguments, so repeated generation of the same
    /// coordinate from the same samples is bit-identical.
    #[verifier::spinoff_prover]
    #[verifier::rlimit(100)]
    pub fn new(position: Vec3i, terrain: &TerrainData) -> (c: Chunk)
        requires
            -1000000 <= position.x <= 1000000,
            -1000000 <= position.y <= 1000000,
            -1000000 <= position.z <= 1000000,
            terrain.wf_for(position),
        ensures
            c.wf(),
            c.position == position,
            c.mesh is None,
            forall|x: int, y: int, z: int|
                valid_local(x, y, z) ==> c.spec_block(x, y, z) == gen_block(
                    position,
                    *terrain,
                    x,
                    y,
                    z,
                ),
    {
        let world_position = Vec3i::new(position.x * 32, position.y * 32, position.z * 32);
        let mut blocks: Vec<Block> = Vec::new();
        let mut i: usize = 0;
        while i < 32768
            invariant
                i <= 32768,
                blocks@.len() == i,
                all_air(blocks@),
            decreases 32768 - i,
        {
            blocks.push(Block::AIR);
            i += 1;
        }

        let mut x: usize = 0;
        while x < 32
            invariant
                x <= 32,
                blocks@.len() == 32768,
                -1000000 <= position.x <= 1000000,
                -1000000 <= position.y <= 1000000,
                -1000000 <= position.z <= 1000000,
                terrain.wf_for(position),
                forall|cx: int, cy: int, cz: int|
                    valid_local(cx, cy, cz) && gen_before(cx, cy, cz, x as int, 0, 0)
                        ==> blocks@[voxel_index(cx, cy, cz)] == gen_block(
                        position,
                        *terrain,
                        cx,
                        cy,
                        cz,
                    ),
                forall|cx: int, cy: int, cz: int|
                    valid_local(cx, cy, cz) && !gen_before(cx, cy, cz, x as int, 0, 0)
                        ==> blocks@[voxel_index(cx, cy, cz)] == Block::AIR,
            decreases 32 - x,
        {
            let mut y: usize = 0;
            while y < 32
                invariant
                    x < 32,
                    y <= 32,
                    blocks@.len() == 32768,
                    -1000000 <= position.x <= 1000000,
                    -1000000 <= position.y <= 1000000,
                    -1000000 <= position.z <= 1000000,
                    terrain.wf_for(position),
                    forall|cx: int, cy: int, cz: int|
                        valid_local(cx, cy, cz) && gen_before(cx, cy, cz, x as int, y as int, 0)
                            ==> blocks@[voxel_index(cx, cy, cz)] == gen_block(
                            position,
                            *terrain,
                            cx,
                            cy,
                            cz,
                        ),
                    forall|cx: int, cy: int, cz: int|
                        valid_local(cx, cy, cz) && !gen_before(cx, cy, cz, x as int, y as int, 0)
                            ==> blocks@[voxel_index(cx, cy, cz)] == Block::AIR,
                decreases 32 - y,
            {
                let mut z: usize = 0;
                while z < 32
                    invariant
                        x < 32,
                        y < 32,
                        z <= 32,
                        blocks@.len() == 32768,
                        -1000000 <= position.x <= 1000000,
                        -1000000 <= position.y <= 1000000,
                        -1000000 <= position.z <= 1000000,
                        terrain.wf_for(position),
                        forall|cx: int, cy: int, cz: int|
                            valid_local(cx, cy, cz) && gen_before(
                                cx,
                                cy,
                                cz,
                                x as int,
                                y as int,
                                z as int,
                            ) ==> blocks@[voxel_index(cx, cy, cz)] == gen_block(
                                position,
                                *terrain,
                                cx,
                                cy,
                                cz,
                            ),
                        forall|cx: int, cy: int, cz: int|
                            valid_local(cx, cy, cz) && !gen_before(
                                cx,
                                cy,
                                cz,
                                x as int,
                                y as int,
                                z as int,
                            ) ==> blocks@[voxel_index(cx, cy, cz)] == Block::AIR,
                    decreases 32 - z,
                {
                    let b: Block = match terrain {
                        TerrainData::Caves { density } => {
                            let d = density[1024 * z + 32 * y + x];
                            if d > 16 {
                                Block::STONE
                            } else {
                                Block::AIR
                            }
                        },
                        TerrainData::Surface { heights } => {
                            let h = heights[32 * z + x];
                            let wy: i64 = position.y as i64 * 32 + y as i64;
                            if h as i64 == wy {
                                Block::GRASS
                            } else if h as i64 > wy {
                                Block::DIRT
                            } else {
                                Block::AIR
                            }
                        },
                    };
                    assert(b == gen_block(position, *terrain, x as int, y as int, z as int));
                    if !matches!(b, Block::AIR) {
                        blocks.set(1024 * z + 32 * y + x, b);
                    }
                    z += 1;
                }
                y += 1;
            }
            x += 1;
        }

        let is_empty = scan_all_air(&blocks);
        Chunk { position, world_position, blocks, is_empty, mesh: None }
    }

    /// Write `block` at local voxel `position` if it differs from what is
    /// there; report whether anything changed and keep `is_empty` accurate.
    pub fn set_block(&mut self, position: Vec3i, block: Block) -> (changed: bool)
        requires
            old(self).wf(),
            valid_local(position.x as int, position.y as int, position.z as int),
        ensures
            final(self).wf(),
            changed == (old(self).spec_block(position.x as int, position.y as int, position.z as int)
                != block),
            final(self).blocks@ == if changed {
                old(self).blocks@.update(
                    voxel_index(position.x as int, position.y as int, position.z as int),
                    block,
                )
            } else {
                old(self).blocks@
            },
            final(self).position == old(self).position,
            final(self).world_position == old(self).world_position,
            final(self).mesh == old(self).mesh,
            !changed ==> *final(self) == *old(self),
    {
        proof {
            assert(0 <= voxel_index(position.x as int, position.y as int, position.z as int)
                < 32768) by (nonlinear_arith)
                requires
                    valid_local(position.x as int, position.y as int, position.z as int),
            ;
        }
        let index = 1024 * (position.z as usize) + 32 * (position.y as usize) + (
        position.x as usize);

        if self.blocks[index] != block {
            self.blocks.set(index, block);
            self.is_empty = scan_all_air(&self.blocks);
            true
        } else {
            false
        }
    }

    /// Extract the visible faces of this chunk against the six bordering
    /// chunks (front, back, left, right, bottom, top). An empty chunk yields
    /// no mesh. Otherwise the result holds four vertices and six indices for
    /// every emitted face in emission order, and the second component
    /// reports whether any face was deferred because its bordering chunk is
    /// absent (such a chunk must be meshed again once the neighbor loads).
    #[verifier::rlimit(100)]
    pub fn generate_mesh(&self, neighbors: [Option<&Chunk>; 6]) -> (r: (
        Option<ChunkMeshData>,
        bool,
    ))
        requires
            self.wf(),
            nbrs_wf(nbrs_view(neighbors)),
        ensures
            self.is_empty ==> r.0 is None && r.1 == false,
            !self.is_empty ==> r.1 == mesh_deferred(*self, nbrs_view(neighbors)),
            !self.is_empty ==> (r.0 matches Some(m) && mesh_matches(*self, nbrs_view(neighbors), m)),
    {
        if self.is_empty {
            return (None, false);
        }
        let mut temp_vertices: Vec<Vertex> = Vec::new();
        let mut temp_indices: Vec<u32> = Vec::new();
        let mut missing_neighbors = false;

        let mut x: usize = 0;
        while x < 32
            invariant
                x <= 32,
                self.wf(),
                nbrs_wf(nbrs_view(neighbors)),
                mesh_loop_inv(
                    *self,
                    nbrs_view(neighbors),
                    temp_vertices@,
                    temp_indices@,
                    missing_neighbors,
                    6144 * x as int,
                ),
            decreases 32 - x,
        {
            let mut y: usize = 0;
            while y < 32
                invariant
                    x < 32,
                    y <= 32,
                    self.wf(),
                    nbrs_wf(nbrs_view(neighbors)),
                    mesh_loop_inv(
                        *self,
                        nbrs_view(neighbors),
                        temp_vertices@,
                        temp_indices@,
                        missing_neighbors,
                        6144 * x as int + 192 * y as int,
                    ),
                decreases 32 - y,
            {
                let mut z: usize = 0;
                while z < 32
                    invariant
                        x < 32,
                        y < 32,
                        z <= 32,
                        self.wf(),
                        nbrs_wf(nbrs_view(neighbors)),
                        mesh_loop_inv(
                            *self,
                            nbrs_view(neighbors),
                            temp_vertices@,
                            temp_indices@,
                            missing_neighbors,
                            fid(x as int, y as int, z as int, 0),
                        ),
                    decreases 32 - z,
                {
                    let block = self.blocks[1024 * z + 32 * y + x];
                    if matches!(block, Block::AIR) {
                        proof {
                            lemma_skip_air(*self, nbrs_view(neighbors), x as int, y as int, z as int);
                        }
                    } else {
                        let mut face: usize = 0;
                        while face < 6
                            invariant
                                x < 32,
                                y < 32,
                                z < 32,
                                face <= 6,
                                self.wf(),
                                nbrs_wf(nbrs_view(neighbors)),
                                block == self.spec_block(x as int, y as int, z as int),
                                block != Block::AIR,
                                mesh_loop_inv(
                                    *self,
                                    nbrs_view(neighbors),
                                    temp_vertices@,
                                    temp_indices@,
                                    missing_neighbors,
                                    fid(x as int, y as int, z as int, face as int),
                                ),
                            decreases 6 - face,
                        {
                            let ghost l = fid(x as int, y as int, z as int, face as int);
                            proof {
                                lemma_fid_decode(x as int, y as int, z as int, face as int);
                            }
                            let (dx, dy, dz) = face_delta(face);
                            let nx = x as i32 + dx;
                            let ny = y as i32 + dy;
                            let nz = z as i32 + dz;

                            let mut render_face = true;
                            let mut neighbor_absent = false;
                            if nx >= 0 && nx < 32 && ny >= 0 && ny < 32 && nz >= 0 && nz < 32 {
                                if self.blocks[1024 * (nz as usize) + 32 * (ny as usize) + (
                                nx as usize)] != Block::AIR {
                                    render_face = false;
                                }
                            } else {
                                match neighbors[face] {
                                    Some(chunk) => {
                                        proof {
                                            assert(nbrs_view(neighbors)[face as int] == Some(
                                                *chunk,
                                            ));
                                            assert(nbrs_view(neighbors)[face as int] matches Some(
                                                n,
                                            ) ==> n.wf());
                                            assert(chunk.wf());
                                        }
                                        let wx = wrap_coord(nx);
                                        let wy = wrap_coord(ny);
                                        let wz = wrap_coord(nz);
                                        if chunk.blocks[1024 * (wz as usize) + 32 * (wy as usize)
                                            + (wx as usize)] != Block::AIR {
                                            render_face = false;
                                        }
                                    },
                                    None => {
                                        proof {
                                            assert(nbrs_view(neighbors)[face as int] is None);
                                        }
                                        render_face = false;
                                        neighbor_absent = true;
                                    },
                                }
                            }
                            proof {
                                assert(render_face == fid_emitted(*self, nbrs_view(neighbors), l));
                                assert(neighbor_absent == fid_deferred(*self, nbrs_view(neighbors), l));
                            }
                            if neighbor_absent {
                                missing_neighbors = true;
                            }
                            proof {
                                if neighbor_absent {
                                    assert(any_deferred_up_to(*self, nbrs_view(neighbors), l + 1));
                                } else {
                                    lemma_deferred_step(*self, nbrs_view(neighbors), l);
                                }
                            }

                            if render_face {
                                proof {
                                    lemma_faces_up_to_props(*self, nbrs_view(neighbors), l);
                                }
                                let ghost faces_old = faces_up_to(*self, nbrs_view(neighbors), l);
                                let ghost old_verts = temp_vertices@;
                                let ghost old_inds = temp_indices@;
                                let base: u32 = temp_vertices.len() as u32;
                                let uv = block.get_uv(face);
                                let mut i: usize = 0;
                                while i < 4
                                    invariant
                                        i <= 4,
                                        x < 32,
                                        y < 32,
                                        z < 32,
                                        face < 6,
                                        self.wf(),
                                        block == self.spec_block(x as int, y as int, z as int),
                                        uv == spec_get_uv(block, face as int),
                                        uv <= 7,
                                        l == fid(x as int, y as int, z as int, face as int),
                                        fid_x(l) == x as int,
                                        fid_y(l) == y as int,
                                        fid_z(l) == z as int,
                                        fid_face(l) == face as int,
                                        temp_vertices@.len() == old_verts.len() + i,
                                        old_verts.len() <= 786432,
                                        forall|k: int|
                                            0 <= k < old_verts.len() ==> temp_vertices@[k]
                                                == old_verts[k],
                                        forall|k: int|
                                            0 <= k < i ==> temp_vertices@[old_verts.len() + k]
                                                == face_vertex(*self, l, k),
                                    decreases 4 - i,
                                {
                                    let ci = face_corner(face, i);
                                    let (ox, oy, oz) = corner_offset(ci);
                                    let px = (x + ox) as u32;
                                    let py = (y + oy) as u32;
                                    let pz = (z + oz) as u32;
                                    let packed: u32 = 2097152 * (uv as u32) + 262144 * (
                                    face as u32) + 4096 * px + 64 * py + pz;
                                    let vx = self.world_position.x + x as i32;
                                    let vy = self.world_position.y + y as i32;
                                    let vz = self.world_position.z + z as i32;
                                    temp_vertices.push(
                                        Vertex {
                                            packed_data: packed,
                                            voxel_position: Vec3i { x: vx, y: vy, z: vz },
                                        },
                                    );
                                    proof {
                                        assert(temp_vertices@[old_verts.len() + i] == face_vertex(
                                            *self,
                                            l,
                                            i as int,
                                        ));
                                    }
                                    i += 1;
                                }
                                temp_indices.push(base);
                                temp_indices.push(base + 1);
                                temp_indices.push(base + 2);
                                temp_indices.push(base);
                                temp_indices.push(base + 2);
                                temp_indices.push(base + 3);
                                proof {
                                    let faces_new = faces_up_to(*self, nbrs_view(neighbors), l + 1);
                                    assert(faces_new == faces_old.push(l));
                                    assert forall|j: int|
                                        0 <= j < faces_new.len() implies #[trigger] quad_verts_ok(
                                        *self,
                                        temp_vertices@,
                                        faces_new,
                                        j,
                                    ) by {
                                        if j < faces_old.len() {
                                            assert(quad_verts_ok(*self, old_verts, faces_old, j));
                                            assert(temp_vertices@[4 * j] == old_verts[4 * j]);
                                            assert(temp_vertices@[4 * j + 1] == old_verts[4 * j
                                                + 1]);
                                            assert(temp_vertices@[4 * j + 2] == old_verts[4 * j
                                                + 2]);
                                            assert(temp_vertices@[4 * j + 3] == old_verts[4 * j
                                                + 3]);
                                        } else {
                                            assert(faces_new[j] == l);
                                            assert(temp_vertices@[old_verts.len() as int + 0]
                                                == face_vertex(*self, l, 0));
                                            assert(temp_vertices@[old_verts.len() as int + 1]
                                                == face_vertex(*self, l, 1));
                                            assert(temp_vertices@[old_verts.len() as int + 2]
                                                == face_vertex(*self, l, 2));
                                            assert(temp_vertices@[old_verts.len() as int + 3]
                                                == face_vertex(*self, l, 3));
                                        }
                                    }
                                    assert forall|j: int|
                                        0 <= j < faces_new.len() implies #[trigger] quad_inds_ok(
                                        temp_indices@,
                                        j,
                                    ) by {
                                        if j < faces_old.len() {
                                            assert(quad_inds_ok(old_inds, j));
                                            assert(temp_indices@[6 * j] == old_inds[6 * j]);
                                            assert(temp_indices@[6 * j + 1] == old_inds[6 * j + 1]);
                                            assert(temp_indices@[6 * j + 2] == old_inds[6 * j + 2]);
                                            assert(temp_indices@[6 * j + 3] == old_inds[6 * j + 3]);
                                            assert(temp_indices@[6 * j + 4] == old_inds[6 * j + 4]);
                                            assert(temp_indices@[6 * j + 5] == old_inds[6 * j + 5]);
                                        } else {
                                            assert(temp_indices@[6 * j] == base);
                                            assert(temp_indices@[6 * j + 1] == base + 1);
                                            assert(temp_indices@[6 * j + 2] == base + 2);
                                            assert(temp_indices@[6 * j + 3] == base);
                                            assert(temp_indices@[6 * j + 4] == base + 2);
                                            assert(temp_indices@[6 * j + 5] == base + 3);
                                        }
                                    }
                                }
                            }
                            face += 1;
                        }
                    }
                    z += 1;
                }
                y += 1;
            }
            x += 1;
        }
        proof {
            assert(mesh_loop_inv(
                *self,
                nbrs_view(neighbors),
                temp_vertices@,
                temp_indices@,
                missing_neighbors,
                196608,
            ));
        }
        (Some(ChunkMeshData { vertices: temp_vertices, indices: temp_indices }), missing_neighbors)
    }

    /// Attach freshly built geometry to the chunk. Geometry without a single
    /// vertex or index clears the mesh instead: a chunk shows a mesh exactly
    /// while it has visible faces.
    pub fn load_mesh(&mut self, mesh_data: ChunkMeshData)
        ensures
            (mesh_data.vertices@.len() == 0 || mesh_data.indices@.len() == 0)
                ==> final(self).mesh is None,
            (mesh_data.vertices@.len() > 0 && mesh_data.indices@.len() > 0)
                ==> (final(self).mesh matches Some(m) && m == mesh_data),
            final(self).blocks == old(self).blocks,
            final(self).position == old(self).position,
            final(self).world_position == old(self).world_position,
            final(self).is_empty == old(self).is_empty,
            old(self).wf() ==> final(self).wf(),
    {
        if mesh_data.vertices.len() == 0 || mesh_data.indices.len() == 0 {
            self.mesh = None;
        } else {
            self.mesh = Some(mesh_data);
        }
    }

    /// Drop any geometry attached to the chunk.
    pub fn clear_mesh(&mut self)
        ensures
            final(self).mesh is None,
            final(self).blocks == old(self).blocks,
            final(self).position == old(self).position,
            final(self).world_position == old(self).world_position,
            final(self).is_empty == old(self).is_empty,
            old(self).wf() ==> final(self).wf(),
    {
        self.mesh = None;
    }

    /// The chunk-grid coordinate of the chunk owning world voxel
    /// `world_position` (floor division by the chunk size on every axis).
    pub fn world_to_chunk_pos(world_position: Vec3i) -> (r: Vec3i)
        ensures
            r.x == (world_position.x as int) / 32,
            r.y == (world_position.y as int) / 32,
            r.z == (world_position.z as int) / 32,
    {
        Vec3i::new(
            coord_to_chunk(world_position.x),
            coord_to_chunk(world_position.y),
            coord_to_chunk(world_position.z),
        )
    }

    /// The in-chunk coordinate of world voxel `world_position`; always within
    /// `[0, CHUNK_SIZE)` on every axis, negative world coordinates included.
    pub fn world_to_local_pos(world_position: Vec3i) -> (r: Vec3i)
        ensures
            r.x == (world_position.x as int) % 32,
            r.y == (world_position.y as int) % 32,
            r.z == (world_position.z as int) % 32,
            valid_local(r.x as int, r.y as int, r.z as int),
    {
        Vec3i::new(
            coord_to_local(world_position.x),
            coord_to_local(world_position.y),
            coord_to_local(world_position.z),
        )
    }
}

/// Floor-divide one world coordinate by the chunk size, negative inputs
/// included: shift into the non-negative range, divide, shift back.
fn coord_to_chunk(v: i32) -> (r: i32)
    ensures
        r == (v as int) / 32,
{
    let t: u64 = ((v as i64) + 2147483648) as u64;
    let q: u64 = t / 32;
    proof {
        assert(t == v as int + 2147483648);
        vstd::arithmetic::div_mod::lemma_fundamental_div_mod(t as int, 32);
        let rem = t as int % 32;
        assert(v as int == 32 * (q as int - 67108864) + rem);
        vstd::arithmetic::div_mod::lemma_fundamental_div_mod_converse_div(
            v as int,
            32,
            q as int - 67108864,
            rem,
        );
    }
    (q as i64 - 67108864) as i32
}

/// Reduce one world coordinate to its in-chunk coordinate, negative inputs
/// included: the result is always in `[0, 32)`.
fn coord_to_local(v: i32) -> (r: i32)
    ensures
        r == (v as int) % 32,
        0 <= r < 32,
{
    let t: u64 = ((v as i64) + 2147483648) as u64;
    let m: u64 = t % 32;
    proof {
        assert(t == v as int + 2147483648);
        vstd::arithmetic::div_mod::lemma_fundamental_div_mod(t as int, 32);
        assert(v as int == 32 * (t as int / 32 - 67108864) + m);
        vstd::arithmetic::div_mod::lemma_fundamental_div_mod_converse_mod(
            v as int,
            32,
            t as int / 32 - 67108864,
            m as int,
        );
    }
    m as i32
}

/// Coordinate round-trip, one axis: the owning chunk's origin plus the local
/// coordinate gives the world coordinate back, and the local coordinate is
/// in `[0, CHUNK_SIZE)` even for negative world coordinates.
pub proof fn lemma_coord_round_trip(w: int)
    ensures
        32 * (w / 32) + (w % 32) == w,
        0 <= w % 32 < 32,
{
    vstd::arithmetic::div_mod::lemma_fundamental_div_mod(w, 32);
}

/// Chunk generation is deterministic: any two generation results for the
/// same position and the same terrain samples hold identical block arrays.
/// The preconditions are exactly what `Chunk::new` ensures of its result.
pub proof fn lemma_generate_deterministic(
    c1: Chunk,
    c2: Chunk,
    position: Vec3i,
    terrain: TerrainData,
)
    requires
        c1.blocks@.len() == 32768,
        c2.blocks@.len() == 32768,
        forall|x: int, y: int, z: int|
            valid_local(x, y, z) ==> c1.spec_block(x, y, z) == gen_block(position, terrain, x, y, z),
        forall|x: int, y: int, z: int|
            valid_local(x, y, z) ==> c2.spec_block(x, y, z) == gen_block(position, terrain, x, y, z),
    ensures
        c1.blocks@ == c2.blocks@,
{
    assert forall|i: int| 0 <= i < 32768 implies c1.blocks@[i] == c2.blocks@[i] by {
        lemma_voxel_index_inverse(i);
        assert(c1.spec_block(i % 32, (i / 32) % 32, i / 1024) == gen_block(
            position,
            terrain,
            i % 32,
            (i / 32) % 32,
            i / 1024,
        ));
        assert(c2.spec_block(i % 32, (i / 32) % 32, i / 1024) == gen_block(
            position,
            terrain,
            i % 32,
            (i / 32) % 32,
            i / 1024,
        ));
    }
    assert(c1.blocks@ =~= c2.blocks@);
}

/// Hidden-face invariant: two adjacent solid voxels inside one chunk never
/// contribute the face they share, from either side.
pub proof fn lemma_hidden_face(
    c: Chunk,
    nbrs: Seq<Option<Chunk>>,
    x: int,
    y: int,
    z: int,
    face: int,
)
    requires
        valid_local(x, y, z),
        0 <= face < 6,
        valid_local(x + face_dx(face), y + face_dy(face), z + face_dz(face)),
        c.spec_block(x, y, z) != Block::AIR,
        c.spec_block(x + face_dx(face), y + face_dy(face), z + face_dz(face)) != Block::AIR,
    ensures
        !mesh_faces(c, nbrs).contains(fid(x, y, z, face)),
        !mesh_faces(c, nbrs).contains(
            fid(
                x + face_dx(face),
                y + face_dy(face),
                z + face_dz(face),
                opposite_face(face),
            ),
        ),
{
    let ax = x + face_dx(face);
    let ay = y + face_dy(face);
    let az = z + face_dz(face);
    let of = opposite_face(face);
    lemma_fid_decode(x, y, z, face);
    lemma_fid_decode(ax, ay, az, of);
    assert(!fid_emitted(c, nbrs, fid(x, y, z, face)));
    assert(ax + face_dx(of) == x && ay + face_dy(of) == y && az + face_dz(of) == z);
    assert(!fid_emitted(c, nbrs, fid(ax, ay, az, of)));
    lemma_faces_up_to_membership(c, nbrs, 196608, fid(x, y, z, face));
    lemma_faces_up_to_membership(c, nbrs, 196608, fid(ax, ay, az, of));
}

/// Hidden-face invariant, boundary half: where a solid voxel meets an `AIR`
/// voxel inside one chunk, exactly one face appears for that boundary — the
/// solid voxel's face toward the air, exactly once in the face list, while
/// the air voxel contributes nothing.
pub proof fn lemma_boundary_face_once(
    c: Chunk,
    nbrs: Seq<Option<Chunk>>,
    x: int,
    y: int,
    z: int,
    face: int,
)
    requires
        valid_local(x, y, z),
        0 <= face < 6,
        valid_local(x + face_dx(face), y + face_dy(face), z + face_dz(face)),
        c.spec_block(x, y, z) != Block::AIR,
        c.spec_block(x + face_dx(face), y + face_dy(face), z + face_dz(face)) == Block::AIR,
    ensures
        mesh_faces(c, nbrs).contains(fid(x, y, z, face)),
        forall|k1: int, k2: int|
            0 <= k1 < mesh_faces(c, nbrs).len() && 0 <= k2 < mesh_faces(c, nbrs).len()
                && mesh_faces(c, nbrs)[k1] == fid(x, y, z, face) && mesh_faces(c, nbrs)[k2] == fid(
                x,
                y,
                z,
                face,
            ) ==> k1 == k2,
        !mesh_faces(c, nbrs).contains(
            fid(
                x + face_dx(face),
                y + face_dy(face),
                z + face_dz(face),
                opposite_face(face),
            ),
        ),
{
    let ax = x + face_dx(face);
    let ay = y + face_dy(face);
    let az = z + face_dz(face);
    let of = opposite_face(face);
    lemma_fid_decode(x, y, z, face);
    lemma_fid_decode(ax, ay, az, of);
    assert(fid_emitted(c, nbrs, fid(x, y, z, face)));
    assert(!fid_emitted(c, nbrs, fid(ax, ay, az, of)));
    lemma_faces_up_to_membership(c, nbrs, 196608, fid(x, y, z, face));
    lemma_faces_up_to_membership(c, nbrs, 196608, fid(ax, ay, az, of));
    lemma_faces_up_to_props(c, nbrs, 196608);
}

/// Meshing against fewer loaded neighbors never shows more: every face
/// emitted while some bordering chunks are absent is also emitted once those
/// chunks are present, and the number of faces can only grow. Together with
/// `lemma_mesh_deterministic` this is the self-heal argument: a re-mesh
/// after the neighbors load converges to the fully-informed mesh.
pub proof fn lemma_mesh_monotone(
    c: Chunk,
    nbrs1: Seq<Option<Chunk>>,
    nbrs2: Seq<Option<Chunk>>,
    n: int,
)
    requires
        n >= 0,
        forall|f: int|
            0 <= f < 6 ==> ((#[trigger] nbrs1[f]) matches Some(ch) ==> nbrs2[f] == nbrs1[f]),
    ensures
        faces_up_to(c, nbrs1, n).len() <= faces_up_to(c, nbrs2, n).len(),
        forall|l: int|
            #[trigger] faces_up_to(c, nbrs1, n).contains(l) ==> faces_up_to(c, nbrs2, n).contains(
                l,
            ),
    decreases n,
{
    assert forall|l: int| #[trigger] fid_emitted(c, nbrs1, l) implies fid_emitted(
        c,
        nbrs2,
        l,
    ) by {
        assert(0 <= fid_face(l) < 6);
        assert((nbrs1[fid_face(l)] matches Some(ch) ==> nbrs2[fid_face(l)] == nbrs1[fid_face(l)]));
    }
    if n > 0 {
        lemma_mesh_monotone(c, nbrs1, nbrs2, n - 1);
    }
    assert forall|l: int| #[trigger] faces_up_to(c, nbrs1, n).contains(l) implies faces_up_to(
        c,
        nbrs2,
        n,
    ).contains(l) by {
        lemma_faces_up_to_membership(c, nbrs1, n, l);
        lemma_faces_up_to_membership(c, nbrs2, n, l);
    }
}

/// The mesher reads only block contents, presence and world positions: a
/// chunk and neighbor set that agree on those (the attached meshes may
/// differ) emit and defer exactly the same faces, with the same vertices.
pub proof fn lemma_mesh_inputs_stable(
    c1: Chunk,
    c2: Chunk,
    nbrs1: Seq<Option<Chunk>>,
    nbrs2: Seq<Option<Chunk>>,
)
    requires
        c1.blocks@ == c2.blocks@,
        c1.world_position == c2.world_position,
        nbrs1.len() == 6,
        nbrs2.len() == 6,
        forall|f: int| 0 <= f < 6 ==> ((#[trigger] nbrs1[f]) is Some <==> nbrs2[f] is Some),
        forall|f: int|
            0 <= f < 6 ==> ((#[trigger] nbrs1[f]) matches Some(a) ==> (nbrs2[f] matches Some(b)
                && a.blocks@ == b.blocks@)),
    ensures
        forall|l: int| #[trigger] fid_emitted(c1, nbrs1, l) == fid_emitted(c2, nbrs2, l),
        forall|l: int| #[trigger] fid_deferred(c1, nbrs1, l) == fid_deferred(c2, nbrs2, l),
        mesh_deferred(c1, nbrs1) == mesh_deferred(c2, nbrs2),
        forall|l: int, i: int| #[trigger] face_vertex(c1, l, i) == face_vertex(c2, l, i),
{
    assert forall|l: int| #[trigger] fid_emitted(c1, nbrs1, l) == fid_emitted(c2, nbrs2, l) by {
        let face = fid_face(l);
        assert(0 <= face < 6);
        assert((nbrs1[face] is Some <==> nbrs2[face] is Some));
        assert((nbrs1[face] matches Some(a) ==> (nbrs2[face] matches Some(b) && a.blocks@
            == b.blocks@)));
    }
    assert forall|l: int| #[trigger] fid_deferred(c1, nbrs1, l) == fid_deferred(c2, nbrs2, l) by {
        let face = fid_face(l);
        assert(0 <= face < 6);
        assert((nbrs1[face] is Some <==> nbrs2[face] is Some));
    }
    if mesh_deferred(c1, nbrs1) {
        let l = choose|l: int| 0 <= l < 196608 && fid_deferred(c1, nbrs1, l);
        assert(fid_deferred(c2, nbrs2, l));
        assert(mesh_deferred(c2, nbrs2));
    }
    if mesh_deferred(c2, nbrs2) {
        let l = choose|l: int| 0 <= l < 196608 && fid_deferred(c2, nbrs2, l);
        assert(fid_deferred(c1, nbrs1, l));
        assert(mesh_deferred(c1, nbrs1));
    }
}

/// Under the agreement of `lemma_mesh_inputs_stable`, the emitted-face lists
/// coincide.
pub proof fn lemma_faces_up_to_stable(
    c1: Chunk,
    c2: Chunk,
    nbrs1: Seq<Option<Chunk>>,
    nbrs2: Seq<Option<Chunk>>,
    n: int,
)
    requires
        forall|l: int| #[trigger] fid_emitted(c1, nbrs1, l) == fid_emitted(c2, nbrs2, l),
    ensures
        faces_up_to(c1, nbrs1, n) == faces_up_to(c2, nbrs2, n),
    decreases n,
{
    if n > 0 {
        lemma_faces_up_to_stable(c1, c2, nbrs1, nbrs2, n - 1);
    }
}

/// Under the agreement of `lemma_mesh_inputs_stable`, a mesh fits one side
/// exactly when it fits the other.
pub proof fn lemma_mesh_matches_stable(
    c1: Chunk,
    c2: Chunk,
    nbrs1: Seq<Option<Chunk>>,
    nbrs2: Seq<Option<Chunk>>,
    md: ChunkMeshData,
)
    requires
        c1.blocks@ == c2.blocks@,
        c1.world_position == c2.world_position,
        nbrs1.len() == 6,
        nbrs2.len() == 6,
        forall|f: int| 0 <= f < 6 ==> ((#[trigger] nbrs1[f]) is Some <==> nbrs2[f] is Some),
        forall|f: int|
            0 <= f < 6 ==> ((#[trigger] nbrs1[f]) matches Some(a) ==> (nbrs2[f] matches Some(b)
                && a.blocks@ == b.blocks@)),
    ensures
        mesh_faces(c1, nbrs1) == mesh_faces(c2, nbrs2),
        mesh_matches(c1, nbrs1, md) == mesh_matches(c2, nbrs2, md),
        mesh_deferred(c1, nbrs1) == mesh_deferred(c2, nbrs2),
{
    lemma_mesh_inputs_stable(c1, c2, nbrs1, nbrs2);
    lemma_faces_up_to_stable(c1, c2, nbrs1, nbrs2, 196608);
    let faces = mesh_faces(c1, nbrs1);
    assert forall|j: int|
        0 <= j < faces.len() implies #[trigger] quad_verts_ok(c1, md.vertices@, faces, j)
        == quad_verts_ok(c2, md.vertices@, faces, j) by {
        assert(face_vertex(c1, faces[j], 0) == face_vertex(c2, faces[j], 0));
        assert(face_vertex(c1, faces[j], 1) == face_vertex(c2, faces[j], 1));
        assert(face_vertex(c1, faces[j], 2) == face_vertex(c2, faces[j], 2));
        assert(face_vertex(c1, faces[j], 3) == face_vertex(c2, faces[j], 3));
    }
    if mesh_matches(c1, nbrs1, md) {
        assert forall|j: int| 0 <= j < faces.len() implies #[trigger] quad_verts_ok(
            c2,
            md.vertices@,
            faces,
            j,
        ) by {
            assert(quad_verts_ok(c1, md.vertices@, faces, j));
        }
        assert(mesh_matches(c2, nbrs2, md));
    }
    if mesh_matches(c2, nbrs2, md) {
        assert forall|j: int| 0 <= j < faces.len() implies #[trigger] quad_verts_ok(
            c1,
            md.vertices@,
            faces,
            j,
        ) by {
            assert(quad_verts_ok(c2, md.vertices@, faces, j));
        }
        assert(mesh_matches(c1, nbrs1, md));
    }
}

/// The mesh is a pure function of the chunk and its neighbors: any two
/// results that match the same emitted-face list hold identical vertex and
/// index arrays.
pub proof fn lemma_mesh_deterministic(
    c: Chunk,
    nbrs: Seq<Option<Chunk>>,
    m1: ChunkMeshData,
    m2: ChunkMeshData,
)
    requires
        mesh_matches(c, nbrs, m1),
        mesh_matches(c, nbrs, m2),
    ensures
        m1.vertices@ == m2.vertices@,
        m1.indices@ == m2.indices@,
{
    let faces = mesh_faces(c, nbrs);
    assert forall|k: int| 0 <= k < m1.vertices@.len() implies m1.vertices@[k] == m2.vertices@[k] by {
        let j = k / 4;
        let t = k % 4;
        assert(k == 4 * j + t && 0 <= j < faces.len() && 0 <= t < 4) by (nonlinear_arith)
            requires
                0 <= k < 4 * faces.len(),
                j == k / 4,
                t == k % 4,
        ;
        assert(quad_verts_ok(c, m1.vertices@, faces, j));
        assert(quad_verts_ok(c, m2.vertices@, faces, j));
    }
    assert(m1.vertices@ =~= m2.vertices@);
    assert forall|k: int| 0 <= k < m1.indices@.len() implies m1.indices@[k] == m2.indices@[k] by {
        let j = k / 6;
        let t = k % 6;
        assert(k == 6 * j + t && 0 <= j < faces.len() && 0 <= t < 6) by (nonlinear_arith)
            requires
                0 <= k < 6 * faces.len(),
                j == k / 6,
                t == k % 6,
        ;
        assert(quad_inds_ok(m1.indices@, j));
        assert(quad_inds_ok(m2.indices@, j));
    }
    assert(m1.indices@ =~= m2.indices@);
}

} // verus!
