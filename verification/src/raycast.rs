//! Voxel ray traversal: step a ray through the uniform voxel grid one cell
//! boundary at a time, testing occupancy at each cell, in exact fixed-point
//! arithmetic (1024 sub-steps per voxel).

use vstd::prelude::*;

use crate::block::Block;
use crate::chunk::Chunk;
use crate::chunk_manager::{block_at_world, ChunkManager};
use crate::vec3i::Vec3i;

verus! {

/// A position or direction in fixed-point world coordinates: 1024 units per
/// voxel.
#[derive(Copy, Clone, PartialEq, Eq, Structural, Debug)]
pub struct FixedVec3 {
    pub x: i64,
    pub y: i64,
    pub z: i64,
}

impl FixedVec3 {
    pub fn new(x: i64, y: i64, z: i64) -> (r: FixedVec3)
        ensures
            r == (FixedVec3 { x, y, z }),
    {
        FixedVec3 { x, y, z }
    }
}

/// The whole traversal state: current voxel, per-axis step direction and
/// direction magnitude, the per-axis numerators of the next boundary-crossing
/// times (the crossing time of axis `a` is `n_a / da_a`), the distance
/// traveled so far (`tn / td`), and the face normal the current voxel was
/// entered through.
pub struct RayState {
    pub vx: int,
    pub vy: int,
    pub vz: int,
    pub sx: int,
    pub sy: int,
    pub sz: int,
    pub dax: int,
    pub day: int,
    pub daz: int,
    pub nx: int,
    pub ny: int,
    pub nz: int,
    pub tn: int,
    pub td: int,
    pub normx: int,
    pub normy: int,
    pub normz: int,
}

/// The boundary crossing of axis one (`n1 / d1`) comes strictly before that
/// of axis two; an axis the ray does not move along never crosses.
pub open spec fn spec_t_less(n1: int, d1: int, n2: int, d2: int) -> bool {
    if d1 == 0 {
        false
    } else if d2 == 0 {
        true
    } else {
        n1 * d2 < n2 * d1
    }
}

/// Advance the traversal by one voxel along the axis whose boundary comes
/// first: the traveled distance becomes that crossing time, the axis
/// numerator moves to the next boundary, and the entry normal points back
/// against the step.
pub open spec fn ray_step(st: RayState) -> RayState {
    if spec_t_less(st.nx, st.dax, st.ny, st.day) {
        if spec_t_less(st.nx, st.dax, st.nz, st.daz) {
            RayState {
                vx: st.vx + st.sx,
                nx: st.nx + 1024,
                tn: st.nx,
                td: st.dax,
                normx: -st.sx,
                normy: 0,
                normz: 0,
                ..st
            }
        } else {
            RayState {
                vz: st.vz + st.sz,
                nz: st.nz + 1024,
                tn: st.nz,
                td: st.daz,
                normx: 0,
                normy: 0,
                normz: -st.sz,
                ..st
            }
        }
    } else if spec_t_less(st.ny, st.day, st.nz, st.daz) {
        RayState {
            vy: st.vy + st.sy,
            ny: st.ny + 1024,
            tn: st.ny,
            td: st.day,
            normx: 0,
            normy: -st.sy,
            normz: 0,
            ..st
        }
    } else {
        RayState {
            vz: st.vz + st.sz,
            nz: st.nz + 1024,
            tn: st.nz,
            td: st.daz,
            normx: 0,
            normy: 0,
            normz: -st.sz,
            ..st
        }
    }
}

/// The grid traversal itself: while the traveled distance is below the
/// limit, report the current voxel if it holds a solid block (together with
/// the face normal it was entered through), otherwise advance to the next
/// boundary crossing. `fuel` only bounds the recursion; callers pass enough
/// for the distance limit to run out first.
pub open spec fn ray_march(m: Seq<Chunk>, st: RayState, md: int, fuel: nat) -> Option<
    (Vec3i, Vec3i),
>
    decreases fuel,
{
    if fuel == 0 {
        None
    } else if !(1024 * st.tn < md * st.td) {
        None
    } else {
        let cur = Vec3i { x: st.vx as i32, y: st.vy as i32, z: st.vz as i32 };
        let hit = match block_at_world(m, cur) {
            Some(b) => b != Block::AIR,
            None => false,
        };
        if hit {
            Some(
                (cur, Vec3i { x: st.normx as i32, y: st.normy as i32, z: st.normz as i32 }),
            )
        } else {
            ray_march(m, ray_step(st), md, (fuel - 1) as nat)
        }
    }
}

/// The traversal state at the ray's origin: the voxel containing the origin,
/// per-axis steps following the sign of the direction, and first boundary
/// crossings measured from the origin's position inside its voxel.
pub open spec fn ray_init(origin: FixedVec3, dir: FixedVec3) -> RayState {
    let vx = origin.x as int / 1024;
    let vy = origin.y as int / 1024;
    let vz = origin.z as int / 1024;
    RayState {
        vx: vx,
        vy: vy,
        vz: vz,
        sx: if dir.x >= 0 { 1 } else { -1 },
        sy: if dir.y >= 0 { 1 } else { -1 },
        sz: if dir.z >= 0 { 1 } else { -1 },
        dax: if dir.x >= 0 { dir.x as int } else { -(dir.x as int) },
        day: if dir.y >= 0 { dir.y as int } else { -(dir.y as int) },
        daz: if dir.z >= 0 { dir.z as int } else { -(dir.z as int) },
        nx: if dir.x >= 0 { 1024 * (vx + 1) - origin.x } else { origin.x - 1024 * vx },
        ny: if dir.y >= 0 { 1024 * (vy + 1) - origin.y } else { origin.y - 1024 * vy },
        nz: if dir.z >= 0 { 1024 * (vz + 1) - origin.z } else { origin.z - 1024 * vz },
        tn: 0,
        td: 1,
        normx: 0,
        normy: 0,
        normz: 0,
    }
}

/// Enough recursion fuel for the traversal to run out of distance first.
pub open spec fn ray_fuel(dir: FixedVec3, md: int) -> nat {
    ((3072 * md + 9663676416) / 1048576 + 2) as nat
}

/// What the ray-cast returns: the first solid voxel within `md` (in
/// fixed-point distance) along the ray from `origin` toward `dir`, with the
/// face normal the ray entered it through, or nothing.
pub open spec fn spec_ray_cast(
    m: Seq<Chunk>,
    origin: FixedVec3,
    dir: FixedVec3,
    md: int,
) -> Option<(Vec3i, Vec3i)> {
    ray_march(m, ray_init(origin, dir), md, ray_fuel(dir, md))
}

/// Remaining crossing budget of one axis: positive while more boundary
/// crossings can still happen within reach.
pub open spec fn axis_term(md: int, d: int, n: int) -> int {
    if d == 0 {
        0
    } else if md * d + 3221225472 - 1024 * n >= 0 {
        md * d + 3221225472 - 1024 * n
    } else {
        0
    }
}

/// Remaining crossing budget of the whole traversal.
pub open spec fn ray_measure(st: RayState, md: int) -> int {
    axis_term(md, st.dax, st.nx) + axis_term(md, st.day, st.ny) + axis_term(md, st.daz, st.nz)
}

/// Stepping the axis whose boundary crossing comes first keeps all traversal
/// invariants: the crossing stays within reach plus one step, the new
/// traveled distance does not exceed any axis's next crossing, and every
/// next crossing stays within one step of the traveled distance.
proof fn lemma_step_preserves(
    md: int,
    tn: int,
    td: int,
    nm: int,
    dm: int,
    na: int,
    da: int,
    nb: int,
    db: int,
)
    requires
        0 <= tn,
        1 <= td <= 1024,
        1 <= dm <= 1024,
        0 <= da <= 1024,
        0 <= db <= 1024,
        0 <= nm,
        0 <= na,
        0 <= nb,
        0 <= md,
        1024 * tn < md * td,
        tn * dm <= td * nm,
        nm * td <= tn * dm + 1024 * td,
        da != 0 ==> na * td <= tn * da + 1024 * td,
        db != 0 ==> nb * td <= tn * db + 1024 * td,
        da != 0 ==> nm * da <= na * dm,
        db != 0 ==> nm * db <= nb * dm,
    ensures
        1024 * nm < md * dm + 1048576,
        nm * dm <= dm * (nm + 1024),
        da != 0 ==> nm * da <= dm * na,
        db != 0 ==> nm * db <= dm * nb,
        (nm + 1024) * dm <= nm * dm + 1024 * dm,
        da != 0 ==> na * dm <= nm * da + 1024 * dm,
        db != 0 ==> nb * dm <= nm * db + 1024 * dm,
        1024 * nm <= md * dm + 1048576 * dm,
        1024 * (nm + 1024) <= md * dm + 3221225472,
{
    assert(1024 * (nm * td) <= 1024 * (tn * dm) + 1048576 * td) by (nonlinear_arith)
        requires
            nm * td <= tn * dm + 1024 * td,
    ;
    assert(1024 * (tn * dm) < (md * td) * dm) by (nonlinear_arith)
        requires
            1024 * tn < md * td,
            dm >= 1,
    ;
    assert(1024 * (nm * td) < (md * dm + 1048576) * td) by (nonlinear_arith)
        requires
            1024 * (nm * td) <= 1024 * (tn * dm) + 1048576 * td,
            1024 * (tn * dm) < (md * td) * dm,
            td >= 1,
    ;
    assert(1024 * nm < md * dm + 1048576) by (nonlinear_arith)
        requires
            1024 * (nm * td) < (md * dm + 1048576) * td,
            td >= 1,
    ;
    assert(nm * dm <= dm * (nm + 1024)) by (nonlinear_arith)
        requires
            dm >= 1,
    ;
    assert((nm + 1024) * dm <= nm * dm + 1024 * dm) by (nonlinear_arith);
    if da != 0 {
        assert(nm * da <= dm * na) by (nonlinear_arith)
            requires
                nm * da <= na * dm,
        ;
        assert((na * td) * dm <= (tn * da + 1024 * td) * dm) by (nonlinear_arith)
            requires
                na * td <= tn * da + 1024 * td,
                dm >= 1,
        ;
        assert((tn * da) * dm <= (td * nm) * da) by (nonlinear_arith)
            requires
                tn * dm <= td * nm,
                da >= 1,
        ;
        assert((na * td) * dm <= td * (nm * da + 1024 * dm)) by (nonlinear_arith)
            requires
                (na * td) * dm <= (tn * da + 1024 * td) * dm,
                (tn * da) * dm <= (td * nm) * da,
        ;
        assert(na * dm <= nm * da + 1024 * dm) by (nonlinear_arith)
            requires
                (na * td) * dm <= td * (nm * da + 1024 * dm),
                td >= 1,
        ;
    }
    if db != 0 {
        assert(nm * db <= dm * nb) by (nonlinear_arith)
            requires
                nm * db <= nb * dm,
        ;
        assert((nb * td) * dm <= (tn * db + 1024 * td) * dm) by (nonlinear_arith)
            requires
                nb * td <= tn * db + 1024 * td,
                dm >= 1,
        ;
        assert((tn * db) * dm <= (td * nm) * db) by (nonlinear_arith)
            requires
                tn * dm <= td * nm,
                db >= 1,
        ;
        assert((nb * td) * dm <= td * (nm * db + 1024 * dm)) by (nonlinear_arith)
            requires
                (nb * td) * dm <= (tn * db + 1024 * td) * dm,
                (tn * db) * dm <= (td * nm) * db,
        ;
        assert(nb * dm <= nm * db + 1024 * dm) by (nonlinear_arith)
            requires
                (nb * td) * dm <= td * (nm * db + 1024 * dm),
                td >= 1,
        ;
    }
    assert(1024 * nm <= md * dm + 1048576 * dm) by (nonlinear_arith)
        requires
            1024 * nm < md * dm + 1048576,
            dm >= 1,
    ;
}

/// Floor-divide a fixed-point coordinate by the voxel scale, negative
/// coordinates included.
fn fixed_floor_div(v: i64) -> (r: i64)
    requires
        -1099511627776 <= v <= 1099511627776,
    ensures
        r == (v as int) / 1024,
{
    if v >= 0 {
        let q = ((v as u64) / 1024) as i64;
        q
    } else {
        let q = (((-v) as u64 + 1023) / 1024) as i64;
        proof {
            vstd::arithmetic::div_mod::lemma_fundamental_div_mod(-(v as int) + 1023, 1024);
            let s = (-(v as int) + 1023) % 1024;
            assert(v as int == 1024 * (-(q as int)) + (1023 - s));
            assert(0 <= 1023 - s < 1024);
            vstd::arithmetic::div_mod::lemma_fundamental_div_mod_converse_div(
                v as int,
                1024,
                -(q as int),
                1023 - s,
            );
        }
        -q
    }
}

/// The boundary crossing of axis one comes strictly before that of axis two.
fn t_less(n1: i64, d1: i64, n2: i64, d2: i64) -> (r: bool)
    requires
        0 <= n1 <= 4398046511104,
        0 <= n2 <= 4398046511104,
        0 <= d1 <= 1024,
        0 <= d2 <= 1024,
    ensures
        r == spec_t_less(n1 as int, d1 as int, n2 as int, d2 as int),
{
    if d1 == 0 {
        false
    } else if d2 == 0 {
        true
    } else {
        proof {
            assert(n1 * d2 <= 4503599627370496 && n2 * d1 <= 4503599627370496 && n1 * d2 >= 0
                && n2 * d1 >= 0) by (nonlinear_arith)
                requires
                    0 <= n1 <= 4398046511104,
                    0 <= n2 <= 4398046511104,
                    0 <= d1 <= 1024,
                    0 <= d2 <= 1024,
            ;
        }
        n1 * d2 < n2 * d1
    }
}

/// Any hit the traversal reports is a loaded, solid voxel, entered through
/// a single axis-aligned face (or hit immediately at the origin voxel,
/// where the normal is zero).
pub proof fn lemma_ray_march_hit(m: Seq<Chunk>, st: RayState, md: int, fuel: nat)
    requires
        st.normx == 0 || st.normy == 0,
        st.normy == 0 || st.normz == 0,
        st.normx == 0 || st.normz == 0,
        -1 <= st.normx <= 1 && -1 <= st.normy <= 1 && -1 <= st.normz <= 1,
        st.sx == 1 || st.sx == -1,
        st.sy == 1 || st.sy == -1,
        st.sz == 1 || st.sz == -1,
    ensures
        ray_march(m, st, md, fuel) matches Some(hit) ==> {
            &&& (block_at_world(m, hit.0) matches Some(b) && b != Block::AIR)
            &&& -1 <= hit.1.x <= 1 && -1 <= hit.1.y <= 1 && -1 <= hit.1.z <= 1
            &&& (hit.1.x == 0 || hit.1.y == 0)
            &&& (hit.1.y == 0 || hit.1.z == 0)
            &&& (hit.1.x == 0 || hit.1.z == 0)
        },
    decreases fuel,
{
    if fuel > 0 && 1024 * st.tn < md * st.td {
        let cur = Vec3i { x: st.vx as i32, y: st.vy as i32, z: st.vz as i32 };
        let hit = match block_at_world(m, cur) {
            Some(b) => b != Block::AIR,
            None => false,
        };
        if !hit {
            lemma_ray_march_hit(m, ray_step(st), md, (fuel - 1) as nat);
        }
    }
}

/// One axis still in reach keeps the traversal budget visibly positive.
proof fn lemma_axis_budget(md: int, tn: int, td: int, n: int, d: int)
    requires
        0 <= tn,
        1 <= td <= 1024,
        1 <= d <= 1024,
        0 <= n,
        0 <= md,
        1024 * tn < md * td,
        n * td <= tn * d + 1024 * td,
    ensures
        1024 * n < md * d + 1048576,
        axis_term(md, d, n) > 2097152,
{
    assert(1024 * (n * td) <= 1024 * (tn * d) + 1048576 * td) by (nonlinear_arith)
        requires
            n * td <= tn * d + 1024 * td,
    ;
    assert(1024 * (tn * d) < (md * td) * d) by (nonlinear_arith)
        requires
            1024 * tn < md * td,
            d >= 1,
    ;
    assert(1024 * (n * td) < (md * d + 1048576) * td) by (nonlinear_arith)
        requires
            1024 * (n * td) <= 1024 * (tn * d) + 1048576 * td,
            1024 * (tn * d) < (md * td) * d,
            td >= 1,
    ;
    assert(1024 * n < md * d + 1048576) by (nonlinear_arith)
        requires
            1024 * (n * td) < (md * d + 1048576) * td,
            td >= 1,
    ;
}

impl ChunkManager {
    /// Cast a ray from `origin` toward `direction` (both fixed-point, 1024
    /// units per voxel; the direction should be roughly unit length) and
    /// report the first solid voxel within `max_distance` (also fixed-point)
    /// along the ray, together with the face normal the ray entered it
    /// through — the side a new block would be placed against. Traversal is
    /// grid stepping: always advance across the nearest voxel boundary.
    #[verifier::rlimit(100)]
    pub fn ray_cast(
        &self,
        origin: FixedVec3,
        direction: FixedVec3,
        max_distance: i64,
    ) -> (r: Option<(Vec3i, Vec3i)>)
        requires
            self.wf(),
            -1099511627776 <= origin.x <= 1099511627776,
            -1099511627776 <= origin.y <= 1099511627776,
            -1099511627776 <= origin.z <= 1099511627776,
            -1024 <= direction.x <= 1024,
            -1024 <= direction.y <= 1024,
            -1024 <= direction.z <= 1024,
            direction.x != 0 || direction.y != 0 || direction.z != 0,
            0 <= max_distance <= 2147483648,
        ensures
            r == spec_ray_cast(self.chunk_map@, origin, direction, max_distance as int),
    {
        let ghost mdi = max_distance as int;
        let ghost target = spec_ray_cast(self.chunk_map@, origin, direction, mdi);

        let v0x = fixed_floor_div(origin.x);
        let v0y = fixed_floor_div(origin.y);
        let v0z = fixed_floor_div(origin.z);
        let sx: i64 = if direction.x >= 0 { 1 } else { -1 };
        let sy: i64 = if direction.y >= 0 { 1 } else { -1 };
        let sz: i64 = if direction.z >= 0 { 1 } else { -1 };
        let dax: i64 = if direction.x >= 0 { direction.x } else { -direction.x };
        let day: i64 = if direction.y >= 0 { direction.y } else { -direction.y };
        let daz: i64 = if direction.z >= 0 { direction.z } else { -direction.z };
        proof {
            vstd::arithmetic::div_mod::lemma_fundamental_div_mod(origin.x as int, 1024);
            vstd::arithmetic::div_mod::lemma_fundamental_div_mod(origin.y as int, 1024);
            vstd::arithmetic::div_mod::lemma_fundamental_div_mod(origin.z as int, 1024);
        }
        let fx: i64 = if direction.x >= 0 { 1024 * (v0x + 1) - origin.x } else { origin.x - 1024 * v0x };
        let fy: i64 = if direction.y >= 0 { 1024 * (v0y + 1) - origin.y } else { origin.y - 1024 * v0y };
        let fz: i64 = if direction.z >= 0 { 1024 * (v0z + 1) - origin.z } else { origin.z - 1024 * v0z };

        let mut vx = v0x;
        let mut vy = v0y;
        let mut vz = v0z;
        let mut nx = fx;
        let mut ny = fy;
        let mut nz = fz;
        let mut tn: i64 = 0;
        let mut td: i64 = 1;
        let mut normx: i32 = 0;
        let mut normy: i32 = 0;
        let mut normz: i32 = 0;
        let ghost mut kx: int = 0;
        let ghost mut ky: int = 0;
        let ghost mut kz: int = 0;
        let ghost mut fuel_now: int = ray_fuel(direction, mdi) as int;

        proof {
            assert(RayState {
                vx: vx as int,
                vy: vy as int,
                vz: vz as int,
                sx: sx as int,
                sy: sy as int,
                sz: sz as int,
                dax: dax as int,
                day: day as int,
                daz: daz as int,
                nx: nx as int,
                ny: ny as int,
                nz: nz as int,
                tn: tn as int,
                td: td as int,
                normx: normx as int,
                normy: normy as int,
                normz: normz as int,
            } == ray_init(origin, direction));
            assert(dax as int * mdi >= 0 && day as int * mdi >= 0 && daz as int * mdi >= 0)
                by (nonlinear_arith)
                requires
                    dax >= 0,
                    day >= 0,
                    daz >= 0,
                    mdi >= 0,
            ;
            assert(mdi * (dax as int) <= 1024 * mdi && mdi * (day as int) <= 1024 * mdi && mdi * (
            daz as int) <= 1024 * mdi) by (nonlinear_arith)
                requires
                    0 <= dax <= 1024,
                    0 <= day <= 1024,
                    0 <= daz <= 1024,
                    mdi >= 0,
            ;
            let xsum = 3072 * mdi + 9663676416;
            vstd::arithmetic::div_mod::lemma_fundamental_div_mod(xsum, 1048576);
            assert(1048576 * fuel_now >= ray_measure(ray_init(origin, direction), mdi));
        }

        let mut going = 0 < max_distance;
        proof {
            assert(going == (1024 * (tn as int) < mdi * (td as int)));
        }

        while going
            invariant
                self.wf(),
                mdi == max_distance as int,
                0 <= max_distance <= 2147483648,
                target == spec_ray_cast(self.chunk_map@, origin, direction, mdi),
                sx == 1 || sx == -1,
                sy == 1 || sy == -1,
                sz == 1 || sz == -1,
                0 <= dax <= 1024,
                0 <= day <= 1024,
                0 <= daz <= 1024,
                dax != 0 || day != 0 || daz != 0,
                0 <= fx <= 1024,
                0 <= fy <= 1024,
                0 <= fz <= 1024,
                -1073741825 <= v0x <= 1073741825,
                -1073741825 <= v0y <= 1073741825,
                -1073741825 <= v0z <= 1073741825,
                0 <= tn <= 2147484672,
                1 <= td <= 1024,
                0 <= nx <= 2147485696,
                0 <= ny <= 2147485696,
                0 <= nz <= 2147485696,
                dax == 0 ==> nx <= 1024,
                day == 0 ==> ny <= 1024,
                daz == 0 ==> nz <= 1024,
                dax != 0 ==> (tn as int) * (dax as int) <= (td as int) * (nx as int),
                day != 0 ==> (tn as int) * (day as int) <= (td as int) * (ny as int),
                daz != 0 ==> (tn as int) * (daz as int) <= (td as int) * (nz as int),
                dax != 0 ==> (nx as int) * (td as int) <= (tn as int) * (dax as int) + 1024 * (
                td as int),
                day != 0 ==> (ny as int) * (td as int) <= (tn as int) * (day as int) + 1024 * (
                td as int),
                daz != 0 ==> (nz as int) * (td as int) <= (tn as int) * (daz as int) + 1024 * (
                td as int),
                dax != 0 ==> 1024 * (nx as int) <= mdi * (dax as int) + 3221225472,
                day != 0 ==> 1024 * (ny as int) <= mdi * (day as int) + 3221225472,
                daz != 0 ==> 1024 * (nz as int) <= mdi * (daz as int) + 3221225472,
                kx >= 0 && nx as int == fx + 1024 * kx && vx as int == v0x + sx * kx && kx
                    <= 2100224,
                ky >= 0 && ny as int == fy + 1024 * ky && vy as int == v0y + sy * ky && ky
                    <= 2100224,
                kz >= 0 && nz as int == fz + 1024 * kz && vz as int == v0z + sz * kz && kz
                    <= 2100224,
                -1080000000 <= vx <= 1080000000,
                -1080000000 <= vy <= 1080000000,
                -1080000000 <= vz <= 1080000000,
                -1 <= normx <= 1,
                -1 <= normy <= 1,
                -1 <= normz <= 1,
                normx == 0 || normy == 0,
                normy == 0 || normz == 0,
                normx == 0 || normz == 0,
                fuel_now >= 0,
                1048576 * fuel_now >= ray_measure(
                    RayState {
                        vx: vx as int,
                        vy: vy as int,
                        vz: vz as int,
                        sx: sx as int,
                        sy: sy as int,
                        sz: sz as int,
                        dax: dax as int,
                        day: day as int,
                        daz: daz as int,
                        nx: nx as int,
                        ny: ny as int,
                        nz: nz as int,
                        tn: tn as int,
                        td: td as int,
                        normx: normx as int,
                        normy: normy as int,
                        normz: normz as int,
                    },
                    mdi,
                ),
                going == (1024 * (tn as int) < mdi * (td as int)),
                ray_march(
                    self.chunk_map@,
                    RayState {
                        vx: vx as int,
                        vy: vy as int,
                        vz: vz as int,
                        sx: sx as int,
                        sy: sy as int,
                        sz: sz as int,
                        dax: dax as int,
                        day: day as int,
                        daz: daz as int,
                        nx: nx as int,
                        ny: ny as int,
                        nz: nz as int,
                        tn: tn as int,
                        td: td as int,
                        normx: normx as int,
                        normy: normy as int,
                        normz: normz as int,
                    },
                    mdi,
                    fuel_now as nat,
                ) == target,
            decreases fuel_now,
        {
            let ghost st0 = RayState {
                vx: vx as int,
                vy: vy as int,
                vz: vz as int,
                sx: sx as int,
                sy: sy as int,
                sz: sz as int,
                dax: dax as int,
                day: day as int,
                daz: daz as int,
                nx: nx as int,
                ny: ny as int,
                nz: nz as int,
                tn: tn as int,
                td: td as int,
                normx: normx as int,
                normy: normy as int,
                normz: normz as int,
            };
            proof {
                if dax != 0 {
                    lemma_axis_budget(mdi, tn as int, td as int, nx as int, dax as int);
                } else if day != 0 {
                    lemma_axis_budget(mdi, tn as int, td as int, ny as int, day as int);
                } else {
                    lemma_axis_budget(mdi, tn as int, td as int, nz as int, daz as int);
                }
                assert(ray_measure(st0, mdi) > 2097152);
                assert(fuel_now >= 2);
            }
            let cur = Vec3i::new(vx as i32, vy as i32, vz as i32);
            let hit = match self.get_block(cur) {
                Some(block) => !matches!(block, Block::AIR),
                None => false,
            };
            if hit {
                proof {
                    assert(ray_march(self.chunk_map@, st0, mdi, fuel_now as nat) == Some(
                        (cur, Vec3i { x: normx, y: normy, z: normz }),
                    ));
                }
                return Some((cur, Vec3i::new(normx, normy, normz)));
            }
            if t_less(nx, dax, ny, day) {
                if t_less(nx, dax, nz, daz) {
                    proof {
                        assert(dax != 0);
                        lemma_step_preserves(
                            mdi,
                            tn as int,
                            td as int,
                            nx as int,
                            dax as int,
                            ny as int,
                            day as int,
                            nz as int,
                            daz as int,
                        );
                        assert(nx <= 2147484672) by (nonlinear_arith)
                            requires
                                1024 * (nx as int) < mdi * (dax as int) + 1048576,
                                0 <= mdi <= 2147483648,
                                0 <= dax <= 1024,
                                nx >= 0,
                        ;
                    }
                    proof {
                        assert(vx as int + (sx as int) >= -1080000000 && vx as int + (sx as int)
                            <= 1080000000) by (nonlinear_arith)
                            requires
                                vx as int == v0x + sx * kx,
                                sx == 1 || sx == -1,
                                0 <= kx <= 2100224,
                                -1073741825 <= v0x <= 1073741825,
                        ;
                    }
                    tn = nx;
                    td = dax;
                    vx = vx + sx;
                    nx = nx + 1024;
                    normx = -(sx as i32);
                    normy = 0;
                    normz = 0;
                    proof {
                        kx = kx + 1;
                        assert(sx * kx == sx * (kx - 1) + sx) by (nonlinear_arith);
                        assert(1024 * kx <= nx as int);
                        assert(kx <= 2100224);
                        assert(vx as int >= -1080000000 && vx as int <= 1080000000)
                            by (nonlinear_arith)
                            requires
                                vx as int == v0x + sx * kx,
                                sx == 1 || sx == -1,
                                0 <= kx <= 2100224,
                                -1073741825 <= v0x <= 1073741825,
                        ;
                    }
                } else {
                    proof {
                        assert(dax != 0);
                        assert(daz != 0);
                        if day != 0 {
                            assert((nz as int) * (day as int) <= (ny as int) * (daz as int))
                                by (nonlinear_arith)
                                requires
                                    (nz as int) * (dax as int) <= (nx as int) * (daz as int),
                                    (nx as int) * (day as int) < (ny as int) * (dax as int),
                                    dax as int >= 1,
                                    day as int >= 0,
                                    daz as int >= 0,
                                    nx >= 0,
                                    ny >= 0,
                                    nz >= 0,
                            ;
                        }
                        lemma_step_preserves(
                            mdi,
                            tn as int,
                            td as int,
                            nz as int,
                            daz as int,
                            nx as int,
                            dax as int,
                            ny as int,
                            day as int,
                        );
                        assert(nz <= 2147484672) by (nonlinear_arith)
                            requires
                                1024 * (nz as int) < mdi * (daz as int) + 1048576,
                                0 <= mdi <= 2147483648,
                                0 <= daz <= 1024,
                                nz >= 0,
                        ;
                    }
                    proof {
                        assert(vz as int + (sz as int) >= -1080000000 && vz as int + (sz as int)
                            <= 1080000000) by (nonlinear_arith)
                            requires
                                vz as int == v0z + sz * kz,
                                sz == 1 || sz == -1,
                                0 <= kz <= 2100224,
                                -1073741825 <= v0z <= 1073741825,
                        ;
                    }
                    tn = nz;
                    td = daz;
                    vz = vz + sz;
                    nz = nz + 1024;
                    normx = 0;
                    normy = 0;
                    normz = -(sz as i32);
                    proof {
                        kz = kz + 1;
                        assert(sz * kz == sz * (kz - 1) + sz) by (nonlinear_arith);
                        assert(1024 * kz <= nz as int);
                        assert(kz <= 2100224);
                        assert(vz as int >= -1080000000 && vz as int <= 1080000000)
                            by (nonlinear_arith)
                            requires
                                vz as int == v0z + sz * kz,
                                sz == 1 || sz == -1,
                                0 <= kz <= 2100224,
                                -1073741825 <= v0z <= 1073741825,
                        ;
                    }
                }
            } else if t_less(ny, day, nz, daz) {
                proof {
                    assert(day != 0);
                    lemma_step_preserves(
                        mdi,
                        tn as int,
                        td as int,
                        ny as int,
                        day as int,
                        nx as int,
                        dax as int,
                        nz as int,
                        daz as int,
                    );
                    assert(ny <= 2147484672) by (nonlinear_arith)
                        requires
                            1024 * (ny as int) < mdi * (day as int) + 1048576,
                            0 <= mdi <= 2147483648,
                            0 <= day <= 1024,
                            ny >= 0,
                    ;
                }
                proof {
                    assert(vy as int + (sy as int) >= -1080000000 && vy as int + (sy as int)
                        <= 1080000000) by (nonlinear_arith)
                        requires
                            vy as int == v0y + sy * ky,
                            sy == 1 || sy == -1,
                            0 <= ky <= 2100224,
                            -1073741825 <= v0y <= 1073741825,
                    ;
                }
                tn = ny;
                td = day;
                vy = vy + sy;
                ny = ny + 1024;
                normx = 0;
                normy = -(sy as i32);
                normz = 0;
                proof {
                    ky = ky + 1;
                        assert(sy * ky == sy * (ky - 1) + sy) by (nonlinear_arith);
                    assert(1024 * ky <= ny as int);
                    assert(ky <= 2100224);
                    assert(vy as int >= -1080000000 && vy as int <= 1080000000)
                        by (nonlinear_arith)
                        requires
                            vy as int == v0y + sy * ky,
                            sy == 1 || sy == -1,
                            0 <= ky <= 2100224,
                            -1073741825 <= v0y <= 1073741825,
                    ;
                }
            } else {
                proof {
                    assert(daz != 0);
                    if dax != 0 {
                        assert(day != 0);
                        assert((nz as int) * (dax as int) <= (nx as int) * (daz as int))
                            by (nonlinear_arith)
                            requires
                                (ny as int) * (dax as int) <= (nx as int) * (day as int),
                                (nz as int) * (day as int) <= (ny as int) * (daz as int),
                                day as int >= 1,
                                dax as int >= 0,
                                daz as int >= 0,
                                nx >= 0,
                                ny >= 0,
                                nz >= 0,
                        ;
                    }
                    lemma_step_preserves(
                        mdi,
                        tn as int,
                        td as int,
                        nz as int,
                        daz as int,
                        nx as int,
                        dax as int,
                        ny as int,
                        day as int,
                    );
                    assert(nz <= 2147484672) by (nonlinear_arith)
                        requires
                            1024 * (nz as int) < mdi * (daz as int) + 1048576,
                            0 <= mdi <= 2147483648,
                            0 <= daz <= 1024,
                            nz >= 0,
                    ;
                }
                proof {
                    assert(vz as int + (sz as int) >= -1080000000 && vz as int + (sz as int)
                        <= 1080000000) by (nonlinear_arith)
                        requires
                            vz as int == v0z + sz * kz,
                            sz == 1 || sz == -1,
                            0 <= kz <= 2100224,
                            -1073741825 <= v0z <= 1073741825,
                    ;
                }
                tn = nz;
                td = daz;
                vz = vz + sz;
                nz = nz + 1024;
                normx = 0;
                normy = 0;
                normz = -(sz as i32);
                proof {
                    kz = kz + 1;
                        assert(sz * kz == sz * (kz - 1) + sz) by (nonlinear_arith);
                    assert(1024 * kz <= nz as int);
                    assert(kz <= 2100224);
                    assert(vz as int >= -1080000000 && vz as int <= 1080000000)
                        by (nonlinear_arith)
                        requires
                            vz as int == v0z + sz * kz,
                            sz == 1 || sz == -1,
                            0 <= kz <= 2100224,
                            -1073741825 <= v0z <= 1073741825,
                    ;
                }
            }
            let ghost st1 = RayState {
                vx: vx as int,
                vy: vy as int,
                vz: vz as int,
                sx: sx as int,
                sy: sy as int,
                sz: sz as int,
                dax: dax as int,
                day: day as int,
                daz: daz as int,
                nx: nx as int,
                ny: ny as int,
                nz: nz as int,
                tn: tn as int,
                td: td as int,
                normx: normx as int,
                normy: normy as int,
                normz: normz as int,
            };
            proof {
                assert(st1 == ray_step(st0));
                assert(ray_measure(st1, mdi) == ray_measure(st0, mdi) - 1048576);
                fuel_now = fuel_now - 1;
                assert(ray_march(self.chunk_map@, st0, mdi, (fuel_now + 1) as nat) == ray_march(
                    self.chunk_map@,
                    st1,
                    mdi,
                    fuel_now as nat,
                ));
                assert((max_distance as int) * (td as int) <= 2199023255552) by (nonlinear_arith)
                    requires
                        0 <= max_distance <= 2147483648,
                        1 <= td <= 1024,
                ;
            }
            going = 1024 * tn < max_distance * td;
        }
        proof {
            assert(ray_march(
                self.chunk_map@,
                RayState {
                    vx: vx as int,
                    vy: vy as int,
                    vz: vz as int,
                    sx: sx as int,
                    sy: sy as int,
                    sz: sz as int,
                    dax: dax as int,
                    day: day as int,
                    daz: daz as int,
                    nx: nx as int,
                    ny: ny as int,
                    nz: nz as int,
                    tn: tn as int,
                    td: td as int,
                    normx: normx as int,
                    normy: normy as int,
                    normz: normz as int,
                },
                mdi,
                fuel_now as nat,
            ) is None);
        }
        None
    }
}

} // verus!
