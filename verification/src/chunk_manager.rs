//! The chunk store and streaming scheduler: owns all loaded chunks, the
//! multi-stage load/mesh queues, the spatial streaming window, and block
//! queries and edits at world coordinates.

use vstd::multiset::Multiset;
use vstd::prelude::*;

use crate::block::Block;
use crate::chunk::{
    face_delta, face_dx, face_dy, face_dz, mesh_deferred, mesh_matches, nbrs_view, nbrs_wf,
    mesh_faces, voxel_index, Chunk, ChunkMeshData, CHUNK_COORD_LIMIT,
};
use crate::vec3i::Vec3i;

verus! {

/// A chunk-grid coordinate the library accepts.
pub open spec fn coord_ok(p: Vec3i) -> bool {
    &&& -CHUNK_COORD_LIMIT <= p.x <= CHUNK_COORD_LIMIT
    &&& -CHUNK_COORD_LIMIT <= p.y <= CHUNK_COORD_LIMIT
    &&& -CHUNK_COORD_LIMIT <= p.z <= CHUNK_COORD_LIMIT
}

/// All coordinates of `s` are accepted.
pub open spec fn coords_ok(s: Seq<Vec3i>) -> bool {
    forall|i: int| 0 <= i < s.len() ==> coord_ok(#[trigger] s[i])
}

/// No coordinate repeats in `s`.
pub open spec fn unique_coords(s: Seq<Vec3i>) -> bool {
    forall|i: int, j: int| 0 <= i < j < s.len() ==> s[i] != s[j]
}

/// A chunk with grid coordinate `p` is loaded in `s`.
pub open spec fn has_chunk_at(s: Seq<Chunk>, p: Vec3i) -> bool {
    exists|i: int| 0 <= i < s.len() && s[i].position == p
}

/// The index of the loaded chunk with grid coordinate `p`.
pub open spec fn spec_chunk_index(s: Seq<Chunk>, p: Vec3i) -> int {
    choose|i: int| 0 <= i < s.len() && s[i].position == p
}

/// The chunk-grid coordinate of the chunk owning world voxel `w`.
pub open spec fn chunk_coord_of(w: Vec3i) -> Vec3i {
    Vec3i {
        x: ((w.x as int) / 32) as i32,
        y: ((w.y as int) / 32) as i32,
        z: ((w.z as int) / 32) as i32,
    }
}

/// The in-chunk coordinate of world voxel `w`.
pub open spec fn local_coord_of(w: Vec3i) -> Vec3i {
    Vec3i {
        x: ((w.x as int) % 32) as i32,
        y: ((w.y as int) % 32) as i32,
        z: ((w.z as int) % 32) as i32,
    }
}

/// The grid coordinate bordering `q` across face `f`.
pub open spec fn face_neighbor(q: Vec3i, f: int) -> Vec3i {
    Vec3i {
        x: (q.x + face_dx(f)) as i32,
        y: (q.y + face_dy(f)) as i32,
        z: (q.z + face_dz(f)) as i32,
    }
}

/// `p` and `q` are chunk coordinates sharing a face.
pub open spec fn is_face_neighbor(q: Vec3i, p: Vec3i) -> bool {
    exists|f: int| 0 <= f < 6 && p == face_neighbor(q, f)
}

/// `p` is a chunk loaded in `map` bordering `cp` across one of the first
/// `f` faces.
spec fn nbr_in_prefix(map: Seq<Chunk>, cp: Vec3i, p: Vec3i, f: int) -> bool {
    exists|g: int| 0 <= g < f && p == #[trigger] face_neighbor(cp, g) && has_chunk_at(map, p)
}

/// A chunk-grid coordinate inside the cubic streaming window of radius `r`
/// around `center` (Chebyshev distance at most `r`).
pub open spec fn in_window(center: Vec3i, r: int, p: Vec3i) -> bool {
    &&& center.x - r <= p.x <= center.x + r
    &&& center.y - r <= p.y <= center.y + r
    &&& center.z - r <= p.z <= center.z + r
}

/// The coordinates of `s` that lie in the window, in order.
pub open spec fn window_filter(s: Seq<Vec3i>, center: Vec3i, r: int) -> Seq<Vec3i>
    decreases s.len(),
{
    if s.len() == 0 {
        Seq::empty()
    } else {
        let rest = window_filter(s.drop_last(), center, r);
        if in_window(center, r, s.last()) {
            rest.push(s.last())
        } else {
            rest
        }
    }
}

/// The chunks of `s` whose grid coordinate lies in the window, in order.
pub open spec fn window_filter_chunks(s: Seq<Chunk>, center: Vec3i, r: int) -> Seq<Chunk>
    decreases s.len(),
{
    if s.len() == 0 {
        Seq::empty()
    } else {
        let rest = window_filter_chunks(s.drop_last(), center, r);
        if in_window(center, r, s.last().position) {
            rest.push(s.last())
        } else {
            rest
        }
    }
}

/// What pruning a coordinate list keeps: exactly the in-window coordinates,
/// without repeats and within bounds when the input was.
proof fn lemma_window_filter_props(s: Seq<Vec3i>, center: Vec3i, r: int)
    ensures
        forall|q: Vec3i|
            #[trigger] window_filter(s, center, r).contains(q) <==> (s.contains(q) && in_window(
                center,
                r,
                q,
            )),
        unique_coords(s) ==> unique_coords(window_filter(s, center, r)),
        coords_ok(s) ==> coords_ok(window_filter(s, center, r)),
    decreases s.len(),
{
    let out = window_filter(s, center, r);
    if s.len() == 0 {
        assert forall|q: Vec3i| #[trigger] out.contains(q) implies false by {}
    } else {
        lemma_window_filter_props(s.drop_last(), center, r);
        let rest = window_filter(s.drop_last(), center, r);
        assert forall|q: Vec3i| #[trigger] out.contains(q) implies (s.contains(q) && in_window(
            center,
            r,
            q,
        )) by {
            let k = choose|k: int| 0 <= k < out.len() && out[k] == q;
            if in_window(center, r, s.last()) && k == out.len() - 1 {
                assert(q == s.last());
                assert(s[s.len() - 1] == q);
            } else {
                assert(rest.contains(q));
                let j = choose|j: int| 0 <= j < s.drop_last().len() && s.drop_last()[j] == q;
                assert(s[j] == q);
            }
        }
        assert forall|q: Vec3i| s.contains(q) && in_window(center, r, q) implies #[trigger] out.contains(
            q,
        ) by {
            let k = choose|k: int| 0 <= k < s.len() && s[k] == q;
            if k == s.len() - 1 {
                assert(out[out.len() - 1] == q);
            } else {
                assert(s.drop_last()[k] == q);
                assert(rest.contains(q));
                let j = choose|j: int| 0 <= j < rest.len() && rest[j] == q;
                assert(out[j] == q);
            }
        }
        if unique_coords(s) {
            assert forall|i: int, j: int| 0 <= i < j < s.drop_last().len() implies s.drop_last()[i]
                != s.drop_last()[j] by {
                assert(s[i] != s[j]);
            }
            assert forall|a: int, b: int| 0 <= a < b < out.len() implies out[a] != out[b] by {
                if in_window(center, r, s.last()) && b == out.len() - 1 {
                    assert(rest.contains(out[a]));
                    assert(s.drop_last().contains(out[a]));
                    let j = choose|j: int|
                        0 <= j < s.drop_last().len() && s.drop_last()[j] == out[a];
                    assert(s[j] == out[a]);
                    assert(s[s.len() - 1] == s.last());
                } else {
                    assert(out[a] == rest[a] && out[b] == rest[b]);
                }
            }
        }
        if coords_ok(s) {
            assert forall|i: int| 0 <= i < s.drop_last().len() implies coord_ok(
                #[trigger] s.drop_last()[i],
            ) by {
                assert(s.drop_last()[i] == s[i]);
            }
            assert forall|i: int| 0 <= i < out.len() implies coord_ok(#[trigger] out[i]) by {
                if in_window(center, r, s.last()) && i == out.len() - 1 {
                    assert(out[i] == s[s.len() - 1]);
                } else {
                    assert(out[i] == rest[i]);
                }
            }
        }
    }
}

/// What pruning the store keeps: exactly the in-window chunks, with their
/// well-formedness and the uniqueness of their coordinates.
proof fn lemma_window_filter_chunks_props(s: Seq<Chunk>, center: Vec3i, r: int)
    ensures
        forall|q: Vec3i|
            #[trigger] has_chunk_at(window_filter_chunks(s, center, r), q) <==> (has_chunk_at(s, q)
                && in_window(center, r, q)),
        forall|k: int|
            0 <= k < window_filter_chunks(s, center, r).len() ==> s.contains(
                #[trigger] window_filter_chunks(s, center, r)[k],
            ),
        (forall|i: int, j: int| 0 <= i < j < s.len() ==> s[i].position != s[j].position) ==> (
        forall|i: int, j: int|
            0 <= i < j < window_filter_chunks(s, center, r).len() ==> window_filter_chunks(
                s,
                center,
                r,
            )[i].position != window_filter_chunks(s, center, r)[j].position),
    decreases s.len(),
{
    let out = window_filter_chunks(s, center, r);
    if s.len() == 0 {
    } else {
        lemma_window_filter_chunks_props(s.drop_last(), center, r);
        let rest = window_filter_chunks(s.drop_last(), center, r);
        assert forall|k: int| 0 <= k < out.len() implies s.contains(#[trigger] out[k]) by {
            if in_window(center, r, s.last().position) && k == out.len() - 1 {
                assert(s[s.len() - 1] == out[k]);
            } else {
                assert(out[k] == rest[k]);
                assert(s.drop_last().contains(rest[k]));
                let j = choose|j: int| 0 <= j < s.drop_last().len() && s.drop_last()[j] == rest[k];
                assert(s[j] == out[k]);
            }
        }
        assert forall|q: Vec3i| #[trigger] has_chunk_at(out, q) implies (has_chunk_at(s, q)
            && in_window(center, r, q)) by {
            let k = choose|k: int| 0 <= k < out.len() && out[k].position == q;
            if in_window(center, r, s.last().position) && k == out.len() - 1 {
                assert(s[s.len() - 1].position == q);
            } else {
                assert(out[k] == rest[k]);
                assert(has_chunk_at(rest, q));
                let j = choose|j: int|
                    0 <= j < s.drop_last().len() && s.drop_last()[j].position == q;
                assert(s[j].position == q);
            }
        }
        assert forall|q: Vec3i| has_chunk_at(s, q) && in_window(center, r, q) implies #[trigger] has_chunk_at(
            out,
            q,
        ) by {
            let k = choose|k: int| 0 <= k < s.len() && s[k].position == q;
            if k == s.len() - 1 {
                assert(out[out.len() - 1].position == q);
            } else {
                assert(s.drop_last()[k].position == q);
                assert(has_chunk_at(rest, q));
                let j = choose|j: int| 0 <= j < rest.len() && rest[j].position == q;
                assert(out[j].position == q);
            }
        }
        if forall|i: int, j: int| 0 <= i < j < s.len() ==> s[i].position != s[j].position {
            assert forall|i: int, j: int|
                0 <= i < j < s.drop_last().len() implies s.drop_last()[i].position
                != s.drop_last()[j].position by {
                assert(s[i].position != s[j].position);
            }
            assert forall|a: int, b: int| 0 <= a < b < out.len() implies out[a].position
                != out[b].position by {
                if in_window(center, r, s.last().position) && b == out.len() - 1 {
                    assert(rest.contains(out[a]));
                    assert(s.drop_last().contains(out[a]));
                    let j = choose|j: int|
                        0 <= j < s.drop_last().len() && s.drop_last()[j] == out[a];
                    assert(s[j] == out[a]);
                    assert(s[s.len() - 1] == s.last());
                } else {
                    assert(out[a] == rest[a] && out[b] == rest[b]);
                }
            }
        }
    }
}

/// One scan step of pruning: a kept element lands at the end.
proof fn lemma_window_filter_push(s: Seq<Vec3i>, center: Vec3i, r: int, e: Vec3i)
    ensures
        window_filter(s.push(e), center, r) == if in_window(center, r, e) {
            window_filter(s, center, r).push(e)
        } else {
            window_filter(s, center, r)
        },
{
    assert(s.push(e).drop_last() =~= s);
    assert(s.push(e).last() == e);
}

/// One scan step of pruning the store: a kept chunk lands at the end.
proof fn lemma_window_filter_chunks_push(s: Seq<Chunk>, center: Vec3i, r: int, e: Chunk)
    ensures
        window_filter_chunks(s.push(e), center, r) == if in_window(center, r, e.position) {
            window_filter_chunks(s, center, r).push(e)
        } else {
            window_filter_chunks(s, center, r)
        },
{
    assert(s.push(e).drop_last() =~= s);
    assert(s.push(e).last() == e);
}

/// The window cell at offsets `(cx, cy, cz)` from the window's low corner.
spec fn window_cell(center: Vec3i, r: int, cx: int, cy: int, cz: int) -> Vec3i {
    Vec3i {
        x: (center.x - r + cx) as i32,
        y: (center.y - r + cy) as i32,
        z: (center.z - r + cz) as i32,
    }
}

/// `p` is a window cell strictly before scan position `(x, y, z)` (offsets
/// from the window's low corner, `x` outermost).
spec fn window_prefix(center: Vec3i, r: int, p: Vec3i, x: int, y: int, z: int) -> bool {
    exists|cx: int, cy: int, cz: int|
        0 <= cx <= 2 * r && 0 <= cy <= 2 * r && 0 <= cz <= 2 * r && crate::chunk::gen_before(
            cx,
            cy,
            cz,
            x,
            y,
            z,
        ) && p == #[trigger] window_cell(center, r, cx, cy, cz)
}

/// Scan order wraps from the end of a `z` column to the next `y` row.
proof fn lemma_window_prefix_wrap_y(center: Vec3i, r: int, p: Vec3i, x: int, y: int)
    requires
        r >= 0,
    ensures
        window_prefix(center, r, p, x, y, 2 * r + 1) == window_prefix(center, r, p, x, y + 1, 0),
{
    if window_prefix(center, r, p, x, y, 2 * r + 1) {
        let (cx, cy, cz) = choose|cx: int, cy: int, cz: int|
            0 <= cx <= 2 * r && 0 <= cy <= 2 * r && 0 <= cz <= 2 * r && crate::chunk::gen_before(
                cx,
                cy,
                cz,
                x,
                y,
                2 * r + 1,
            ) && p == #[trigger] window_cell(center, r, cx, cy, cz);
        assert(crate::chunk::gen_before(cx, cy, cz, x, y + 1, 0));
        assert(window_prefix(center, r, p, x, y + 1, 0));
    }
    if window_prefix(center, r, p, x, y + 1, 0) {
        let (cx, cy, cz) = choose|cx: int, cy: int, cz: int|
            0 <= cx <= 2 * r && 0 <= cy <= 2 * r && 0 <= cz <= 2 * r && crate::chunk::gen_before(
                cx,
                cy,
                cz,
                x,
                y + 1,
                0,
            ) && p == #[trigger] window_cell(center, r, cx, cy, cz);
        assert(crate::chunk::gen_before(cx, cy, cz, x, y, 2 * r + 1));
        assert(window_prefix(center, r, p, x, y, 2 * r + 1));
    }
}

/// Scan order wraps from the end of a `y` plane to the next `x` slice.
proof fn lemma_window_prefix_wrap_x(center: Vec3i, r: int, p: Vec3i, x: int)
    requires
        r >= 0,
    ensures
        window_prefix(center, r, p, x, 2 * r + 1, 0) == window_prefix(center, r, p, x + 1, 0, 0),
{
    if window_prefix(center, r, p, x, 2 * r + 1, 0) {
        let (cx, cy, cz) = choose|cx: int, cy: int, cz: int|
            0 <= cx <= 2 * r && 0 <= cy <= 2 * r && 0 <= cz <= 2 * r && crate::chunk::gen_before(
                cx,
                cy,
                cz,
                x,
                2 * r + 1,
                0,
            ) && p == #[trigger] window_cell(center, r, cx, cy, cz);
        assert(crate::chunk::gen_before(cx, cy, cz, x + 1, 0, 0));
        assert(window_prefix(center, r, p, x + 1, 0, 0));
    }
    if window_prefix(center, r, p, x + 1, 0, 0) {
        let (cx, cy, cz) = choose|cx: int, cy: int, cz: int|
            0 <= cx <= 2 * r && 0 <= cy <= 2 * r && 0 <= cz <= 2 * r && crate::chunk::gen_before(
                cx,
                cy,
                cz,
                x + 1,
                0,
                0,
            ) && p == #[trigger] window_cell(center, r, cx, cy, cz);
        assert(crate::chunk::gen_before(cx, cy, cz, x, 2 * r + 1, 0));
        assert(window_prefix(center, r, p, x, 2 * r + 1, 0));
    }
}

/// After the whole window was scanned, the scanned cells are exactly the
/// window.
proof fn lemma_window_prefix_full(center: Vec3i, r: int, p: Vec3i)
    requires
        r >= 0,
        -1000000 <= center.x - r,
        center.x + r <= 1000000,
        -1000000 <= center.y - r,
        center.y + r <= 1000000,
        -1000000 <= center.z - r,
        center.z + r <= 1000000,
    ensures
        window_prefix(center, r, p, 2 * r + 1, 0, 0) == in_window(center, r, p),
{
    if window_prefix(center, r, p, 2 * r + 1, 0, 0) {
        let (cx, cy, cz) = choose|cx: int, cy: int, cz: int|
            0 <= cx <= 2 * r && 0 <= cy <= 2 * r && 0 <= cz <= 2 * r && crate::chunk::gen_before(
                cx,
                cy,
                cz,
                2 * r + 1,
                0,
                0,
            ) && p == #[trigger] window_cell(center, r, cx, cy, cz);
        assert(in_window(center, r, p));
    }
    if in_window(center, r, p) {
        let cx = p.x - center.x + r;
        let cy = p.y - center.y + r;
        let cz = p.z - center.z + r;
        assert(0 <= cx <= 2 * r && 0 <= cy <= 2 * r && 0 <= cz <= 2 * r
            && crate::chunk::gen_before(cx, cy, cz, 2 * r + 1, 0, 0) && p == window_cell(
            center,
            r,
            cx,
            cy,
            cz,
        ));
        assert(window_prefix(center, r, p, 2 * r + 1, 0, 0));
    }
}

/// True when `p` lies in the cubic window of radius `rd` around `center`.
fn in_window_exec(center: Vec3i, rd: i32, p: Vec3i) -> (r: bool)
    requires
        0 <= rd <= 1000,
        -1000000 <= center.x <= 1000000,
        -1000000 <= center.y <= 1000000,
        -1000000 <= center.z <= 1000000,
    ensures
        r == in_window(center, rd as int, p),
{
    p.x >= center.x - rd && p.x <= center.x + rd && p.y >= center.y - rd && p.y <= center.y + rd
        && p.z >= center.z - rd && p.z <= center.z + rd
}

/// Drop every coordinate of `v` that left the window.
fn prune_coords(v: &mut Vec<Vec3i>, center: Vec3i, rd: i32)
    requires
        0 <= rd <= 1000,
        -1000000 <= center.x <= 1000000,
        -1000000 <= center.y <= 1000000,
        -1000000 <= center.z <= 1000000,
    ensures
        final(v)@ == window_filter(old(v)@, center, rd as int),
{
    let mut kept: Vec<Vec3i> = Vec::new();
    let n = v.len();
    let mut i: usize = 0;
    while i < n
        invariant
            i <= n,
            n == v@.len(),
            v@ == old(v)@,
            0 <= rd <= 1000,
            -1000000 <= center.x <= 1000000,
            -1000000 <= center.y <= 1000000,
            -1000000 <= center.z <= 1000000,
            kept@ == window_filter(old(v)@.take(i as int), center, rd as int),
        decreases n - i,
    {
        let c = v[i];
        proof {
            assert(old(v)@.take(i as int + 1) =~= old(v)@.take(i as int).push(c));
            lemma_window_filter_push(old(v)@.take(i as int), center, rd as int, c);
        }
        if in_window_exec(center, rd, c) {
            kept.push(c);
        }
        i += 1;
    }
    proof {
        assert(old(v)@.take(n as int) =~= old(v)@);
    }
    *v = kept;
}

/// Sort coordinates by squared Euclidean distance to `center`, nearest
/// first, keeping exactly the same collection of coordinates.
fn sort_by_distance(v: &mut Vec<Vec3i>, center: Vec3i)
    requires
        -1000000 <= center.x <= 1000000,
        -1000000 <= center.y <= 1000000,
        -1000000 <= center.z <= 1000000,
        coords_ok(old(v)@),
    ensures
        final(v)@.to_multiset() == old(v)@.to_multiset(),
        forall|q: Vec3i| final(v)@.contains(q) <==> old(v)@.contains(q),
        coords_ok(final(v)@),
        unique_coords(old(v)@) ==> unique_coords(final(v)@),
        forall|i: int, j: int|
            0 <= i <= j < final(v)@.len() ==> final(v)@[i].spec_dist2(center)
                <= final(v)@[j].spec_dist2(center),
{
    let mut out: Vec<Vec3i> = Vec::new();
    proof {
        broadcast use vstd::multiset::group_multiset_axioms;

        out@.to_multiset_ensures();
        assert forall|q: Vec3i| out@.to_multiset().count(q) == 0 by {
            if out@.to_multiset().count(q) > 0 {
                assert(out@.contains(q));
            }
        }
        assert(out@.to_multiset() =~= Multiset::empty());
        assert(out@.to_multiset().add(v@.to_multiset()) =~= v@.to_multiset());
    }
    while v.len() > 0
        invariant
            -1000000 <= center.x <= 1000000,
            -1000000 <= center.y <= 1000000,
            -1000000 <= center.z <= 1000000,
            coords_ok(out@),
            coords_ok(v@),
            out@.to_multiset().add(v@.to_multiset()) == old(v)@.to_multiset(),
            forall|i: int, j: int|
                0 <= i <= j < out@.len() ==> out@[i].spec_dist2(center) <= out@[j].spec_dist2(
                    center,
                ),
            forall|i: int, k: int|
                0 <= i < out@.len() && 0 <= k < v@.len() ==> out@[i].spec_dist2(center)
                    <= v@[k].spec_dist2(center),
        decreases v@.len(),
    {
        let mut best: usize = 0;
        let mut best_d: i64 = v[0].dist2(center);
        let mut j: usize = 1;
        while j < v.len()
            invariant
                -1000000 <= center.x <= 1000000,
                -1000000 <= center.y <= 1000000,
                -1000000 <= center.z <= 1000000,
                coords_ok(v@),
                v@.len() > 0,
                best < j,
                j <= v@.len(),
                best_d == v@[best as int].spec_dist2(center),
                forall|k: int| 0 <= k < j ==> best_d <= v@[k].spec_dist2(center),
            decreases v@.len() - j,
        {
            let d = v[j].dist2(center);
            if d < best_d {
                best = j;
                best_d = d;
            }
            j += 1;
        }
        let ghost vpre = v@;
        let ghost outpre = out@;
        let c = v.remove(best);
        out.push(c);
        proof {
            vpre.to_multiset_ensures();
            outpre.to_multiset_ensures();
            assert(c == vpre[best as int]);
            assert(vpre.contains(c));
            assert(v@.to_multiset() =~= vpre.to_multiset().remove(c));
            assert(out@.to_multiset() =~= outpre.to_multiset().insert(c));
            assert(out@.to_multiset().add(v@.to_multiset()) =~= old(v)@.to_multiset()) by {
                broadcast use vstd::multiset::group_multiset_axioms;

                assert(vpre.to_multiset().count(c) > 0);
            }
            assert forall|i: int, k: int|
                0 <= i < out@.len() && 0 <= k < v@.len() implies out@[i].spec_dist2(center)
                <= v@[k].spec_dist2(center) by {
                assert(v@[k] == if k < best as int {
                    vpre[k]
                } else {
                    vpre[k + 1]
                });
                if i < outpre.len() {
                    assert(out@[i] == outpre[i]);
                } else {
                    assert(out@[i] == c);
                }
            }
            assert forall|i: int, j2: int|
                0 <= i <= j2 < out@.len() implies out@[i].spec_dist2(center)
                <= out@[j2].spec_dist2(center) by {
                if j2 == out@.len() - 1 && i < j2 {
                    assert(out@[i] == outpre[i]);
                    assert(out@[j2] == c && c == vpre[best as int]);
                }
            }
            assert forall|i: int| 0 <= i < out@.len() implies coord_ok(#[trigger] out@[i]) by {
                if i < outpre.len() {
                    assert(out@[i] == outpre[i]);
                } else {
                    assert(out@[i] == c && c == vpre[best as int]);
                }
            }
            assert forall|i: int| 0 <= i < v@.len() implies coord_ok(#[trigger] v@[i]) by {
                assert(v@[i] == if i < best as int {
                    vpre[i]
                } else {
                    vpre[i + 1]
                });
            }
        }
    }
    proof {
        broadcast use vstd::multiset::group_multiset_axioms;

        v@.to_multiset_ensures();
        assert forall|q: Vec3i| v@.to_multiset().count(q) == 0 by {
            if v@.to_multiset().count(q) > 0 {
                assert(v@.contains(q));
            }
        }
        assert(v@.to_multiset() =~= Multiset::empty());
        assert(out@.to_multiset().add(v@.to_multiset()) =~= out@.to_multiset());
    }
    *v = out;
    proof {
        v@.to_multiset_ensures();
        old(v)@.to_multiset_ensures();
        assert forall|q: Vec3i| v@.contains(q) <==> old(v)@.contains(q) by {
            assert(v@.to_multiset().count(q) == old(v)@.to_multiset().count(q));
        }
        if unique_coords(old(v)@) {
            assert forall|i: int, j: int| 0 <= i < j < old(v)@.len() implies old(v)@[i] != old(
                v,
            )@[j] by {}
            assert(old(v)@.no_duplicates());
            old(v)@.lemma_multiset_has_no_duplicates();
            v@.lemma_multiset_has_no_duplicates_conv();
            assert(v@.no_duplicates());
            assert forall|i: int, j: int| 0 <= i < j < v@.len() implies v@[i] != v@[j] by {}
        }
    }
}

/// The block stored at world voxel `w` in the chunk collection `m`, when
/// the owning chunk is loaded.
pub open spec fn block_at_world(m: Seq<Chunk>, w: Vec3i) -> Option<Block> {
    if has_chunk_at(m, chunk_coord_of(w)) {
        let i = spec_chunk_index(m, chunk_coord_of(w));
        let lp = local_coord_of(w);
        Some(m[i].spec_block(lp.x as int, lp.y as int, lp.z as int))
    } else {
        None
    }
}

/// Owns all loaded chunks and the scheduler state around them: the
/// nearest-first queue of coordinates waiting for generated data, the queue
/// of chunks waiting for a first mesh, the set of chunks whose mesh must be
/// rebuilt after an edit or an arrived neighbor, the set of chunks unblocked
/// by a newly loaded neighbor, and the set of chunks whose last mesh attempt
/// deferred faces because a neighbor was missing.
pub struct ChunkManager {
    pub chunk_map: Vec<Chunk>,
    pub chunk_data_load_queue: Vec<Vec3i>,
    pub chunk_mesh_load_queue: Vec<Vec3i>,
    pub chunk_mesh_reload_queue: Vec<Vec3i>,
    pub chunk_neighbor_loaded_queue: Vec<Vec3i>,
    pub chunks_with_missing_neighbors: Vec<Vec3i>,
    pub render_distance: i32,
}

impl ChunkManager {
    /// Well-formedness: every loaded chunk is well-formed, loaded grid
    /// coordinates are unique, the set-like collections hold no repeats, and
    /// every queued coordinate is within the accepted coordinate range.
    pub open spec fn wf(self) -> bool {
        &&& forall|i: int| 0 <= i < self.chunk_map@.len() ==> (#[trigger] self.chunk_map@[i]).wf()
        &&& forall|i: int, j: int|
            0 <= i < j < self.chunk_map@.len() ==> self.chunk_map@[i].position
                != self.chunk_map@[j].position
        &&& unique_coords(self.chunk_data_load_queue@)
        &&& unique_coords(self.chunk_mesh_load_queue@)
        &&& unique_coords(self.chunk_mesh_reload_queue@)
        &&& unique_coords(self.chunk_neighbor_loaded_queue@)
        &&& unique_coords(self.chunks_with_missing_neighbors@)
        &&& coords_ok(self.chunk_data_load_queue@)
        &&& coords_ok(self.chunk_mesh_load_queue@)
        &&& coords_ok(self.chunk_mesh_reload_queue@)
        &&& coords_ok(self.chunk_neighbor_loaded_queue@)
        &&& coords_ok(self.chunks_with_missing_neighbors@)
        &&& 0 <= self.render_distance <= 1000
    }

    /// The block stored at world voxel `w`, when its chunk is loaded.
    pub open spec fn spec_block_at(self, w: Vec3i) -> Option<Block> {
        block_at_world(self.chunk_map@, w)
    }

    /// A real edit applies at `w`: the owning chunk is loaded and holds a
    /// different block there.
    pub open spec fn edit_applies(self, w: Vec3i, b: Block) -> bool {
        match self.spec_block_at(w) {
            Some(cur) => cur != b,
            None => false,
        }
    }

    /// An empty store watching a cubic window of radius `render_distance`
    /// (in chunks) around the observer.
    pub fn new(render_distance: i32) -> (r: ChunkManager)
        requires
            0 <= render_distance <= 1000,
        ensures
            r.wf(),
            r.chunk_map@.len() == 0,
            r.chunk_data_load_queue@.len() == 0,
            r.chunk_mesh_load_queue@.len() == 0,
            r.chunk_mesh_reload_queue@.len() == 0,
            r.chunk_neighbor_loaded_queue@.len() == 0,
            r.chunks_with_missing_neighbors@.len() == 0,
            r.render_distance == render_distance,
    {
        ChunkManager {
            chunk_map: Vec::new(),
            chunk_data_load_queue: Vec::new(),
            chunk_mesh_load_queue: Vec::new(),
            chunk_mesh_reload_queue: Vec::new(),
            chunk_neighbor_loaded_queue: Vec::new(),
            chunks_with_missing_neighbors: Vec::new(),
            render_distance,
        }
    }

    /// The store index of the chunk at grid coordinate `p`, if loaded.
    fn find_chunk(&self, p: Vec3i) -> (r: Option<usize>)
        ensures
            match r {
                Some(i) => i < self.chunk_map@.len() && self.chunk_map@[i as int].position == p,
                None => !has_chunk_at(self.chunk_map@, p),
            },
    {
        let mut i: usize = 0;
        let n = self.chunk_map.len();
        while i < n
            invariant
                i <= n,
                n == self.chunk_map@.len(),
                forall|k: int| 0 <= k < i ==> self.chunk_map@[k].position != p,
            decreases n - i,
        {
            if self.chunk_map[i].position == p {
                return Some(i);
            }
            i += 1;
        }
        None
    }

    /// A borrow of the chunk at grid coordinate `p`, if loaded.
    pub fn get_chunk(&self, p: Vec3i) -> (r: Option<&Chunk>)
        requires
            self.wf(),
        ensures
            match r {
                Some(c) => has_chunk_at(self.chunk_map@, p) && c.position == p && *c
                    == self.chunk_map@[spec_chunk_index(self.chunk_map@, p)],
                None => !has_chunk_at(self.chunk_map@, p),
            },
    {
        match self.find_chunk(p) {
            Some(i) => {
                proof {
                    assert(has_chunk_at(self.chunk_map@, p));
                    let si = spec_chunk_index(self.chunk_map@, p);
                    assert(0 <= si < self.chunk_map@.len() && self.chunk_map@[si].position == p);
                    assert(si == i);
                }
                Some(&self.chunk_map[i])
            },
            None => None,
        }
    }

    /// The block at world voxel `pos`, or nothing while the owning chunk is
    /// not loaded.
    pub fn get_block(&self, pos: Vec3i) -> (r: Option<Block>)
        requires
            self.wf(),
        ensures
            r == self.spec_block_at(pos),
    {
        let chunk_pos = Chunk::world_to_chunk_pos(pos);
        proof {
            assert(chunk_pos == chunk_coord_of(pos));
        }
        match self.find_chunk(chunk_pos) {
            Some(i) => {
                let inner_pos = Chunk::world_to_local_pos(pos);
                proof {
                    assert(inner_pos == local_coord_of(pos));
                    assert(has_chunk_at(self.chunk_map@, chunk_pos));
                    let si = spec_chunk_index(self.chunk_map@, chunk_pos);
                    assert(0 <= si < self.chunk_map@.len() && self.chunk_map@[si].position
                        == chunk_pos);
                    assert(si == i);
                    assert(self.chunk_map@[i as int].wf());
                }
                let c: &Chunk = &self.chunk_map[i];
                Some(
                    c.blocks[1024 * (inner_pos.z as usize) + 32 * (inner_pos.y as usize) + (
                    inner_pos.x as usize)],
                )
            },
            None => None,
        }
    }

    /// Write `block` at world voxel `position`. A write to an unloaded chunk,
    /// or one that repeats the stored value, changes nothing; a real change
    /// rewrites the owning chunk's voxel and queues the owning chunk and
    /// every loaded chunk sharing a face with it for a mesh rebuild — and
    /// nothing else.
    pub fn set_block(&mut self, position: Vec3i, block: Block)
        requires
            old(self).wf(),
        ensures
            final(self).wf(),
            final(self).chunk_data_load_queue == old(self).chunk_data_load_queue,
            final(self).chunk_mesh_load_queue == old(self).chunk_mesh_load_queue,
            final(self).chunk_neighbor_loaded_queue == old(self).chunk_neighbor_loaded_queue,
            final(self).chunks_with_missing_neighbors == old(self).chunks_with_missing_neighbors,
            final(self).render_distance == old(self).render_distance,
            old(self).edit_applies(position, block) ==> {
                let cp = chunk_coord_of(position);
                let lp = local_coord_of(position);
                let ci = spec_chunk_index(old(self).chunk_map@, cp);
                &&& final(self).chunk_map@.len() == old(self).chunk_map@.len()
                &&& final(self).chunk_map@[ci].blocks@ == old(self).chunk_map@[ci].blocks@.update(
                    voxel_index(lp.x as int, lp.y as int, lp.z as int),
                    block,
                )
                &&& final(self).chunk_map@[ci].position == old(self).chunk_map@[ci].position
                &&& final(self).chunk_map@[ci].world_position == old(
                    self,
                ).chunk_map@[ci].world_position
                &&& final(self).chunk_map@[ci].mesh == old(self).chunk_map@[ci].mesh
                &&& forall|k: int|
                    0 <= k < old(self).chunk_map@.len() && k != ci ==> final(self).chunk_map@[k]
                        == old(self).chunk_map@[k]
                &&& forall|p: Vec3i|
                    final(self).chunk_mesh_reload_queue@.contains(p) <==> (old(
                        self,
                    ).chunk_mesh_reload_queue@.contains(p) || p == cp || (is_face_neighbor(cp, p)
                        && has_chunk_at(old(self).chunk_map@, p)))
            },
            !old(self).edit_applies(position, block) ==> {
                &&& final(self).chunk_map@ == old(self).chunk_map@
                &&& final(self).chunk_mesh_reload_queue@ == old(self).chunk_mesh_reload_queue@
            },
    {
        let ghost old_map = self.chunk_map@;
        let ghost old_reload = self.chunk_mesh_reload_queue@;
        let chunk_pos = Chunk::world_to_chunk_pos(position);
        let inner_pos = Chunk::world_to_local_pos(position);
        proof {
            assert(chunk_pos == chunk_coord_of(position));
            assert(inner_pos == local_coord_of(position));
        }
        match self.find_chunk(chunk_pos) {
            Some(ci) => {
                proof {
                    assert(has_chunk_at(self.chunk_map@, chunk_pos));
                    let si = spec_chunk_index(self.chunk_map@, chunk_pos);
                    assert(0 <= si < self.chunk_map@.len() && self.chunk_map@[si].position
                        == chunk_pos);
                    assert(si == ci);
                    assert(self.chunk_map@[ci as int].wf());
                    assert(coord_ok(chunk_pos));
                }
                let changed = self.chunk_map[ci].set_block(inner_pos, block);
                proof {
                    assert(changed == old(self).edit_applies(position, block));
                    if !changed {
                        assert(self.chunk_map@ =~= old_map);
                    }
                    assert forall|i: int, j: int|
                        0 <= i < j < self.chunk_map@.len() implies self.chunk_map@[i].position
                        != self.chunk_map@[j].position by {
                        assert(old_map[i].position != old_map[j].position);
                    }
                }
                if changed {
                    insert_coord(&mut self.chunk_mesh_reload_queue, chunk_pos);
                    let ghost mid_map = self.chunk_map@;
                    let ghost mid_reload = self.chunk_mesh_reload_queue@;
                    let mut f: usize = 0;
                    while f < 6
                        invariant
                            f <= 6,
                            self.wf(),
                            chunk_pos == chunk_coord_of(position),
                            coord_ok(chunk_pos),
                            self.chunk_map@ == mid_map,
                            self.chunk_data_load_queue == old(self).chunk_data_load_queue,
                            self.chunk_mesh_load_queue == old(self).chunk_mesh_load_queue,
                            self.chunk_neighbor_loaded_queue == old(
                                self,
                            ).chunk_neighbor_loaded_queue,
                            self.chunks_with_missing_neighbors == old(
                                self,
                            ).chunks_with_missing_neighbors,
                            self.render_distance == old(self).render_distance,
                            forall|p: Vec3i|
                                #![trigger self.chunk_mesh_reload_queue@.contains(p)]
                                self.chunk_mesh_reload_queue@.contains(p) <==> (
                                mid_reload.contains(p) || nbr_in_prefix(
                                    self.chunk_map@,
                                    chunk_pos,
                                    p,
                                    f as int,
                                )),
                        decreases 6 - f,
                    {
                        let (dx, dy, dz) = face_delta(f);
                        let neighbor_pos = chunk_pos.plus(Vec3i::new(dx, dy, dz));
                        proof {
                            assert(neighbor_pos == face_neighbor(chunk_pos, f as int));
                        }
                        let ghost before = self.chunk_mesh_reload_queue@;
                        match self.find_chunk(neighbor_pos) {
                            Some(ni) => {
                                proof {
                                    assert(self.chunk_map@[ni as int].wf());
                                    assert(coord_ok(neighbor_pos));
                                    assert(has_chunk_at(self.chunk_map@, neighbor_pos));
                                }
                                insert_coord(&mut self.chunk_mesh_reload_queue, neighbor_pos);
                                proof {
                                    assert forall|p: Vec3i|
                                        #![trigger self.chunk_mesh_reload_queue@.contains(p)]
                                        self.chunk_mesh_reload_queue@.contains(p) <==> (
                                        before.contains(p) || (p == face_neighbor(
                                            chunk_pos,
                                            f as int,
                                        ) && has_chunk_at(self.chunk_map@, p))) by {}
                                }
                            },
                            None => {
                                proof {
                                    assert forall|p: Vec3i|
                                        #![trigger self.chunk_mesh_reload_queue@.contains(p)]
                                        self.chunk_mesh_reload_queue@.contains(p) <==> (
                                        before.contains(p) || (p == face_neighbor(
                                            chunk_pos,
                                            f as int,
                                        ) && has_chunk_at(self.chunk_map@, p))) by {
                                        if p == face_neighbor(chunk_pos, f as int) {
                                            assert(!has_chunk_at(self.chunk_map@, p));
                                        }
                                    }
                                }
                            },
                        }
                        proof {
                            let fi = f as int;
                            assert forall|p: Vec3i|
                                #![trigger self.chunk_mesh_reload_queue@.contains(p)]
                                self.chunk_mesh_reload_queue@.contains(p) <==> (
                                mid_reload.contains(p) || nbr_in_prefix(
                                    self.chunk_map@,
                                    chunk_pos,
                                    p,
                                    fi + 1,
                                )) by {
                                if self.chunk_mesh_reload_queue@.contains(p) && !mid_reload.contains(
                                    p,
                                ) {
                                    if before.contains(p) {
                                        assert(nbr_in_prefix(self.chunk_map@, chunk_pos, p, fi));
                                        let g = choose|g: int|
                                            0 <= g < fi && p == face_neighbor(chunk_pos, g)
                                                && has_chunk_at(self.chunk_map@, p);
                                        assert(0 <= g < fi + 1 && p == face_neighbor(chunk_pos, g)
                                            && has_chunk_at(self.chunk_map@, p));
                                        assert(nbr_in_prefix(
                                            self.chunk_map@,
                                            chunk_pos,
                                            p,
                                            fi + 1,
                                        ));
                                    } else {
                                        assert(p == face_neighbor(chunk_pos, fi) && has_chunk_at(
                                            self.chunk_map@,
                                            p,
                                        ));
                                        assert(nbr_in_prefix(
                                            self.chunk_map@,
                                            chunk_pos,
                                            p,
                                            fi + 1,
                                        ));
                                    }
                                }
                                if mid_reload.contains(p) {
                                    assert(before.contains(p));
                                    assert(self.chunk_mesh_reload_queue@.contains(p));
                                }
                                if nbr_in_prefix(self.chunk_map@, chunk_pos, p, fi + 1) {
                                    let g = choose|g: int|
                                        0 <= g < fi + 1 && p == face_neighbor(chunk_pos, g)
                                            && has_chunk_at(self.chunk_map@, p);
                                    if g < fi {
                                        assert(0 <= g < fi && p == face_neighbor(chunk_pos, g)
                                            && has_chunk_at(self.chunk_map@, p));
                                        assert(nbr_in_prefix(self.chunk_map@, chunk_pos, p, fi));
                                        assert(before.contains(p));
                                        assert(self.chunk_mesh_reload_queue@.contains(p));
                                    } else {
                                        assert(p == face_neighbor(chunk_pos, fi));
                                        assert(self.chunk_mesh_reload_queue@.contains(p));
                                    }
                                }
                            }
                        }
                        f += 1;
                    }
                    proof {
                        assert forall|q: Vec3i|
                            has_chunk_at(self.chunk_map@, q) == has_chunk_at(old_map, q) by {
                            if has_chunk_at(self.chunk_map@, q) {
                                let i = choose|i: int|
                                    0 <= i < self.chunk_map@.len() && self.chunk_map@[i].position
                                        == q;
                                assert(old_map[i].position == q);
                                assert(has_chunk_at(old_map, q));
                            }
                            if has_chunk_at(old_map, q) {
                                let i = choose|i: int|
                                    0 <= i < old_map.len() && old_map[i].position == q;
                                assert(self.chunk_map@[i].position == q);
                                assert(has_chunk_at(self.chunk_map@, q));
                            }
                        }
                        assert forall|p: Vec3i|
                            #![trigger self.chunk_mesh_reload_queue@.contains(p)]
                            self.chunk_mesh_reload_queue@.contains(p) <==> (old_reload.contains(p)
                                || p == chunk_coord_of(position) || (is_face_neighbor(
                                chunk_coord_of(position),
                                p,
                            ) && has_chunk_at(old_map, p))) by {
                            if self.chunk_mesh_reload_queue@.contains(p) && !mid_reload.contains(p)
                                {
                                assert(nbr_in_prefix(self.chunk_map@, chunk_pos, p, 6));
                                let g = choose|g: int|
                                    0 <= g < 6 && p == face_neighbor(chunk_pos, g) && has_chunk_at(
                                        self.chunk_map@,
                                        p,
                                    );
                                assert(0 <= g < 6 && p == face_neighbor(chunk_pos, g));
                                assert(is_face_neighbor(chunk_pos, p));
                            }
                            if is_face_neighbor(chunk_pos, p) && has_chunk_at(old_map, p) {
                                let g = choose|g: int|
                                    0 <= g < 6 && p == face_neighbor(chunk_pos, g);
                                assert(0 <= g < 6 && p == face_neighbor(chunk_pos, g)
                                    && has_chunk_at(self.chunk_map@, p));
                                assert(nbr_in_prefix(self.chunk_map@, chunk_pos, p, 6));
                                assert(nbr_in_prefix(self.chunk_map@, chunk_pos, p, f as int));
                                assert(self.chunk_mesh_reload_queue@.contains(p));
                            }
                            if p == chunk_coord_of(position) {
                                assert(mid_reload.contains(p));
                                assert(self.chunk_mesh_reload_queue@.contains(p));
                            }
                            if old_reload.contains(p) {
                                assert(mid_reload.contains(p));
                                assert(self.chunk_mesh_reload_queue@.contains(p));
                            }
                        }
                    }
                }
            },
            None => {},
        }
    }
}

/// The six bordering chunks of `pos` that are loaded in `m`, as the mesher
/// sees them (front, back, left, right, bottom, top).
pub open spec fn spec_neighbors(m: Seq<Chunk>, pos: Vec3i) -> Seq<Option<Chunk>> {
    Seq::new(
        6,
        |f: int|
            if has_chunk_at(m, face_neighbor(pos, f)) {
                Some(m[spec_chunk_index(m, face_neighbor(pos, f))])
            } else {
                None
            },
    )
}

/// One more element of a prefix: membership grows by exactly that element.
proof fn lemma_take_push_contains(s: Seq<Vec3i>, j: int, p: Vec3i)
    requires
        0 <= j < s.len(),
    ensures
        s.take(j + 1).contains(p) <==> (s.take(j).contains(p) || p == s[j]),
{
    assert(s.take(j + 1) =~= s.take(j).push(s[j]));
    if s.take(j).contains(p) {
        let k = choose|k: int| 0 <= k < s.take(j).len() && #[trigger] s.take(j)[k] == p;
        assert(s.take(j + 1)[k] == p);
        assert(s.take(j + 1).contains(p));
    }
    if p == s[j] {
        assert(s.take(j + 1)[j] == p);
        assert(s.take(j + 1).contains(p));
    }
    if s.take(j + 1).contains(p) {
        let k = choose|k: int| 0 <= k < s.take(j + 1).len() && #[trigger] s.take(j + 1)[k] == p;
        if k < j {
            assert(s.take(j)[k] == p);
            assert(s.take(j).contains(p));
        }
    }
}

/// Meshing `pos` against the store `m` defers faces: the chunk is loaded,
/// non-empty, and some solid border face waits on an absent neighbor.
pub open spec fn job_deferred(m: Seq<Chunk>, pos: Vec3i) -> bool {
    &&& has_chunk_at(m, pos)
    &&& !m[spec_chunk_index(m, pos)].is_empty
    &&& mesh_deferred(m[spec_chunk_index(m, pos)], spec_neighbors(m, pos))
}

/// What a loaded chunk shows once its mesh result for store `m` is applied:
/// exactly the geometry of its emitted faces, or no mesh at all when it is
/// empty or no face is visible.
pub open spec fn mesh_outcome_ok(m: Seq<Chunk>, pos: Vec3i, mesh: Option<ChunkMeshData>) -> bool {
    let c = m[spec_chunk_index(m, pos)];
    if c.is_empty {
        mesh is None
    } else if mesh_faces(c, spec_neighbors(m, pos)).len() == 0 {
        mesh is None
    } else {
        mesh matches Some(md) && mesh_matches(c, spec_neighbors(m, pos), md)
    }
}

/// Two stores that agree on coordinates, blocks, emptiness and world
/// positions — only the attached meshes may differ — agree on chunk lookup
/// and on every meshing outcome.
proof fn lemma_store_stable(m1: Seq<Chunk>, m2: Seq<Chunk>, pos: Vec3i, md: Option<ChunkMeshData>)
    requires
        m1.len() == m2.len(),
        forall|k: int|
            0 <= k < m1.len() ==> (#[trigger] m1[k]).position == m2[k].position && m1[k].blocks@
                == m2[k].blocks@ && m1[k].is_empty == m2[k].is_empty && m1[k].world_position
                == m2[k].world_position,
        forall|i: int, j: int| 0 <= i < j < m1.len() ==> m1[i].position != m1[j].position,
    ensures
        has_chunk_at(m1, pos) == has_chunk_at(m2, pos),
        job_deferred(m1, pos) == job_deferred(m2, pos),
        has_chunk_at(m1, pos) ==> mesh_outcome_ok(m1, pos, md) == mesh_outcome_ok(m2, pos, md),
        has_chunk_at(m1, pos) ==> m1[spec_chunk_index(m1, pos)].is_empty == m2[spec_chunk_index(
            m2,
            pos,
        )].is_empty,
{
    assert forall|q: Vec3i| has_chunk_at(m1, q) == has_chunk_at(m2, q) by {
        if has_chunk_at(m1, q) {
            let i = choose|i: int| 0 <= i < m1.len() && m1[i].position == q;
            assert(m2[i].position == q);
            assert(has_chunk_at(m2, q));
        }
        if has_chunk_at(m2, q) {
            let i = choose|i: int| 0 <= i < m2.len() && m2[i].position == q;
            assert(m1[i].position == q);
            assert(has_chunk_at(m1, q));
        }
    }
    if has_chunk_at(m1, pos) {
        let i1 = spec_chunk_index(m1, pos);
        let i2 = spec_chunk_index(m2, pos);
        assert(0 <= i1 < m1.len() && m1[i1].position == pos);
        assert(0 <= i2 < m2.len() && m2[i2].position == pos);
        assert(m1[i2].position == pos);
        assert(i1 == i2);
        let c1 = m1[i1];
        let c2 = m2[i1];
        let nbrs1 = spec_neighbors(m1, pos);
        let nbrs2 = spec_neighbors(m2, pos);
        assert forall|f: int|
            0 <= f < 6 implies ((#[trigger] nbrs1[f]) is Some <==> nbrs2[f] is Some) && (
        nbrs1[f] matches Some(a) ==> (nbrs2[f] matches Some(b) && a.blocks@ == b.blocks@)) by {
            let np = face_neighbor(pos, f);
            assert(has_chunk_at(m1, np) == has_chunk_at(m2, np));
            if has_chunk_at(m1, np) {
                let j1 = spec_chunk_index(m1, np);
                let j2 = spec_chunk_index(m2, np);
                assert(0 <= j1 < m1.len() && m1[j1].position == np);
                assert(0 <= j2 < m2.len() && m2[j2].position == np);
                assert(m1[j2].position == np);
                assert(j1 == j2);
            }
        }
        crate::chunk::lemma_mesh_inputs_stable(c1, c2, nbrs1, nbrs2);
        match md {
            Some(inner) => {
                crate::chunk::lemma_mesh_matches_stable(c1, c2, nbrs1, nbrs2, inner);
            },
            None => {
                crate::chunk::lemma_faces_up_to_stable(c1, c2, nbrs1, nbrs2, 196608);
            },
        }
    }
}

impl ChunkManager {
    /// Pop up to `amount` coordinates from the front of the data-load queue:
    /// the next chunks to generate, nearest first.
    pub fn take_data_jobs(&mut self, amount: usize) -> (jobs: Vec<Vec3i>)
        requires
            old(self).wf(),
        ensures
            final(self).wf(),
            final(self).chunk_map == old(self).chunk_map,
            final(self).chunk_mesh_load_queue == old(self).chunk_mesh_load_queue,
            final(self).chunk_mesh_reload_queue == old(self).chunk_mesh_reload_queue,
            final(self).chunk_neighbor_loaded_queue == old(self).chunk_neighbor_loaded_queue,
            final(self).chunks_with_missing_neighbors == old(self).chunks_with_missing_neighbors,
            final(self).render_distance == old(self).render_distance,
            jobs@ == old(self).chunk_data_load_queue@.take(
                vstd::math::min(amount as int, old(self).chunk_data_load_queue@.len() as int),
            ),
            final(self).chunk_data_load_queue@ == old(self).chunk_data_load_queue@.skip(
                vstd::math::min(amount as int, old(self).chunk_data_load_queue@.len() as int),
            ),
            coords_ok(jobs@),
    {
        let mut jobs: Vec<Vec3i> = Vec::new();
        drain_front(&mut self.chunk_data_load_queue, amount, &mut jobs);
        proof {
            let k = vstd::math::min(amount as int, old(self).chunk_data_load_queue@.len() as int);
            assert(jobs@ =~= old(self).chunk_data_load_queue@.take(k));
            assert(coords_ok(jobs@)) by {
                assert forall|i: int| 0 <= i < jobs@.len() implies coord_ok(#[trigger] jobs@[i]) by {
                    assert(jobs@[i] == old(self).chunk_data_load_queue@[i]);
                }
            }
            assert forall|i: int, j: int|
                0 <= i < j < self.chunk_data_load_queue@.len() implies self.chunk_data_load_queue@[i]
                != self.chunk_data_load_queue@[j] by {
                assert(self.chunk_data_load_queue@[i] == old(self).chunk_data_load_queue@[i + k]);
                assert(self.chunk_data_load_queue@[j] == old(self).chunk_data_load_queue@[j + k]);
            }
            assert forall|i: int|
                0 <= i < self.chunk_data_load_queue@.len() implies coord_ok(
                #[trigger] self.chunk_data_load_queue@[i],
            ) by {
                assert(self.chunk_data_load_queue@[i] == old(self).chunk_data_load_queue@[i + k]);
            }
        }
        jobs
    }

    /// Collect up to `amount` mesh tasks by priority: rebuilds after edits
    /// or arrived neighbors come first, then first-time mesh loads, then
    /// retries unblocked by a newly loaded neighbor.
    pub fn take_mesh_jobs(&mut self, amount: usize) -> (jobs: Vec<Vec3i>)
        requires
            old(self).wf(),
        ensures
            final(self).wf(),
            final(self).chunk_map == old(self).chunk_map,
            final(self).chunk_data_load_queue == old(self).chunk_data_load_queue,
            final(self).chunks_with_missing_neighbors == old(self).chunks_with_missing_neighbors,
            final(self).render_distance == old(self).render_distance,
            ({
                let k1 = vstd::math::min(
                    amount as int,
                    old(self).chunk_mesh_reload_queue@.len() as int,
                );
                let k2 = vstd::math::min(
                    amount - k1,
                    old(self).chunk_mesh_load_queue@.len() as int,
                );
                let k3 = vstd::math::min(
                    amount - k1 - k2,
                    old(self).chunk_neighbor_loaded_queue@.len() as int,
                );
                &&& jobs@ == old(self).chunk_mesh_reload_queue@.take(k1) + old(
                    self,
                ).chunk_mesh_load_queue@.take(k2) + old(self).chunk_neighbor_loaded_queue@.take(k3)
                &&& final(self).chunk_mesh_reload_queue@ == old(
                    self,
                ).chunk_mesh_reload_queue@.skip(k1)
                &&& final(self).chunk_mesh_load_queue@ == old(self).chunk_mesh_load_queue@.skip(k2)
                &&& final(self).chunk_neighbor_loaded_queue@ == old(
                    self,
                ).chunk_neighbor_loaded_queue@.skip(k3)
            }),
            coords_ok(jobs@),
    {
        let mut jobs: Vec<Vec3i> = Vec::new();
        drain_front(&mut self.chunk_mesh_reload_queue, amount, &mut jobs);
        let remaining1 = amount - jobs.len();
        drain_front(&mut self.chunk_mesh_load_queue, remaining1, &mut jobs);
        let ghost k1 = vstd::math::min(amount as int, old(self).chunk_mesh_reload_queue@.len() as int);
        let ghost k2 = vstd::math::min(amount - k1, old(self).chunk_mesh_load_queue@.len() as int);
        let remaining2 = amount - jobs.len();
        drain_front(&mut self.chunk_neighbor_loaded_queue, remaining2, &mut jobs);
        proof {
            let k3 = vstd::math::min(
                amount - k1 - k2,
                old(self).chunk_neighbor_loaded_queue@.len() as int,
            );
            assert(jobs@ =~= old(self).chunk_mesh_reload_queue@.take(k1) + old(
                self,
            ).chunk_mesh_load_queue@.take(k2) + old(self).chunk_neighbor_loaded_queue@.take(k3));
            lemma_skip_keeps_sets(old(self).chunk_mesh_reload_queue@, k1);
            lemma_skip_keeps_sets(old(self).chunk_mesh_load_queue@, k2);
            lemma_skip_keeps_sets(old(self).chunk_neighbor_loaded_queue@, k3);
            assert(coords_ok(jobs@)) by {
                assert forall|i: int| 0 <= i < jobs@.len() implies coord_ok(#[trigger] jobs@[i]) by {
                    if i < k1 {
                        assert(jobs@[i] == old(self).chunk_mesh_reload_queue@[i]);
                    } else if i < k1 + k2 {
                        assert(jobs@[i] == old(self).chunk_mesh_load_queue@[i - k1]);
                    } else {
                        assert(jobs@[i] == old(self).chunk_neighbor_loaded_queue@[i - k1 - k2]);
                    }
                }
            }
        }
        jobs
    }

    /// Mesh the chunk at `pos` against its currently loaded neighbors. An
    /// unloaded or empty chunk yields no mesh and defers nothing; any other
    /// chunk yields exactly the mesh of its emitted faces, and reports
    /// whether a face had to wait for an absent neighbor.
    pub fn mesh_at(&self, pos: Vec3i) -> (r: (Option<ChunkMeshData>, bool))
        requires
            self.wf(),
        ensures
            !has_chunk_at(self.chunk_map@, pos) ==> r.0 is None && r.1 == false,
            has_chunk_at(self.chunk_map@, pos) ==> ({
                let c = self.chunk_map@[spec_chunk_index(self.chunk_map@, pos)];
                &&& (c.is_empty ==> r.0 is None && r.1 == false)
                &&& (!c.is_empty ==> r.1 == mesh_deferred(
                    c,
                    spec_neighbors(self.chunk_map@, pos),
                ))
                &&& (!c.is_empty ==> (r.0 matches Some(m) && mesh_matches(
                    c,
                    spec_neighbors(self.chunk_map@, pos),
                    m,
                )))
            }),
    {
        match self.find_chunk(pos) {
            Some(i) => {
                proof {
                    assert(has_chunk_at(self.chunk_map@, pos));
                    let si = spec_chunk_index(self.chunk_map@, pos);
                    assert(0 <= si < self.chunk_map@.len() && self.chunk_map@[si].position == pos);
                    assert(si == i);
                    assert(self.chunk_map@[i as int].wf());
                }
                let (d0x, d0y, d0z) = face_delta(0);
                let (d1x, d1y, d1z) = face_delta(1);
                let (d2x, d2y, d2z) = face_delta(2);
                let (d3x, d3y, d3z) = face_delta(3);
                let (d4x, d4y, d4z) = face_delta(4);
                let (d5x, d5y, d5z) = face_delta(5);
                let neighbors: [Option<&Chunk>; 6] = [
                    self.get_chunk(pos.plus(Vec3i::new(d0x, d0y, d0z))),
                    self.get_chunk(pos.plus(Vec3i::new(d1x, d1y, d1z))),
                    self.get_chunk(pos.plus(Vec3i::new(d2x, d2y, d2z))),
                    self.get_chunk(pos.plus(Vec3i::new(d3x, d3y, d3z))),
                    self.get_chunk(pos.plus(Vec3i::new(d4x, d4y, d4z))),
                    self.get_chunk(pos.plus(Vec3i::new(d5x, d5y, d5z))),
                ];
                proof {
                    assert forall|f: int|
                        0 <= f < 6 implies nbrs_view(neighbors)[f] == spec_neighbors(
                        self.chunk_map@,
                        pos,
                    )[f] by {
                        assert(face_neighbor(pos, f) == Vec3i {
                            x: (pos.x + face_dx(f)) as i32,
                            y: (pos.y + face_dy(f)) as i32,
                            z: (pos.z + face_dz(f)) as i32,
                        });
                    }
                    assert(nbrs_view(neighbors) =~= spec_neighbors(
                        self.chunk_map@,
                        pos,
                    ));
                    assert forall|f: int|
                        0 <= f < 6 implies ((#[trigger] nbrs_view(neighbors)[f]) matches Some(n)
                        ==> n.wf()) by {
                        if has_chunk_at(self.chunk_map@, face_neighbor(pos, f)) {
                            assert(self.chunk_map@[spec_chunk_index(
                                self.chunk_map@,
                                face_neighbor(pos, f),
                            )].wf());
                        }
                    }
                    assert(nbrs_wf(nbrs_view(neighbors)));
                }
                let c: &Chunk = &self.chunk_map[i];
                c.generate_mesh(neighbors)
            },
            None => (None, false),
        }
    }

    /// Apply one mesh result for `pos`: update the missing-neighbor set,
    /// attach or clear the chunk's mesh, and re-queue the coordinate as
    /// fresh data-load work if its chunk was evicted while meshing —
    /// requested work is never silently dropped.
    pub fn apply_mesh_result(
        &mut self,
        pos: Vec3i,
        mesh: Option<ChunkMeshData>,
        missing_neighbors: bool,
    )
        requires
            old(self).wf(),
            coord_ok(pos),
        ensures
            final(self).wf(),
            final(self).chunk_mesh_load_queue == old(self).chunk_mesh_load_queue,
            final(self).chunk_mesh_reload_queue == old(self).chunk_mesh_reload_queue,
            final(self).chunk_neighbor_loaded_queue == old(self).chunk_neighbor_loaded_queue,
            final(self).render_distance == old(self).render_distance,
            forall|p: Vec3i|
                final(self).chunks_with_missing_neighbors@.contains(p) <==> (if missing_neighbors {
                    old(self).chunks_with_missing_neighbors@.contains(p) || p == pos
                } else {
                    old(self).chunks_with_missing_neighbors@.contains(p) && p != pos
                }),
            has_chunk_at(old(self).chunk_map@, pos) ==> ({
                let ci = spec_chunk_index(old(self).chunk_map@, pos);
                let c = old(self).chunk_map@[ci];
                &&& final(self).chunk_data_load_queue == old(self).chunk_data_load_queue
                &&& final(self).chunk_map@.len() == old(self).chunk_map@.len()
                &&& (forall|k: int|
                    0 <= k < old(self).chunk_map@.len() && k != ci ==> final(self).chunk_map@[k]
                        == old(self).chunk_map@[k])
                &&& final(self).chunk_map@[ci].blocks == c.blocks
                &&& final(self).chunk_map@[ci].position == c.position
                &&& final(self).chunk_map@[ci].world_position == c.world_position
                &&& final(self).chunk_map@[ci].is_empty == c.is_empty
                &&& final(self).chunk_map@[ci].mesh == (match mesh {
                    Some(m) => if m.vertices@.len() == 0 || m.indices@.len() == 0 {
                        None
                    } else {
                        Some(m)
                    },
                    None => if c.is_empty {
                        None
                    } else {
                        c.mesh
                    },
                })
            }),
            !has_chunk_at(old(self).chunk_map@, pos) ==> ({
                &&& final(self).chunk_map@ == old(self).chunk_map@
                &&& final(self).chunk_data_load_queue@ == (if old(
                    self,
                ).chunk_data_load_queue@.contains(pos) {
                    old(self).chunk_data_load_queue@
                } else {
                    old(self).chunk_data_load_queue@.push(pos)
                })
            }),
    {
        if missing_neighbors {
            insert_coord(&mut self.chunks_with_missing_neighbors, pos);
        } else {
            remove_coord(&mut self.chunks_with_missing_neighbors, pos);
        }
        match self.find_chunk(pos) {
            Some(ci) => {
                proof {
                    assert(has_chunk_at(self.chunk_map@, pos));
                    let si = spec_chunk_index(self.chunk_map@, pos);
                    assert(0 <= si < self.chunk_map@.len() && self.chunk_map@[si].position == pos);
                    assert(si == ci);
                    assert(self.chunk_map@[ci as int].wf());
                }
                match mesh {
                    Some(m) => {
                        self.chunk_map[ci].load_mesh(m);
                    },
                    None => {
                        let empty_here = self.chunk_map[ci].is_empty;
                        if empty_here {
                            self.chunk_map[ci].clear_mesh();
                        }
                    },
                }
                proof {
                    assert forall|i: int, j: int|
                        0 <= i < j < self.chunk_map@.len() implies self.chunk_map@[i].position
                        != self.chunk_map@[j].position by {
                        assert(old(self).chunk_map@[i].position != old(self).chunk_map@[j].position);
                    }
                }
            },
            None => {
                insert_coord(&mut self.chunk_data_load_queue, pos);
            },
        }
    }
}

impl ChunkManager {
    /// Fold one freshly generated chunk into the store: loaded neighbors
    /// whose last mesh deferred faces for want of a neighbor are queued as
    /// neighbor-unblocked (unless already pending in a mesh queue), the new
    /// chunk itself is queued for a first mesh if it is non-empty and not
    /// pending anywhere, and the chunk enters the store, replacing any chunk
    /// already at its coordinate.
    pub fn insert_generated_chunk(&mut self, chunk: Chunk)
        requires
            old(self).wf(),
            chunk.wf(),
        ensures
            final(self).wf(),
            final(self).chunk_data_load_queue == old(self).chunk_data_load_queue,
            final(self).chunk_mesh_reload_queue == old(self).chunk_mesh_reload_queue,
            final(self).chunks_with_missing_neighbors == old(self).chunks_with_missing_neighbors,
            final(self).render_distance == old(self).render_distance,
            has_chunk_at(old(self).chunk_map@, chunk.position) ==> final(self).chunk_map@ == old(
                self,
            ).chunk_map@.update(spec_chunk_index(old(self).chunk_map@, chunk.position), chunk),
            !has_chunk_at(old(self).chunk_map@, chunk.position) ==> final(self).chunk_map@ == old(
                self,
            ).chunk_map@.push(chunk),
            forall|p: Vec3i|
                #![trigger final(self).chunk_neighbor_loaded_queue@.contains(p)]
                final(self).chunk_neighbor_loaded_queue@.contains(p) <==> (old(
                    self,
                ).chunk_neighbor_loaded_queue@.contains(p) || (is_face_neighbor(chunk.position, p)
                    && has_chunk_at(old(self).chunk_map@, p) && old(
                    self,
                ).chunks_with_missing_neighbors@.contains(p) && !old(
                    self,
                ).chunk_mesh_load_queue@.contains(p) && !old(
                    self,
                ).chunk_mesh_reload_queue@.contains(p))),
            final(self).chunk_mesh_load_queue@ == (if !chunk.is_empty && !old(
                self,
            ).chunk_mesh_load_queue@.contains(chunk.position) && !old(
                self,
            ).chunk_mesh_reload_queue@.contains(chunk.position) && !old(
                self,
            ).chunk_neighbor_loaded_queue@.contains(chunk.position) {
                old(self).chunk_mesh_load_queue@.push(chunk.position)
            } else {
                old(self).chunk_mesh_load_queue@
            }),
            ({
                let folded = spec_insert_chunk(
                    old(self).chunk_map@,
                    old(self).chunk_mesh_load_queue@,
                    old(self).chunk_neighbor_loaded_queue@,
                    old(self).chunks_with_missing_neighbors@,
                    old(self).chunk_mesh_reload_queue@,
                    chunk,
                );
                &&& final(self).chunk_map@ == folded.0
                &&& final(self).chunk_mesh_load_queue@ == folded.1
                &&& final(self).chunk_neighbor_loaded_queue@ == folded.2
            }),
    {
        let cpos = chunk.position;
        let ghost start_nbr = self.chunk_neighbor_loaded_queue@;
        let mut f: usize = 0;
        while f < 6
            invariant
                f <= 6,
                self.wf(),
                chunk.wf(),
                cpos == chunk.position,
                self.chunk_map == old(self).chunk_map,
                self.chunk_data_load_queue == old(self).chunk_data_load_queue,
                self.chunk_mesh_load_queue == old(self).chunk_mesh_load_queue,
                self.chunk_mesh_reload_queue == old(self).chunk_mesh_reload_queue,
                self.chunks_with_missing_neighbors == old(self).chunks_with_missing_neighbors,
                self.render_distance == old(self).render_distance,
                start_nbr == old(self).chunk_neighbor_loaded_queue@,
                self.chunk_neighbor_loaded_queue@ == unblock_prefix(
                    old(self).chunk_map@,
                    old(self).chunks_with_missing_neighbors@,
                    old(self).chunk_mesh_reload_queue@,
                    old(self).chunk_mesh_load_queue@,
                    start_nbr,
                    cpos,
                    f as int,
                ),
            decreases 6 - f,
        {
            let (dx, dy, dz) = face_delta(f);
            let neighbor_pos = cpos.plus(Vec3i::new(dx, dy, dz));
            proof {
                assert(neighbor_pos == face_neighbor(cpos, f as int));
            }
            let ghost before = self.chunk_neighbor_loaded_queue@;
            let loaded = match self.find_chunk(neighbor_pos) {
                Some(ni) => {
                    proof {
                        assert(self.chunk_map@[ni as int].wf());
                    }
                    true
                },
                None => false,
            };
            let wants_unblock = loaded && coords_contains(
                &self.chunks_with_missing_neighbors,
                neighbor_pos,
            ) && !coords_contains(&self.chunk_mesh_load_queue, neighbor_pos) && !coords_contains(
                &self.chunk_mesh_reload_queue,
                neighbor_pos,
            );
            if wants_unblock {
                proof {
                    assert(coord_ok(neighbor_pos));
                }
                insert_coord(&mut self.chunk_neighbor_loaded_queue, neighbor_pos);
            }
            proof {
                let fi = f as int;
                assert(self.chunk_neighbor_loaded_queue@ == unblock_step(
                    old(self).chunk_map@,
                    old(self).chunks_with_missing_neighbors@,
                    old(self).chunk_mesh_reload_queue@,
                    old(self).chunk_mesh_load_queue@,
                    before,
                    cpos,
                    fi,
                ));
                assert(unblock_prefix(
                    old(self).chunk_map@,
                    old(self).chunks_with_missing_neighbors@,
                    old(self).chunk_mesh_reload_queue@,
                    old(self).chunk_mesh_load_queue@,
                    start_nbr,
                    cpos,
                    fi + 1,
                ) == self.chunk_neighbor_loaded_queue@);
            }
            f += 1;
        }
        proof {
            lemma_unblock_prefix_props(
                old(self).chunk_map@,
                old(self).chunks_with_missing_neighbors@,
                old(self).chunk_mesh_reload_queue@,
                old(self).chunk_mesh_load_queue@,
                start_nbr,
                cpos,
                6,
            );
            assert forall|q: Vec3i| has_chunk_at(old(self).chunk_map@, q) implies coord_ok(q) by {
                let i = choose|i: int|
                    0 <= i < old(self).chunk_map@.len() && old(self).chunk_map@[i].position == q;
                assert(old(self).chunk_map@[i].wf());
            }
            assert forall|p: Vec3i|
                #![trigger self.chunk_neighbor_loaded_queue@.contains(p)]
                self.chunk_neighbor_loaded_queue@.contains(p) <==> (start_nbr.contains(p) || (
                is_face_neighbor(cpos, p) && has_chunk_at(old(self).chunk_map@, p) && old(
                    self,
                ).chunks_with_missing_neighbors@.contains(p) && !old(
                    self,
                ).chunk_mesh_load_queue@.contains(p) && !old(
                    self,
                ).chunk_mesh_reload_queue@.contains(p))) by {
                if self.chunk_neighbor_loaded_queue@.contains(p) && !start_nbr.contains(p) {
                    let g = choose|g: int| 0 <= g < 6 && p == face_neighbor(cpos, g);
                    assert(is_face_neighbor(cpos, p));
                }
                if is_face_neighbor(cpos, p) {
                    let g = choose|g: int| 0 <= g < 6 && p == face_neighbor(cpos, g);
                    assert(exists|g2: int| 0 <= g2 < 6 && p == face_neighbor(cpos, g2));
                }
            }
        }

        let pending = coords_contains(&self.chunk_mesh_load_queue, cpos) || coords_contains(
            &self.chunk_mesh_reload_queue,
            cpos,
        ) || coords_contains(&self.chunk_neighbor_loaded_queue, cpos);
        if !chunk.is_empty && !pending {
            proof {
                assert(coord_ok(cpos));
            }
            self.chunk_mesh_load_queue.push(cpos);
            proof {
                assert forall|i: int, j: int|
                    0 <= i < j < self.chunk_mesh_load_queue@.len() implies
                    self.chunk_mesh_load_queue@[i] != self.chunk_mesh_load_queue@[j] by {
                    if j == self.chunk_mesh_load_queue@.len() - 1 {
                        assert(old(self).chunk_mesh_load_queue@.contains(
                            self.chunk_mesh_load_queue@[i],
                        ));
                    }
                }
                assert forall|i: int|
                    0 <= i < self.chunk_mesh_load_queue@.len() implies coord_ok(
                    #[trigger] self.chunk_mesh_load_queue@[i],
                ) by {}
            }
        } else {
            proof {
                if !chunk.is_empty {
                    assert(self.chunk_neighbor_loaded_queue@.contains(cpos) ==> (old(
                        self,
                    ).chunk_neighbor_loaded_queue@.contains(cpos) || is_face_neighbor(cpos, cpos)));
                    if is_face_neighbor(cpos, cpos) {
                        let g = choose|g: int| 0 <= g < 6 && cpos == face_neighbor(cpos, g);
                        assert(face_dx(g) != 0 || face_dy(g) != 0 || face_dz(g) != 0);
                        assert(false);
                    }
                }
            }
        }

        match self.find_chunk(cpos) {
            Some(i) => {
                proof {
                    assert(has_chunk_at(self.chunk_map@, cpos));
                    let si = spec_chunk_index(self.chunk_map@, cpos);
                    assert(0 <= si < self.chunk_map@.len() && self.chunk_map@[si].position == cpos);
                    assert(si == i);
                }
                self.chunk_map[i] = chunk;
                proof {
                    assert forall|a: int, b: int|
                        0 <= a < b < self.chunk_map@.len() implies self.chunk_map@[a].position
                        != self.chunk_map@[b].position by {
                        assert(old(self).chunk_map@[a].position != old(self).chunk_map@[b].position);
                    }
                }
            },
            None => {
                self.chunk_map.push(chunk);
                proof {
                    assert forall|a: int, b: int|
                        0 <= a < b < self.chunk_map@.len() implies self.chunk_map@[a].position
                        != self.chunk_map@[b].position by {
                        if b == self.chunk_map@.len() - 1 {
                            assert(old(self).chunk_map@[a].position != cpos) by {
                                if old(self).chunk_map@[a].position == cpos {
                                    assert(has_chunk_at(old(self).chunk_map@, cpos));
                                }
                            }
                        }
                    }
                }
            },
        }
        proof {
            let folded = spec_insert_chunk(
                old(self).chunk_map@,
                old(self).chunk_mesh_load_queue@,
                old(self).chunk_neighbor_loaded_queue@,
                old(self).chunks_with_missing_neighbors@,
                old(self).chunk_mesh_reload_queue@,
                chunk,
            );
            assert(self.chunk_neighbor_loaded_queue@ == folded.2);
            assert(self.chunk_mesh_load_queue@ == folded.1);
            assert(self.chunk_map@ == folded.0);
        }
    }

    /// Fold a batch of freshly generated chunks into the store: the result
    /// is exactly the in-order fold of `insert_generated_chunk` over the
    /// batch (see `spec_fold_inserts`), so a parallel batch lands as if each
    /// chunk were inserted alone. The data queue, the reload set and the
    /// missing-neighbor set are untouched; the mesh queues only gain
    /// coordinates of generated non-empty chunks or of chunks that had been
    /// waiting for a missing neighbor.
    pub fn build_chunk_data_in_queue(&mut self, generated: Vec<Chunk>)
        requires
            old(self).wf(),
            forall|k: int| 0 <= k < generated@.len() ==> (#[trigger] generated@[k]).wf(),
        ensures
            final(self).wf(),
            final(self).chunk_data_load_queue == old(self).chunk_data_load_queue,
            final(self).chunk_mesh_reload_queue == old(self).chunk_mesh_reload_queue,
            final(self).chunks_with_missing_neighbors == old(self).chunks_with_missing_neighbors,
            final(self).render_distance == old(self).render_distance,
            forall|p: Vec3i|
                #![trigger has_chunk_at(final(self).chunk_map@, p)]
                has_chunk_at(final(self).chunk_map@, p) <==> (has_chunk_at(old(self).chunk_map@, p)
                    || has_chunk_at(generated@, p)),
            forall|p: Vec3i|
                old(self).chunk_mesh_load_queue@.contains(p) ==> final(self).chunk_mesh_load_queue@.contains(p),
            forall|p: Vec3i|
                #![trigger final(self).chunk_mesh_load_queue@.contains(p)]
                final(self).chunk_mesh_load_queue@.contains(p) ==> (old(
                    self,
                ).chunk_mesh_load_queue@.contains(p) || (exists|k: int|
                    0 <= k < generated@.len() && (#[trigger] generated@[k]).position == p
                        && !generated@[k].is_empty)),
            forall|p: Vec3i|
                old(self).chunk_neighbor_loaded_queue@.contains(p) ==> final(self).chunk_neighbor_loaded_queue@.contains(p),
            forall|p: Vec3i|
                #![trigger final(self).chunk_neighbor_loaded_queue@.contains(p)]
                final(self).chunk_neighbor_loaded_queue@.contains(p) ==> (old(
                    self,
                ).chunk_neighbor_loaded_queue@.contains(p) || old(
                    self,
                ).chunks_with_missing_neighbors@.contains(p)),
            ({
                let folded = spec_fold_inserts(
                    old(self).chunk_map@,
                    old(self).chunk_mesh_load_queue@,
                    old(self).chunk_neighbor_loaded_queue@,
                    old(self).chunks_with_missing_neighbors@,
                    old(self).chunk_mesh_reload_queue@,
                    generated@,
                );
                &&& final(self).chunk_map@ == folded.0
                &&& final(self).chunk_mesh_load_queue@ == folded.1
                &&& final(self).chunk_neighbor_loaded_queue@ == folded.2
            }),
    {
        let ghost gen0 = generated@;
        let mut remaining = generated;
        let ghost mut done: int = 0;
        while remaining.len() > 0
            invariant
                self.wf(),
                0 <= done <= gen0.len(),
                remaining@ == gen0.skip(done),
                forall|k: int| 0 <= k < gen0.len() ==> (#[trigger] gen0[k]).wf(),
                self.chunk_data_load_queue == old(self).chunk_data_load_queue,
                self.chunk_mesh_reload_queue == old(self).chunk_mesh_reload_queue,
                self.chunks_with_missing_neighbors == old(self).chunks_with_missing_neighbors,
                self.render_distance == old(self).render_distance,
                forall|p: Vec3i|
                    #![trigger has_chunk_at(self.chunk_map@, p)]
                    has_chunk_at(self.chunk_map@, p) <==> (has_chunk_at(old(self).chunk_map@, p)
                        || has_chunk_at(gen0.take(done), p)),
                forall|p: Vec3i|
                    old(self).chunk_mesh_load_queue@.contains(p) ==> self.chunk_mesh_load_queue@.contains(
                        p,
                    ),
                forall|p: Vec3i|
                    #![trigger self.chunk_mesh_load_queue@.contains(p)]
                    self.chunk_mesh_load_queue@.contains(p) ==> (old(
                        self,
                    ).chunk_mesh_load_queue@.contains(p) || (exists|k: int|
                        0 <= k < done && (#[trigger] gen0[k]).position == p && !gen0[k].is_empty)),
                forall|p: Vec3i|
                    old(self).chunk_neighbor_loaded_queue@.contains(p)
                        ==> self.chunk_neighbor_loaded_queue@.contains(p),
                forall|p: Vec3i|
                    #![trigger self.chunk_neighbor_loaded_queue@.contains(p)]
                    self.chunk_neighbor_loaded_queue@.contains(p) ==> (old(
                        self,
                    ).chunk_neighbor_loaded_queue@.contains(p) || old(
                        self,
                    ).chunks_with_missing_neighbors@.contains(p)),
                spec_fold_inserts(
                    self.chunk_map@,
                    self.chunk_mesh_load_queue@,
                    self.chunk_neighbor_loaded_queue@,
                    old(self).chunks_with_missing_neighbors@,
                    old(self).chunk_mesh_reload_queue@,
                    gen0.skip(done),
                ) == spec_fold_inserts(
                    old(self).chunk_map@,
                    old(self).chunk_mesh_load_queue@,
                    old(self).chunk_neighbor_loaded_queue@,
                    old(self).chunks_with_missing_neighbors@,
                    old(self).chunk_mesh_reload_queue@,
                    gen0,
                ),
            decreases remaining@.len(),
        {
            let ghost pre = *self;
            let c = remaining.remove(0);
            proof {
                assert(c == gen0[done]);
                assert(c.wf());
            }
            self.insert_generated_chunk(c);
            proof {
                assert(remaining@ =~= gen0.skip(done + 1));
                assert(gen0.skip(done).len() > 0);
                assert(gen0.skip(done)[0] == c);
                assert(gen0.skip(done).skip(1) =~= gen0.skip(done + 1));
                assert((self.chunk_map@, self.chunk_mesh_load_queue@,
                self.chunk_neighbor_loaded_queue@) == spec_insert_chunk(
                    pre.chunk_map@,
                    pre.chunk_mesh_load_queue@,
                    pre.chunk_neighbor_loaded_queue@,
                    old(self).chunks_with_missing_neighbors@,
                    old(self).chunk_mesh_reload_queue@,
                    c,
                ));
                assert(spec_fold_inserts(
                    pre.chunk_map@,
                    pre.chunk_mesh_load_queue@,
                    pre.chunk_neighbor_loaded_queue@,
                    old(self).chunks_with_missing_neighbors@,
                    old(self).chunk_mesh_reload_queue@,
                    gen0.skip(done),
                ) == spec_fold_inserts(
                    self.chunk_map@,
                    self.chunk_mesh_load_queue@,
                    self.chunk_neighbor_loaded_queue@,
                    old(self).chunks_with_missing_neighbors@,
                    old(self).chunk_mesh_reload_queue@,
                    gen0.skip(done + 1),
                ));
                assert forall|p: Vec3i|
                    pre.chunk_mesh_load_queue@.contains(p) implies #[trigger] self.chunk_mesh_load_queue@.contains(
                    p,
                ) by {
                    let k = choose|k: int|
                        0 <= k < pre.chunk_mesh_load_queue@.len()
                            && pre.chunk_mesh_load_queue@[k] == p;
                    assert(self.chunk_mesh_load_queue@[k] == p);
                }
                assert forall|p: Vec3i|
                    #![trigger has_chunk_at(self.chunk_map@, p)]
                    has_chunk_at(self.chunk_map@, p) <==> (has_chunk_at(old(self).chunk_map@, p)
                        || has_chunk_at(gen0.take(done + 1), p)) by {
                    lemma_insert_membership(pre.chunk_map@, self.chunk_map@, c, p);
                    if has_chunk_at(gen0.take(done + 1), p) {
                        let k = choose|k: int|
                            0 <= k < gen0.take(done + 1).len() && (#[trigger] gen0.take(
                                done + 1,
                            )[k]).position == p;
                        if k < done {
                            assert(gen0.take(done)[k].position == p);
                            assert(has_chunk_at(gen0.take(done), p));
                        } else {
                            assert(gen0[done].position == p);
                        }
                    }
                    if has_chunk_at(gen0.take(done), p) {
                        let k = choose|k: int|
                            0 <= k < gen0.take(done).len() && (#[trigger] gen0.take(
                                done,
                            )[k]).position == p;
                        assert(gen0.take(done + 1)[k].position == p);
                        assert(has_chunk_at(gen0.take(done + 1), p));
                    }
                    if p == c.position {
                        assert(gen0.take(done + 1)[done].position == p);
                        assert(has_chunk_at(gen0.take(done + 1), p));
                    }
                }
                assert forall|p: Vec3i|
                    #![trigger self.chunk_mesh_load_queue@.contains(p)]
                    self.chunk_mesh_load_queue@.contains(p) implies (old(
                        self,
                    ).chunk_mesh_load_queue@.contains(p) || (exists|k: int|
                        0 <= k < done + 1 && (#[trigger] gen0[k]).position == p
                            && !gen0[k].is_empty)) by {
                    if !pre.chunk_mesh_load_queue@.contains(p) {
                        assert(p == c.position && !c.is_empty);
                        assert(0 <= done < done + 1 && gen0[done].position == p
                            && !gen0[done].is_empty);
                    } else {
                        if !old(self).chunk_mesh_load_queue@.contains(p) {
                            let k = choose|k: int|
                                0 <= k < done && (#[trigger] gen0[k]).position == p
                                    && !gen0[k].is_empty;
                            assert(0 <= k < done + 1 && gen0[k].position == p
                                && !gen0[k].is_empty);
                        }
                    }
                }
                done = done + 1;
            }
        }
        proof {
            assert(gen0.take(done) =~= gen0);
            assert(gen0.skip(done).len() == 0);
        }
    }

    /// Recompute the streaming window around `position`: drop every loaded
    /// chunk and every queued coordinate that left the cubic window of
    /// radius `render_distance`, queue every window coordinate that is
    /// neither loaded nor already queued for data, and order the data queue
    /// by squared distance to `position`, nearest first. Afterwards the
    /// window is fully covered: every window coordinate is loaded or queued
    /// for data, and nothing outside the window stays loaded or queued.
    #[verifier::rlimit(100)]
    pub fn update_around(&mut self, position: Vec3i)
        requires
            old(self).wf(),
            -1000000 + old(self).render_distance <= position.x,
            position.x <= 1000000 - old(self).render_distance,
            -1000000 + old(self).render_distance <= position.y,
            position.y <= 1000000 - old(self).render_distance,
            -1000000 + old(self).render_distance <= position.z,
            position.z <= 1000000 - old(self).render_distance,
        ensures
            final(self).wf(),
            final(self).render_distance == old(self).render_distance,
            final(self).chunk_map@ == window_filter_chunks(
                old(self).chunk_map@,
                position,
                old(self).render_distance as int,
            ),
            final(self).chunk_mesh_load_queue@ == window_filter(
                old(self).chunk_mesh_load_queue@,
                position,
                old(self).render_distance as int,
            ),
            final(self).chunk_mesh_reload_queue@ == window_filter(
                old(self).chunk_mesh_reload_queue@,
                position,
                old(self).render_distance as int,
            ),
            final(self).chunk_neighbor_loaded_queue@ == window_filter(
                old(self).chunk_neighbor_loaded_queue@,
                position,
                old(self).render_distance as int,
            ),
            final(self).chunks_with_missing_neighbors@ == window_filter(
                old(self).chunks_with_missing_neighbors@,
                position,
                old(self).render_distance as int,
            ),
            forall|p: Vec3i|
                #![trigger final(self).chunk_data_load_queue@.contains(p)]
                final(self).chunk_data_load_queue@.contains(p) <==> (in_window(
                    position,
                    old(self).render_distance as int,
                    p,
                ) && (old(self).chunk_data_load_queue@.contains(p) || !has_chunk_at(
                    old(self).chunk_map@,
                    p,
                ))),
            forall|i: int, j: int|
                0 <= i <= j < final(self).chunk_data_load_queue@.len() ==> final(self).chunk_data_load_queue@[i].spec_dist2(position) <= final(self).chunk_data_load_queue@[j].spec_dist2(position),
            forall|p: Vec3i|
                in_window(position, old(self).render_distance as int, p) ==> (has_chunk_at(
                    final(self).chunk_map@,
                    p,
                ) || final(self).chunk_data_load_queue@.contains(p)),
            forall|p: Vec3i|
                has_chunk_at(final(self).chunk_map@, p) ==> in_window(
                    position,
                    old(self).render_distance as int,
                    p,
                ),
    {
        let rd = self.render_distance;
        let ghost rdi = rd as int;
        prune_coords(&mut self.chunk_data_load_queue, position, rd);
        prune_coords(&mut self.chunk_mesh_load_queue, position, rd);
        prune_coords(&mut self.chunk_mesh_reload_queue, position, rd);
        prune_coords(&mut self.chunk_neighbor_loaded_queue, position, rd);
        prune_coords(&mut self.chunks_with_missing_neighbors, position, rd);
        proof {
            lemma_window_filter_props(old(self).chunk_data_load_queue@, position, rdi);
            lemma_window_filter_props(old(self).chunk_mesh_load_queue@, position, rdi);
            lemma_window_filter_props(old(self).chunk_mesh_reload_queue@, position, rdi);
            lemma_window_filter_props(old(self).chunk_neighbor_loaded_queue@, position, rdi);
            lemma_window_filter_props(old(self).chunks_with_missing_neighbors@, position, rdi);
        }

        let ghost map0 = self.chunk_map@;
        let ghost q_data = self.chunk_data_load_queue@;
        let ghost q_mesh = self.chunk_mesh_load_queue@;
        let ghost q_reload = self.chunk_mesh_reload_queue@;
        let ghost q_nbr = self.chunk_neighbor_loaded_queue@;
        let ghost q_missing = self.chunks_with_missing_neighbors@;
        let mut kept: Vec<Chunk> = Vec::new();
        let ghost mut done: int = 0;
        while self.chunk_map.len() > 0
            invariant
                0 <= done <= map0.len(),
                self.chunk_map@ == map0.skip(done),
                kept@ == window_filter_chunks(map0.take(done), position, rdi),
                0 <= rd <= 1000,
                rdi == rd as int,
                -1000000 <= position.x <= 1000000,
                -1000000 <= position.y <= 1000000,
                -1000000 <= position.z <= 1000000,
                self.chunk_data_load_queue@ == q_data,
                self.chunk_mesh_load_queue@ == q_mesh,
                self.chunk_mesh_reload_queue@ == q_reload,
                self.chunk_neighbor_loaded_queue@ == q_nbr,
                self.chunks_with_missing_neighbors@ == q_missing,
                self.render_distance == rd,
            decreases self.chunk_map@.len(),
        {
            let c = self.chunk_map.remove(0);
            let cp = c.position;
            proof {
                assert(c == map0[done]);
                assert(map0.take(done + 1) =~= map0.take(done).push(c));
                lemma_window_filter_chunks_push(map0.take(done), position, rdi, c);
            }
            if in_window_exec(position, rd, cp) {
                kept.push(c);
            }
            proof {
                done = done + 1;
                assert(self.chunk_map@ =~= map0.skip(done));
            }
        }
        proof {
            assert(map0.take(done) =~= map0);
        }
        self.chunk_map = kept;
        proof {
            lemma_window_filter_chunks_props(map0, position, rdi);
            assert forall|k: int| 0 <= k < self.chunk_map@.len() implies (
            #[trigger] self.chunk_map@[k]).wf() by {
                assert(map0.contains(self.chunk_map@[k]));
                let j = choose|j: int| 0 <= j < map0.len() && map0[j] == self.chunk_map@[k];
                assert(map0[j].wf());
            }
            assert(self.wf());
        }

        let ghost map1 = self.chunk_map@;
        let ghost pruned_data = self.chunk_data_load_queue@;
        let n: usize = (2 * rd + 1) as usize;
        let mut x: usize = 0;
        while x < n
            invariant
                x <= n,
                n == 2 * rdi + 1,
                0 <= rd <= 1000,
                rdi == rd as int,
                self.render_distance == rd,
                -1000000 + rdi <= position.x <= 1000000 - rdi,
                -1000000 + rdi <= position.y <= 1000000 - rdi,
                -1000000 + rdi <= position.z <= 1000000 - rdi,
                self.wf(),
                self.chunk_map@ == map1,
                self.chunk_mesh_load_queue@ == q_mesh,
                self.chunk_mesh_reload_queue@ == q_reload,
                self.chunk_neighbor_loaded_queue@ == q_nbr,
                self.chunks_with_missing_neighbors@ == q_missing,
                forall|p: Vec3i|
                    #![trigger self.chunk_data_load_queue@.contains(p)]
                    self.chunk_data_load_queue@.contains(p) <==> (pruned_data.contains(p) || (
                    window_prefix(position, rdi, p, x as int, 0, 0) && !has_chunk_at(map1, p))),
            decreases n - x,
        {
            let mut y: usize = 0;
            while y < n
                invariant
                    x < n,
                    y <= n,
                    n == 2 * rdi + 1,
                    0 <= rd <= 1000,
                    rdi == rd as int,
                    self.render_distance == rd,
                    -1000000 + rdi <= position.x <= 1000000 - rdi,
                    -1000000 + rdi <= position.y <= 1000000 - rdi,
                    -1000000 + rdi <= position.z <= 1000000 - rdi,
                    self.wf(),
                    self.chunk_map@ == map1,
                    self.chunk_mesh_load_queue@ == q_mesh,
                    self.chunk_mesh_reload_queue@ == q_reload,
                    self.chunk_neighbor_loaded_queue@ == q_nbr,
                    self.chunks_with_missing_neighbors@ == q_missing,
                    forall|p: Vec3i|
                        #![trigger self.chunk_data_load_queue@.contains(p)]
                        self.chunk_data_load_queue@.contains(p) <==> (pruned_data.contains(p) || (
                        window_prefix(position, rdi, p, x as int, y as int, 0) && !has_chunk_at(
                            map1,
                            p,
                        ))),
                decreases n - y,
            {
                let mut z: usize = 0;
                while z < n
                    invariant
                        x < n,
                        y < n,
                        z <= n,
                        n == 2 * rdi + 1,
                        0 <= rd <= 1000,
                        rdi == rd as int,
                        self.render_distance == rd,
                        -1000000 + rdi <= position.x <= 1000000 - rdi,
                        -1000000 + rdi <= position.y <= 1000000 - rdi,
                        -1000000 + rdi <= position.z <= 1000000 - rdi,
                        self.wf(),
                        self.chunk_map@ == map1,
                        self.chunk_mesh_load_queue@ == q_mesh,
                        self.chunk_mesh_reload_queue@ == q_reload,
                        self.chunk_neighbor_loaded_queue@ == q_nbr,
                        self.chunks_with_missing_neighbors@ == q_missing,
                        forall|p: Vec3i|
                            #![trigger self.chunk_data_load_queue@.contains(p)]
                            self.chunk_data_load_queue@.contains(p) <==> (pruned_data.contains(p)
                                || (window_prefix(position, rdi, p, x as int, y as int, z as int)
                                && !has_chunk_at(map1, p))),
                    decreases n - z,
                {
                    let coord = Vec3i::new(
                        position.x - rd + (x as i32),
                        position.y - rd + (y as i32),
                        position.z - rd + (z as i32),
                    );
                    proof {
                        assert(coord == window_cell(
                            position,
                            rdi,
                            x as int,
                            y as int,
                            z as int,
                        ));
                        assert(in_window(position, rdi, coord));
                    }
                    let ghost before = self.chunk_data_load_queue@;
                    let absent = match self.find_chunk(coord) {
                        Some(_) => false,
                        None => true,
                    };
                    if absent {
                        if !coords_contains(&self.chunk_data_load_queue, coord) {
                            self.chunk_data_load_queue.push(coord);
                            proof {
                                assert forall|a: int, b: int|
                                    0 <= a < b < self.chunk_data_load_queue@.len() implies
                                    self.chunk_data_load_queue@[a]
                                    != self.chunk_data_load_queue@[b] by {
                                    if b == self.chunk_data_load_queue@.len() - 1 {
                                        assert(before.contains(self.chunk_data_load_queue@[a]));
                                    }
                                }
                                assert forall|a: int|
                                    0 <= a < self.chunk_data_load_queue@.len() implies coord_ok(
                                    #[trigger] self.chunk_data_load_queue@[a],
                                ) by {}
                            }
                        }
                    }
                    proof {
                        let xi = x as int;
                        let yi = y as int;
                        let zi = z as int;
                        assert(absent == !has_chunk_at(map1, coord));
                        assert forall|p: Vec3i|
                            #![trigger self.chunk_data_load_queue@.contains(p)]
                            self.chunk_data_load_queue@.contains(p) <==> (pruned_data.contains(p)
                                || (window_prefix(position, rdi, p, xi, yi, zi + 1)
                                && !has_chunk_at(map1, p))) by {
                            assert forall|q2: Vec3i|
                                before.contains(q2) implies #[trigger] self.chunk_data_load_queue@.contains(
                                q2,
                            ) by {
                                let k = choose|k: int| 0 <= k < before.len() && before[k] == q2;
                                assert(self.chunk_data_load_queue@[k] == q2);
                            }
                            if absent && !before.contains(coord) {
                                assert(self.chunk_data_load_queue@[self.chunk_data_load_queue@.len()
                                    - 1] == coord);
                                assert(self.chunk_data_load_queue@.contains(coord));
                            }
                            if self.chunk_data_load_queue@.contains(p) && !pruned_data.contains(p)
                                {
                                if before.contains(p) {
                                    assert(window_prefix(position, rdi, p, xi, yi, zi)
                                        && !has_chunk_at(map1, p));
                                    let (cx, cy, cz) = choose|cx: int, cy: int, cz: int|
                                        0 <= cx <= 2 * rdi && 0 <= cy <= 2 * rdi && 0 <= cz <= 2
                                            * rdi && crate::chunk::gen_before(cx, cy, cz, xi, yi, zi)
                                            && p == #[trigger] window_cell(
                                            position,
                                            rdi,
                                            cx,
                                            cy,
                                            cz,
                                        );
                                    assert(crate::chunk::gen_before(cx, cy, cz, xi, yi, zi + 1));
                                    assert(window_prefix(position, rdi, p, xi, yi, zi + 1));
                                } else {
                                    assert(p == coord && absent);
                                    assert(crate::chunk::gen_before(xi, yi, zi, xi, yi, zi + 1));
                                    assert(p == window_cell(position, rdi, xi, yi, zi));
                                    assert(window_prefix(position, rdi, p, xi, yi, zi + 1));
                                }
                            }
                            if window_prefix(position, rdi, p, xi, yi, zi + 1) && !has_chunk_at(
                                map1,
                                p,
                            ) && !pruned_data.contains(p) {
                                let (cx, cy, cz) = choose|cx: int, cy: int, cz: int|
                                    0 <= cx <= 2 * rdi && 0 <= cy <= 2 * rdi && 0 <= cz <= 2 * rdi
                                        && crate::chunk::gen_before(cx, cy, cz, xi, yi, zi + 1)
                                        && p == #[trigger] window_cell(position, rdi, cx, cy, cz);
                                if crate::chunk::gen_before(cx, cy, cz, xi, yi, zi) {
                                    assert(window_prefix(position, rdi, p, xi, yi, zi));
                                    assert(before.contains(p));
                                    assert(self.chunk_data_load_queue@.contains(p));
                                } else {
                                    assert(cx == xi && cy == yi && cz == zi);
                                    assert(p == coord);
                                    assert(self.chunk_data_load_queue@.contains(p));
                                }
                            }
                            if pruned_data.contains(p) {
                                assert(before.contains(p));
                                assert(self.chunk_data_load_queue@.contains(p));
                            }
                        }
                    }
                    z += 1;
                }
                proof {
                    assert forall|p: Vec3i|
                        #![trigger self.chunk_data_load_queue@.contains(p)]
                        self.chunk_data_load_queue@.contains(p) <==> (pruned_data.contains(p) || (
                        window_prefix(position, rdi, p, x as int, y as int + 1, 0)
                            && !has_chunk_at(map1, p))) by {
                        lemma_window_prefix_wrap_y(position, rdi, p, x as int, y as int);
                    }
                }
                y += 1;
            }
            proof {
                assert forall|p: Vec3i|
                    #![trigger self.chunk_data_load_queue@.contains(p)]
                    self.chunk_data_load_queue@.contains(p) <==> (pruned_data.contains(p) || (
                    window_prefix(position, rdi, p, x as int + 1, 0, 0) && !has_chunk_at(
                        map1,
                        p,
                    ))) by {
                    lemma_window_prefix_wrap_x(position, rdi, p, x as int);
                }
            }
            x += 1;
        }

        let ghost filled_data = self.chunk_data_load_queue@;
        sort_by_distance(&mut self.chunk_data_load_queue, position);

        proof {
            assert forall|p: Vec3i|
                #![trigger final(self).chunk_data_load_queue@.contains(p)]
                final(self).chunk_data_load_queue@.contains(p) <==> (in_window(position, rdi, p)
                    && (old(self).chunk_data_load_queue@.contains(p) || !has_chunk_at(
                    old(self).chunk_map@,
                    p,
                ))) by {
                lemma_window_prefix_full(position, rdi, p);
                assert(filled_data.contains(p) <==> (pruned_data.contains(p) || (in_window(
                    position,
                    rdi,
                    p,
                ) && !has_chunk_at(map1, p))));
            }
            assert forall|p: Vec3i|
                in_window(position, rdi, p) implies (has_chunk_at(final(self).chunk_map@, p)
                || final(self).chunk_data_load_queue@.contains(p)) by {}
        }
    }

    /// Drain up to `amount` mesh tasks by priority — rebuilds first, then
    /// first-time loads, then neighbor-unblocked retries — mesh each against
    /// the currently loaded neighbors, and fold every result back in: each
    /// surviving job chunk ends with exactly the geometry of its visible
    /// faces (or no mesh when nothing shows), the missing-neighbor set ends
    /// tracking exactly the jobs that deferred faces, and a job whose chunk
    /// was evicted mid-flight is re-queued as data work, never dropped.
    pub fn build_chunk_mesh_in_queue(&mut self, amount: usize)
        requires
            old(self).wf(),
        ensures
            final(self).wf(),
            final(self).render_distance == old(self).render_distance,
            final(self).chunk_map@.len() == old(self).chunk_map@.len(),
            forall|k: int|
                0 <= k < old(self).chunk_map@.len() ==> (#[trigger] final(self).chunk_map@[k]).position
                    == old(self).chunk_map@[k].position && final(self).chunk_map@[k].blocks@ == old(
                    self,
                ).chunk_map@[k].blocks@ && final(self).chunk_map@[k].is_empty == old(
                    self,
                ).chunk_map@[k].is_empty && final(self).chunk_map@[k].world_position == old(
                    self,
                ).chunk_map@[k].world_position,
            ({
                let k1 = vstd::math::min(
                    amount as int,
                    old(self).chunk_mesh_reload_queue@.len() as int,
                );
                let k2 = vstd::math::min(
                    amount - k1,
                    old(self).chunk_mesh_load_queue@.len() as int,
                );
                let k3 = vstd::math::min(
                    amount - k1 - k2,
                    old(self).chunk_neighbor_loaded_queue@.len() as int,
                );
                let jobs = old(self).chunk_mesh_reload_queue@.take(k1) + old(
                    self,
                ).chunk_mesh_load_queue@.take(k2) + old(self).chunk_neighbor_loaded_queue@.take(k3);
                &&& final(self).chunk_mesh_reload_queue@ == old(
                    self,
                ).chunk_mesh_reload_queue@.skip(k1)
                &&& final(self).chunk_mesh_load_queue@ == old(self).chunk_mesh_load_queue@.skip(k2)
                &&& final(self).chunk_neighbor_loaded_queue@ == old(
                    self,
                ).chunk_neighbor_loaded_queue@.skip(k3)
                &&& (forall|p: Vec3i|
                    #![trigger final(self).chunk_data_load_queue@.contains(p)]
                    final(self).chunk_data_load_queue@.contains(p) <==> (old(
                        self,
                    ).chunk_data_load_queue@.contains(p) || (jobs.contains(p) && !has_chunk_at(
                        old(self).chunk_map@,
                        p,
                    ))))
                &&& (forall|p: Vec3i|
                    #![trigger final(self).chunks_with_missing_neighbors@.contains(p)]
                    final(self).chunks_with_missing_neighbors@.contains(p) <==> (if jobs.contains(
                        p,
                    ) {
                        job_deferred(old(self).chunk_map@, p)
                    } else {
                        old(self).chunks_with_missing_neighbors@.contains(p)
                    }))
                &&& (forall|k: int|
                    0 <= k < old(self).chunk_map@.len() ==> (if jobs.contains(
                        (#[trigger] old(self).chunk_map@[k]).position,
                    ) {
                        mesh_outcome_ok(
                            old(self).chunk_map@,
                            old(self).chunk_map@[k].position,
                            final(self).chunk_map@[k].mesh,
                        )
                    } else {
                        final(self).chunk_map@[k].mesh == old(self).chunk_map@[k].mesh
                    }))
            }),
    {
        let ghost m0 = old(self).chunk_map@;
        let ghost k1g = vstd::math::min(amount as int, old(self).chunk_mesh_reload_queue@.len() as int);
        let ghost k2g = vstd::math::min(amount - k1g, old(self).chunk_mesh_load_queue@.len() as int);
        let ghost k3g = vstd::math::min(
            amount - k1g - k2g,
            old(self).chunk_neighbor_loaded_queue@.len() as int,
        );
        let jobs = self.take_mesh_jobs(amount);
        let ghost jobsv = jobs@;
        let mut j: usize = 0;
        while j < jobs.len()
            invariant
                self.wf(),
                j <= jobsv.len(),
                jobs@ == jobsv,
                coords_ok(jobsv),
                self.render_distance == old(self).render_distance,
                self.chunk_mesh_reload_queue@ == old(self).chunk_mesh_reload_queue@.skip(k1g),
                self.chunk_mesh_load_queue@ == old(self).chunk_mesh_load_queue@.skip(k2g),
                self.chunk_neighbor_loaded_queue@ == old(self).chunk_neighbor_loaded_queue@.skip(
                    k3g,
                ),
                self.chunk_map@.len() == m0.len(),
                forall|i: int, j2: int| 0 <= i < j2 < m0.len() ==> m0[i].position != m0[j2].position,
                forall|k: int|
                    0 <= k < m0.len() ==> (#[trigger] self.chunk_map@[k]).position
                        == m0[k].position && self.chunk_map@[k].blocks@ == m0[k].blocks@
                        && self.chunk_map@[k].is_empty == m0[k].is_empty
                        && self.chunk_map@[k].world_position == m0[k].world_position,
                forall|p: Vec3i|
                    #![trigger self.chunk_data_load_queue@.contains(p)]
                    self.chunk_data_load_queue@.contains(p) <==> (old(
                        self,
                    ).chunk_data_load_queue@.contains(p) || (jobsv.take(j as int).contains(p)
                        && !has_chunk_at(m0, p))),
                forall|p: Vec3i|
                    #![trigger self.chunks_with_missing_neighbors@.contains(p)]
                    self.chunks_with_missing_neighbors@.contains(p) <==> (if jobsv.take(
                        j as int,
                    ).contains(p) {
                        job_deferred(m0, p)
                    } else {
                        old(self).chunks_with_missing_neighbors@.contains(p)
                    }),
                forall|k: int|
                    0 <= k < m0.len() ==> (if jobsv.take(j as int).contains(
                        (#[trigger] m0[k]).position,
                    ) {
                        mesh_outcome_ok(m0, m0[k].position, self.chunk_map@[k].mesh)
                    } else {
                        self.chunk_map@[k].mesh == m0[k].mesh
                    }),
            decreases jobsv.len() - j,
        {
            let ghost ji = j as int;
            let pos = jobs[j];
            let (mesh, missing_here) = self.mesh_at(pos);
            let ghost pre = *self;
            let ghost meshg = mesh;
            proof {
                lemma_store_stable(pre.chunk_map@, m0, pos, meshg);
                lemma_store_stable(pre.chunk_map@, m0, pos, Option::None);
                assert(missing_here == job_deferred(pre.chunk_map@, pos));
                assert(missing_here == job_deferred(m0, pos));
            }
            self.apply_mesh_result(pos, mesh, missing_here);
            proof {
                assert forall|p: Vec3i|
                    #![trigger self.chunks_with_missing_neighbors@.contains(p)]
                    self.chunks_with_missing_neighbors@.contains(p) <==> (if jobsv.take(
                        ji + 1,
                    ).contains(p) {
                        job_deferred(m0, p)
                    } else {
                        old(self).chunks_with_missing_neighbors@.contains(p)
                    }) by {
                    lemma_take_push_contains(jobsv, ji, p);
                }
                assert forall|p: Vec3i|
                    #![trigger self.chunk_data_load_queue@.contains(p)]
                    self.chunk_data_load_queue@.contains(p) <==> (old(
                        self,
                    ).chunk_data_load_queue@.contains(p) || (jobsv.take(ji + 1).contains(p)
                        && !has_chunk_at(m0, p))) by {
                    lemma_take_push_contains(jobsv, ji, p);
                    if !has_chunk_at(pre.chunk_map@, pos) {
                        assert(self.chunk_data_load_queue@ == (if pre.chunk_data_load_queue@.contains(
                            pos,
                        ) {
                            pre.chunk_data_load_queue@
                        } else {
                            pre.chunk_data_load_queue@.push(pos)
                        }));
                        if p == pos && !pre.chunk_data_load_queue@.contains(pos) {
                            assert(self.chunk_data_load_queue@[self.chunk_data_load_queue@.len()
                                - 1] == pos);
                            assert(self.chunk_data_load_queue@.contains(pos));
                        }
                        if pre.chunk_data_load_queue@.contains(p) {
                            let w = choose|w: int|
                                0 <= w < pre.chunk_data_load_queue@.len()
                                    && pre.chunk_data_load_queue@[w] == p;
                            assert(self.chunk_data_load_queue@[w] == p);
                            assert(self.chunk_data_load_queue@.contains(p));
                        }
                    }
                }
                if has_chunk_at(pre.chunk_map@, pos) {
                    let ci = spec_chunk_index(pre.chunk_map@, pos);
                    assert(0 <= ci < pre.chunk_map@.len() && pre.chunk_map@[ci].position == pos);
                    assert(mesh_outcome_ok(pre.chunk_map@, pos, self.chunk_map@[ci].mesh)) by {
                        let c = pre.chunk_map@[ci];
                        if !c.is_empty {
                            let faces = mesh_faces(c, spec_neighbors(pre.chunk_map@, pos));
                            assert(meshg matches Some(md) && crate::chunk::mesh_matches(
                                c,
                                spec_neighbors(pre.chunk_map@, pos),
                                md,
                            ));
                        }
                    }
                    assert(mesh_outcome_ok(m0, pos, self.chunk_map@[ci].mesh)) by {
                        lemma_store_stable(pre.chunk_map@, m0, pos, self.chunk_map@[ci].mesh);
                    }
                }
                assert forall|k: int|
                    0 <= k < m0.len() implies (if jobsv.take(ji + 1).contains(
                        (#[trigger] m0[k]).position,
                    ) {
                        mesh_outcome_ok(m0, m0[k].position, self.chunk_map@[k].mesh)
                    } else {
                        self.chunk_map@[k].mesh == m0[k].mesh
                    }) by {
                    lemma_take_push_contains(jobsv, ji, m0[k].position);
                    if has_chunk_at(pre.chunk_map@, pos) {
                        let ci = spec_chunk_index(pre.chunk_map@, pos);
                        if k != ci {
                            assert(self.chunk_map@[k] == pre.chunk_map@[k]);
                            if m0[k].position == pos {
                                assert(pre.chunk_map@[ci].position == pos);
                                assert(m0[ci].position == pos);
                                assert(false);
                            }
                        }
                    } else {
                        assert(self.chunk_map@ == pre.chunk_map@);
                        if m0[k].position == pos {
                            assert(has_chunk_at(m0, pos));
                            assert(false);
                        }
                    }
                }
            }
            j += 1;
        }
        proof {
            assert(jobsv.take(jobsv.len() as int) =~= jobsv);
        }
    }
}

/// One neighbor-unblock check of the data fold: if the chunk bordering
/// `cpos` across face `f` is loaded, waiting on a missing neighbor, and
/// pending in no mesh queue, it joins the neighbor-unblocked queue.
pub open spec fn unblock_step(
    map: Seq<Chunk>,
    missing: Seq<Vec3i>,
    reloadq: Seq<Vec3i>,
    meshq: Seq<Vec3i>,
    nbrq: Seq<Vec3i>,
    cpos: Vec3i,
    f: int,
) -> Seq<Vec3i> {
    let np = face_neighbor(cpos, f);
    if has_chunk_at(map, np) && missing.contains(np) && !meshq.contains(np) && !reloadq.contains(np)
        && !nbrq.contains(np) {
        nbrq.push(np)
    } else {
        nbrq
    }
}

/// The neighbor-unblocked queue after the first `f` faces of a newly
/// inserted chunk were checked, in face order.
pub open spec fn unblock_prefix(
    map: Seq<Chunk>,
    missing: Seq<Vec3i>,
    reloadq: Seq<Vec3i>,
    meshq: Seq<Vec3i>,
    nbrq: Seq<Vec3i>,
    cpos: Vec3i,
    f: int,
) -> Seq<Vec3i>
    decreases f,
{
    if f <= 0 {
        nbrq
    } else {
        unblock_step(
            map,
            missing,
            reloadq,
            meshq,
            unblock_prefix(map, missing, reloadq, meshq, nbrq, cpos, f - 1),
            cpos,
            f - 1,
        )
    }
}

/// Folding one generated chunk into the scheduler: the unblocked neighbors
/// join their queue, the chunk is queued for a first mesh if non-empty and
/// pending nowhere, and it enters the store, replacing any chunk at its
/// coordinate. Returns the new store, mesh-load queue and neighbor-unblocked
/// queue.
pub open spec fn spec_insert_chunk(
    map: Seq<Chunk>,
    meshq: Seq<Vec3i>,
    nbrq: Seq<Vec3i>,
    missing: Seq<Vec3i>,
    reloadq: Seq<Vec3i>,
    c: Chunk,
) -> (Seq<Chunk>, Seq<Vec3i>, Seq<Vec3i>) {
    let nbr2 = unblock_prefix(map, missing, reloadq, meshq, nbrq, c.position, 6);
    let mesh2 = if !c.is_empty && !meshq.contains(c.position) && !reloadq.contains(c.position)
        && !nbr2.contains(c.position) {
        meshq.push(c.position)
    } else {
        meshq
    };
    let map2 = if has_chunk_at(map, c.position) {
        map.update(spec_chunk_index(map, c.position), c)
    } else {
        map.push(c)
    };
    (map2, mesh2, nbr2)
}

/// The store and mesh queues after a whole generated batch, folded in order.
pub open spec fn spec_fold_inserts(
    map: Seq<Chunk>,
    meshq: Seq<Vec3i>,
    nbrq: Seq<Vec3i>,
    missing: Seq<Vec3i>,
    reloadq: Seq<Vec3i>,
    gen: Seq<Chunk>,
) -> (Seq<Chunk>, Seq<Vec3i>, Seq<Vec3i>)
    decreases gen.len(),
{
    if gen.len() == 0 {
        (map, meshq, nbrq)
    } else {
        let s = spec_insert_chunk(map, meshq, nbrq, missing, reloadq, gen[0]);
        spec_fold_inserts(s.0, s.1, s.2, missing, reloadq, gen.skip(1))
    }
}

/// What the unblock fold adds to the neighbor-unblocked queue: exactly the
/// loaded face neighbors that wait in the missing set and are pending in no
/// mesh queue; uniqueness and the coordinate bound survive.
proof fn lemma_unblock_prefix_props(
    map: Seq<Chunk>,
    missing: Seq<Vec3i>,
    reloadq: Seq<Vec3i>,
    meshq: Seq<Vec3i>,
    nbrq: Seq<Vec3i>,
    cpos: Vec3i,
    f: int,
)
    requires
        0 <= f <= 6,
    ensures
        forall|p: Vec3i|
            #![trigger unblock_prefix(map, missing, reloadq, meshq, nbrq, cpos, f).contains(p)]
            unblock_prefix(map, missing, reloadq, meshq, nbrq, cpos, f).contains(p) <==> (
            nbrq.contains(p) || ((exists|g: int| 0 <= g < f && p == face_neighbor(cpos, g))
                && has_chunk_at(map, p) && missing.contains(p) && !meshq.contains(p)
                && !reloadq.contains(p))),
        unique_coords(nbrq) ==> unique_coords(
            unblock_prefix(map, missing, reloadq, meshq, nbrq, cpos, f),
        ),
        coords_ok(nbrq) && (forall|q: Vec3i| has_chunk_at(map, q) ==> coord_ok(q)) ==> coords_ok(
            unblock_prefix(map, missing, reloadq, meshq, nbrq, cpos, f),
        ),
    decreases f,
{
    if f > 0 {
        lemma_unblock_prefix_props(map, missing, reloadq, meshq, nbrq, cpos, f - 1);
        let prev = unblock_prefix(map, missing, reloadq, meshq, nbrq, cpos, f - 1);
        let cur = unblock_prefix(map, missing, reloadq, meshq, nbrq, cpos, f);
        let np = face_neighbor(cpos, f - 1);
        assert forall|p: Vec3i| #![trigger cur.contains(p)] cur.contains(p) <==> (nbrq.contains(p)
            || ((exists|g: int| 0 <= g < f && p == face_neighbor(cpos, g)) && has_chunk_at(map, p)
            && missing.contains(p) && !meshq.contains(p) && !reloadq.contains(p))) by {
            if cur.contains(p) && !prev.contains(p) {
                let k = choose|k: int| 0 <= k < cur.len() && #[trigger] cur[k] == p;
                assert(p == np);
                assert(0 <= f - 1 < f && p == face_neighbor(cpos, f - 1));
            }
            if prev.contains(p) {
                if cur != prev {
                    let k = choose|k: int| 0 <= k < prev.len() && #[trigger] prev[k] == p;
                    assert(cur[k] == p);
                }
                assert(cur.contains(p));
                if !nbrq.contains(p) {
                    let g = choose|g: int| 0 <= g < f - 1 && p == face_neighbor(cpos, g);
                    assert(0 <= g < f && p == face_neighbor(cpos, g));
                }
            }
            if !prev.contains(p) && !nbrq.contains(p) && (exists|g: int|
                0 <= g < f && p == face_neighbor(cpos, g)) && has_chunk_at(map, p)
                && missing.contains(p) && !meshq.contains(p) && !reloadq.contains(p) {
                let g = choose|g: int| 0 <= g < f && p == face_neighbor(cpos, g);
                if g < f - 1 {
                    assert(prev.contains(p));
                    assert(false);
                } else {
                    assert(p == np);
                    assert(cur == prev.push(np));
                    assert(cur[prev.len() as int] == p);
                    assert(cur.contains(p));
                }
            }
        }
        if unique_coords(nbrq) {
            if cur != prev {
                assert forall|a: int, b: int| 0 <= a < b < cur.len() implies cur[a] != cur[b] by {
                    if b == cur.len() - 1 {
                        assert(prev.contains(cur[a]));
                        assert(!prev.contains(np));
                    }
                }
            }
        }
        if coords_ok(nbrq) && (forall|q: Vec3i| has_chunk_at(map, q) ==> coord_ok(q)) {
            if cur != prev {
                assert(coord_ok(np));
                assert forall|a: int| 0 <= a < cur.len() implies coord_ok(#[trigger] cur[a]) by {
                    if a < cur.len() - 1 {
                        assert(cur[a] == prev[a]);
                    }
                }
            }
        }
    }
}

/// Streaming window convergence, drained form: a manager whose store and
/// data queue together cover the window — as `update_around` leaves them —
/// holds, once the data queue has drained, exactly the window's chunks.
pub proof fn lemma_window_convergence(mgr: ChunkManager, center: Vec3i, r: int)
    requires
        forall|p: Vec3i| has_chunk_at(mgr.chunk_map@, p) ==> in_window(center, r, p),
        forall|p: Vec3i|
            in_window(center, r, p) ==> (has_chunk_at(mgr.chunk_map@, p)
                || mgr.chunk_data_load_queue@.contains(p)),
        mgr.chunk_data_load_queue@.len() == 0,
    ensures
        forall|p: Vec3i|
            #![trigger in_window(center, r, p)]
            has_chunk_at(mgr.chunk_map@, p) <==> in_window(center, r, p),
{
    assert forall|p: Vec3i| in_window(center, r, p) implies has_chunk_at(mgr.chunk_map@, p) by {
        assert(!mgr.chunk_data_load_queue@.contains(p));
    }
}

/// Streaming window coverage survives one load cycle: after the next data
/// jobs are taken and a batch generating every one of them is folded in,
/// every window coordinate is still loaded or queued for data. Together
/// with `update_around`'s own coverage clause and `lemma_window_convergence`
/// this gives convergence of the store to the window once the queue drains.
pub proof fn lemma_coverage_preserved(
    pre: ChunkManager,
    mid: ChunkManager,
    post: ChunkManager,
    jobs: Seq<Vec3i>,
    generated: Seq<Chunk>,
    center: Vec3i,
    r: int,
)
    requires
        forall|p: Vec3i|
            in_window(center, r, p) ==> (has_chunk_at(pre.chunk_map@, p)
                || pre.chunk_data_load_queue@.contains(p)),
        pre.chunk_data_load_queue@ == jobs + mid.chunk_data_load_queue@,
        mid.chunk_map@ == pre.chunk_map@,
        forall|p: Vec3i| jobs.contains(p) ==> has_chunk_at(generated, p),
        forall|p: Vec3i|
            #![trigger has_chunk_at(post.chunk_map@, p)]
            has_chunk_at(post.chunk_map@, p) <==> (has_chunk_at(mid.chunk_map@, p)
                || has_chunk_at(generated, p)),
        post.chunk_data_load_queue@ == mid.chunk_data_load_queue@,
    ensures
        forall|p: Vec3i|
            in_window(center, r, p) ==> (has_chunk_at(post.chunk_map@, p)
                || post.chunk_data_load_queue@.contains(p)),
{
    assert forall|p: Vec3i|
        in_window(center, r, p) implies (has_chunk_at(post.chunk_map@, p)
        || post.chunk_data_load_queue@.contains(p)) by {
        if !has_chunk_at(pre.chunk_map@, p) {
            assert(pre.chunk_data_load_queue@.contains(p));
            let i = choose|i: int|
                0 <= i < pre.chunk_data_load_queue@.len() && pre.chunk_data_load_queue@[i] == p;
            if i < jobs.len() {
                assert(jobs[i] == p);
                assert(jobs.contains(p));
                assert(has_chunk_at(generated, p));
            } else {
                assert(mid.chunk_data_load_queue@[i - jobs.len()] == p);
                assert(post.chunk_data_load_queue@.contains(p));
            }
        }
    }
}

/// Index of the last chunk in `s` with grid coordinate `p`, or `-1`.
pub open spec fn last_index_of(s: Seq<Chunk>, p: Vec3i) -> int
    decreases s.len(),
{
    if s.len() == 0 {
        -1
    } else if s.last().position == p {
        s.len() - 1
    } else {
        last_index_of(s.drop_last(), p)
    }
}

/// `last_index_of` finds a chunk exactly when one is loaded.
proof fn lemma_last_index_of(s: Seq<Chunk>, p: Vec3i)
    ensures
        has_chunk_at(s, p) <==> 0 <= last_index_of(s, p),
        last_index_of(s, p) < s.len(),
        has_chunk_at(s, p) ==> s[last_index_of(s, p)].position == p,
    decreases s.len(),
{
    if s.len() > 0 {
        lemma_last_index_of(s.drop_last(), p);
        if s.last().position != p {
            if has_chunk_at(s, p) {
                let i = choose|i: int| 0 <= i < s.len() && s[i].position == p;
                assert(i < s.len() - 1);
                assert(s.drop_last()[i].position == p);
                assert(has_chunk_at(s.drop_last(), p));
            }
            if has_chunk_at(s.drop_last(), p) {
                let i = choose|i: int|
                    0 <= i < s.drop_last().len() && s.drop_last()[i].position == p;
                assert(s[i].position == p);
                assert(has_chunk_at(s, p));
            }
        } else {
            assert(s[s.len() - 1].position == p);
            assert(has_chunk_at(s, p));
        }
    }
}

/// `last_index_of` seen from the front of the list.
proof fn lemma_last_index_of_skip(s: Seq<Chunk>, p: Vec3i)
    requires
        s.len() > 0,
    ensures
        last_index_of(s, p) == if has_chunk_at(s.skip(1), p) {
            last_index_of(s.skip(1), p) + 1
        } else if s[0].position == p {
            0
        } else {
            -1
        },
    decreases s.len(),
{
    lemma_last_index_of(s, p);
    lemma_last_index_of(s.skip(1), p);
    if s.len() == 1 {
        assert(s.skip(1) =~= Seq::<Chunk>::empty());
        assert(!has_chunk_at(s.skip(1), p));
        assert(s.last() == s[0]);
        if s[0].position == p {
            assert(last_index_of(s, p) == 0);
        } else {
            assert(s.drop_last() =~= Seq::<Chunk>::empty());
            assert(last_index_of(s, p) == last_index_of(s.drop_last(), p));
            assert(last_index_of(s, p) == -1);
        }
    } else {
        assert(s.drop_last().len() > 0);
        lemma_last_index_of_skip(s.drop_last(), p);
        lemma_last_index_of(s.drop_last(), p);
        lemma_last_index_of(s.drop_last().skip(1), p);
        lemma_last_index_of(s.skip(1), p);
        assert(s.drop_last().skip(1) =~= s.skip(1).drop_last());
        assert(s.skip(1).last() == s.last());
        assert(s.drop_last()[0] == s[0]);
        if s.last().position == p {
            assert(s.skip(1)[s.skip(1).len() - 1].position == p);
            assert(has_chunk_at(s.skip(1), p));
            assert(last_index_of(s.skip(1), p) == s.skip(1).len() - 1);
            assert(last_index_of(s, p) == s.len() - 1);
        } else {
            assert(last_index_of(s, p) == last_index_of(s.drop_last(), p));
            assert(last_index_of(s.skip(1), p) == last_index_of(s.skip(1).drop_last(), p));
            assert(last_index_of(s.skip(1).drop_last(), p) == last_index_of(
                s.drop_last().skip(1),
                p,
            ));
            assert(has_chunk_at(s.skip(1), p) == has_chunk_at(s.drop_last().skip(1), p)) by {
                if has_chunk_at(s.skip(1), p) {
                    let i = choose|i: int| 0 <= i < s.skip(1).len() && s.skip(1)[i].position == p;
                    assert(i < s.skip(1).len() - 1);
                    assert(s.skip(1).drop_last()[i].position == p);
                    assert(has_chunk_at(s.skip(1).drop_last(), p));
                    assert(has_chunk_at(s.drop_last().skip(1), p));
                }
                if has_chunk_at(s.drop_last().skip(1), p) {
                    let i = choose|i: int|
                        0 <= i < s.drop_last().skip(1).len() && s.drop_last().skip(1)[i].position
                            == p;
                    assert(s.skip(1)[i].position == p);
                    assert(has_chunk_at(s.skip(1), p));
                }
            }
            if s.drop_last()[0].position == p {
                assert(s[0].position == p);
            }
        }
    }
}

/// What the batch fold leaves in the store, coordinate by coordinate: a
/// generated coordinate holds the last generated chunk with it, bit for bit
/// — folding a parallel batch in order equals inserting each chunk alone —
/// and every untouched coordinate keeps its chunk unchanged.
pub proof fn lemma_fold_inserts_map(
    map: Seq<Chunk>,
    meshq: Seq<Vec3i>,
    nbrq: Seq<Vec3i>,
    missing: Seq<Vec3i>,
    reloadq: Seq<Vec3i>,
    gen: Seq<Chunk>,
    p: Vec3i,
)
    requires
        forall|i: int, j: int| 0 <= i < j < map.len() ==> map[i].position != map[j].position,
    ensures
        ({
            let folded = spec_fold_inserts(map, meshq, nbrq, missing, reloadq, gen);
            &&& (forall|i: int, j: int|
                0 <= i < j < folded.0.len() ==> folded.0[i].position != folded.0[j].position)
            &&& (has_chunk_at(folded.0, p) <==> (has_chunk_at(map, p) || has_chunk_at(gen, p)))
            &&& (has_chunk_at(gen, p) ==> folded.0[spec_chunk_index(folded.0, p)] == gen[last_index_of(
                gen,
                p,
            )])
            &&& (!has_chunk_at(gen, p) && has_chunk_at(map, p) ==> folded.0[spec_chunk_index(
                folded.0,
                p,
            )] == map[spec_chunk_index(map, p)])
        }),
    decreases gen.len(),
{
    let folded = spec_fold_inserts(map, meshq, nbrq, missing, reloadq, gen);
    if gen.len() == 0 {
        assert(!has_chunk_at(gen, p));
    } else {
        let c = gen[0];
        let st = spec_insert_chunk(map, meshq, nbrq, missing, reloadq, c);
        // one step keeps coordinates unique
        assert forall|i: int, j: int| 0 <= i < j < st.0.len() implies st.0[i].position
            != st.0[j].position by {
            if has_chunk_at(map, c.position) {
                let ci = spec_chunk_index(map, c.position);
                assert(0 <= ci < map.len() && map[ci].position == c.position);
                assert(map[i].position != map[j].position);
            } else {
                if j == st.0.len() - 1 {
                    if map[i].position == c.position {
                        assert(has_chunk_at(map, c.position));
                    }
                } else {
                    assert(map[i].position != map[j].position);
                }
            }
        }
        lemma_fold_inserts_map(st.0, st.1, st.2, missing, reloadq, gen.skip(1), p);
        lemma_insert_membership(map, st.0, c, p);
        lemma_last_index_of(gen, p);
        lemma_last_index_of(gen.skip(1), p);
        lemma_last_index_of_skip(gen, p);
        assert(folded == spec_fold_inserts(st.0, st.1, st.2, missing, reloadq, gen.skip(1)));
        // membership of the whole batch
        assert(has_chunk_at(gen, p) <==> (c.position == p || has_chunk_at(gen.skip(1), p))) by {
            if has_chunk_at(gen, p) && last_index_of(gen, p) > 0 {
                assert(gen.skip(1)[last_index_of(gen, p) - 1].position == p);
                assert(has_chunk_at(gen.skip(1), p));
            }
            if has_chunk_at(gen.skip(1), p) {
                let i = choose|i: int| 0 <= i < gen.skip(1).len() && gen.skip(1)[i].position == p;
                assert(gen[i + 1].position == p);
                assert(has_chunk_at(gen, p));
            }
            if c.position == p {
                assert(gen[0].position == p);
                assert(has_chunk_at(gen, p));
            }
        }
        if has_chunk_at(gen.skip(1), p) {
            // a later chunk with this coordinate wins
            assert(folded.0[spec_chunk_index(folded.0, p)] == gen.skip(1)[last_index_of(
                gen.skip(1),
                p,
            )]);
            assert(gen.skip(1)[last_index_of(gen.skip(1), p)] == gen[last_index_of(gen, p)]);
        } else if c.position == p {
            // this step's chunk stays: it sits at the coordinate afterwards
            assert(has_chunk_at(st.0, p));
            let si = spec_chunk_index(st.0, p);
            assert(0 <= si < st.0.len() && st.0[si].position == p);
            assert(st.0[si] == c) by {
                if has_chunk_at(map, c.position) {
                    let ci = spec_chunk_index(map, c.position);
                    assert(st.0[ci] == c);
                    assert(si == ci);
                } else {
                    assert(st.0[st.0.len() - 1] == c);
                    if si < st.0.len() - 1 {
                        assert(map[si].position == p);
                        assert(has_chunk_at(map, p));
                        assert(false);
                    }
                }
            }
            assert(folded.0[spec_chunk_index(folded.0, p)] == st.0[spec_chunk_index(st.0, p)]);
            assert(gen[last_index_of(gen, p)] == c);
        } else {
            // the coordinate is untouched by this step
            if has_chunk_at(map, p) {
                assert(has_chunk_at(st.0, p));
                let si = spec_chunk_index(st.0, p);
                let mi = spec_chunk_index(map, p);
                assert(0 <= si < st.0.len() && st.0[si].position == p);
                assert(0 <= mi < map.len() && map[mi].position == p);
                assert(st.0[si] == map[mi]) by {
                    if has_chunk_at(map, c.position) {
                        let ci = spec_chunk_index(map, c.position);
                        assert(si != ci);
                        assert(map[si].position == p);
                        assert(si == mi);
                    } else {
                        assert(si < map.len());
                        assert(map[si].position == p);
                        assert(si == mi);
                    }
                }
                assert(folded.0[spec_chunk_index(folded.0, p)] == st.0[si]);
            }
        }
    }
}

/// Folding one chunk into a store either replaces the chunk at its
/// coordinate or appends it; loaded coordinates gain exactly the new one.
proof fn lemma_insert_membership(pre: Seq<Chunk>, post: Seq<Chunk>, c: Chunk, p: Vec3i)
    requires
        has_chunk_at(pre, c.position) ==> post == pre.update(spec_chunk_index(pre, c.position), c),
        !has_chunk_at(pre, c.position) ==> post == pre.push(c),
    ensures
        has_chunk_at(post, p) <==> (has_chunk_at(pre, p) || p == c.position),
{
    if has_chunk_at(pre, c.position) {
        let ci = spec_chunk_index(pre, c.position);
        assert(0 <= ci < pre.len() && pre[ci].position == c.position);
        if has_chunk_at(post, p) {
            let i = choose|i: int| 0 <= i < post.len() && post[i].position == p;
            if i != ci {
                assert(pre[i].position == p);
            }
        }
        if has_chunk_at(pre, p) {
            let i = choose|i: int| 0 <= i < pre.len() && pre[i].position == p;
            if i != ci {
                assert(post[i].position == p);
            } else {
                assert(post[ci].position == c.position);
                assert(p == c.position);
            }
        }
        if p == c.position {
            assert(post[ci].position == p);
        }
    } else {
        if has_chunk_at(post, p) {
            let i = choose|i: int| 0 <= i < post.len() && post[i].position == p;
            if i < pre.len() {
                assert(pre[i].position == p);
            }
        }
        if has_chunk_at(pre, p) {
            let i = choose|i: int| 0 <= i < pre.len() && pre[i].position == p;
            assert(post[i].position == p);
        }
        if p == c.position {
            assert(post[pre.len() as int].position == p);
        }
    }
}

/// Remove `p` from the set-like coordinate list `v`.
fn remove_coord(v: &mut Vec<Vec3i>, p: Vec3i)
    requires
        unique_coords(old(v)@),
    ensures
        forall|q: Vec3i| final(v)@.contains(q) <==> (old(v)@.contains(q) && q != p),
        unique_coords(final(v)@),
        coords_ok(old(v)@) ==> coords_ok(final(v)@),
{
    let mut i: usize = 0;
    let n = v.len();
    while i < n
        invariant
            i <= n,
            n == v@.len(),
            v@ == old(v)@,
            unique_coords(v@),
            forall|k: int| 0 <= k < i ==> v@[k] != p,
        decreases n - i,
    {
        if v[i] == p {
            v.remove(i);
            proof {
                let oldv = old(v)@;
                assert(v@ =~= oldv.subrange(0, i as int) + oldv.subrange(i + 1, oldv.len() as int));
                assert forall|q: Vec3i| v@.contains(q) <==> (oldv.contains(q) && q != p) by {
                    if v@.contains(q) {
                        let k = choose|k: int| 0 <= k < v@.len() && v@[k] == q;
                        if k < i {
                            assert(oldv[k] == q);
                        } else {
                            assert(oldv[k + 1] == q);
                        }
                        assert(oldv.contains(q));
                        assert(q != p);
                    }
                    if oldv.contains(q) && q != p {
                        let k = choose|k: int| 0 <= k < oldv.len() && oldv[k] == q;
                        if k < i {
                            assert(v@[k] == q);
                        } else {
                            assert(k != i);
                            assert(v@[k - 1] == q);
                        }
                        assert(v@.contains(q));
                    }
                }
                assert forall|a: int, b: int| 0 <= a < b < v@.len() implies v@[a] != v@[b] by {
                    let oa = if a < i {
                        a
                    } else {
                        a + 1
                    };
                    let ob = if b < i {
                        b
                    } else {
                        b + 1
                    };
                    assert(v@[a] == oldv[oa]);
                    assert(v@[b] == oldv[ob]);
                }
                assert forall|k: int| 0 <= k < v@.len() && coords_ok(oldv) implies coord_ok(
                    #[trigger] v@[k],
                ) by {
                    if k < i {
                        assert(v@[k] == oldv[k]);
                    } else {
                        assert(v@[k] == oldv[k + 1]);
                    }
                }
            }
            return ;
        }
        i += 1;
    }
    proof {
        assert forall|q: Vec3i| v@.contains(q) implies q != p by {
            let k = choose|k: int| 0 <= k < v@.len() && v@[k] == q;
        }
    }
}

/// Move up to `limit` coordinates from the front of `v` to the back of
/// `out`, keeping their order.
fn drain_front(v: &mut Vec<Vec3i>, limit: usize, out: &mut Vec<Vec3i>)
    ensures
        ({
            let k = vstd::math::min(limit as int, old(v)@.len() as int);
            &&& final(v)@ == old(v)@.skip(k)
            &&& final(out)@ == old(out)@ + old(v)@.take(k)
        }),
{
    let mut i: usize = 0;
    while i < limit && v.len() > 0
        invariant
            i <= limit,
            i <= old(v)@.len(),
            v@ == old(v)@.skip(i as int),
            out@ == old(out)@ + old(v)@.take(i as int),
        decreases limit - i,
    {
        let c = v.remove(0);
        out.push(c);
        proof {
            assert(c == old(v)@[i as int]);
            assert(v@ =~= old(v)@.skip(i as int + 1));
            assert(out@ =~= old(out)@ + old(v)@.take(i as int + 1));
        }
        i += 1;
    }
    proof {
        let k = vstd::math::min(limit as int, old(v)@.len() as int);
        if i < limit {
            assert(v@.len() == 0);
            assert(i == old(v)@.len());
        }
        assert(i as int == k);
    }
}

/// The first `k` elements of `s` come before the rest: dropping them keeps
/// uniqueness and the coordinate bound.
proof fn lemma_skip_keeps_sets(s: Seq<Vec3i>, k: int)
    requires
        0 <= k <= s.len(),
        unique_coords(s),
        coords_ok(s),
    ensures
        unique_coords(s.skip(k)),
        coords_ok(s.skip(k)),
{
    assert forall|i: int, j: int| 0 <= i < j < s.skip(k).len() implies s.skip(k)[i] != s.skip(
        k,
    )[j] by {
        assert(s.skip(k)[i] == s[i + k]);
        assert(s.skip(k)[j] == s[j + k]);
    }
    assert forall|i: int| 0 <= i < s.skip(k).len() implies coord_ok(#[trigger] s.skip(k)[i]) by {
        assert(s.skip(k)[i] == s[i + k]);
    }
}

/// True when `v` holds `p`.
fn coords_contains(v: &Vec<Vec3i>, p: Vec3i) -> (r: bool)
    ensures
        r == v@.contains(p),
{
    let mut i: usize = 0;
    let n = v.len();
    while i < n
        invariant
            i <= n,
            n == v@.len(),
            forall|k: int| 0 <= k < i ==> v@[k] != p,
        decreases n - i,
    {
        if v[i] == p {
            proof {
                assert(v@.contains(p));
            }
            return true;
        }
        i += 1;
    }
    false
}

/// Insert `p` into the set-like coordinate list `v` unless already present.
fn insert_coord(v: &mut Vec<Vec3i>, p: Vec3i)
    ensures
        final(v)@ == if old(v)@.contains(p) {
            old(v)@
        } else {
            old(v)@.push(p)
        },
        forall|q: Vec3i| final(v)@.contains(q) <==> (old(v)@.contains(q) || q == p),
        unique_coords(old(v)@) ==> unique_coords(final(v)@),
        coords_ok(old(v)@) && coord_ok(p) ==> coords_ok(final(v)@),
{
    if !coords_contains(v, p) {
        v.push(p);
        proof {
            assert forall|q: Vec3i| v@.contains(q) <==> (old(v)@.contains(q) || q == p) by {
                if old(v)@.contains(q) {
                    let k = choose|k: int| 0 <= k < old(v)@.len() && old(v)@[k] == q;
                    assert(v@[k] == q);
                }
                if q == p {
                    assert(v@[old(v)@.len() as int] == p);
                }
                if v@.contains(q) {
                    let k = choose|k: int| 0 <= k < v@.len() && v@[k] == q;
                    if k < old(v)@.len() {
                        assert(old(v)@[k] == q);
                    }
                }
            }
        }
    } else {
        proof {
            assert forall|q: Vec3i| v@.contains(q) <==> (old(v)@.contains(q) || q == p) by {}
        }
    }
}

} // verus!
