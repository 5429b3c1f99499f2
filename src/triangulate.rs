use vstd::prelude::*;

use crate::geometry::{fan_area, lemma_fan_area, ring_points, shoelace, Point};
use crate::mesh::{total_area, MeshMerger, Polygon};

verus! {

/// A triangle soup: every three consecutive indices are one triangle.
#[derive(Clone, Debug)]
pub struct TriangleMesh {
    pub indices: Vec<u32>,
    pub positions: Vec<Point>,
}

/// The fan triangles (r0, r[t-1], r[t]) for 2 <= t <= k, flattened.
pub open spec fn fan_upto(ring: Seq<u32>, k: int) -> Seq<u32>
    decreases k,
{
    if k < 2 {
        Seq::empty()
    } else {
        fan_upto(ring, k - 1) + seq![ring[0], ring[k - 1], ring[k]]
    }
}

/// The fan triangulation of a convex polygon, flattened.
pub open spec fn fan(ring: Seq<u32>) -> Seq<u32> {
    fan_upto(ring, ring.len() - 1)
}

/// The fans of the first `k` polygons, one after the other.
pub open spec fn all_fans(polys: Seq<Polygon>, k: int) -> Seq<u32>
    decreases k,
{
    if k <= 0 {
        Seq::empty()
    } else {
        all_fans(polys, k - 1) + fan(polys[k - 1].vertices@)
    }
}

/// Sum of twice the signed areas of the triangles of a flat index list.
pub open spec fn triangles_area(pts: Seq<Point>, idx: Seq<u32>) -> int
    decreases idx.len(),
{
    if idx.len() < 3 {
        0
    } else {
        let n = idx.len() as int;
        triangles_area(pts, idx.subrange(0, n - 3)) + shoelace(
            seq![pts[idx[n - 3] as int], pts[idx[n - 2] as int], pts[idx[n - 1] as int]],
        )
    }
}

/// Fan-triangulates every polygon of the mesh, keeping the winding.
pub fn triangulate(mesh: &MeshMerger) -> (r: TriangleMesh)
    requires
        mesh.wf(),
    ensures
        r.positions@ == mesh.points(),
        r.indices@ == all_fans(mesh.mesh_polygons@, mesh.mesh_polygons.len() as int),
        triangles_area(r.positions@, r.indices@) == mesh.mesh_area(),
{
    let mut positions: Vec<Point> = Vec::new();
    let mut v: usize = 0;
    while v < mesh.mesh_vertices.len()
        invariant
            0 <= v <= mesh.mesh_vertices.len(),
            positions@ == mesh.points().subrange(0, v as int),
        decreases mesh.mesh_vertices.len() - v,
    {
        positions.push(mesh.mesh_vertices[v].p);
        v = v + 1;
        proof {
            assert(positions@ =~= mesh.points().subrange(0, v as int));
        }
    }
    proof {
        assert(positions@ =~= mesh.points());
    }
    let ghost pts = mesh.points();
    let ghost polys = mesh.mesh_polygons@;
    let mut indices: Vec<u32> = Vec::new();
    let mut k: usize = 0;
    while k < mesh.mesh_polygons.len()
        invariant
            mesh.wf(),
            positions@ == pts,
            pts == mesh.points(),
            polys == mesh.mesh_polygons@,
            0 <= k <= polys.len(),
            indices@ == all_fans(polys, k as int),
            triangles_area(pts, indices@) == total_area(polys.subrange(0, k as int)),
        decreases polys.len() - k,
    {
        let ring = &mesh.mesh_polygons[k].vertices;
        let m = ring.len();
        let ghost s = ring_points(pts, ring@);
        let ghost base = indices@;
        let ghost area0 = triangles_area(pts, indices@);
        proof {
            assert(mesh.polygon_wf(k as int));
        }
        if m >= 3 {
            let mut t: usize = 2;
            while t < m
                invariant
                    2 <= t <= m,
                    m == ring.len(),
                    ring == mesh.mesh_polygons@[k as int].vertices,
                    s == ring_points(pts, ring@),
                    mesh.polygon_wf(k as int),
                    mesh.wf(),
                    pts == mesh.points(),
                    indices@ == base + fan_upto(ring@, t - 1),
                    triangles_area(pts, indices@) == area0 + fan_area(s, t - 1),
                decreases m - t,
            {
                let ghost before = indices@;
                indices.push(ring[0]);
                indices.push(ring[t - 1]);
                indices.push(ring[t]);
                proof {
                    assert(indices@ =~= before + seq![ring@[0], ring@[t - 1], ring@[t as int]]);
                    assert(indices@.subrange(0, indices.len() - 3) =~= before);
                    assert(seq![pts[ring@[0] as int], pts[ring@[t - 1] as int], pts[ring@[t as int] as int]]
                        =~= seq![s[0], s[t - 1], s[t as int]]);
                    assert(indices@ =~= base + fan_upto(ring@, t as int));
                }
                t = t + 1;
            }
        }
        proof {
            lemma_fan_area(s);
            if m < 3 {
                assert(fan_upto(ring@, m - 1) =~= Seq::<u32>::empty());
                assert(indices@ =~= base + fan_upto(ring@, m - 1));
                if m == 2 {
                    assert(fan_area(s, 1) == 0);
                }
            }
            assert(polys.subrange(0, k + 1).drop_last() =~= polys.subrange(0, k as int));
            assert(indices@ == all_fans(polys, k + 1));
        }
        k = k + 1;
    }
    proof {
        assert(polys.subrange(0, polys.len() as int) =~= polys);
    }
    TriangleMesh { indices, positions }
}

} // verus!
