use vstd::prelude::*;

use crate::geometry::{
    convex, determinant, is_cw, lemma_det_bound, lemma_path_bound, lemma_shoelace_bound, nx, path,
    polygon_double_area, ring_points, wrap, Point,
};
use crate::union_find::UnionFind;

verus! {

/// A vertex of the mesh.
#[derive(Clone, Debug)]
pub struct Vertex {
    pub p: Point,
    /// Ids of the polygons around this vertex, -1 standing for the outside.
    pub polygons: Vec<i32>,
}

/// A convex face of the mesh.
#[derive(Clone, Debug)]
pub struct Polygon {
    /// Number of entries of `polygons` that are not -1.
    pub num_traversable: usize,
    /// Twice the signed area.
    pub area: i128,
    /// Vertex ids, counter-clockwise.
    pub vertices: Vec<u32>,
    /// `polygons[i]` is the polygon across the edge from `vertices[i]` to the
    /// next vertex, or -1. It may be an id that has since been merged away:
    /// resolve it through the mesh's union-find.
    pub polygons: Vec<i32>,
}

/// A legal merge found by `can_merge`.
#[derive(Clone, Copy, Debug, PartialEq, Eq, Structural)]
pub struct MergeInfo {
    pub polygon_to: i32,
    /// Index of the start vertex of the shared edge within the polygon we merge into.
    pub to_index: usize,
    /// The polygon we merge from (a surviving id).
    pub polygon_from: i32,
    /// Index of the same vertex within the polygon we merge from.
    pub from_index: usize,
}

/// Why an edge cannot be merged across.
#[derive(Clone, Copy, Debug, PartialEq, Eq, Structural)]
pub enum ImpossibleMergeInfo {
    /// The polygon has itself been merged into another.
    ToMergedIntoOther,
    /// There is no polygon across the edge.
    NoNeighbour,
    /// The union would turn clockwise at the start vertex of the shared edge.
    FirstVertexClockwise,
    /// The union would turn clockwise at the end vertex of the shared edge.
    SecondVertexClockwise,
    /// The two polygons' adjacency records disagree.
    Corrupt,
}

/// Circular get: the element at `index` modulo the length.
pub fn getc<T: Copy>(vec: &Vec<T>, index: u32) -> (r: T)
    requires
        vec.len() > 0,
    ensures
        r == vec@[(index as int) % (vec.len() as int)],
{
    vec[index as usize % vec.len()]
}

/// Number of entries that are not -1.
pub open spec fn count_traversable(s: Seq<i32>) -> nat
    decreases s.len(),
{
    if s.len() == 0 {
        0
    } else {
        count_traversable(s.drop_last()) + if s.last() != -1 {
            1nat
        } else {
            0nat
        }
    }
}

/// Index of the first `v` in `s`, or `s.len()` when there is none.
pub open spec fn first_index(s: Seq<u32>, v: u32) -> int
    decreases s.len(),
{
    if s.len() == 0 {
        0
    } else if s[0] == v {
        0
    } else {
        1 + first_index(s.drop_first(), v)
    }
}

pub proof fn lemma_first_index(s: Seq<u32>, v: u32, i: int)
    requires
        0 <= i <= s.len(),
        forall|k: int| 0 <= k < i ==> s[k] != v,
        i == s.len() || s[i] == v,
    ensures
        first_index(s, v) == i,
    decreases s.len(),
{
    if s.len() > 0 && i > 0 {
        lemma_first_index(s.drop_first(), v, i - 1);
    }
}

pub proof fn lemma_first_index_found(s: Seq<u32>, v: u32)
    ensures
        0 <= first_index(s, v) <= s.len(),
        first_index(s, v) < s.len() ==> s[first_index(s, v)] == v,
        forall|k: int| 0 <= k < first_index(s, v) ==> s[k] != v,
    decreases s.len(),
{
    if s.len() > 0 && s[0] != v {
        lemma_first_index_found(s.drop_first(), v);
        assert forall|k: int| 0 <= k < first_index(s, v) implies s[k] != v by {
            if k > 0 {
                assert(s[k] == s.drop_first()[k - 1]);
            }
        }
    }
}

/// The ring `x` walked from just after index `i` all the way round to just
/// before it, then `y` walked from index `j` to just before `j`.
pub open spec fn splice<T>(x: Seq<T>, i: int, y: Seq<T>, j: int) -> Seq<T> {
    Seq::new((x.len() - 1) as nat, |k: int| x[wrap(i + 1 + k, x.len() as int)]) + Seq::new(
        (y.len() - 1) as nat,
        |k: int| y[wrap(j + k, y.len() as int)],
    )
}

/// Sum of the `area` fields.
pub open spec fn total_area(polys: Seq<Polygon>) -> int
    decreases polys.len(),
{
    if polys.len() == 0 {
        0
    } else {
        total_area(polys.drop_last()) + polys.last().area
    }
}

pub proof fn lemma_total_area_update(polys: Seq<Polygon>, k: int, p: Polygon)
    requires
        0 <= k < polys.len(),
    ensures
        total_area(polys.update(k, p)) == total_area(polys) - polys[k].area + p.area,
    decreases polys.len(),
{
    let u = polys.update(k, p);
    if k == polys.len() - 1 {
        assert(u.drop_last() =~= polys.drop_last());
    } else {
        lemma_total_area_update(polys.drop_last(), k, p);
        assert(u.drop_last() =~= polys.drop_last().update(k, p));
    }
}

/// The mesh being merged.
#[derive(Clone, Debug)]
pub struct MeshMerger {
    pub mesh_vertices: Vec<Vertex>,
    pub mesh_polygons: Vec<Polygon>,
    pub polygon_unions: UnionFind,
}

impl MeshMerger {
    /// Twice the signed area of the polygon `area` (a ring of vertex ids).
    pub fn get_area(mesh_vertices: &Vec<Vertex>, area: &Vec<u32>) -> (r: i128)
        requires
            forall|k: int| 0 <= k < area.len() ==> (area[k] as int) < mesh_vertices.len(),
        ensures
            r == polygon_double_area(mesh_vertices@.map_values(|v: Vertex| v.p), area@),
    {
        let ring = area;
        let ghost pts = mesh_vertices@.map_values(|v: Vertex| v.p);
        let n = ring.len();
        if n == 0 {
            return 0;
        }
        let ghost s = ring_points(pts, ring@);
        let mut out: i128 = 0;
        let mut i: usize = 1;
        while i < n
            invariant
                1 <= i <= n,
                n == ring.len(),
                pts == mesh_vertices@.map_values(|v: Vertex| v.p),
                s == ring_points(pts, ring@),
                forall|k: int| 0 <= k < ring.len() ==> (ring[k] as int) < mesh_vertices.len(),
                out == path(s.subrange(0, i as int)),
            decreases n - i,
        {
            let a = mesh_vertices[ring[i - 1] as usize].p;
            let b = mesh_vertices[ring[i] as usize].p;
            proof {
                assert(s.subrange(0, i + 1).drop_last() =~= s.subrange(0, i as int));
                lemma_path_bound(s.subrange(0, i as int));
                lemma_det_bound(a, b);
                assert(0x8000_0000_0000_0000 * (i - 1) <= 0x8000_0000_0000_0000 * 0xffff_ffff_ffff_fffe)
                    by (nonlinear_arith)
                    requires
                        i <= 0xffff_ffff_ffff_ffff,
                ;
            }
            out = out + determinant(&a, &b);
            i = i + 1;
        }
        let a = mesh_vertices[ring[n - 1] as usize].p;
        let b = mesh_vertices[ring[0] as usize].p;
        proof {
            assert(s.subrange(0, n as int) =~= s);
            lemma_shoelace_bound(s);
            assert(0x8000_0000_0000_0000 * n <= 0x8000_0000_0000_0000 * 0xffff_ffff_ffff_ffff)
                by (nonlinear_arith)
                requires
                    n <= 0xffff_ffff_ffff_ffff,
            ;
            lemma_det_bound(a, b);
        }
        out + determinant(&a, &b)
    }

    pub open spec fn points(&self) -> Seq<Point> {
        self.mesh_vertices@.map_values(|v: Vertex| v.p)
    }

    pub open spec fn ring(&self, k: int) -> Seq<u32> {
        self.mesh_polygons@[k].vertices@
    }

    pub open spec fn nbrs(&self, k: int) -> Seq<i32> {
        self.mesh_polygons@[k].polygons@
    }

    /// The points of polygon `k`, in order.
    pub open spec fn ring_pts(&self, k: int) -> Seq<Point> {
        ring_points(self.points(), self.ring(k))
    }

    /// Polygon `k` has not been merged into another.
    pub open spec fn is_live(&self, k: int) -> bool {
        self.polygon_unions@[k] == k
    }

    pub open spec fn root(&self, x: int) -> int {
        self.polygon_unions.root(x)
    }

    pub open spec fn polygon_wf(&self, k: int) -> bool {
        let p = self.mesh_polygons@[k];
        &&& p.vertices.len() == p.polygons.len()
        &&& self.is_live(k) ==> p.vertices.len() >= 3
        &&& self.is_live(k) ==> p.area > 0
        &&& !self.is_live(k) ==> p.vertices.len() == 0
        &&& forall|t: int| 0 <= t < p.vertices.len() ==> (#[trigger] p.vertices@[t] as int) < self.mesh_vertices.len()
        &&& forall|t: int|
            0 <= t < p.polygons.len() ==> -1 <= #[trigger] p.polygons@[t] < self.mesh_polygons.len()
        &&& p.area == polygon_double_area(self.points(), p.vertices@)
        &&& p.num_traversable == count_traversable(p.polygons@)
    }

    /// The tables agree: ids are in range, rings and neighbor lists have the
    /// same length, live polygons have at least three vertices and merged ones
    /// none, and each polygon's recorded area is its true doubled area.
    pub open spec fn wf(&self) -> bool {
        &&& self.polygon_unions.wf()
        &&& self.polygon_unions@.len() == self.mesh_polygons.len()
        &&& self.mesh_vertices.len() <= u32::MAX
        &&& forall|k: int| 0 <= k < self.mesh_polygons.len() ==> #[trigger] self.polygon_wf(k)
        &&& forall|v: int| 0 <= v < self.mesh_vertices.len() ==> #[trigger] self.vertex_wf(v)
    }

    /// The polygons listed around vertex `v` are -1 or ids of the table.
    pub open spec fn vertex_wf(&self, v: int) -> bool {
        forall|t: int|
            0 <= t < self.mesh_vertices@[v].polygons.len() ==> -1 <= #[trigger] self.mesh_vertices@[v].polygons@[t]
                < self.mesh_polygons.len()
    }

    /// What `can_merge(a, i)` answers.
    pub open spec fn merge_outcome(&self, a: int, i: int) -> Result<MergeInfo, ImpossibleMergeInfo> {
        if !self.is_live(a) {
            Err(ImpossibleMergeInfo::ToMergedIntoOther)
        } else {
            let ra = self.ring(a);
            let m = ra.len() as int;
            let b = self.root(self.nbrs(a)[i] as int);
            if b == -1 {
                Err(ImpossibleMergeInfo::NoNeighbour)
            } else {
                let rb = self.ring(b);
                let n = rb.len() as int;
                let j = first_index(rb, ra[i]);
                let pts = self.points();
                if n == 0 {
                    Err(ImpossibleMergeInfo::NoNeighbour)
                } else if b == a || j >= n || rb[wrap(j + n - 1, n)] != ra[nx(i, m)] || self.root(
                    self.nbrs(b)[wrap(j + n - 1, n)] as int,
                ) != a {
                    Err(ImpossibleMergeInfo::Corrupt)
                } else if is_cw(
                    pts[ra[wrap(i + m - 1, m)] as int],
                    pts[ra[i] as int],
                    pts[rb[nx(j, n)] as int],
                ) {
                    Err(ImpossibleMergeInfo::FirstVertexClockwise)
                } else if is_cw(
                    pts[rb[wrap(j + n - 2, n)] as int],
                    pts[ra[nx(i, m)] as int],
                    pts[ra[nx(nx(i, m), m)] as int],
                ) {
                    Err(ImpossibleMergeInfo::SecondVertexClockwise)
                } else {
                    Ok(
                        MergeInfo {
                            polygon_to: a as i32,
                            to_index: i as usize,
                            polygon_from: b as i32,
                            from_index: j as usize,
                        },
                    )
                }
            }
        }
    }

    /// `can_merge(a, i)` may be asked.
    pub open spec fn edge_in_range(&self, a: int, i: int) -> bool {
        &&& 0 <= a < self.mesh_polygons.len()
        &&& 0 <= i
        &&& self.is_live(a) ==> i < self.ring(a).len()
    }

    /// Every polygon is convex.
    pub open spec fn all_convex(&self) -> bool {
        forall|k: int| 0 <= k < self.mesh_polygons.len() ==> convex(#[trigger] self.ring_pts(k))
    }

    /// Sum of the doubled areas of the polygons.
    pub open spec fn mesh_area(&self) -> int {
        total_area(self.mesh_polygons@)
    }

    /// `can_merge(a, i)` turns the edge down for a geometric or topological
    /// reason (not because the tables are corrupt).
    pub open spec fn rejects(&self, a: int, i: int) -> bool {
        &&& self.merge_outcome(a, i) is Err
        &&& self.merge_outcome(a, i)->Err_0 != ImpossibleMergeInfo::Corrupt
    }

    /// No edge of a live polygon admits a legal merge.
    pub open spec fn is_fixed_point(&self) -> bool {
        forall|a: int, i: int|
            0 <= a < self.mesh_polygons.len() && self.is_live(a) && 0 <= i < self.ring(a).len()
                ==> #[trigger] self.rejects(a, i)
    }
}

} // verus!
