use vstd::prelude::*;

use crate::geometry::{
    convex, cw, lemma_convex_glue, lemma_convex_rot, lemma_shoelace_bound, lemma_shoelace_glue,
    lemma_shoelace_rot, polygon_double_area, ring_points, rot, wrap, Point,
};
use crate::compact::{lemma_live_count_drop, lemma_live_count_pos, live_count};
use crate::mesh::{
    count_traversable, lemma_first_index, lemma_first_index_found, lemma_total_area_update, splice,
    ImpossibleMergeInfo, MergeInfo, MeshMerger, Polygon,
};

verus! {

/// The splice of two vertex rings stands for the two point rings, rotated to
/// the shared edge and glued along it.
proof fn lemma_splice_points(pts: Seq<Point>, ra: Seq<u32>, i: int, rb: Seq<u32>, j: int)
    requires
        ra.len() >= 3,
        rb.len() >= 3,
        0 <= i < ra.len(),
        0 <= j < rb.len(),
    ensures
        ring_points(pts, splice(ra, i, rb, j)) == rot(ring_points(pts, ra), wrap(i + 1, ra.len() as int)).drop_last()
            + rot(ring_points(pts, rb), j).drop_last(),
{
    let m = ra.len() as int;
    let x = rot(ring_points(pts, ra), wrap(i + 1, m));
    let y = rot(ring_points(pts, rb), j);
    let z = ring_points(pts, splice(ra, i, rb, j));
    assert forall|k: int| 0 <= k < z.len() implies z[k] == (x.drop_last() + y.drop_last())[k] by {
        if k < m - 1 {
            assert(wrap(k + wrap(i + 1, m), m) == wrap(i + 1 + k, m));
        }
    }
    assert(z =~= x.drop_last() + y.drop_last());
}

/// Every element of `s` is still in `t`.
pub open spec fn keeps_all(s: Seq<i32>, t: Seq<i32>) -> bool {
    forall|x: i32| s.contains(x) ==> t.contains(x)
}

/// Polygon `x` comes no later than polygon `y` in the merge order: smaller
/// area first, lower id first among equal areas.
pub open spec fn key_le(polys: Seq<Polygon>, x: i32, y: i32) -> bool {
    polys[x as int].area < polys[y as int].area || (polys[x as int].area == polys[y as int].area
        && x <= y)
}

/// The polygon ids `ids` are in merge order.
pub open spec fn sorted_by_area(ids: Seq<i32>, polys: Seq<Polygon>) -> bool {
    forall|a: int, b: int|
        #![trigger ids[a], ids[b]]
        0 <= a < b < ids.len() ==> key_le(polys, ids[a], ids[b])
}

fn key_gt(polys: &Vec<Polygon>, x: i32, y: i32) -> (r: bool)
    requires
        0 <= x < polys.len(),
        0 <= y < polys.len(),
    ensures
        r == !key_le(polys@, x, y),
{
    let ax = polys[x as usize].area;
    let ay = polys[y as usize].area;
    ax > ay || (ax == ay && x > y)
}

proof fn lemma_swap_keeps(s: Seq<i32>, a: int, b: int)
    requires
        0 <= a < s.len(),
        0 <= b < s.len(),
    ensures
        keeps_all(s, s.update(a, s[b]).update(b, s[a])),
{
    let t = s.update(a, s[b]).update(b, s[a]);
    assert forall|x: i32| s.contains(x) implies t.contains(x) by {
        let k = choose|k: int| 0 <= k < s.len() && s[k] == x;
        if k == a {
            assert(t[b] == x);
        } else if k == b {
            assert(t[a] == x);
        } else {
            assert(t[k] == x);
        }
    }
}

/// Sorts polygon ids into merge order: ascending area, then id.
fn sort_by_area(ids: &mut Vec<i32>, polys: &Vec<Polygon>)
    requires
        forall|k: int| 0 <= k < old(ids).len() ==> 0 <= #[trigger] old(ids)@[k] < polys.len(),
    ensures
        final(ids).len() == old(ids).len(),
        keeps_all(old(ids)@, final(ids)@),
        forall|k: int| 0 <= k < final(ids).len() ==> 0 <= #[trigger] final(ids)@[k] < polys.len(),
        sorted_by_area(final(ids)@, polys@),
{
    let ghost s0 = ids@;
    let n = ids.len();
    let mut i: usize = 1;
    while i < n
        invariant
            ids.len() == n,
            n == s0.len(),
            1 <= i || n == 0,
            i <= n || n == 0,
            keeps_all(s0, ids@),
            forall|k: int| 0 <= k < n ==> 0 <= #[trigger] ids@[k] < polys.len(),
            forall|a: int, b: int|
                #![trigger ids@[a], ids@[b]]
                0 <= a < b < i && b < n ==> key_le(polys@, ids@[a], ids@[b]),
        decreases n - i,
    {
        let mut j: usize = i;
        while j > 0 && key_gt(polys, ids[j - 1], ids[j])
            invariant
                ids.len() == n,
                0 <= j <= i < n,
                keeps_all(s0, ids@),
                forall|k: int| 0 <= k < n ==> 0 <= #[trigger] ids@[k] < polys.len(),
                forall|a: int, b: int|
                    #![trigger ids@[a], ids@[b]]
                    0 <= a < b < j ==> key_le(polys@, ids@[a], ids@[b]),
                forall|a: int, b: int|
                    #![trigger ids@[a], ids@[b]]
                    j <= a < b <= i ==> key_le(polys@, ids@[a], ids@[b]),
                forall|a: int, b: int|
                    #![trigger ids@[a], ids@[b]]
                    0 <= a < j && j < b <= i ==> key_le(polys@, ids@[a], ids@[b]),
            decreases j,
        {
            let ghost before = ids@;
            let x = ids[j - 1];
            let y = ids[j];
            ids.set(j - 1, y);
            ids.set(j, x);
            proof {
                lemma_swap_keeps(before, j - 1, j as int);
                assert(ids@ == before.update(j - 1, before[j as int]).update(j as int, before[j - 1]));
            }
            j = j - 1;
        }
        proof {
            assert forall|a: int, b: int|
                #![trigger ids@[a], ids@[b]]
                0 <= a < b <= i implies key_le(polys@, ids@[a], ids@[b]) by {
                if b == j && a < j {
                    assert(key_le(polys@, ids@[a], ids@[j - 1]));
                }
            }
        }
        i = i + 1;
    }
}

proof fn lemma_remove_keeps(s: Seq<i32>, p: int, x: i32)
    requires
        0 <= p < s.len(),
        s.contains(x),
        s[p] != x,
    ensures
        s.remove(p).contains(x),
{
    let k = choose|k: int| 0 <= k < s.len() && s[k] == x;
    if k < p {
        assert(s.remove(p)[k] == x);
    } else {
        assert(s.remove(p)[k - 1] == x);
    }
}

/// `s2` is `s` after the merge `info`: the union polygon in the slot of
/// `polygon_to`, the slot of `polygon_from` emptied, every other polygon and
/// the vertex table unchanged, and `polygon_from`'s set joined to `polygon_to`.
pub open spec fn merge_post(s: MeshMerger, s2: MeshMerger, info: MergeInfo) -> bool {
    &&& s2.mesh_vertices@ == s.mesh_vertices@
    &&& s2.mesh_polygons.len() == s.mesh_polygons.len()
    &&& s2.ring(info.polygon_to as int) == splice(
            s.ring(info.polygon_to as int),
            info.to_index as int,
            s.ring(info.polygon_from as int),
            info.from_index as int,
        )
    &&& s2.nbrs(info.polygon_to as int) == splice(
            s.nbrs(info.polygon_to as int),
            info.to_index as int,
            s.nbrs(info.polygon_from as int),
            info.from_index as int,
        )
    &&& s2.mesh_polygons@[info.polygon_to as int].area == s.mesh_polygons@[info.polygon_to as int].area
            + s.mesh_polygons@[info.polygon_from as int].area
    &&& polygon_double_area(s2.points(), s2.ring(info.polygon_to as int))
            == polygon_double_area(s.points(), s.ring(info.polygon_to as int))
            + polygon_double_area(
            s.points(),
            s.ring(info.polygon_from as int),
        )
    &&& s2.ring(info.polygon_from as int).len() == 0
    &&& s2.nbrs(info.polygon_from as int).len() == 0
    &&& s2.mesh_polygons@[info.polygon_from as int].area == 0
    &&& forall|k: int|
            0 <= k < s.mesh_polygons.len() && k != info.polygon_to && k != info.polygon_from
                ==> s2.mesh_polygons@[k] == s.mesh_polygons@[k]
    &&& s2.polygon_unions@ == s.polygon_unions@.map_values(
            |p: i32|
                if p == info.polygon_from {
                    info.polygon_to
                } else {
                    p
                },
        )
}

/// `(a, i)` is the merge the driver makes next: among live polygons in merge
/// order (ascending area, then id), `a` is the first with a legal edge and
/// `i` its first legal edge; every edge before it is turned down.
pub open spec fn is_next_merge(m: MeshMerger, a: int, i: int) -> bool {
    &&& 0 <= a < m.mesh_polygons.len()
    &&& m.is_live(a)
    &&& 0 <= i < m.ring(a).len()
    &&& m.merge_outcome(a, i) is Ok
    &&& forall|e: int| 0 <= e < i ==> #[trigger] m.rejects(a, e)
    &&& forall|b: int, e: int|
        0 <= b < m.mesh_polygons.len() && m.is_live(b) && !key_le(m.mesh_polygons@, a as i32, b as i32)
            && 0 <= e < m.ring(b).len() ==> #[trigger] m.rejects(b, e)
}

/// One step of the driver: the next merge, applied.
pub open spec fn driver_step(s: MeshMerger, s2: MeshMerger) -> bool {
    exists|a: int, i: int|
        #[trigger] is_next_merge(s, a, i) && merge_post(s, s2, s.merge_outcome(a, i)->Ok_0)
}

/// `tr` runs from `s` to `s2` by driver steps.
pub open spec fn trace_from(tr: Seq<MeshMerger>, s: MeshMerger, s2: MeshMerger) -> bool {
    &&& tr.len() >= 1
    &&& tr[0] == s
    &&& tr[tr.len() - 1] == s2
    &&& forall|t: int| 0 <= t < tr.len() - 1 ==> #[trigger] driver_step(tr[t], tr[t + 1])
}

impl MeshMerger {
    /// Can polygon `polygon_to_index` merge with the polygon across its edge
    /// starting at `vertex_to_index`, keeping the union convex?
    pub fn can_merge(&self, polygon_to_index: i32, vertex_to_index: usize) -> (r: Result<
        MergeInfo,
        ImpossibleMergeInfo,
    >)
        requires
            self.wf(),
            self.edge_in_range(polygon_to_index as int, vertex_to_index as int),
        ensures
            r == self.merge_outcome(polygon_to_index as int, vertex_to_index as int),
    {
        let a = polygon_to_index;
        if self.polygon_unions.find(a) != a {
            return Err(ImpossibleMergeInfo::ToMergedIntoOther);
        }
        proof {
            assert(self.polygon_wf(a as int));
        }
        let pa = &self.mesh_polygons[a as usize];
        let m = pa.vertices.len();
        let i = vertex_to_index;
        let b = self.polygon_unions.find(pa.polygons[i]);
        if b == -1 {
            return Err(ImpossibleMergeInfo::NoNeighbour);
        }
        proof {
            assert(self.polygon_wf(b as int));
            assert(self.is_live(b as int));
        }
        let pb = &self.mesh_polygons[b as usize];
        let n = pb.vertices.len();
        if n == 0 {
            return Err(ImpossibleMergeInfo::NoNeighbour);
        }
        if b == a {
            return Err(ImpossibleMergeInfo::Corrupt);
        }
        let here = pa.vertices[i];
        let mut j: usize = 0;
        while j < n && pb.vertices[j] != here
            invariant
                0 <= j <= n,
                n == pb.vertices.len(),
                forall|k: int| 0 <= k < j ==> pb.vertices@[k] != here,
            decreases n - j,
        {
            j = j + 1;
        }
        proof {
            lemma_first_index(pb.vertices@, here, j as int);
        }
        if j == n {
            return Err(ImpossibleMergeInfo::Corrupt);
        }
        let jp = if j == 0 {
            n - 1
        } else {
            j - 1
        };
        let inx = if i + 1 < m {
            i + 1
        } else {
            0
        };
        if pb.vertices[jp] != pa.vertices[inx] {
            return Err(ImpossibleMergeInfo::Corrupt);
        }
        if self.polygon_unions.find(pb.polygons[jp]) != a {
            return Err(ImpossibleMergeInfo::Corrupt);
        }
        let ip = if i == 0 {
            m - 1
        } else {
            i - 1
        };
        let jn = if j + 1 < n {
            j + 1
        } else {
            0
        };
        if cw(
            &self.mesh_vertices[pa.vertices[ip] as usize].p,
            &self.mesh_vertices[here as usize].p,
            &self.mesh_vertices[pb.vertices[jn] as usize].p,
        ) {
            return Err(ImpossibleMergeInfo::FirstVertexClockwise);
        }
        let jpp = if j >= 2 {
            j - 2
        } else {
            n - 2 + j
        };
        let inn = if inx + 1 < m {
            inx + 1
        } else {
            0
        };
        if cw(
            &self.mesh_vertices[pb.vertices[jpp] as usize].p,
            &self.mesh_vertices[pa.vertices[inx] as usize].p,
            &self.mesh_vertices[pa.vertices[inn] as usize].p,
        ) {
            return Err(ImpossibleMergeInfo::SecondVertexClockwise);
        }
        Ok(
            MergeInfo {
                polygon_to: a,
                to_index: vertex_to_index,
                polygon_from: b,
                from_index: j,
            },
        )
    }

    /// Writes the union of the two polygons of a legal merge into the slot of
    /// `polygon_to` and empties the slot of `polygon_from`.
    #[verifier::rlimit(40)]
    pub fn merge(&mut self, merge_info: &MergeInfo)
        requires
            old(self).wf(),
            old(self).edge_in_range(merge_info.polygon_to as int, merge_info.to_index as int),
            old(self).merge_outcome(merge_info.polygon_to as int, merge_info.to_index as int) == Ok::<
                MergeInfo,
                ImpossibleMergeInfo,
            >(*merge_info),
        ensures
            final(self).wf(),
            merge_post(*old(self), *final(self), *merge_info),
            convex(old(self).ring_pts(merge_info.polygon_to as int)) && convex(
                old(self).ring_pts(merge_info.polygon_from as int),
            ) ==> convex(final(self).ring_pts(merge_info.polygon_to as int)),
            old(self).all_convex() ==> final(self).all_convex(),
            final(self).mesh_area() == old(self).mesh_area(),
    {
        let ghost s0 = *self;
        let a = merge_info.polygon_to as usize;
        let b = merge_info.polygon_from as usize;
        let i = merge_info.to_index;
        let j = merge_info.from_index;
        proof {
            assert(s0.polygon_wf(a as int));
            assert(s0.polygon_wf(b as int));
            assert(s0.is_live(b as int));
            lemma_first_index_found(s0.ring(b as int), s0.ring(a as int)[i as int]);
        }
        let ghost ra = s0.ring(a as int);
        let ghost rb = s0.ring(b as int);
        let ghost na = s0.nbrs(a as int);
        let ghost nb = s0.nbrs(b as int);
        let m = self.mesh_polygons[a].vertices.len();
        let n = self.mesh_polygons[b].vertices.len();
        let mut verts: Vec<u32> = Vec::new();
        let mut nbrs: Vec<i32> = Vec::new();
        let mut nt: usize = 0;
        let mut k: usize = 0;
        while k < m - 1
            invariant
                *self == s0,
                0 <= k <= m - 1,
                m == ra.len(),
                m >= 3,
                0 <= i < m,
                0 <= a < self.mesh_polygons.len(),
                ra == self.mesh_polygons@[a as int].vertices@,
                na == self.mesh_polygons@[a as int].polygons@,
                na.len() == m,
                verts@ == Seq::new(k as nat, |u: int| ra[wrap(i + 1 + u, m as int)]),
                nbrs@ == Seq::new(k as nat, |u: int| na[wrap(i + 1 + u, m as int)]),
                nt == count_traversable(nbrs@),
                nt <= nbrs.len(),
            decreases m - 1 - k,
        {
            let idx = if k < m - 1 - i {
                i + 1 + k
            } else {
                k - (m - 1 - i)
            };
            verts.push(self.mesh_polygons[a].vertices[idx]);
            let q = self.mesh_polygons[a].polygons[idx];
            let ghost before = nbrs@;
            nbrs.push(q);
            proof {
                assert(nbrs@.drop_last() =~= before);
            }
            let len = nbrs.len();
            if q != -1 {
                nt = nt + 1;
            }
            k = k + 1;
            proof {
                assert(verts@ =~= Seq::new(k as nat, |u: int| ra[wrap(i + 1 + u, m as int)]));
                assert(nbrs@ =~= Seq::new(k as nat, |u: int| na[wrap(i + 1 + u, m as int)]));
            }
        }
        let ghost va = verts@;
        let ghost qa = nbrs@;
        k = 0;
        while k < n - 1
            invariant
                *self == s0,
                0 <= k <= n - 1,
                n == rb.len(),
                n >= 3,
                0 <= j < n,
                0 <= b < self.mesh_polygons.len(),
                rb == self.mesh_polygons@[b as int].vertices@,
                nb == self.mesh_polygons@[b as int].polygons@,
                nb.len() == n,
                verts@ == va + Seq::new(k as nat, |u: int| rb[wrap(j + u, n as int)]),
                nbrs@ == qa + Seq::new(k as nat, |u: int| nb[wrap(j + u, n as int)]),
                nt == count_traversable(nbrs@),
                nt <= nbrs.len(),
            decreases n - 1 - k,
        {
            let idx = if k < n - j {
                j + k
            } else {
                k - (n - j)
            };
            verts.push(self.mesh_polygons[b].vertices[idx]);
            let q = self.mesh_polygons[b].polygons[idx];
            let ghost before = nbrs@;
            nbrs.push(q);
            proof {
                assert(nbrs@.drop_last() =~= before);
            }
            let len = nbrs.len();
            if q != -1 {
                nt = nt + 1;
            }
            k = k + 1;
            proof {
                assert(verts@ =~= va + Seq::new(k as nat, |u: int| rb[wrap(j + u, n as int)]));
                assert(nbrs@ =~= qa + Seq::new(k as nat, |u: int| nb[wrap(j + u, n as int)]));
            }
        }
        proof {
            let pts = s0.points();
            let x = rot(ring_points(pts, ra), wrap(i + 1, m as int));
            let y = rot(ring_points(pts, rb), j as int);
            assert(verts@ =~= splice(ra, i as int, rb, j as int));
            assert(nbrs@ =~= splice(na, i as int, nb, j as int));
            lemma_splice_points(pts, ra, i as int, rb, j as int);
            lemma_shoelace_rot(ring_points(pts, ra), wrap(i + 1, m as int));
            lemma_shoelace_rot(ring_points(pts, rb), j as int);
            assert(rb[j as int] == ra[i as int]);
            assert(x[x.len() - 1] == y[0]);
            assert(y[y.len() - 1] == x[0]);
            lemma_shoelace_glue(x, y);
            lemma_shoelace_bound(ring_points(pts, verts@));
            assert(0x8000_0000_0000_0000 * verts.len() <= 0x8000_0000_0000_0000
                * 0xffff_ffff_ffff_ffff) by (nonlinear_arith)
                requires
                    verts.len() <= 0xffff_ffff_ffff_ffff,
            ;
            if convex(s0.ring_pts(a as int)) && convex(s0.ring_pts(b as int)) {
                lemma_convex_rot(ring_points(pts, ra), wrap(i + 1, m as int));
                lemma_convex_rot(ring_points(pts, rb), j as int);
                lemma_convex_glue(x, y);
            }
        }
        let area = self.mesh_polygons[a].area + self.mesh_polygons[b].area;
        let merged = Polygon { num_traversable: nt, area, vertices: verts, polygons: nbrs };
        let emptied = Polygon {
            num_traversable: 0,
            area: 0,
            vertices: Vec::new(),
            polygons: Vec::new(),
        };
        self.mesh_polygons.set(a, merged);
        let ghost s1 = *self;
        self.mesh_polygons.set(b, emptied);
        self.polygon_unions.merge(a as i32, b as i32);
        proof {
            assert(s0.is_live(b as int));
            assert(s0.is_live(a as int));
            assert(self.polygon_unions@ =~= s0.polygon_unions@.map_values(
                |p: i32|
                    if p == merge_info.polygon_from {
                        merge_info.polygon_to
                    } else {
                        p
                    },
            ));
            lemma_total_area_update(s0.mesh_polygons@, a as int, merged);
            lemma_total_area_update(s1.mesh_polygons@, b as int, emptied);
            assert(self.points() == s0.points());
            assert(emptied.polygons@ =~= Seq::<i32>::empty());
            assert(emptied.vertices@ =~= Seq::<u32>::empty());
            assert(ring_points(self.points(), emptied.vertices@) =~= Seq::<Point>::empty());
            assert forall|v: int| 0 <= v < self.mesh_vertices.len() implies #[trigger] self.vertex_wf(v) by {
                assert(s0.vertex_wf(v));
            }
            assert forall|k: int| 0 <= k < self.mesh_polygons.len() implies #[trigger] self.polygon_wf(k) by {
                if k != a && k != b {
                    assert(s0.polygon_wf(k));
                    assert(self.is_live(k) == s0.is_live(k));
                }
            }
            if s0.all_convex() {
                assert forall|k: int| 0 <= k < self.mesh_polygons.len() implies convex(
                    #[trigger] self.ring_pts(k),
                ) by {
                    if k != a && k != b {
                        assert(convex(s0.ring_pts(k)));
                    }
                }
            }
        }
    }

    /// Merges neighbouring polygons until no legal merge is left, smallest
    /// polygons first (ties by id), restarting the scan after every merge.
    /// Returns the number of merges, or `Corrupt` when adjacency records
    /// disagree.
    pub fn my_merge(&mut self) -> (r: Result<usize, ImpossibleMergeInfo>)
        requires
            old(self).wf(),
        ensures
            final(self).wf(),
            final(self).mesh_vertices@ == old(self).mesh_vertices@,
            final(self).mesh_polygons.len() == old(self).mesh_polygons.len(),
            old(self).all_convex() ==> final(self).all_convex(),
            final(self).mesh_area() == old(self).mesh_area(),
            r is Ok ==> final(self).is_fixed_point(),
            r is Ok ==> r->Ok_0 + live_count(*final(self)) == live_count(*old(self)),
            live_count(*old(self)) > 0 ==> live_count(*final(self)) > 0,
            exists|tr: Seq<MeshMerger>|
                #[trigger] trace_from(tr, *old(self), *final(self)) && (r is Ok ==> tr.len() == r->Ok_0
                    + 1),
            r is Err ==> r->Err_0 == ImpossibleMergeInfo::Corrupt && exists|a: int, i: int|
                final(self).edge_in_range(a, i) && final(self).merge_outcome(a, i) == Err::<
                    MergeInfo,
                    ImpossibleMergeInfo,
                >(ImpossibleMergeInfo::Corrupt),
    {
        let ghost s0 = *self;
        let np = self.mesh_polygons.len();
        let mut list: Vec<i32> = Vec::new();
        let mut k: usize = 0;
        while k < np
            invariant
                *self == s0,
                s0.wf(),
                np == s0.mesh_polygons.len(),
                0 <= k <= np,
                list.len() <= k,
                forall|t: int| 0 <= t < list.len() ==> 0 <= #[trigger] list@[t] < np,
                forall|c: int| 0 <= c < k && s0.is_live(c) ==> list@.contains(c as i32),
            decreases np - k,
        {
            if self.polygon_unions.find(k as i32) == k as i32 {
                let ghost before = list@;
                list.push(k as i32);
                proof {
                    assert(list@[list.len() - 1] == k as i32);
                    assert forall|c: int| 0 <= c < k + 1 && s0.is_live(c) implies list@.contains(c as i32) by {
                        if c < k {
                            let w = choose|w: int| 0 <= w < before.len() && before[w] == c as i32;
                            assert(list@[w] == c as i32);
                        }
                    }
                }
            }
            k = k + 1;
        }
        let mut changed = true;
        let mut count: usize = 0;
        let ghost mut tr: Seq<MeshMerger> = seq![s0];
        while changed
            invariant
                self.wf(),
                self.mesh_vertices@ == s0.mesh_vertices@,
                self.mesh_polygons.len() == np,
                np == s0.mesh_polygons.len(),
                s0 == *old(self),
                s0.all_convex() ==> self.all_convex(),
                self.mesh_area() == s0.mesh_area(),
                count + list.len() <= np,
                count + live_count(*self) == live_count(s0),
                live_count(s0) > 0 ==> live_count(*self) > 0,
                trace_from(tr, s0, *self),
                tr.len() == count + 1,
                forall|t: int| 0 <= t < list.len() ==> 0 <= #[trigger] list@[t] < np,
                forall|c: int| 0 <= c < np && self.is_live(c) ==> list@.contains(c as i32),
                !changed ==> self.is_fixed_point(),
            decreases 2 * list.len() + if changed {
                1int
            } else {
                0int
            },
        {
            changed = false;
            let ghost l0 = list@;
            sort_by_area(&mut list, &self.mesh_polygons);
            let mut found: Option<MergeInfo> = None;
            let mut t: usize = 0;
            while t < list.len() && found.is_none()
                invariant
                    self.wf(),
                    self.mesh_vertices@ == s0.mesh_vertices@,
                    self.mesh_polygons.len() == np,
                    np == s0.mesh_polygons.len(),
                    s0 == *old(self),
                    s0.all_convex() ==> self.all_convex(),
                    self.mesh_area() == s0.mesh_area(),
                    0 <= t <= list.len(),
                    trace_from(tr, s0, *self),
                    live_count(s0) > 0 ==> live_count(*self) > 0,
                    sorted_by_area(list@, self.mesh_polygons@),
                    forall|c: int| 0 <= c < np && self.is_live(c) ==> list@.contains(c as i32),
                    forall|u: int| 0 <= u < list.len() ==> 0 <= #[trigger] list@[u] < np,
                    found is None ==> forall|u: int, e: int|
                        0 <= u < t && 0 <= e < self.ring(list@[u] as int).len() ==> #[trigger] self.rejects(
                            list@[u] as int,
                            e,
                        ),
                    found is Some ==> is_next_merge(
                        *self,
                        found->Some_0.polygon_to as int,
                        found->Some_0.to_index as int,
                    ) && self.edge_in_range(
                        found->Some_0.polygon_to as int,
                        found->Some_0.to_index as int,
                    ) && self.merge_outcome(
                        found->Some_0.polygon_to as int,
                        found->Some_0.to_index as int,
                    ) == Ok::<MergeInfo, ImpossibleMergeInfo>(found->Some_0),
                decreases list.len() - t,
            {
                let a = list[t];
                let len = self.mesh_polygons[a as usize].vertices.len();
                let mut e: usize = 0;
                while e < len && found.is_none()
                    invariant
                        self.wf(),
                        self.mesh_vertices@ == s0.mesh_vertices@,
                        self.mesh_polygons.len() == np,
                        np == s0.mesh_polygons.len(),
                        s0 == *old(self),
                        s0.all_convex() ==> self.all_convex(),
                        self.mesh_area() == s0.mesh_area(),
                        0 <= a < np,
                        0 <= t < list.len(),
                        a == list@[t as int],
                        trace_from(tr, s0, *self),
                        live_count(s0) > 0 ==> live_count(*self) > 0,
                        sorted_by_area(list@, self.mesh_polygons@),
                        forall|c: int| 0 <= c < np && self.is_live(c) ==> list@.contains(c as i32),
                        forall|u: int| 0 <= u < list.len() ==> 0 <= #[trigger] list@[u] < np,
                        found is None ==> forall|u: int, e: int|
                            0 <= u < t && 0 <= e < self.ring(list@[u] as int).len() ==> #[trigger] self.rejects(
                                list@[u] as int,
                                e,
                            ),
                        len == self.ring(a as int).len(),
                        0 <= e <= len,
                        found is None ==> forall|f: int| 0 <= f < e ==> #[trigger] self.rejects(a as int, f),
                        found is Some ==> is_next_merge(
                            *self,
                            found->Some_0.polygon_to as int,
                            found->Some_0.to_index as int,
                        ) && self.edge_in_range(
                            found->Some_0.polygon_to as int,
                            found->Some_0.to_index as int,
                        ) && self.merge_outcome(
                            found->Some_0.polygon_to as int,
                            found->Some_0.to_index as int,
                        ) == Ok::<MergeInfo, ImpossibleMergeInfo>(found->Some_0),
                    decreases len - e,
                {
                    match self.can_merge(a, e) {
                        Ok(info) => {
                            proof {
                                assert forall|b: int, f: int|
                                    0 <= b < np && self.is_live(b) && !key_le(
                                        self.mesh_polygons@,
                                        a,
                                        b as i32,
                                    ) && 0 <= f < self.ring(b).len() implies #[trigger] self.rejects(b, f) by {
                                    let w = choose|w: int| 0 <= w < list.len() && list@[w] == b as i32;
                                    if w >= t {
                                        if w > t {
                                            assert(key_le(self.mesh_polygons@, list@[t as int], list@[w]));
                                        }
                                    }
                                }
                                assert(is_next_merge(*self, a as int, e as int));
                            }
                            found = Some(info);
                        },
                        Err(ImpossibleMergeInfo::Corrupt) => {
                            proof {
                                assert(trace_from(tr, *old(self), *self));
                            }
                            return Err(ImpossibleMergeInfo::Corrupt);
                        },
                        Err(_) => {},
                    }
                    e = e + 1;
                }
                t = t + 1;
            }
            match found {
                Some(info) => {
                    let ghost before = *self;
                    self.merge(&info);
                    let from = info.polygon_from;
                    proof {
                        let a = info.polygon_to as int;
                        assert(before.polygon_wf(a));
                        assert forall|c: int| 0 <= c < np implies #[trigger] self.is_live(c) == (
                        before.is_live(c) && c != from) by {
                            assert(before.polygon_unions@[c] == before.polygon_unions@[before.polygon_unions@[c] as int]);
                        }
                        let x = before.nbrs(a)[info.to_index as int];
                        assert(0 <= x < np);
                        assert(before.polygon_unions@[x as int] == from);
                        assert(before.is_live(from as int));
                        lemma_live_count_drop(before, *self, from as int, np as int);
                        assert(self.is_live(a));
                        lemma_live_count_pos(*self, a);
                        let ai = info.to_index as int;
                        assert(is_next_merge(before, a, ai));
                        assert(merge_post(before, *self, before.merge_outcome(a, ai)->Ok_0));
                        assert(driver_step(before, *self));
                        let tr2 = tr.push(*self);
                        assert forall|t: int| 0 <= t < tr2.len() - 1 implies #[trigger] driver_step(tr2[t], tr2[t + 1]) by {
                            if t < tr.len() - 1 {
                                assert(tr2[t] == tr[t] && tr2[t + 1] == tr[t + 1]);
                            }
                        }
                        tr = tr2;
                    }
                    let mut p: usize = 0;
                    while p < list.len() && list[p] != from
                        invariant
                            0 <= p <= list.len(),
                            forall|u: int| 0 <= u < p ==> list@[u] != from,
                        decreases list.len() - p,
                    {
                        p = p + 1;
                    }
                    if p < list.len() {
                        let ghost l1 = list@;
                        list.remove(p);
                        proof {
                            assert forall|c: int| 0 <= c < np && self.is_live(c) implies list@.contains(
                                c as i32,
                            ) by {
                                assert(before.is_live(c));
                                lemma_remove_keeps(l1, p as int, c as i32);
                            }
                        }
                        changed = true;
                        count = count + 1;
                    } else {
                        proof {
                            assert(list@.contains(from));
                            let w = choose|w: int| 0 <= w < list.len() && list@[w] == from;
                            assert(list@[w] != from);
                        }
                    }
                },
                None => {
                    proof {
                        assert forall|c: int, f: int| 0 <= c < np && self.is_live(c) && 0 <= f < self.ring(c).len()
                            implies #[trigger] self.rejects(c, f) by {
                            let w = choose|w: int| 0 <= w < list.len() && list@[w] == c as i32;
                        }
                    }
                },
            }
        }
        proof {
            assert(trace_from(tr, *old(self), *self));
        }
        Ok(count)
    }
}

} // verus!
