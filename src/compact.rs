use vstd::prelude::*;

use crate::geometry::{polygon_double_area, ring_points, Point};
use crate::load::count_neighbours;
use crate::geometry::{nx, wrap};
use crate::mesh::{first_index, total_area, MeshMerger, Polygon, Vertex};
use crate::union_find::UnionFind;

verus! {

/// The live polygon ids below `k`, in order.
pub open spec fn live_ids(m: MeshMerger, k: int) -> Seq<int>
    decreases k,
{
    if k <= 0 {
        Seq::empty()
    } else {
        live_ids(m, k - 1) + if m.is_live(k - 1) {
            seq![k - 1]
        } else {
            Seq::empty()
        }
    }
}

/// The id that polygon id `q` gets after compaction (-1 stays -1).
pub open spec fn new_id(m: MeshMerger, q: int) -> int {
    if q == -1 {
        -1
    } else {
        live_ids(m, m.root(q)).len() as int
    }
}

/// Vertex `v` lies on some polygon.
pub open spec fn is_used(m: MeshMerger, v: int) -> bool {
    exists|k: int, t: int|
        0 <= k < m.mesh_polygons.len() && 0 <= t < m.ring(k).len() && #[trigger] m.ring(k)[t] == v
}

/// The used vertex ids below `k`, in order.
pub open spec fn used_ids(m: MeshMerger, k: int) -> Seq<int>
    decreases k,
{
    if k <= 0 {
        Seq::empty()
    } else {
        used_ids(m, k - 1) + if is_used(m, k - 1) {
            seq![k - 1]
        } else {
            Seq::empty()
        }
    }
}

/// The id that vertex `v` gets after compaction.
pub open spec fn new_vid(m: MeshMerger, v: int) -> int {
    used_ids(m, v).len() as int
}

/// Number of live polygons.
pub open spec fn live_count(m: MeshMerger) -> nat {
    live_ids(m, m.mesh_polygons.len() as int).len()
}

/// Killing one live polygon lowers the live count by one.
pub proof fn lemma_live_count_drop(m: MeshMerger, m2: MeshMerger, from: int, k: int)
    requires
        0 <= from < m.mesh_polygons.len(),
        0 <= k <= m.mesh_polygons.len(),
        m.is_live(from),
        forall|c: int| 0 <= c < m.mesh_polygons.len() ==> #[trigger] m2.is_live(c) == (m.is_live(c) && c != from),
    ensures
        live_ids(m2, k).len() + (if from < k {
            1int
        } else {
            0int
        }) == live_ids(m, k).len(),
    decreases k,
{
    if k > 0 {
        lemma_live_count_drop(m, m2, from, k - 1);
        assert(m2.is_live(k - 1) == (m.is_live(k - 1) && k - 1 != from));
    }
}

/// A mesh with a live polygon has a positive live count.
pub proof fn lemma_live_count_pos(m: MeshMerger, a: int)
    requires
        0 <= a < m.mesh_polygons.len(),
        m.is_live(a),
    ensures
        live_count(m) > 0,
{
    lemma_live_ids_grow(m, a, m.mesh_polygons.len() as int);
}

proof fn lemma_live_ids_grow(m: MeshMerger, j: int, k: int)
    requires
        0 <= j <= k,
    ensures
        live_ids(m, j).len() <= live_ids(m, k).len(),
        j < k && m.is_live(j) ==> live_ids(m, j).len() < live_ids(m, k).len() && live_ids(
            m,
            k,
        )[live_ids(m, j).len() as int] == j,
        live_ids(m, k).len() <= k,
        forall|t: int| 0 <= t < live_ids(m, j).len() ==> live_ids(m, k)[t] == live_ids(m, j)[t],
    decreases k - j,
{
    if j < k {
        lemma_live_ids_grow(m, j, k - 1);
    } else {
        lemma_live_ids_len(m, k);
    }
}

proof fn lemma_live_ids_len(m: MeshMerger, k: int)
    ensures
        live_ids(m, k).len() <= if k < 0 {
            0
        } else {
            k
        },
        forall|t: int| 0 <= t < live_ids(m, k).len() ==> 0 <= #[trigger] live_ids(m, k)[t] < k,
        forall|t: int| 0 <= t < live_ids(m, k).len() ==> #[trigger] m.is_live(live_ids(m, k)[t]),
        forall|x: int, y: int|
            0 <= x < y < live_ids(m, k).len() ==> #[trigger] live_ids(m, k)[x] < #[trigger] live_ids(m, k)[y],
    decreases k,
{
    if k > 0 {
        lemma_live_ids_len(m, k - 1);
    }
}

proof fn lemma_used_ids_grow(m: MeshMerger, j: int, k: int)
    requires
        0 <= j <= k,
    ensures
        used_ids(m, j).len() <= used_ids(m, k).len(),
        j < k && is_used(m, j) ==> used_ids(m, j).len() < used_ids(m, k).len() && used_ids(
            m,
            k,
        )[used_ids(m, j).len() as int] == j,
        used_ids(m, k).len() <= k,
        forall|t: int| 0 <= t < used_ids(m, j).len() ==> used_ids(m, k)[t] == used_ids(m, j)[t],
    decreases k - j,
{
    if j < k {
        lemma_used_ids_grow(m, j, k - 1);
    } else {
        lemma_used_ids_len(m, k);
    }
}

proof fn lemma_used_ids_len(m: MeshMerger, k: int)
    ensures
        used_ids(m, k).len() <= if k < 0 {
            0
        } else {
            k
        },
        forall|t: int| 0 <= t < used_ids(m, k).len() ==> 0 <= #[trigger] used_ids(m, k)[t] < k,
        forall|t: int| 0 <= t < used_ids(m, k).len() ==> #[trigger] is_used(m, used_ids(m, k)[t]),
        forall|x: int, y: int|
            0 <= x < y < used_ids(m, k).len() ==> #[trigger] used_ids(m, k)[x] < #[trigger] used_ids(m, k)[y],
    decreases k,
{
    if k > 0 {
        lemma_used_ids_len(m, k - 1);
    }
}

pub open spec fn count_traversable_of(p: Polygon) -> nat {
    crate::mesh::count_traversable(p.polygons@)
}

/// `after` is `before` with merged polygons and unused vertices dropped and
/// the rest renumbered in order; the union-find is the identity.
pub open spec fn compacted_from(after: MeshMerger, before: MeshMerger) -> bool {
    let lv = live_ids(before, before.mesh_polygons.len() as int);
    let uv = used_ids(before, before.mesh_vertices.len() as int);
    &&& after.polygon_unions@ == Seq::new(after.mesh_polygons.len() as nat, |k: int| k as i32)
    &&& after.mesh_polygons.len() == lv.len()
    &&& after.mesh_vertices.len() == uv.len()
    &&& forall|u: int|
        0 <= u < after.mesh_vertices.len() ==> (#[trigger] after.mesh_vertices@[u]).p
            == before.points()[uv[u]] && after.mesh_vertices@[u].polygons@
            == dedup(
            before.mesh_vertices@[uv[u]].polygons@.map_values(
                |q: i32| new_id(before, q as int) as i32,
            ),
        )
    &&& forall|t: int|
        0 <= t < after.mesh_polygons.len() ==> {
            let k = lv[t];
            &&& #[trigger] after.ring(t) == before.ring(k).map_values(
                |v: u32| new_vid(before, v as int) as u32,
            )
            &&& after.nbrs(t) == before.nbrs(k).map_values(|q: i32| new_id(before, q as int) as i32)
            &&& after.mesh_polygons@[t].area == before.mesh_polygons@[k].area
            &&& after.ring_pts(t) == before.ring_pts(k)
        }
}

/// The list without repeats: each id kept at its first place.
pub open spec fn dedup(s: Seq<i32>) -> Seq<i32>
    decreases s.len(),
{
    if s.len() == 0 {
        s
    } else {
        let d = dedup(s.drop_last());
        if d.contains(s.last()) {
            d
        } else {
            d.push(s.last())
        }
    }
}

/// No id appears twice.
pub open spec fn no_repeats(s: Seq<i32>) -> bool {
    forall|x: int, y: int| 0 <= x < y < s.len() ==> #[trigger] s[x] != #[trigger] s[y]
}

proof fn lemma_dedup_sub(s: Seq<i32>)
    ensures
        forall|x: i32| dedup(s).contains(x) ==> s.contains(x),
        no_repeats(dedup(s)),
    decreases s.len(),
{
    if s.len() > 0 {
        let pre = s.drop_last();
        lemma_dedup_sub(pre);
        let d = dedup(pre);
        assert forall|x: i32| dedup(s).contains(x) implies s.contains(x) by {
            if d.contains(x) {
                assert(pre.contains(x));
                let w = choose|w: int| 0 <= w < pre.len() && pre[w] == x;
                assert(pre[w] == s[w]);
                assert(s[w] == x);
            } else {
                assert(!d.contains(s.last()));
                let w = choose|w: int| 0 <= w < dedup(s).len() && dedup(s)[w] == x;
                assert(dedup(s) == d.push(s.last()));
                if w < d.len() {
                    assert(d[w] == x);
                }
                assert(w == d.len());
                assert(s[s.len() - 1] == x);
            }
        }
        if !d.contains(s.last()) {
            let e = d.push(s.last());
            assert forall|x: int, y: int| 0 <= x < y < e.len() implies #[trigger] e[x] != #[trigger] e[y] by {
                if y == e.len() - 1 && e[x] == e[y] {
                    assert(d[x] == s.last());
                }
            }
        }
    }
}

proof fn lemma_dedup_of_no_repeats(s: Seq<i32>)
    requires
        no_repeats(s),
    ensures
        dedup(s) == s,
    decreases s.len(),
{
    if s.len() > 0 {
        let pre = s.drop_last();
        assert(no_repeats(pre)) by {
            assert forall|x: int, y: int| 0 <= x < y < pre.len() implies #[trigger] pre[x] != #[trigger] pre[y] by {
                assert(s[x] != s[y]);
            }
        }
        lemma_dedup_of_no_repeats(pre);
        if pre.contains(s.last()) {
            let w = choose|w: int| 0 <= w < pre.len() && pre[w] == s.last();
            assert(s[w] != s[s.len() - 1]);
        }
        assert(pre.push(s.last()) =~= s);
    }
}

/// The list without repeats.
fn dedup_ids(v: &Vec<i32>) -> (r: Vec<i32>)
    ensures
        r@ == dedup(v@),
{
    let mut out: Vec<i32> = Vec::new();
    let mut i: usize = 0;
    while i < v.len()
        invariant
            0 <= i <= v.len(),
            out@ == dedup(v@.subrange(0, i as int)),
        decreases v.len() - i,
    {
        let x = v[i];
        let mut found = false;
        let mut j: usize = 0;
        while j < out.len()
            invariant
                0 <= j <= out.len(),
                found == exists|w: int| 0 <= w < j && out@[w] == x,
            decreases out.len() - j,
        {
            if out[j] == x {
                found = true;
            }
            j = j + 1;
        }
        proof {
            assert(v@.subrange(0, i + 1).drop_last() =~= v@.subrange(0, i as int));
            assert(found == out@.contains(x));
        }
        if !found {
            out.push(x);
        }
        i = i + 1;
    }
    assert(v@.subrange(0, v.len() as int) =~= v@);
    out
}

/// Vertex `v` is on one of the rings before polygon `k`, or before index `t`
/// of the ring of `k`.
pub open spec fn seen(m: MeshMerger, k: int, t: int, v: int) -> bool {
    exists|k2: int, t2: int|
        0 <= k2 < m.mesh_polygons.len() && 0 <= t2 < m.ring(k2).len() && (k2 < k || (k2 == k && t2
            < t)) && #[trigger] m.ring(k2)[t2] == v
}

impl MeshMerger {
    /// Marks which vertices lie on some polygon.
    fn used_vertices(&self) -> (r: Vec<bool>)
        requires
            self.wf(),
        ensures
            r.len() == self.mesh_vertices.len(),
            forall|v: int| 0 <= v < r.len() ==> r@[v] == is_used(*self, v),
    {
        let nv = self.mesh_vertices.len();
        let mut used: Vec<bool> = Vec::new();
        let mut v: usize = 0;
        while v < nv
            invariant
                0 <= v <= nv,
                used@ == Seq::new(v as nat, |u: int| false),
            decreases nv - v,
        {
            used.push(false);
            v = v + 1;
            proof {
                assert(used@ =~= Seq::new(v as nat, |u: int| false));
            }
        }
        let np = self.mesh_polygons.len();
        let mut k: usize = 0;
        while k < np
            invariant
                self.wf(),
                np == self.mesh_polygons.len(),
                nv == self.mesh_vertices.len(),
                0 <= k <= np,
                used.len() == nv,
                forall|u: int| 0 <= u < nv ==> used@[u] == seen(*self, k as int, 0, u),
            decreases np - k,
        {
            let ring = &self.mesh_polygons[k].vertices;
            proof {
                assert(self.polygon_wf(k as int));
            }
            let mut t: usize = 0;
            while t < ring.len()
                invariant
                    self.wf(),
                    np == self.mesh_polygons.len(),
                    nv == self.mesh_vertices.len(),
                    0 <= k < np,
                    ring == self.mesh_polygons@[k as int].vertices,
                    self.polygon_wf(k as int),
                    0 <= t <= ring.len(),
                    used.len() == nv,
                    forall|u: int| 0 <= u < nv ==> used@[u] == seen(*self, k as int, t as int, u),
                decreases ring.len() - t,
            {
                let x = ring[t];
                used.set(x as usize, true);
                proof {
                    assert forall|u: int| 0 <= u < nv implies used@[u] == seen(*self, k as int, t + 1, u) by {
                        if u == x {
                            assert(self.ring(k as int)[t as int] == u);
                        } else if seen(*self, k as int, t + 1, u) {
                            let (k2, t2) = choose|k2: int, t2: int|
                                0 <= k2 < self.mesh_polygons.len() && 0 <= t2 < self.ring(k2).len() && (k2
                                    < k || (k2 == k && t2 < t + 1)) && #[trigger] self.ring(k2)[t2] == u;
                            assert(seen(*self, k as int, t as int, u));
                        }
                    }
                }
                t = t + 1;
            }
            proof {
                assert forall|u: int| 0 <= u < nv implies used@[u] == seen(*self, k + 1, 0, u) by {
                    if seen(*self, k + 1, 0, u) {
                        let (k2, t2) = choose|k2: int, t2: int|
                            0 <= k2 < self.mesh_polygons.len() && 0 <= t2 < self.ring(k2).len() && (k2 < k + 1
                                || (k2 == k + 1 && t2 < 0)) && #[trigger] self.ring(k2)[t2] == u;
                        assert(seen(*self, k as int, t as int, u));
                    }
                    if seen(*self, k as int, t as int, u) {
                        let (k2, t2) = choose|k2: int, t2: int|
                            0 <= k2 < self.mesh_polygons.len() && 0 <= t2 < self.ring(k2).len() && (k2 < k
                                || (k2 == k && t2 < t)) && #[trigger] self.ring(k2)[t2] == u;
                        assert(seen(*self, k + 1, 0, u));
                    }
                }
            }
            k = k + 1;
        }
        proof {
            assert forall|u: int| 0 <= u < nv implies used@[u] == is_used(*self, u) by {
                if is_used(*self, u) {
                    let (k2, t2) = choose|k2: int, t2: int|
                        0 <= k2 < self.mesh_polygons.len() && 0 <= t2 < self.ring(k2).len()
                            && #[trigger] self.ring(k2)[t2] == u;
                    assert(seen(*self, np as int, 0, u));
                }
            }
        }
        used
    }

    /// Renumbers polygon ids through the union-find and the map `pmap` of
    /// live ids to their new ids.
    fn map_ids(&self, ids: &Vec<i32>, pmap: &Vec<i32>) -> (r: Vec<i32>)
        requires
            self.wf(),
            forall|t: int| 0 <= t < ids.len() ==> -1 <= #[trigger] ids@[t] < self.mesh_polygons.len(),
            pmap.len() == self.mesh_polygons.len(),
            forall|j: int|
                0 <= j < pmap.len() && self.is_live(j) ==> #[trigger] pmap@[j] == live_ids(*self, j).len(),
        ensures
            r@ == ids@.map_values(|q: i32| new_id(*self, q as int) as i32),
    {
        let mut out: Vec<i32> = Vec::new();
        let mut t: usize = 0;
        while t < ids.len()
            invariant
                self.wf(),
                forall|t: int| 0 <= t < ids.len() ==> -1 <= #[trigger] ids@[t] < self.mesh_polygons.len(),
                pmap.len() == self.mesh_polygons.len(),
                forall|j: int|
                    0 <= j < pmap.len() && self.is_live(j) ==> #[trigger] pmap@[j] == live_ids(*self, j).len(),
                0 <= t <= ids.len(),
                out@ == ids@.subrange(0, t as int).map_values(|q: i32| new_id(*self, q as int) as i32),
            decreases ids.len() - t,
        {
            let q = ids[t];
            if q == -1 {
                out.push(-1);
            } else {
                let r = self.polygon_unions.find(q);
                proof {
                    assert(self.is_live(r as int));
                }
                out.push(pmap[r as usize]);
            }
            t = t + 1;
            proof {
                assert(out@ =~= ids@.subrange(0, t as int).map_values(|q: i32| new_id(*self, q as int) as i32));
            }
        }
        proof {
            assert(ids@.subrange(0, ids.len() as int) =~= ids@);
        }
        out
    }

    /// Drops merged polygons and the vertices that no polygon uses, and
    /// renumbers what is left, in order. Neighbor ids are resolved through the
    /// union-find, which becomes the identity.
    #[verifier::rlimit(100)]
    pub fn compact(&mut self)
        requires
            old(self).wf(),
        ensures
            final(self).wf(),
            compacted_from(*final(self), *old(self)),
            final(self).mesh_area() == old(self).mesh_area(),
            old(self).all_convex() ==> final(self).all_convex(),
    {
        let ghost m = *self;
        let np = self.mesh_polygons.len();
        let nv = self.mesh_vertices.len();
        let mut pmap: Vec<i32> = Vec::new();
        let mut live: usize = 0;
        let mut k: usize = 0;
        while k < np
            invariant
                *self == m,
                m.wf(),
                np == m.mesh_polygons.len(),
                0 <= k <= np,
                pmap.len() == k,
                live == live_ids(m, k as int).len(),
                live <= k,
                forall|j: int| 0 <= j < k && m.is_live(j) ==> #[trigger] pmap@[j] == live_ids(m, j).len(),
            decreases np - k,
        {
            proof {
                lemma_live_ids_len(m, k as int);
            }
            if self.polygon_unions.find(k as i32) == k as i32 {
                pmap.push(live as i32);
                live = live + 1;
            } else {
                pmap.push(-1);
            }
            k = k + 1;
        }
        let used = self.used_vertices();
        let ghost uv = used_ids(m, nv as int);
        let mut vmap: Vec<u32> = Vec::new();
        let mut nverts: Vec<Vertex> = Vec::new();
        let mut count: usize = 0;
        let mut v: usize = 0;
        while v < nv
            invariant
                *self == m,
                m.wf(),
                np == m.mesh_polygons.len(),
                nv == m.mesh_vertices.len(),
                uv == used_ids(m, nv as int),
                used.len() == nv,
                forall|u: int| 0 <= u < nv ==> used@[u] == is_used(m, u),
                pmap.len() == np,
                forall|j: int| 0 <= j < np && m.is_live(j) ==> #[trigger] pmap@[j] == live_ids(m, j).len(),
                0 <= v <= nv,
                vmap.len() == v,
                count == used_ids(m, v as int).len(),
                count <= v,
                forall|u: int| 0 <= u < v && is_used(m, u) ==> #[trigger] vmap@[u] == new_vid(m, u),
                nverts.len() == count,
                forall|t: int|
                    0 <= t < count ==> (#[trigger] nverts@[t]).p == m.points()[used_ids(m, v as int)[t]]
                        && nverts@[t].polygons@ == dedup(
                        m.mesh_vertices@[used_ids(m, v as int)[t]].polygons@.map_values(
                            |q: i32| new_id(m, q as int) as i32,
                        ),
                    ),
            decreases nv - v,
        {
            proof {
                lemma_used_ids_len(m, v as int);
                lemma_used_ids_grow(m, v as int, v + 1);
            }
            if used[v] {
                vmap.push(count as u32);
                proof {
                    assert(m.vertex_wf(v as int));
                }
                let mapped = self.map_ids(&self.mesh_vertices[v].polygons, &pmap);
                let polygons = dedup_ids(&mapped);
                nverts.push(Vertex { p: self.mesh_vertices[v].p, polygons });
                count = count + 1;
            } else {
                vmap.push(0);
            }
            v = v + 1;
        }
        proof {
            assert forall|u: int| 0 <= u < nv && is_used(m, u) implies new_vid(m, u) < uv.len() && uv[new_vid(m, u)] == u by {
                lemma_used_ids_grow(m, u, nv as int);
            }
        }
        let ghost npts = nverts@.map_values(|x: Vertex| x.p);
        let ghost lv = live_ids(m, np as int);
        let mut npolys: Vec<Polygon> = Vec::new();
        k = 0;
        while k < np
            invariant
                *self == m,
                m.wf(),
                np == m.mesh_polygons.len(),
                nv == m.mesh_vertices.len(),
                uv == used_ids(m, nv as int),
                lv == live_ids(m, np as int),
                npts == nverts@.map_values(|x: Vertex| x.p),
                nverts.len() == uv.len(),
                forall|t: int| 0 <= t < nverts.len() ==> (#[trigger] nverts@[t]).p == m.points()[uv[t]],
                forall|u: int| 0 <= u < nv && is_used(m, u) ==> new_vid(m, u) < uv.len() && uv[new_vid(m, u)] == u,
                vmap.len() == nv,
                forall|u: int| 0 <= u < nv && is_used(m, u) ==> #[trigger] vmap@[u] == new_vid(m, u),
                pmap.len() == np,
                forall|j: int| 0 <= j < np && m.is_live(j) ==> #[trigger] pmap@[j] == live_ids(m, j).len(),
                0 <= k <= np,
                npolys.len() == live_ids(m, k as int).len(),
                total_area(npolys@) == total_area(m.mesh_polygons@.subrange(0, k as int)),
                forall|t: int|
                    0 <= t < npolys.len() ==> {
                        let j = live_ids(m, k as int)[t];
                        &&& (#[trigger] npolys@[t]).vertices@ == m.ring(j).map_values(
                            |v: u32| new_vid(m, v as int) as u32,
                        )
                        &&& npolys@[t].polygons@ == m.nbrs(j).map_values(
                            |q: i32| new_id(m, q as int) as i32,
                        )
                        &&& npolys@[t].area == m.mesh_polygons@[j].area
                        &&& npolys@[t].num_traversable == count_traversable_of(npolys@[t])
                        &&& ring_points(npts, npolys@[t].vertices@) == m.ring_pts(j)
                        &&& 0 <= j < np
                        &&& m.is_live(j)
                    },
            decreases np - k,
        {
            proof {
                assert(m.polygon_wf(k as int));
                assert(m.mesh_polygons@.subrange(0, k + 1).drop_last() =~= m.mesh_polygons@.subrange(0, k as int));
                lemma_live_ids_grow(m, k as int, k + 1);
            }
            if self.polygon_unions.find(k as i32) == k as i32 {
                let p = &self.mesh_polygons[k];
                let mut ring: Vec<u32> = Vec::new();
                let mut t: usize = 0;
                while t < p.vertices.len()
                    invariant
                        *self == m,
                        m.wf(),
                        0 <= k < np,
                        np == m.mesh_polygons.len(),
                        nv == m.mesh_vertices.len(),
                        p == m.mesh_polygons@[k as int],
                        m.polygon_wf(k as int),
                        vmap.len() == nv,
                        forall|u: int| 0 <= u < nv && is_used(m, u) ==> #[trigger] vmap@[u] == new_vid(m, u),
                        0 <= t <= p.vertices.len(),
                        ring@ == p.vertices@.subrange(0, t as int).map_values(
                            |v: u32| new_vid(m, v as int) as u32,
                        ),
                    decreases p.vertices.len() - t,
                {
                    let x = p.vertices[t];
                    proof {
                        assert(m.ring(k as int)[t as int] == x);
                        assert(is_used(m, x as int));
                    }
                    ring.push(vmap[x as usize]);
                    t = t + 1;
                    proof {
                        assert(ring@ =~= p.vertices@.subrange(0, t as int).map_values(
                            |v: u32| new_vid(m, v as int) as u32,
                        ));
                    }
                }
                proof {
                    assert(p.vertices@.subrange(0, p.vertices.len() as int) =~= p.vertices@);
                }
                let nbrs = self.map_ids(&p.polygons, &pmap);
                let num_traversable = count_neighbours(&nbrs);
                let np2 = Polygon { num_traversable, area: p.area, vertices: ring, polygons: nbrs };
                proof {
                    assert forall|e: int| 0 <= e < np2.vertices.len() implies #[trigger] npts[np2.vertices@[e] as int] == m.points()[m.ring(k as int)[e] as int] by {
                        let x = m.ring(k as int)[e];
                        assert(is_used(m, x as int));
                        lemma_used_ids_grow(m, x as int, nv as int);
                    }
                    assert(ring_points(npts, np2.vertices@) =~= m.ring_pts(k as int));
                }
                let ghost before = npolys@;
                npolys.push(np2);
                proof {
                    assert(npolys@.drop_last() =~= before);
                    assert forall|t: int| 0 <= t < npolys.len() implies {
                        let j = live_ids(m, k + 1)[t];
                        &&& (#[trigger] npolys@[t]).vertices@ == m.ring(j).map_values(
                            |v: u32| new_vid(m, v as int) as u32,
                        )
                        &&& npolys@[t].polygons@ == m.nbrs(j).map_values(
                            |q: i32| new_id(m, q as int) as i32,
                        )
                        &&& npolys@[t].area == m.mesh_polygons@[j].area
                        &&& npolys@[t].num_traversable == count_traversable_of(npolys@[t])
                        &&& ring_points(npts, npolys@[t].vertices@) == m.ring_pts(j)
                        &&& 0 <= j < np
                        &&& m.is_live(j)
                    } by {
                        if t < before.len() {
                            assert(npolys@[t] == before[t]);
                        }
                    }
                }
            } else {
                proof {
                    assert(m.ring(k as int) =~= Seq::<u32>::empty());
                    assert(m.ring_pts(k as int) =~= Seq::<Point>::empty());
                }
            }
            k = k + 1;
        }
        proof {
            assert(m.mesh_polygons@.subrange(0, np as int) =~= m.mesh_polygons@);
            lemma_live_ids_len(m, np as int);
        }
        let ghost ps = npolys@;
        let unions = UnionFind::new(live as i32);
        self.mesh_vertices = nverts;
        self.mesh_polygons = npolys;
        self.polygon_unions = unions;
        proof {
            assert(self.points() =~= npts);
            assert forall|t: int| 0 <= t < self.mesh_polygons.len() implies #[trigger] self.polygon_wf(t) by {
                let j = lv[t];
                assert(ps[t] == self.mesh_polygons@[t]);
                assert(0 <= j < np);
                assert(m.polygon_wf(j));
                assert(m.is_live(j));
                assert(self.ring(t).len() == m.ring(j).len());
                assert(self.nbrs(t).len() == m.nbrs(j).len());
                assert(self.mesh_polygons@[t].area == polygon_double_area(self.points(), self.ring(t)));
                assert(self.mesh_polygons@[t].num_traversable == crate::mesh::count_traversable(self.nbrs(t)));
                assert(self.is_live(t));
                assert forall|e: int| 0 <= e < self.ring(t).len() implies (#[trigger] self.ring(t)[e] as int) < self.mesh_vertices.len() by {
                    let x = m.ring(j)[e];
                    assert(is_used(m, x as int));
                    lemma_used_ids_grow(m, x as int, nv as int);
                }
                assert forall|e: int| 0 <= e < self.nbrs(t).len() implies -1 <= #[trigger] self.nbrs(t)[e] < self.mesh_polygons.len() by {
                    let q = m.nbrs(j)[e];
                    if q != -1 {
                        let r = m.root(q as int);
                        assert(m.is_live(r));
                        lemma_live_ids_grow(m, r, np as int);
                    }
                }
            }
            assert forall|u: int| 0 <= u < self.mesh_vertices.len() implies #[trigger] self.vertex_wf(u) by {
                let x = uv[u];
                lemma_used_ids_len(m, nv as int);
                assert(m.vertex_wf(x));
                let mapped = m.mesh_vertices@[x].polygons@.map_values(|q: i32| new_id(m, q as int) as i32);
                lemma_dedup_sub(mapped);
                assert forall|e: int| 0 <= e < self.mesh_vertices@[u].polygons.len() implies -1 <= #[trigger] self.mesh_vertices@[u].polygons@[e] < self.mesh_polygons.len() by {
                    let y = self.mesh_vertices@[u].polygons@[e];
                    assert(dedup(mapped).contains(y));
                    assert(mapped.contains(y));
                    let e2 = choose|e2: int| 0 <= e2 < mapped.len() && mapped[e2] == y;
                    let q = m.mesh_vertices@[x].polygons@[e2];
                    assert(-1 <= q < np);
                    assert(y == new_id(m, q as int) as i32);
                    if q != -1 {
                        assert(m.polygon_unions.wf());
                        assert(0 <= m.polygon_unions@[q as int] < np);
                        let r = m.root(q as int);
                        assert(m.is_live(r));
                        lemma_live_ids_grow(m, r, np as int);
                    }
                }
            }
        }
    }
}

proof fn lemma_first_index_same(s: Seq<u32>, v: u32, t: Seq<u32>, w: u32)
    requires
        s.len() == t.len(),
        forall|i: int| 0 <= i < s.len() ==> ((#[trigger] t[i] == w) == (s[i] == v)),
    ensures
        first_index(t, w) == first_index(s, v),
    decreases s.len(),
{
    if s.len() > 0 {
        assert forall|i: int| 0 <= i < s.drop_first().len() implies ((#[trigger] t.drop_first()[i] == w) == (
        s.drop_first()[i] == v)) by {
            assert(t[i + 1] == t.drop_first()[i]);
        }
        lemma_first_index_same(s.drop_first(), v, t.drop_first(), w);
    }
}

proof fn lemma_live_index(m: MeshMerger, a: int, b: int)
    requires
        0 <= a < m.mesh_polygons.len(),
        m.is_live(a),
        0 <= b < live_ids(m, m.mesh_polygons.len() as int).len(),
    ensures
        live_ids(m, m.mesh_polygons.len() as int)[live_ids(m, a).len() as int] == a,
        (live_ids(m, m.mesh_polygons.len() as int)[b] == a) == (live_ids(m, a).len() == b),
{
    let np = m.mesh_polygons.len() as int;
    lemma_live_ids_grow(m, a, np);
    lemma_live_ids_len(m, np);
    let c = live_ids(m, a).len() as int;
    if live_ids(m, np)[b] == a && c != b {
        if c < b {
            assert(live_ids(m, np)[c] < live_ids(m, np)[b]);
        } else {
            assert(live_ids(m, np)[b] < live_ids(m, np)[c]);
        }
    }
}

proof fn lemma_new_vid_injective(m: MeshMerger, a: int, b: int)
    requires
        0 <= a < m.mesh_vertices.len(),
        0 <= b < m.mesh_vertices.len(),
        is_used(m, a),
        is_used(m, b),
    ensures
        (new_vid(m, a) == new_vid(m, b)) == (a == b),
{
    if a < b {
        lemma_used_ids_grow(m, a, b);
    } else if b < a {
        lemma_used_ids_grow(m, b, a);
    }
}

/// Compaction keeps a fixed point of merging: when no edge of the mesh admits
/// a legal merge, no edge of the compacted mesh does either.
pub proof fn lemma_compact_keeps_fixed_point(before: MeshMerger, after: MeshMerger)
    requires
        before.wf(),
        after.wf(),
        before.is_fixed_point(),
        compacted_from(after, before),
    ensures
        after.is_fixed_point(),
{
    assert forall|a2: int, i: int|
        0 <= a2 < after.mesh_polygons.len() && after.is_live(a2) && 0 <= i < after.ring(a2).len()
            implies #[trigger] after.rejects(a2, i) by {
        lemma_rejects_carry(before, after, a2, i);
    }
}

#[verifier::rlimit(80)]
proof fn lemma_rejects_carry(m: MeshMerger, n2: MeshMerger, a2: int, i: int)
    requires
        m.wf(),
        n2.wf(),
        m.is_fixed_point(),
        compacted_from(n2, m),
        0 <= a2 < n2.mesh_polygons.len(),
        0 <= i < n2.ring(a2).len(),
    ensures
        n2.rejects(a2, i),
{
    let np = m.mesh_polygons.len() as int;
    let nv = m.mesh_vertices.len() as int;
    let lv = live_ids(m, np);
    lemma_live_ids_len(m, np);
    let k = lv[a2];
    assert(0 <= k < np && m.is_live(k));
    lemma_live_index(m, k, a2);
    assert(live_ids(m, k).len() == a2);
    assert(m.polygon_wf(k));
    let ra = m.ring(k);
    let ra2 = n2.ring(a2);
    let mm = ra.len() as int;
    assert(ra2 == ra.map_values(|v: u32| new_vid(m, v as int) as u32));
    assert(ra2.len() == mm);
    assert(m.rejects(k, i));
    let q = m.nbrs(k)[i];
    let q2 = n2.nbrs(a2)[i];
    assert(q2 == new_id(m, q as int) as i32);
    assert(n2.is_live(a2));
    let pts = m.points();
    let pts2 = n2.points();
    assert forall|x: int| 0 <= x < mm implies #[trigger] pts2[ra2[x] as int] == pts[ra[x] as int] by {
        assert(n2.ring_pts(a2)[x] == m.ring_pts(k)[x]);
    }
    if q != -1 {
        let b = m.root(q as int);
        assert(m.is_live(b) && 0 <= b < np);
        let b2 = live_ids(m, b).len() as int;
        lemma_live_index(m, b, 0);
        lemma_live_ids_grow(m, b, np);
        assert(b2 < lv.len());
        assert(q2 == b2);
        assert(n2.root(q2 as int) == b2);
        lemma_live_index(m, b, b2);
        assert(lv[b2] == b);
        assert(m.polygon_wf(b));
        let rb = m.ring(b);
        let rb2 = n2.ring(b2);
        let n = rb.len() as int;
        assert(rb2 == rb.map_values(|v: u32| new_vid(m, v as int) as u32));
        lemma_live_index(m, k, b2);
        assert((b2 == a2) == (b == k));
        assert forall|x: int| 0 <= x < n implies ((#[trigger] rb2[x] == ra2[i]) == (rb[x] == ra[i])) by {
            assert(is_used(m, rb[x] as int));
            assert(is_used(m, ra[i] as int));
            lemma_new_vid_injective(m, rb[x] as int, ra[i] as int);
            lemma_used_ids_len(m, rb[x] as int);
            lemma_used_ids_len(m, ra[i] as int);
            assert(new_vid(m, rb[x] as int) < 0x1_0000_0000);
        }
        lemma_first_index_same(rb, ra[i], rb2, ra2[i]);
        assert forall|x: int, y: int| 0 <= x < n && 0 <= y < mm implies ((#[trigger] rb2[x] == #[trigger] ra2[y]) == (rb[x] == ra[y])) by {
            assert(is_used(m, rb[x] as int));
            assert(is_used(m, ra[y] as int));
            lemma_new_vid_injective(m, rb[x] as int, ra[y] as int);
            lemma_used_ids_len(m, rb[x] as int);
            lemma_used_ids_len(m, ra[y] as int);
        }
        assert forall|x: int| 0 <= x < n implies #[trigger] pts2[rb2[x] as int] == pts[rb[x] as int] by {
            assert(n2.ring_pts(b2)[x] == m.ring_pts(b)[x]);
        }
        let j = first_index(rb, ra[i]);
        crate::mesh::lemma_first_index_found(rb, ra[i]);
        assert(first_index(rb2, ra2[i]) == j);
        assert(n2.root(n2.nbrs(a2)[i] as int) == b2);
        assert(rb2.len() == n && n >= 3);
        if 0 <= j < n {
            let w = wrap(j + n - 1, n);
            let q3 = m.nbrs(b)[w];
            assert(m.polygon_wf(b));
            assert(n2.nbrs(b2)[w] == new_id(m, q3 as int) as i32);
            if q3 != -1 {
                let r3 = m.root(q3 as int);
                assert(m.is_live(r3) && 0 <= r3 < np);
                lemma_live_ids_grow(m, r3, np);
                lemma_live_index(m, r3, a2);
                assert((live_ids(m, r3).len() == a2) == (r3 == k));
                assert(n2.root(n2.nbrs(b2)[w] as int) == live_ids(m, r3).len());
            } else {
                assert(n2.root(n2.nbrs(b2)[w] as int) == -1);
            }
            assert((n2.root(n2.nbrs(b2)[w] as int) != a2) == (m.root(m.nbrs(b)[w] as int) != k));
            assert((rb2[w] != ra2[nx(i, mm)]) == (rb[w] != ra[nx(i, mm)]));
            assert(pts2[ra2[wrap(i + mm - 1, mm)] as int] == pts[ra[wrap(i + mm - 1, mm)] as int]);
            assert(pts2[ra2[i] as int] == pts[ra[i] as int]);
            assert(pts2[rb2[nx(j, n)] as int] == pts[rb[nx(j, n)] as int]);
            assert(pts2[rb2[wrap(j + n - 2, n)] as int] == pts[rb[wrap(j + n - 2, n)] as int]);
            assert(pts2[ra2[nx(i, mm)] as int] == pts[ra[nx(i, mm)] as int]);
            assert(pts2[ra2[nx(nx(i, mm), mm)] as int] == pts[ra[nx(nx(i, mm), mm)] as int]);
        }
        assert(n2.rejects(a2, i));
    } else {
        assert(n2.root(q2 as int) == -1);
        assert(n2.rejects(a2, i));
    }
}

proof fn lemma_all_live_ids(m: MeshMerger, k: int)
    requires
        0 <= k <= m.mesh_polygons.len(),
        forall|c: int| 0 <= c < m.mesh_polygons.len() ==> #[trigger] m.is_live(c),
    ensures
        live_ids(m, k) == Seq::new(k as nat, |t: int| t),
    decreases k,
{
    if k > 0 {
        lemma_all_live_ids(m, k - 1);
        assert(m.is_live(k - 1));
        assert(live_ids(m, k) =~= Seq::new(k as nat, |t: int| t));
    } else {
        assert(live_ids(m, k) =~= Seq::new(k as nat, |t: int| t));
    }
}

proof fn lemma_all_used_ids(m: MeshMerger, k: int)
    requires
        0 <= k <= m.mesh_vertices.len(),
        forall|v: int| 0 <= v < m.mesh_vertices.len() ==> #[trigger] is_used(m, v),
    ensures
        used_ids(m, k) == Seq::new(k as nat, |t: int| t),
    decreases k,
{
    if k > 0 {
        lemma_all_used_ids(m, k - 1);
        assert(is_used(m, k - 1));
        assert(used_ids(m, k) =~= Seq::new(k as nat, |t: int| t));
    } else {
        assert(used_ids(m, k) =~= Seq::new(k as nat, |t: int| t));
    }
}

/// After compaction every vertex lies on some polygon.
proof fn lemma_compacted_vertices_used(m: MeshMerger, m2: MeshMerger, u: int)
    requires
        m.wf(),
        compacted_from(m2, m),
        0 <= u < m2.mesh_vertices.len(),
    ensures
        is_used(m2, u),
{
    let np = m.mesh_polygons.len() as int;
    let nv = m.mesh_vertices.len() as int;
    let uv = used_ids(m, nv);
    lemma_used_ids_len(m, nv);
    let x = uv[u];
    assert(is_used(m, x));
    let (k, t) = choose|k: int, t: int|
        0 <= k < m.mesh_polygons.len() && 0 <= t < m.ring(k).len() && #[trigger] m.ring(k)[t] == x;
    assert(m.polygon_wf(k));
    assert(m.is_live(k));
    let c = live_ids(m, k).len() as int;
    lemma_live_ids_grow(m, k, np);
    lemma_live_index(m, k, c);
    assert(m2.ring(c) == m.ring(k).map_values(|v: u32| new_vid(m, v as int) as u32));
    lemma_used_ids_grow(m, x, nv);
    let d = new_vid(m, x);
    if d != u {
        if d < u {
            assert(uv[d] < uv[u]);
        } else {
            assert(uv[u] < uv[d]);
        }
    }
    assert(m2.ring(c)[t] == u);
}

/// Compacting a compacted mesh changes nothing.
pub proof fn lemma_compact_idempotent(m: MeshMerger, m2: MeshMerger, m3: MeshMerger)
    requires
        m.wf(),
        m2.wf(),
        compacted_from(m2, m),
        compacted_from(m3, m2),
    ensures
        crate::round_trip::same_mesh(m3, m2),
{
    let np2 = m2.mesh_polygons.len() as int;
    let nv2 = m2.mesh_vertices.len() as int;
    assert forall|c: int| 0 <= c < np2 implies #[trigger] m2.is_live(c) by {}
    lemma_all_live_ids(m2, np2);
    assert forall|v: int| 0 <= v < nv2 implies #[trigger] is_used(m2, v) by {
        lemma_compacted_vertices_used(m, m2, v);
    }
    lemma_all_used_ids(m2, nv2);
    assert forall|q: int| -1 <= q < np2 implies #[trigger] new_id(m2, q) == q by {
        if q >= 0 {
            lemma_all_live_ids(m2, q);
        }
    }
    assert forall|v: int| 0 <= v < nv2 implies #[trigger] new_vid(m2, v) == v by {
        lemma_all_used_ids(m2, v);
    }
    assert forall|u: int| 0 <= u < nv2 implies (#[trigger] m3.mesh_vertices@[u]).polygons@
        == m2.mesh_vertices@[u].polygons@ by {
        assert(m2.vertex_wf(u));
        let l2 = m2.mesh_vertices@[u].polygons@;
        assert(l2.map_values(|q: i32| new_id(m2, q as int) as i32) =~= l2);
        let uv = used_ids(m, m.mesh_vertices.len() as int);
        lemma_dedup_sub(m.mesh_vertices@[uv[u]].polygons@.map_values(|q: i32| new_id(m, q as int) as i32));
        lemma_dedup_of_no_repeats(l2);
    }
    assert forall|u: int| 0 <= u < nv2 implies #[trigger] m3.points()[u] == m2.points()[u] by {
        assert(m3.mesh_vertices@[u].p == m2.points()[u]);
    }
    assert(m3.points() =~= m2.points());
    assert forall|k: int| 0 <= k < np2 implies #[trigger] m3.ring(k) == m2.ring(k) && m3.nbrs(k)
        == m2.nbrs(k) && m3.mesh_polygons@[k].area == m2.mesh_polygons@[k].area by {
        assert(m2.polygon_wf(k));
        assert(m3.ring(k) =~= m2.ring(k));
        assert(m3.nbrs(k) =~= m2.nbrs(k));
    }
    assert(m3.mesh_vertices.len() == m2.mesh_vertices.len());
    assert(m3.mesh_polygons.len() == m2.mesh_polygons.len());
    assert(m3.polygon_unions@ =~= m2.polygon_unions@);
    assert(forall|v: int|
        0 <= v < m3.mesh_vertices.len() ==> (#[trigger] m3.mesh_vertices@[v]).polygons@
            == m2.mesh_vertices@[v].polygons@);
    assert(forall|k: int|
        0 <= k < m3.mesh_polygons.len() ==> #[trigger] m3.ring(k) == m2.ring(k) && m3.nbrs(k) == m2.nbrs(k)
            && m3.mesh_polygons@[k].area == m2.mesh_polygons@[k].area);
    assert(m3.points() == m2.points());
    assert(crate::round_trip::same_mesh(m3, m2));
}

} // verus!
