use vstd::prelude::*;

use crate::geometry::wrap;
use crate::mesh::{MeshMerger, Vertex};

verus! {

/// The decimal digits of `n`.
pub open spec fn nat_text(n: nat) -> Seq<u8>
    decreases n,
{
    if n < 10 {
        seq![(48 + n) as u8]
    } else {
        nat_text(n / 10) + seq![(48 + n % 10) as u8]
    }
}

/// `n` in decimal, with a leading `-` when negative.
pub open spec fn int_text(n: int) -> Seq<u8> {
    if n < 0 {
        seq![45u8] + nat_text((-n) as nat)
    } else {
        nat_text(n as nat)
    }
}

/// The fraction digits of `f` in 1/10000, without trailing zeros.
pub open spec fn frac_text(f: nat) -> Seq<u8> {
    let d = seq![
        (48 + f / 1000) as u8,
        (48 + (f / 100) % 10) as u8,
        (48 + (f / 10) % 10) as u8,
        (48 + f % 10) as u8,
    ];
    if f % 1000 == 0 {
        d.take(1)
    } else if f % 100 == 0 {
        d.take(2)
    } else if f % 10 == 0 {
        d.take(3)
    } else {
        d
    }
}

/// A fixed-point coordinate as a decimal number.
pub open spec fn coord_text(c: int) -> Seq<u8> {
    let a = if c < 0 {
        -c
    } else {
        c
    };
    let sign = if c < 0 {
        seq![45u8]
    } else {
        Seq::empty()
    };
    let whole = nat_text((a / 10000) as nat);
    if a % 10000 == 0 {
        sign + whole
    } else {
        sign + whole + seq![46u8] + frac_text((a % 10000) as nat)
    }
}

/// Each id preceded by a space.
pub open spec fn ids_text(s: Seq<i32>) -> Seq<u8>
    decreases s.len(),
{
    if s.len() == 0 {
        Seq::empty()
    } else {
        ids_text(s.drop_last()) + seq![32u8] + int_text(s.last() as int)
    }
}

/// Each vertex id preceded by a space.
pub open spec fn vids_text(s: Seq<u32>) -> Seq<u8>
    decreases s.len(),
{
    if s.len() == 0 {
        Seq::empty()
    } else {
        vids_text(s.drop_last()) + seq![32u8] + nat_text(s.last() as nat)
    }
}

pub open spec fn vertex_line(v: Vertex) -> Seq<u8> {
    coord_text(v.p.x as int) + seq![32u8] + coord_text(v.p.y as int) + seq![32u8] + nat_text(
        v.polygons@.len(),
    ) + ids_text(v.polygons@) + seq![10u8]
}

/// The neighbor list as the file writes it: entry i lies opposite vertex i,
/// that is across the edge ending at vertex i, with ids resolved.
pub open spec fn written_nbrs(m: MeshMerger, k: int) -> Seq<i32> {
    let s = m.nbrs(k);
    let n = s.len() as int;
    Seq::new(s.len(), |i: int| m.root(s[wrap(i + n - 1, n)] as int) as i32)
}

pub open spec fn polygon_line(m: MeshMerger, k: int) -> Seq<u8> {
    nat_text(m.ring(k).len()) + vids_text(m.ring(k)) + ids_text(written_nbrs(m, k)) + seq![10u8]
}

pub open spec fn vertex_lines(vs: Seq<Vertex>, k: int) -> Seq<u8>
    decreases k,
{
    if k <= 0 {
        Seq::empty()
    } else {
        vertex_lines(vs, k - 1) + vertex_line(vs[k - 1])
    }
}

pub open spec fn polygon_lines(m: MeshMerger, k: int) -> Seq<u8>
    decreases k,
{
    if k <= 0 {
        Seq::empty()
    } else {
        polygon_lines(m, k - 1) + polygon_line(m, k - 1)
    }
}

/// The mesh in the "mesh 2" text format.
pub open spec fn mesh_text(m: MeshMerger) -> Seq<u8> {
    seq![109u8, 101u8, 115u8, 104u8, 10u8, 50u8, 10u8] + nat_text(m.mesh_vertices@.len()) + seq![32u8]
        + nat_text(m.mesh_polygons@.len()) + seq![10u8] + vertex_lines(
        m.mesh_vertices@,
        m.mesh_vertices.len() as int,
    ) + polygon_lines(m, m.mesh_polygons.len() as int)
}

fn push_nat(out: &mut Vec<u8>, n: u64)
    ensures
        final(out)@ == old(out)@ + nat_text(n as nat),
    decreases n,
{
    if n >= 10 {
        push_nat(out, n / 10);
    }
    out.push(48u8 + (n % 10) as u8);
    proof {
        if n >= 10 {
            assert(final(out)@ =~= old(out)@ + nat_text(n as nat));
        } else {
            assert(final(out)@ =~= old(out)@ + nat_text(n as nat));
        }
    }
}

fn push_int(out: &mut Vec<u8>, n: i32)
    ensures
        final(out)@ == old(out)@ + int_text(n as int),
{
    if n < 0 {
        out.push(45u8);
        let a: u64 = (-(n as i64)) as u64;
        push_nat(out, a);
        assert(final(out)@ =~= old(out)@ + int_text(n as int));
    } else {
        push_nat(out, n as u64);
    }
}

fn push_coord(out: &mut Vec<u8>, c: i32)
    ensures
        final(out)@ == old(out)@ + coord_text(c as int),
{
    let ghost start = out@;
    let a: u64 = if c < 0 {
        (-(c as i64)) as u64
    } else {
        c as u64
    };
    if c < 0 {
        out.push(45u8);
    }
    push_nat(out, a / 10000);
    let f = a % 10000;
    if f != 0 {
        out.push(46u8);
        out.push(48u8 + (f / 1000) as u8);
        if f % 1000 != 0 {
            out.push(48u8 + ((f / 100) % 10) as u8);
            if f % 100 != 0 {
                out.push(48u8 + ((f / 10) % 10) as u8);
                if f % 10 != 0 {
                    out.push(48u8 + (f % 10) as u8);
                }
            }
        }
    }
    assert(out@ =~= start + coord_text(c as int));
}

fn push_ids(out: &mut Vec<u8>, s: &Vec<i32>)
    ensures
        final(out)@ == old(out)@ + ids_text(s@),
{
    let ghost start = out@;
    let mut i: usize = 0;
    while i < s.len()
        invariant
            0 <= i <= s.len(),
            out@ == start + ids_text(s@.subrange(0, i as int)),
        decreases s.len() - i,
    {
        proof {
            assert(s@.subrange(0, i + 1).drop_last() =~= s@.subrange(0, i as int));
        }
        out.push(32u8);
        push_int(out, s[i]);
        i = i + 1;
        proof {
            assert(out@ =~= start + ids_text(s@.subrange(0, i as int)));
        }
    }
    assert(s@.subrange(0, s.len() as int) =~= s@);
}

fn push_vids(out: &mut Vec<u8>, s: &Vec<u32>)
    ensures
        final(out)@ == old(out)@ + vids_text(s@),
{
    let ghost start = out@;
    let mut i: usize = 0;
    while i < s.len()
        invariant
            0 <= i <= s.len(),
            out@ == start + vids_text(s@.subrange(0, i as int)),
        decreases s.len() - i,
    {
        proof {
            assert(s@.subrange(0, i + 1).drop_last() =~= s@.subrange(0, i as int));
        }
        out.push(32u8);
        push_nat(out, s[i] as u64);
        i = i + 1;
        proof {
            assert(out@ =~= start + vids_text(s@.subrange(0, i as int)));
        }
    }
    assert(s@.subrange(0, s.len() as int) =~= s@);
}

impl MeshMerger {
    /// The mesh in the "mesh 2" text format, as ASCII bytes. Each neighbor
    /// list is moved back one step, so that entry i lies opposite vertex i,
    /// and neighbor ids are resolved through the union-find. Meant for a
    /// compacted mesh.
    pub fn to_mesh2_format(&self) -> (r: Vec<u8>)
        requires
            self.wf(),
        ensures
            r@ == mesh_text(*self),
    {
        let mut out: Vec<u8> = vec![109u8, 101u8, 115u8, 104u8, 10u8, 50u8, 10u8];
        push_nat(&mut out, self.mesh_vertices.len() as u64);
        out.push(32u8);
        push_nat(&mut out, self.mesh_polygons.len() as u64);
        out.push(10u8);
        let ghost head = out@;
        let mut v: usize = 0;
        while v < self.mesh_vertices.len()
            invariant
                0 <= v <= self.mesh_vertices.len(),
                out@ == head + vertex_lines(self.mesh_vertices@, v as int),
            decreases self.mesh_vertices.len() - v,
        {
            let ghost before = out@;
            let vx = &self.mesh_vertices[v];
            push_coord(&mut out, vx.p.x);
            out.push(32u8);
            push_coord(&mut out, vx.p.y);
            out.push(32u8);
            push_nat(&mut out, vx.polygons.len() as u64);
            push_ids(&mut out, &vx.polygons);
            out.push(10u8);
            proof {
                assert(out@ =~= before + vertex_line(self.mesh_vertices@[v as int]));
            }
            v = v + 1;
        }
        let ghost mid = out@;
        let mut k: usize = 0;
        while k < self.mesh_polygons.len()
            invariant
                self.wf(),
                0 <= k <= self.mesh_polygons.len(),
                out@ == mid + polygon_lines(*self, k as int),
            decreases self.mesh_polygons.len() - k,
        {
            let ghost before = out@;
            let p = &self.mesh_polygons[k];
            let n = p.vertices.len();
            proof {
                assert(self.polygon_wf(k as int));
            }
            push_nat(&mut out, n as u64);
            push_vids(&mut out, &p.vertices);
            let mut nb: Vec<i32> = Vec::new();
            let mut i: usize = 0;
            while i < n
                invariant
                    self.wf(),
                    0 <= k < self.mesh_polygons.len(),
                    p == self.mesh_polygons@[k as int],
                    self.polygon_wf(k as int),
                    n == p.polygons.len(),
                    0 <= i <= n,
                    nb@ == written_nbrs(*self, k as int).subrange(0, i as int),
                decreases n - i,
            {
                let j = if i == 0 {
                    n - 1
                } else {
                    i - 1
                };
                let q = self.polygon_unions.find(p.polygons[j]);
                nb.push(q);
                i = i + 1;
                proof {
                    assert(nb@ =~= written_nbrs(*self, k as int).subrange(0, i as int));
                }
            }
            proof {
                assert(nb@ =~= written_nbrs(*self, k as int));
            }
            push_ids(&mut out, &nb);
            out.push(10u8);
            proof {
                assert(out@ =~= before + polygon_line(*self, k as int));
            }
            k = k + 1;
        }
        proof {
            assert(out@ =~= mesh_text(*self));
        }
        out
    }
}

} // verus!
