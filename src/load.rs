use vstd::prelude::*;

use crate::geometry::{polygon_double_area, Point};
use crate::mesh::{count_traversable, MeshMerger, Polygon, Vertex};
use crate::text::{is_digits, lemma_digits_value_nonneg, coord_word, lines, nat_word, parse_coord, parse_nat, split, tokens, view_all};
use crate::union_find::UnionFind;

verus! {

/// Why a text is not a "mesh 2" file.
#[derive(Clone, Copy, Debug, PartialEq, Eq, Structural)]
pub enum LoadError {
    /// The first two lines are not `mesh` and `2`.
    InvalidHeader,
    /// The counts line is not two numbers (with at most 2^31 - 1 polygons).
    BadCounts,
    /// A vertex or polygon id is out of range.
    OutOfRange,
    /// A vertex declares fewer than two polygons around it.
    TooFewNeighbors,
    /// A polygon's signed area is not positive.
    DegeneratePolygon,
    /// A line is missing, has the wrong number of words, or a word is not a number.
    Malformed,
}

/// A load error and the line where it was found, counted from 0 (the
/// `mesh` line is line 0).
#[derive(Clone, Copy, Debug, PartialEq, Eq, Structural)]
pub struct LoadFailure {
    pub kind: LoadError,
    pub line: usize,
}

/// A polygon id word: -1 or an id below `np`.
pub open spec fn id_word(s: Seq<u8>, np: int) -> Result<int, LoadError> {
    if s.len() > 0 && s[0] == 45u8 {
        match nat_word(s.subrange(1, s.len() as int)) {
            None => Err(LoadError::Malformed),
            Some(v) => if v == 1 {
                Ok(-1)
            } else {
                Err(LoadError::OutOfRange)
            },
        }
    } else {
        match nat_word(s) {
            None => Err(LoadError::Malformed),
            Some(v) => if v < np {
                Ok(v)
            } else {
                Err(LoadError::OutOfRange)
            },
        }
    }
}

/// A vertex id word: an id below `nv`.
pub open spec fn vid_word(s: Seq<u8>, nv: int) -> Result<int, LoadError> {
    match nat_word(s) {
        None => Err(LoadError::Malformed),
        Some(v) => if v < nv {
            Ok(v)
        } else {
            Err(LoadError::OutOfRange)
        },
    }
}

pub open spec fn word(s: Seq<u8>, bound: int, signed: bool) -> Result<int, LoadError> {
    if signed {
        id_word(s, bound)
    } else {
        vid_word(s, bound)
    }
}

/// The first error among the id words `toks[lo..hi]`.
pub open spec fn words_err(toks: Seq<Seq<u8>>, lo: int, hi: int, bound: int, signed: bool) -> Option<
    LoadError,
>
    decreases hi - lo,
{
    if hi <= lo {
        None
    } else {
        match words_err(toks, lo, hi - 1, bound, signed) {
            Some(e) => Some(e),
            None => match word(toks[hi - 1], bound, signed) {
                Err(e) => Some(e),
                Ok(_) => None,
            },
        }
    }
}

/// Once an error is found, later words do not change it.
pub proof fn lemma_words_err_extends(toks: Seq<Seq<u8>>, lo: int, j: int, hi: int, bound: int, signed: bool)
    requires
        j <= hi,
        words_err(toks, lo, j, bound, signed) is Some,
    ensures
        words_err(toks, lo, hi, bound, signed) == words_err(toks, lo, j, bound, signed),
    decreases hi - j,
{
    if j < hi {
        lemma_words_err_extends(toks, lo, j, hi - 1, bound, signed);
    }
}

pub proof fn lemma_id_word_range(s: Seq<u8>, np: int)
    requires
        np >= 0,
    ensures
        id_word(s, np) is Ok ==> -1 <= id_word(s, np)->Ok_0 < np,
{
    if s.len() > 0 && s[0] == 45u8 {
    } else if nat_word(s) is Some {
        assert(is_digits(s));
        lemma_digits_value_nonneg(s);
        assert(nat_word(s)->Some_0 >= 0);
    }
}

/// Without an error, every word is an id in range.
pub proof fn lemma_words_ok(toks: Seq<Seq<u8>>, lo: int, hi: int, bound: int, signed: bool)
    requires
        words_err(toks, lo, hi, bound, signed) is None,
    ensures
        forall|t: int| lo <= t < hi ==> #[trigger] word(toks[t], bound, signed) is Ok,
    decreases hi - lo,
{
    if hi > lo {
        lemma_words_ok(toks, lo, hi - 1, bound, signed);
    }
}

/// What is wrong with a vertex line `x y k n1 .. nk`, if anything.
pub open spec fn vertex_err(toks: Seq<Seq<u8>>, np: int) -> Option<LoadError> {
    if toks.len() < 3 || coord_word(toks[0]) is None || coord_word(toks[1]) is None || nat_word(
        toks[2],
    ) is None {
        Some(LoadError::Malformed)
    } else {
        let k = nat_word(toks[2])->Some_0;
        if k < 2 {
            Some(LoadError::TooFewNeighbors)
        } else if toks.len() != 3 + k {
            Some(LoadError::Malformed)
        } else {
            words_err(toks, 3, 3 + k, np, true)
        }
    }
}

pub open spec fn vertex_point(toks: Seq<Seq<u8>>) -> Point {
    Point { x: coord_word(toks[0])->Some_0 as i32, y: coord_word(toks[1])->Some_0 as i32 }
}

pub open spec fn vertex_incident(toks: Seq<Seq<u8>>, np: int) -> Seq<i32> {
    Seq::new((toks.len() - 3) as nat, |t: int| id_word(toks[3 + t], np)->Ok_0 as i32)
}

/// What is wrong with the words of a polygon line `m v1 .. vm q1 .. qm`,
/// area aside.
pub open spec fn polygon_shape_err(toks: Seq<Seq<u8>>, nv: int, np: int) -> Option<LoadError> {
    if toks.len() < 1 || nat_word(toks[0]) is None {
        Some(LoadError::Malformed)
    } else {
        let m = nat_word(toks[0])->Some_0;
        if m < 3 || toks.len() != 1 + 2 * m {
            Some(LoadError::Malformed)
        } else {
            match words_err(toks, 1, 1 + m, nv, false) {
                Some(e) => Some(e),
                None => words_err(toks, 1 + m, 1 + 2 * m, np, true),
            }
        }
    }
}

pub open spec fn polygon_ring(toks: Seq<Seq<u8>>, nv: int) -> Seq<u32> {
    Seq::new(((toks.len() - 1) / 2) as nat, |t: int| vid_word(toks[1 + t], nv)->Ok_0 as u32)
}

/// The neighbor words as written: the one at index i lies opposite vertex i.
pub open spec fn polygon_raw_nbrs(toks: Seq<Seq<u8>>, np: int) -> Seq<i32> {
    let m = (toks.len() - 1) / 2;
    Seq::new(m as nat, |t: int| id_word(toks[1 + m + t], np)->Ok_0 as i32)
}

/// The first element moved to the end.
pub open spec fn rotate_left(s: Seq<i32>) -> Seq<i32> {
    s.subrange(1, s.len() as int).push(s[0])
}

pub open spec fn polygon_err(toks: Seq<Seq<u8>>, nv: int, np: int, pts: Seq<Point>) -> Option<
    LoadError,
> {
    match polygon_shape_err(toks, nv, np) {
        Some(e) => Some(e),
        None => if polygon_double_area(pts, polygon_ring(toks, nv)) <= 0 {
            Some(LoadError::DegeneratePolygon)
        } else {
            None
        },
    }
}

/// The vertex and polygon counts of the third line.
pub open spec fn counts(l: Seq<Seq<u8>>) -> Option<(int, int)> {
    if l.len() < 3 {
        None
    } else {
        let t = tokens(l[2]);
        if t.len() != 2 || nat_word(t[0]) is None || nat_word(t[1]) is None || nat_word(
            t[1],
        )->Some_0 > i32::MAX {
            None
        } else {
            Some((nat_word(t[0])->Some_0, nat_word(t[1])->Some_0))
        }
    }
}

/// The words of the `k`-th line after the counts.
pub open spec fn line_toks(l: Seq<Seq<u8>>, k: int) -> Seq<Seq<u8>> {
    tokens(l[3 + k])
}

pub open spec fn file_points(l: Seq<Seq<u8>>, nv: int) -> Seq<Point> {
    Seq::new(nv as nat, |v: int| vertex_point(line_toks(l, v)))
}

pub open spec fn line_err(l: Seq<Seq<u8>>, nv: int, np: int, k: int) -> Option<LoadError> {
    if 3 + k >= l.len() {
        Some(LoadError::Malformed)
    } else if k < nv {
        vertex_err(line_toks(l, k), np)
    } else {
        polygon_err(line_toks(l, k), nv, np, file_points(l, nv))
    }
}

/// The first error among the first `k` lines after the counts.
pub open spec fn body_err(l: Seq<Seq<u8>>, nv: int, np: int, k: int) -> Option<LoadError>
    decreases k,
{
    if k <= 0 {
        None
    } else {
        match body_err(l, nv, np, k - 1) {
            Some(e) => Some(e),
            None => line_err(l, nv, np, k - 1),
        }
    }
}

pub open spec fn mesh_word() -> Seq<u8> {
    seq![109u8, 101u8, 115u8, 104u8]
}

/// The first thing wrong with a text as a "mesh 2" file, if anything.
pub open spec fn load_err(b: Seq<u8>) -> Option<LoadError> {
    let l = lines(b);
    if l.len() < 2 || l[0] != mesh_word() || l[1] != seq![50u8] {
        Some(LoadError::InvalidHeader)
    } else {
        match counts(l) {
            None => Some(LoadError::BadCounts),
            Some((nv, np)) => body_err(l, nv, np, nv + np),
        }
    }
}

/// Index of the first wrong line among the first `k` lines after the
/// counts, or -1.
pub open spec fn first_bad(l: Seq<Seq<u8>>, nv: int, np: int, k: int) -> int
    decreases k,
{
    if k <= 0 {
        -1
    } else if first_bad(l, nv, np, k - 1) >= 0 {
        first_bad(l, nv, np, k - 1)
    } else if line_err(l, nv, np, k - 1) is Some {
        k - 1
    } else {
        -1
    }
}

/// The line, counted from 0, of the first thing wrong with a text.
pub open spec fn failure_line(b: Seq<u8>) -> int {
    let l = lines(b);
    if l.len() < 1 || l[0] != mesh_word() {
        0
    } else if l.len() < 2 || l[1] != seq![50u8] {
        1
    } else if counts(l) is None {
        2
    } else {
        3 + first_bad(l, counts(l)->Some_0.0, counts(l)->Some_0.1, counts(l)->Some_0.0 + counts(l)->Some_0.1)
    }
}

/// The first wrong line decides both the error and its line number.
pub proof fn lemma_fail_at(l: Seq<Seq<u8>>, nv: int, np: int, k: int, total: int)
    requires
        0 <= k < total,
        body_err(l, nv, np, k) is None,
        line_err(l, nv, np, k) is Some,
    ensures
        body_err(l, nv, np, total) == line_err(l, nv, np, k),
        first_bad(l, nv, np, total) == k,
{
    lemma_body_err_extends(l, nv, np, k + 1, total);
    lemma_first_bad_none(l, nv, np, k);
    lemma_first_bad_extends(l, nv, np, k + 1, total);
}

pub proof fn lemma_first_bad_none(l: Seq<Seq<u8>>, nv: int, np: int, k: int)
    requires
        body_err(l, nv, np, k) is None,
    ensures
        first_bad(l, nv, np, k) == -1,
    decreases k,
{
    if k > 0 {
        lemma_first_bad_none(l, nv, np, k - 1);
    }
}

pub proof fn lemma_first_bad_extends(l: Seq<Seq<u8>>, nv: int, np: int, j: int, k: int)
    requires
        j <= k,
        first_bad(l, nv, np, j) >= 0,
    ensures
        first_bad(l, nv, np, k) == first_bad(l, nv, np, j),
    decreases k - j,
{
    if j < k {
        lemma_first_bad_extends(l, nv, np, j, k - 1);
    }
}

/// `p` is what the polygon line `toks` describes, over the vertex positions `pts`.
#[verifier::opaque]
pub open spec fn polygon_read(p: Polygon, toks: Seq<Seq<u8>>, nv: int, np: int, pts: Seq<Point>) -> bool {
    &&& p.vertices@ == polygon_ring(toks, nv)
    &&& p.polygons@ == rotate_left(polygon_raw_nbrs(toks, np))
    &&& p.area == polygon_double_area(pts, p.vertices@)
    &&& p.num_traversable == count_traversable(p.polygons@)
    &&& p.area > 0
    &&& p.vertices.len() >= 3
    &&& p.vertices.len() == p.polygons.len()
    &&& forall|t: int| 0 <= t < p.vertices.len() ==> (#[trigger] p.vertices@[t] as int) < nv
    &&& forall|t: int| 0 <= t < p.polygons.len() ==> -1 <= #[trigger] p.polygons@[t] < np
}

/// `v` is what the vertex line `toks` describes.
#[verifier::opaque]
pub open spec fn vertex_read(v: Vertex, toks: Seq<Seq<u8>>, np: int) -> bool {
    &&& v.p == vertex_point(toks)
    &&& v.polygons@ == vertex_incident(toks, np)
    &&& forall|t: int| 0 <= t < v.polygons.len() ==> -1 <= #[trigger] v.polygons@[t] < np
}

/// `mesh` is what a well-formed text `l` (split into lines) describes.
pub open spec fn loaded_from(mesh: MeshMerger, l: Seq<Seq<u8>>) -> bool {
    let (nv, np) = counts(l)->Some_0;
    &&& mesh.wf()
    &&& mesh.mesh_vertices.len() == nv
    &&& mesh.mesh_polygons.len() == np
    &&& mesh.polygon_unions@ == Seq::new(np as nat, |k: int| k as i32)
    &&& forall|v: int|
        0 <= v < nv ==> mesh.mesh_vertices@[v].p == vertex_point(#[trigger] line_toks(l, v))
            && mesh.mesh_vertices@[v].polygons@ == vertex_incident(line_toks(l, v), np)
    &&& forall|k: int|
        0 <= k < np ==> mesh.ring(k) == polygon_ring(#[trigger] line_toks(l, nv + k), nv)
            && mesh.nbrs(k) == rotate_left(polygon_raw_nbrs(line_toks(l, nv + k), np))
            && mesh.mesh_polygons@[k].area > 0
}

fn bytes_eq(a: &Vec<u8>, b: &Vec<u8>) -> (r: bool)
    ensures
        r == (a@ == b@),
{
    if a.len() != b.len() {
        return false;
    }
    let mut i: usize = 0;
    while i < a.len()
        invariant
            0 <= i <= a.len(),
            a.len() == b.len(),
            forall|k: int| 0 <= k < i ==> a@[k] == b@[k],
        decreases a.len() - i,
    {
        if a[i] != b[i] {
            return false;
        }
        i = i + 1;
    }
    assert(a@ =~= b@);
    true
}

fn parse_id(t: &Vec<u8>, np: u32) -> (r: Result<i32, LoadError>)
    requires
        np <= i32::MAX,
    ensures
        r matches Ok(v) ==> id_word(t@, np as int) == Ok::<int, LoadError>(v as int),
        r matches Err(e) ==> id_word(t@, np as int) == Err::<int, LoadError>(e),
{
    let n = t.len();
    if n > 0 && t[0] == 45u8 {
        match parse_nat(t, 1, n) {
            None => Err(LoadError::Malformed),
            Some(v) => if v == 1 {
                Ok(-1)
            } else {
                Err(LoadError::OutOfRange)
            },
        }
    } else {
        proof {
            assert(t@.subrange(0, n as int) =~= t@);
        }
        match parse_nat(t, 0, n) {
            None => Err(LoadError::Malformed),
            Some(v) => if v < np {
                Ok(v as i32)
            } else {
                Err(LoadError::OutOfRange)
            },
        }
    }
}

fn parse_vid(t: &Vec<u8>, nv: u32) -> (r: Result<u32, LoadError>)
    ensures
        r matches Ok(v) ==> vid_word(t@, nv as int) == Ok::<int, LoadError>(v as int),
        r matches Err(e) ==> vid_word(t@, nv as int) == Err::<int, LoadError>(e),
{
    let n = t.len();
    proof {
        assert(t@.subrange(0, n as int) =~= t@);
    }
    match parse_nat(t, 0, n) {
        None => Err(LoadError::Malformed),
        Some(v) => if v < nv {
            Ok(v)
        } else {
            Err(LoadError::OutOfRange)
        },
    }
}

fn parse_word(t: &Vec<u8>, n: usize) -> (r: Option<u32>)
    requires
        n == t.len(),
    ensures
        r matches Some(v) ==> nat_word(t@) == Some(v as int),
        r is None ==> nat_word(t@) is None,
{
    proof {
        assert(t@.subrange(0, n as int) =~= t@);
    }
    parse_nat(t, 0, n)
}

/// Number of entries that are not -1.
pub fn count_neighbours(s: &Vec<i32>) -> (r: usize)
    ensures
        r == count_traversable(s@),
{
    let mut c: usize = 0;
    let mut i: usize = 0;
    while i < s.len()
        invariant
            0 <= i <= s.len(),
            c == count_traversable(s@.subrange(0, i as int)),
            c <= i,
        decreases s.len() - i,
    {
        proof {
            assert(s@.subrange(0, i + 1).drop_last() =~= s@.subrange(0, i as int));
        }
        if s[i] != -1 {
            c = c + 1;
        }
        i = i + 1;
    }
    assert(s@.subrange(0, s.len() as int) =~= s@);
    c
}

/// Reads the id words `toks[lo..hi]`.
fn parse_ids(toks: &Vec<Vec<u8>>, lo: usize, hi: usize, np: u32) -> (r: Result<Vec<i32>, LoadError>)
    requires
        lo <= hi <= toks.len(),
        np <= i32::MAX,
    ensures
        r matches Err(e) ==> words_err(view_all(toks@), lo as int, hi as int, np as int, true) == Some(e),
        r matches Ok(v) ==> words_err(view_all(toks@), lo as int, hi as int, np as int, true) is None
            && v@ == Seq::new((hi - lo) as nat, |t: int| id_word(toks@[lo + t]@, np as int)->Ok_0 as i32),
{
    let ghost w = view_all(toks@);
    let mut out: Vec<i32> = Vec::new();
    let mut k: usize = lo;
    while k < hi
        invariant
            lo <= k <= hi <= toks.len(),
            w == view_all(toks@),
            np <= i32::MAX,
            words_err(w, lo as int, k as int, np as int, true) is None,
            out@ == Seq::new((k - lo) as nat, |t: int| id_word(toks@[lo + t]@, np as int)->Ok_0 as i32),
        decreases hi - k,
    {
        match parse_id(&toks[k], np) {
            Err(e) => {
                proof {
                    assert(w[k as int] == toks@[k as int]@);
                    lemma_words_err_extends(w, lo as int, k + 1, hi as int, np as int, true);
                }
                return Err(e);
            },
            Ok(v) => {
                out.push(v);
            },
        }
        k = k + 1;
        proof {
            assert(out@ =~= Seq::new((k - lo) as nat, |t: int| id_word(toks@[lo + t]@, np as int)->Ok_0 as i32));
        }
    }
    Ok(out)
}

/// Reads the vertex id words `toks[lo..hi]`.
fn parse_vids(toks: &Vec<Vec<u8>>, lo: usize, hi: usize, nv: u32) -> (r: Result<Vec<u32>, LoadError>)
    requires
        lo <= hi <= toks.len(),
    ensures
        r matches Err(e) ==> words_err(view_all(toks@), lo as int, hi as int, nv as int, false) == Some(e),
        r matches Ok(v) ==> words_err(view_all(toks@), lo as int, hi as int, nv as int, false) is None
            && v@ == Seq::new((hi - lo) as nat, |t: int| vid_word(toks@[lo + t]@, nv as int)->Ok_0 as u32),
{
    let ghost w = view_all(toks@);
    let mut out: Vec<u32> = Vec::new();
    let mut k: usize = lo;
    while k < hi
        invariant
            lo <= k <= hi <= toks.len(),
            w == view_all(toks@),
            words_err(w, lo as int, k as int, nv as int, false) is None,
            out@ == Seq::new((k - lo) as nat, |t: int| vid_word(toks@[lo + t]@, nv as int)->Ok_0 as u32),
        decreases hi - k,
    {
        match parse_vid(&toks[k], nv) {
            Err(e) => {
                proof {
                    assert(w[k as int] == toks@[k as int]@);
                    lemma_words_err_extends(w, lo as int, k + 1, hi as int, nv as int, false);
                }
                return Err(e);
            },
            Ok(v) => {
                out.push(v);
            },
        }
        k = k + 1;
        proof {
            assert(out@ =~= Seq::new((k - lo) as nat, |t: int| vid_word(toks@[lo + t]@, nv as int)->Ok_0 as u32));
        }
    }
    Ok(out)
}

/// Reads a vertex line.
fn parse_vertex(toks: &Vec<Vec<u8>>, np: u32) -> (r: Result<Vertex, LoadError>)
    requires
        np <= i32::MAX,
    ensures
        r matches Err(e) ==> vertex_err(view_all(toks@), np as int) == Some(e),
        r matches Ok(v) ==> vertex_err(view_all(toks@), np as int) is None && vertex_read(
            v,
            view_all(toks@),
            np as int,
        ),
{
    let ghost w = view_all(toks@);
    if toks.len() < 3 {
        return Err(LoadError::Malformed);
    }
    let x = match parse_coord(&toks[0]) {
        Some(x) => x,
        None => {
            return Err(LoadError::Malformed);
        },
    };
    let y = match parse_coord(&toks[1]) {
        Some(y) => y,
        None => {
            return Err(LoadError::Malformed);
        },
    };
    let k = match parse_word(&toks[2], toks[2].len()) {
        Some(k) => k,
        None => {
            return Err(LoadError::Malformed);
        },
    };
    proof {
        assert(w[0] == toks@[0]@ && w[1] == toks@[1]@ && w[2] == toks@[2]@);
    }
    if k < 2 {
        return Err(LoadError::TooFewNeighbors);
    }
    if toks.len() as u64 != 3 + k as u64 {
        return Err(LoadError::Malformed);
    }
    let n = toks.len();
    let polygons = parse_ids(toks, 3, n, np)?;
    proof {
        assert forall|t: int| 0 <= t < n - 3 implies #[trigger] w[3 + t] == toks@[3 + t]@ by {}
        assert(polygons@ =~= vertex_incident(w, np as int));
        lemma_words_ok(w, 3, n as int, np as int, true);
        assert forall|t: int| 0 <= t < polygons.len() implies -1 <= #[trigger] polygons@[t] < np by {
            assert(word(w[3 + t], np as int, true) is Ok);
            lemma_id_word_range(w[3 + t], np as int);
        }
    }
    let v = Vertex { p: Point { x, y }, polygons };
    proof {
        reveal(vertex_read);
    }
    Ok(v)
}

/// Reads a polygon line, with the neighbor words moved one step so that
/// entry i stands for the edge from vertex i to vertex i + 1.
fn parse_polygon(toks: &Vec<Vec<u8>>, nv: u32, np: u32, verts: &Vec<Vertex>) -> (r: Result<
    Polygon,
    LoadError,
>)
    requires
        np <= i32::MAX,
        verts.len() == nv,
    ensures
        r matches Err(e) ==> polygon_err(view_all(toks@), nv as int, np as int, verts@.map_values(|v: Vertex| v.p)) == Some(e),
        r matches Ok(p) ==> polygon_err(view_all(toks@), nv as int, np as int, verts@.map_values(|v: Vertex| v.p)) is None
            && polygon_read(p, view_all(toks@), nv as int, np as int, verts@.map_values(|v: Vertex| v.p)),
{
    let ghost w = view_all(toks@);
    if toks.len() < 1 {
        return Err(LoadError::Malformed);
    }
    let m = match parse_word(&toks[0], toks[0].len()) {
        Some(m) => m,
        None => {
            return Err(LoadError::Malformed);
        },
    };
    proof {
        assert(w[0] == toks@[0]@);
    }
    if m < 3 || toks.len() as u64 != 1 + 2 * (m as u64) {
        return Err(LoadError::Malformed);
    }
    let mu = m as usize;
    let n = toks.len();
    let vertices = match parse_vids(toks, 1, 1 + mu, nv) {
        Ok(v) => v,
        Err(e) => {
            return Err(e);
        },
    };
    let raw = match parse_ids(toks, 1 + mu, n, np) {
        Ok(v) => v,
        Err(e) => {
            return Err(e);
        },
    };
    proof {
        assert forall|t: int| 0 <= t < n implies #[trigger] w[t] == toks@[t]@ by {}
        assert(vertices@ =~= polygon_ring(w, nv as int));
        assert(raw@ =~= polygon_raw_nbrs(w, np as int));
    }
    let mut polygons: Vec<i32> = Vec::new();
    let mut k: usize = 1;
    while k < mu
        invariant
            1 <= k <= mu,
            raw.len() == mu,
            polygons@ == raw@.subrange(1, k as int),
        decreases mu - k,
    {
        polygons.push(raw[k]);
        k = k + 1;
        proof {
            assert(polygons@ =~= raw@.subrange(1, k as int));
        }
    }
    polygons.push(raw[0]);
    proof {
        assert(polygons@ =~= rotate_left(raw@));
        assert forall|t: int| 0 <= t < vertices.len() implies (#[trigger] vertices@[t] as int) < verts.len() by {
            lemma_words_ok(w, 1, 1 + mu, nv as int, false);
            assert(word(w[1 + t], nv as int, false) is Ok);
            assert(w[1 + t] == toks@[1 + t]@);
            let v = vid_word(w[1 + t], nv as int)->Ok_0;
            lemma_digits_value_nonneg(w[1 + t]);
            assert(0 <= v < nv);
            assert(vertices@[t] == v as u32);
        }
    }
    proof {
        assert forall|t: int| 0 <= t < raw.len() implies -1 <= #[trigger] raw@[t] < np by {
            lemma_words_ok(w, 1 + mu, n as int, np as int, true);
            assert(word(w[1 + mu + t], np as int, true) is Ok);
            assert(w[1 + mu + t] == toks@[1 + mu + t]@);
            lemma_id_word_range(w[1 + mu + t], np as int);
        }
        assert forall|t: int| 0 <= t < polygons.len() implies -1 <= #[trigger] polygons@[t] < np by {
            if t < mu - 1 {
                assert(polygons@[t] == raw@[t + 1]);
            } else {
                assert(polygons@[t] == raw@[0]);
            }
        }
    }
    let area = MeshMerger::get_area(verts, &vertices);
    if area <= 0 {
        return Err(LoadError::DegeneratePolygon);
    }
    let num_traversable = count_neighbours(&polygons);
    let p = Polygon { num_traversable, area, vertices, polygons };
    proof {
        reveal(polygon_read);
    }
    Ok(p)
}

/// Once a line is found wrong, later lines do not change the verdict.
pub proof fn lemma_body_err_extends(l: Seq<Seq<u8>>, nv: int, np: int, j: int, k: int)
    requires
        j <= k,
        body_err(l, nv, np, j) is Some,
    ensures
        body_err(l, nv, np, k) == body_err(l, nv, np, j),
    decreases k - j,
{
    if j < k {
        lemma_body_err_extends(l, nv, np, j, k - 1);
    }
}

impl MeshMerger {
    /// Reads a mesh from the "mesh 2" text format. The neighbor list of each
    /// polygon is moved one step on loading, so that entry i stands for the
    /// edge from vertex i to vertex i + 1.
    #[verifier::rlimit(80)]
    pub fn from_bytes(bytes: &[u8]) -> (r: Result<MeshMerger, LoadFailure>)
        ensures
            r matches Err(e) ==> load_err(bytes@) == Some(e.kind) && e.line == failure_line(bytes@),
            r matches Ok(m) ==> load_err(bytes@) is None && loaded_from(m, lines(bytes@)),
    {
        let ls = split(bytes, true);
        let ghost l = view_all(ls@);
        let mesh_w: Vec<u8> = vec![109u8, 101u8, 115u8, 104u8];
        let two: Vec<u8> = vec![50u8];
        proof {
            assert(mesh_w@ =~= mesh_word());
            assert(two@ =~= seq![50u8]);
        }
        if ls.len() < 1 {
            return Err(LoadFailure { kind: LoadError::InvalidHeader, line: 0 });
        }
        proof {
            assert(l[0] == ls@[0]@);
        }
        if !bytes_eq(&ls[0], &mesh_w) {
            return Err(LoadFailure { kind: LoadError::InvalidHeader, line: 0 });
        }
        if ls.len() < 2 {
            return Err(LoadFailure { kind: LoadError::InvalidHeader, line: 1 });
        }
        proof {
            assert(l[1] == ls@[1]@);
        }
        if !bytes_eq(&ls[1], &two) {
            return Err(LoadFailure { kind: LoadError::InvalidHeader, line: 1 });
        }
        if ls.len() < 3 {
            return Err(LoadFailure { kind: LoadError::BadCounts, line: 2 });
        }
        let ct = split(ls[2].as_slice(), false);
        proof {
            assert(l[2] == ls@[2]@);
        }
        if ct.len() != 2 {
            return Err(LoadFailure { kind: LoadError::BadCounts, line: 2 });
        }
        proof {
            assert(view_all(ct@)[0] == ct@[0]@ && view_all(ct@)[1] == ct@[1]@);
        }
        let nv = match parse_word(&ct[0], ct[0].len()) {
            Some(v) => v,
            None => {
                return Err(LoadFailure { kind: LoadError::BadCounts, line: 2 });
            },
        };
        let np = match parse_word(&ct[1], ct[1].len()) {
            Some(v) => v,
            None => {
                return Err(LoadFailure { kind: LoadError::BadCounts, line: 2 });
            },
        };
        if np > 0x7fff_ffff {
            return Err(LoadFailure { kind: LoadError::BadCounts, line: 2 });
        }
        let ghost total = nv + np;
        proof {
            assert(counts(l) == Some((nv as int, np as int)));
            assert(load_err(bytes@) == body_err(l, nv as int, np as int, total));
            assert(failure_line(bytes@) == 3 + first_bad(l, nv as int, np as int, total));
        }
        let mut verts: Vec<Vertex> = Vec::new();
        let mut pts: Vec<Point> = Vec::new();
        let mut line: usize = 3;
        let mut k: u32 = 0;
        while k < nv
            invariant
                l == view_all(ls@),
                l == lines(bytes@),
                counts(l) == Some((nv as int, np as int)),
                np <= i32::MAX,
                total == nv + np,
                load_err(bytes@) == body_err(l, nv as int, np as int, total),
                failure_line(bytes@) == 3 + first_bad(l, nv as int, np as int, total),
                0 <= k <= nv,
                line == 3 + k,
                body_err(l, nv as int, np as int, k as int) is None,
                verts.len() == k,
                pts@ == verts@.map_values(|v: Vertex| v.p),
                forall|v: int| 0 <= v < k ==> vertex_read(#[trigger] verts@[v], line_toks(l, v), np as int),
            decreases nv - k,
        {
            if line >= ls.len() {
                proof {
                    assert(line_err(l, nv as int, np as int, k as int) == Some(LoadError::Malformed));
                    lemma_fail_at(l, nv as int, np as int, k as int, total);
                }
                return Err(LoadFailure { kind: LoadError::Malformed, line });
            }
            let toks = split(ls[line].as_slice(), false);
            proof {
                assert(l[line as int] == ls@[line as int]@);
            }
            match parse_vertex(&toks, np) {
                Err(e) => {
                    proof {
                        lemma_fail_at(l, nv as int, np as int, k as int, total);
                    }
                    return Err(LoadFailure { kind: e, line });
                },
                Ok(v) => {
                    pts.push(v.p);
                    verts.push(v);
                },
            }
            proof {
                assert(pts@ =~= verts@.map_values(|v: Vertex| v.p));
            }
            line = line + 1;
            k = k + 1;
        }
        proof {
            reveal(vertex_read);
            assert(pts@ =~= file_points(l, nv as int));
        }
        let mut polys: Vec<Polygon> = Vec::new();
        let mut k: u32 = 0;
        while k < np
            invariant
                l == view_all(ls@),
                l == lines(bytes@),
                counts(l) == Some((nv as int, np as int)),
                np <= i32::MAX,
                total == nv + np,
                load_err(bytes@) == body_err(l, nv as int, np as int, total),
                failure_line(bytes@) == 3 + first_bad(l, nv as int, np as int, total),
                0 <= k <= np,
                line == 3 + nv + k,
                body_err(l, nv as int, np as int, nv + k) is None,
                pts@ == file_points(l, nv as int),
                pts.len() == nv,
                pts@ == verts@.map_values(|v: Vertex| v.p),
                verts.len() == nv,
                polys.len() == k,
                forall|j: int|
                    0 <= j < k ==> polygon_read(
                        #[trigger] polys@[j],
                        line_toks(l, nv + j),
                        nv as int,
                        np as int,
                        pts@,
                    ),
            decreases np - k,
        {
            if line >= ls.len() {
                proof {
                    assert(line_err(l, nv as int, np as int, nv + k) == Some(LoadError::Malformed));
                    lemma_fail_at(l, nv as int, np as int, nv + k, total);
                }
                return Err(LoadFailure { kind: LoadError::Malformed, line });
            }
            let toks = split(ls[line].as_slice(), false);
            proof {
                assert(l[line as int] == ls@[line as int]@);
            }
            match parse_polygon(&toks, nv, np, &verts) {
                Err(e) => {
                    proof {
                        lemma_fail_at(l, nv as int, np as int, nv + k, total);
                    }
                    return Err(LoadFailure { kind: e, line });
                },
                Ok(p) => {
                    polys.push(p);
                },
            }
            line = line + 1;
            k = k + 1;
        }
        let unions = UnionFind::new(np as i32);
        let mesh = MeshMerger { mesh_vertices: verts, mesh_polygons: polys, polygon_unions: unions };
        proof {
            reveal(vertex_read);
            reveal(polygon_read);
            assert(mesh.points() =~= pts@);
            assert forall|j: int| 0 <= j < np implies #[trigger] mesh.polygon_wf(j) by {
                assert(mesh.is_live(j));
                assert(polygon_read(polys@[j], line_toks(l, nv + j), nv as int, np as int, pts@));
            }
            assert forall|k: int|
                0 <= k < np implies mesh.ring(k) == polygon_ring(#[trigger] line_toks(l, nv + k), nv as int)
                && mesh.nbrs(k) == rotate_left(polygon_raw_nbrs(line_toks(l, nv + k), np as int))
                && mesh.mesh_polygons@[k].area > 0 by {
                assert(polygon_read(polys@[k], line_toks(l, nv + k), nv as int, np as int, pts@));
            }
            assert forall|v: int| 0 <= v < nv implies #[trigger] mesh.vertex_wf(v) by {
                assert(vertex_read(verts@[v], line_toks(l, v), np as int));
            }
            assert forall|v: int|
                0 <= v < nv implies mesh.mesh_vertices@[v].p == vertex_point(#[trigger] line_toks(l, v))
                && mesh.mesh_vertices@[v].polygons@ == vertex_incident(line_toks(l, v), np as int) by {
                assert(vertex_read(verts@[v], line_toks(l, v), np as int));
            }
        }
        Ok(mesh)
    }
}

/// Every polygon of a loaded mesh has a positive area, equal to the doubled
/// area of its ring, and as many neighbor entries as vertices, at least three.
pub proof fn lemma_loaded_polygons(b: Seq<u8>, m: MeshMerger)
    requires
        load_err(b) is None,
        loaded_from(m, lines(b)),
    ensures
        forall|k: int|
            0 <= k < m.mesh_polygons.len() ==> {
                let p = #[trigger] m.mesh_polygons@[k];
                &&& p.area > 0
                &&& p.area == polygon_double_area(m.points(), p.vertices@)
                &&& p.vertices.len() == p.polygons.len()
                &&& p.vertices.len() >= 3
            },
{
    assert forall|k: int| 0 <= k < m.mesh_polygons.len() implies {
        let p = #[trigger] m.mesh_polygons@[k];
        &&& p.area > 0
        &&& p.area == polygon_double_area(m.points(), p.vertices@)
        &&& p.vertices.len() == p.polygons.len()
        &&& p.vertices.len() >= 3
    } by {
        assert(m.polygon_wf(k));
        assert(m.is_live(k));
        let (nv, np) = counts(lines(b))->Some_0;
        assert(m.ring(k) == polygon_ring(line_toks(lines(b), nv + k), nv));
    }
}

} // verus!
