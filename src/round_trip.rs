use vstd::prelude::*;

use crate::geometry::wrap;
use crate::load::{
    body_err, counts, file_points, id_word, line_err, line_toks, load_err, loaded_from, mesh_word,
    polygon_raw_nbrs, polygon_ring, rotate_left, vertex_err, vertex_incident, vertex_point, word,
    words_err, LoadError,
};
use crate::mesh::{MeshMerger, Vertex};
use crate::text::{
    coord_word, digits_value, first_byte, frac4, is_blank, is_digit, is_digits, lines, nat_word,
    split_state, strip_cr, tokens,
};
use crate::write::{
    coord_text, frac_text, ids_text, int_text, mesh_text, nat_text, polygon_line, polygon_lines,
    vertex_line, vertex_lines, vids_text, written_nbrs,
};

verus! {

/// The digits written for `n` read back as `n`.
pub proof fn lemma_nat_text(n: nat)
    ensures
        is_digits(nat_text(n)),
        digits_value(nat_text(n)) == n,
    decreases n,
{
    let s = nat_text(n);
    if n >= 10 {
        lemma_nat_text(n / 10);
        assert(s.drop_last() =~= nat_text(n / 10));
        assert(s.last() == (48 + n % 10) as u8);
        assert((n / 10) * 10 + n % 10 == n);
        assert(digits_value(s) == digits_value(s.drop_last()) * 10 + (s.last() - 48));
        assert forall|k: int| 0 <= k < s.len() implies is_digit(#[trigger] s[k]) by {
            if k < s.len() - 1 {
                assert(s[k] == nat_text(n / 10)[k]);
            }
        }
    } else {
        assert(s.drop_last() =~= Seq::<u8>::empty());
        assert(digits_value(s) == digits_value(s.drop_last()) * 10 + (s.last() - 48));
    }
}

/// A natural number of 32 bits, written and read back, is itself.
pub proof fn lemma_nat_word_round_trip(n: nat)
    requires
        n <= u32::MAX,
    ensures
        nat_word(nat_text(n)) == Some(n as int),
{
    lemma_nat_text(n);
}

/// A polygon id, or -1, written and read back, is itself.
pub proof fn lemma_id_word_round_trip(q: int, np: int)
    requires
        q == -1 || 0 <= q < np,
        np <= i32::MAX,
    ensures
        id_word(int_text(q), np) == Ok::<int, crate::load::LoadError>(q),
{
    let s = int_text(q);
    if q == -1 {
        assert(s.subrange(1, s.len() as int) =~= nat_text(1));
        lemma_nat_word_round_trip(1);
    } else {
        lemma_nat_word_round_trip(q as nat);
        lemma_nat_text(q as nat);
        assert(is_digit(s[0]));
    }
}

proof fn lemma_first_byte_absent(s: Seq<u8>, x: u8)
    requires
        forall|k: int| 0 <= k < s.len() ==> s[k] != x,
    ensures
        first_byte(s, x) == s.len(),
    decreases s.len(),
{
    if s.len() > 0 {
        lemma_first_byte_absent(s.drop_first(), x);
    }
}

proof fn lemma_first_byte_after(a: Seq<u8>, b: Seq<u8>, x: u8)
    requires
        forall|k: int| 0 <= k < a.len() ==> a[k] != x,
        b.len() > 0,
        b[0] == x,
    ensures
        first_byte(a + b, x) == a.len(),
    decreases a.len(),
{
    if a.len() == 0 {
        assert(a + b =~= b);
    } else {
        lemma_first_byte_after(a.drop_first(), b, x);
        assert((a + b).drop_first() =~= a.drop_first() + b);
    }
}

proof fn lemma_frac_text(f: nat)
    requires
        0 < f < 10000,
    ensures
        is_digits(frac_text(f)),
        frac4(frac_text(f)) == f,
        frac_text(f).len() <= 4,
{
    let d0 = (48 + f / 1000) as u8;
    let d1 = (48 + (f / 100) % 10) as u8;
    let d2 = (48 + (f / 10) % 10) as u8;
    let d3 = (48 + f % 10) as u8;
    let p = seq![d0, d1, d2, d3];
    let t = frac_text(f);
    let pad = Seq::new(4, |k: int| if k < t.len() { t[k] } else { 48u8 });
    assert(f % 1000 == 0 ==> (f / 100) % 10 == 0 && (f / 10) % 10 == 0 && f % 10 == 0);
    assert(f % 100 == 0 ==> (f / 10) % 10 == 0 && f % 10 == 0);
    assert(f % 10 == 0 ==> f % 10 == 0);
    assert(pad =~= p);
    assert(p.drop_last().drop_last().drop_last().drop_last() =~= Seq::<u8>::empty());
    assert(p.drop_last().drop_last().drop_last() =~= seq![d0]);
    assert(p.drop_last().drop_last() =~= seq![d0, d1]);
    assert(p.drop_last() =~= seq![d0, d1, d2]);
    assert(seq![d0].drop_last() =~= Seq::<u8>::empty());
    assert(seq![d0, d1].drop_last() =~= seq![d0]);
    assert(seq![d0, d1, d2].drop_last() =~= seq![d0, d1]);
    assert(digits_value(Seq::<u8>::empty()) == 0);
    assert(digits_value(seq![d0]) == f / 1000);
    assert(digits_value(seq![d0, d1]) == (f / 1000) * 10 + (f / 100) % 10);
    assert(digits_value(seq![d0, d1, d2]) == ((f / 1000) * 10 + (f / 100) % 10) * 10 + (f / 10) % 10);
    assert((((f / 1000) * 10 + (f / 100) % 10) * 10 + (f / 10) % 10) * 10 + f % 10 == f);
}

/// A coordinate, written and read back, is itself.
pub proof fn lemma_coord_round_trip(c: int)
    requires
        -0x7fff_ffff <= c <= 0x7fff_ffff,
    ensures
        coord_word(coord_text(c)) == Some(c),
{
    let a = if c < 0 {
        -c
    } else {
        c
    };
    let whole = nat_text((a / 10000) as nat);
    lemma_nat_text((a / 10000) as nat);
    let f = (a % 10000) as nat;
    let s = coord_text(c);
    let body = if c < 0 {
        s.subrange(1, s.len() as int)
    } else {
        s
    };
    assert(is_digit(whole[0]));
    if a % 10000 == 0 {
        if c < 0 {
            assert(body =~= whole);
        } else {
            assert(body =~= whole);
        }
        lemma_first_byte_absent(whole, 46u8);
        assert(whole.subrange(0, whole.len() as int) =~= whole);
        assert(frac4(Seq::empty()) == 0) by {
            let e = Seq::<u8>::empty();
            let z = Seq::new(4, |k: int| if k < e.len() { e[k] } else { 48u8 });
            assert(z =~= seq![48u8, 48u8, 48u8, 48u8]);
            assert(seq![48u8].drop_last() =~= Seq::<u8>::empty());
            assert(seq![48u8, 48u8].drop_last() =~= seq![48u8]);
            assert(seq![48u8, 48u8, 48u8].drop_last() =~= seq![48u8, 48u8]);
            assert(seq![48u8, 48u8, 48u8, 48u8].drop_last() =~= seq![48u8, 48u8, 48u8]);
            assert(digits_value(Seq::<u8>::empty()) == 0);
            assert(digits_value(seq![48u8]) == 0);
            assert(digits_value(seq![48u8, 48u8]) == 0);
            assert(digits_value(seq![48u8, 48u8, 48u8]) == 0);
        }
    } else {
        let tail = seq![46u8] + frac_text(f);
        lemma_frac_text(f);
        if c < 0 {
            assert(body =~= whole + tail);
        } else {
            assert(body =~= whole + tail);
        }
        lemma_first_byte_after(whole, tail, 46u8);
        assert(body.subrange(0, whole.len() as int) =~= whole);
        assert(body.subrange(whole.len() as int + 1, body.len() as int) =~= frac_text(f));
    }
    assert((a / 10000) * 10000 + a % 10000 == a);
}

/// Lines joined, each ended by a newline.
pub open spec fn join_nl(ls: Seq<Seq<u8>>) -> Seq<u8>
    decreases ls.len(),
{
    if ls.len() == 0 {
        Seq::empty()
    } else {
        join_nl(ls.drop_last()) + ls.last() + seq![10u8]
    }
}

/// Words joined, each preceded by a space.
pub open spec fn sp_words(ws: Seq<Seq<u8>>) -> Seq<u8>
    decreases ws.len(),
{
    if ws.len() == 0 {
        Seq::empty()
    } else {
        sp_words(ws.drop_last()) + seq![32u8] + ws.last()
    }
}

/// A nonempty word without blanks or line breaks.
pub open spec fn word_ok(w: Seq<u8>) -> bool {
    w.len() > 0 && forall|k: int| 0 <= k < w.len() ==> !is_blank(#[trigger] w[k]) && w[k] != 10u8
}

/// A line without line breaks or carriage returns.
pub open spec fn plain_line(l: Seq<u8>) -> bool {
    forall|k: int| 0 <= k < l.len() ==> #[trigger] l[k] != 10u8 && l[k] != 13u8
}

proof fn lemma_split_append(x: Seq<u8>, y: Seq<u8>, line_mode: bool)
    requires
        forall|k: int|
            0 <= k < y.len() ==> (line_mode ==> #[trigger] y[k] != 10u8) && (!line_mode ==> !is_blank(y[k])),
    ensures
        split_state(x + y, line_mode) == (split_state(x, line_mode).0, split_state(x, line_mode).1 + y),
    decreases y.len(),
{
    if y.len() == 0 {
        assert(x + y =~= x);
        assert(split_state(x, line_mode).1 + y =~= split_state(x, line_mode).1);
    } else {
        lemma_split_append(x, y.drop_last(), line_mode);
        assert((x + y).drop_last() =~= x + y.drop_last());
        assert(split_state(x, line_mode).1 + y =~= (split_state(x, line_mode).1 + y.drop_last()).push(
            y.last(),
        ));
    }
}

proof fn lemma_lines_join(ls: Seq<Seq<u8>>)
    requires
        forall|i: int| 0 <= i < ls.len() ==> plain_line(#[trigger] ls[i]),
    ensures
        split_state(join_nl(ls), true) == (ls, Seq::<u8>::empty()),
        lines(join_nl(ls)) == ls,
    decreases ls.len(),
{
    if ls.len() == 0 {
    } else {
        let pre = ls.drop_last();
        assert forall|i: int| 0 <= i < pre.len() implies plain_line(#[trigger] pre[i]) by {
            assert(pre[i] == ls[i]);
        }
        lemma_lines_join(pre);
        let last = ls.last();
        assert(plain_line(ls[ls.len() - 1]));
        lemma_split_append(join_nl(pre), last, true);
        let j = join_nl(ls);
        assert(j.drop_last() =~= join_nl(pre) + last);
        assert(Seq::<u8>::empty() + last =~= last);
        assert(strip_cr(last) == last);
        assert(pre.push(last) =~= ls);
    }
}

proof fn lemma_join_nl_concat(a: Seq<Seq<u8>>, b: Seq<Seq<u8>>)
    ensures
        join_nl(a + b) == join_nl(a) + join_nl(b),
    decreases b.len(),
{
    if b.len() == 0 {
        assert(a + b =~= a);
        assert(join_nl(a) + join_nl(b) =~= join_nl(a));
    } else {
        lemma_join_nl_concat(a, b.drop_last());
        assert((a + b).drop_last() =~= a + b.drop_last());
        assert(join_nl(a + b) =~= join_nl(a) + join_nl(b));
    }
}

proof fn lemma_sp_words_one(w: Seq<u8>)
    ensures
        sp_words(seq![w]) == seq![32u8] + w,
{
    assert(seq![w].drop_last() =~= Seq::<Seq<u8>>::empty());
    assert(sp_words(Seq::<Seq<u8>>::empty()) == Seq::<u8>::empty());
    assert(Seq::<u8>::empty() + seq![32u8] + w =~= seq![32u8] + w);
}

proof fn lemma_sp_words_concat(a: Seq<Seq<u8>>, b: Seq<Seq<u8>>)
    ensures
        sp_words(a + b) == sp_words(a) + sp_words(b),
    decreases b.len(),
{
    if b.len() == 0 {
        assert(a + b =~= a);
        assert(sp_words(a) + sp_words(b) =~= sp_words(a));
    } else {
        lemma_sp_words_concat(a, b.drop_last());
        assert((a + b).drop_last() =~= a + b.drop_last());
        assert(sp_words(a + b) =~= sp_words(a) + sp_words(b));
    }
}

proof fn lemma_tokens_words(w0: Seq<u8>, ws: Seq<Seq<u8>>)
    requires
        word_ok(w0),
        forall|i: int| 0 <= i < ws.len() ==> word_ok(#[trigger] ws[i]),
    ensures
        split_state(w0 + sp_words(ws), false) == ((seq![w0] + ws).drop_last(), (seq![w0] + ws).last()),
        tokens(w0 + sp_words(ws)) == seq![w0] + ws,
    decreases ws.len(),
{
    if ws.len() == 0 {
        assert(w0 + sp_words(ws) =~= Seq::<u8>::empty() + w0);
        lemma_split_append(Seq::<u8>::empty(), w0, false);
        assert(Seq::<u8>::empty() + w0 =~= w0);
        assert(seq![w0] + ws =~= seq![w0]);
        assert(seq![w0].drop_last() =~= Seq::<Seq<u8>>::empty());
    } else {
        let pre = ws.drop_last();
        assert forall|i: int| 0 <= i < pre.len() implies word_ok(#[trigger] pre[i]) by {
            assert(pre[i] == ws[i]);
        }
        lemma_tokens_words(w0, pre);
        let x = w0 + sp_words(pre);
        let w = ws.last();
        assert(word_ok(ws[ws.len() - 1]));
        let xs = x.push(32u8);
        assert(xs.drop_last() =~= x);
        lemma_split_append(xs, w, false);
        assert(w0 + sp_words(ws) =~= xs + w);
        assert(Seq::<u8>::empty() + w =~= w);
        assert((seq![w0] + pre).drop_last().push((seq![w0] + pre).last()) =~= seq![w0] + pre);
        assert((seq![w0] + ws).drop_last() =~= seq![w0] + pre);
    }
}

proof fn lemma_nat_word_ok(n: nat)
    ensures
        word_ok(nat_text(n)),
{
    lemma_nat_text(n);
}

proof fn lemma_int_word_ok(q: int)
    ensures
        word_ok(int_text(q)),
{
    if q < 0 {
        lemma_nat_text((-q) as nat);
        let s = int_text(q);
        assert forall|k: int| 0 <= k < s.len() implies !is_blank(#[trigger] s[k]) && s[k] != 10u8 by {
            if k > 0 {
                assert(s[k] == nat_text((-q) as nat)[k - 1]);
            }
        }
    } else {
        lemma_nat_text(q as nat);
    }
}

proof fn lemma_coord_word_ok(c: int)
    ensures
        word_ok(coord_text(c)),
{
    let a = if c < 0 {
        -c
    } else {
        c
    };
    lemma_nat_text((a / 10000) as nat);
    let f = (a % 10000) as nat;
    if f != 0 {
        lemma_frac_text(f);
    }
    let s = coord_text(c);
    let whole = nat_text((a / 10000) as nat);
    assert forall|k: int| 0 <= k < s.len() implies !is_blank(#[trigger] s[k]) && s[k] != 10u8 by {
        let off: int = if c < 0 {
            1
        } else {
            0
        };
        if k >= off && k < off + whole.len() {
            assert(s[k] == whole[k - off]);
        } else if k >= off + whole.len() + 1 {
            assert(s[k] == frac_text(f)[k - off - whole.len() - 1]);
        }
    }
}

proof fn lemma_plain_of_words(w0: Seq<u8>, ws: Seq<Seq<u8>>)
    requires
        word_ok(w0),
        forall|i: int| 0 <= i < ws.len() ==> word_ok(#[trigger] ws[i]),
    ensures
        plain_line(w0 + sp_words(ws)),
    decreases ws.len(),
{
    if ws.len() > 0 {
        let pre = ws.drop_last();
        assert forall|i: int| 0 <= i < pre.len() implies word_ok(#[trigger] pre[i]) by {
            assert(pre[i] == ws[i]);
        }
        lemma_plain_of_words(w0, pre);
        let x = w0 + sp_words(pre);
        let w = ws.last();
        assert(word_ok(ws[ws.len() - 1]));
        let l = w0 + sp_words(ws);
        assert(l =~= x + seq![32u8] + w);
        assert forall|k: int| 0 <= k < l.len() implies #[trigger] l[k] != 10u8 && l[k] != 13u8 by {
            if k < x.len() {
                assert(l[k] == x[k]);
            } else if k > x.len() {
                assert(l[k] == w[k - x.len() - 1]);
            }
        }
    } else {
        assert(w0 + sp_words(ws) =~= w0);
    }
}

proof fn lemma_ids_text(s: Seq<i32>)
    ensures
        ids_text(s) == sp_words(s.map_values(|q: i32| int_text(q as int))),
    decreases s.len(),
{
    if s.len() > 0 {
        lemma_ids_text(s.drop_last());
        assert(s.map_values(|q: i32| int_text(q as int)).drop_last() =~= s.drop_last().map_values(
            |q: i32| int_text(q as int),
        ));
    }
}

proof fn lemma_vids_text(s: Seq<u32>)
    ensures
        vids_text(s) == sp_words(s.map_values(|v: u32| nat_text(v as nat))),
    decreases s.len(),
{
    if s.len() > 0 {
        lemma_vids_text(s.drop_last());
        assert(s.map_values(|v: u32| nat_text(v as nat)).drop_last() =~= s.drop_last().map_values(
            |v: u32| nat_text(v as nat),
        ));
    }
}

/// The words of a written vertex line.
pub open spec fn vertex_words(v: Vertex) -> Seq<Seq<u8>> {
    seq![coord_text(v.p.x as int), coord_text(v.p.y as int), nat_text(v.polygons@.len())]
        + v.polygons@.map_values(|q: i32| int_text(q as int))
}

/// The words of a written polygon line.
pub open spec fn polygon_words(m: MeshMerger, k: int) -> Seq<Seq<u8>> {
    seq![nat_text(m.ring(k).len())] + m.ring(k).map_values(|v: u32| nat_text(v as nat))
        + written_nbrs(m, k).map_values(|q: i32| int_text(q as int))
}

pub open spec fn words_line(ws: Seq<Seq<u8>>) -> Seq<u8> {
    ws[0] + sp_words(ws.drop_first())
}

proof fn lemma_vertex_line(v: Vertex)
    ensures
        vertex_line(v) == words_line(vertex_words(v)) + seq![10u8],
        plain_line(words_line(vertex_words(v))),
        tokens(words_line(vertex_words(v))) == vertex_words(v),
{
    let ws = vertex_words(v);
    let ids = v.polygons@.map_values(|q: i32| int_text(q as int));
    let two = seq![coord_text(v.p.y as int), nat_text(v.polygons@.len())];
    assert(ws.drop_first() =~= two + ids);
    lemma_sp_words_concat(two, ids);
    lemma_ids_text(v.polygons@);
    assert(two.drop_last() =~= seq![coord_text(v.p.y as int)]);
    assert(seq![coord_text(v.p.y as int)].drop_last() =~= Seq::<Seq<u8>>::empty());
    lemma_sp_words_one(coord_text(v.p.y as int));
    assert(sp_words(two) =~= seq![32u8] + coord_text(v.p.y as int) + seq![32u8] + nat_text(
        v.polygons@.len(),
    ));
    assert(words_line(ws) == ws[0] + sp_words(two + ids));
    assert(vertex_line(v) =~= words_line(ws) + seq![10u8]);
    lemma_coord_word_ok(v.p.x as int);
    lemma_coord_word_ok(v.p.y as int);
    lemma_nat_word_ok(v.polygons@.len());
    assert forall|i: int| 0 <= i < ws.drop_first().len() implies word_ok(#[trigger] ws.drop_first()[i]) by {
        if i >= 2 {
            lemma_int_word_ok(v.polygons@[i - 2] as int);
        }
    }
    lemma_plain_of_words(ws[0], ws.drop_first());
    lemma_tokens_words(ws[0], ws.drop_first());
    assert(seq![ws[0]] + ws.drop_first() =~= ws);
}

proof fn lemma_polygon_line(m: MeshMerger, k: int)
    ensures
        polygon_line(m, k) == words_line(polygon_words(m, k)) + seq![10u8],
        plain_line(words_line(polygon_words(m, k))),
        tokens(words_line(polygon_words(m, k))) == polygon_words(m, k),
{
    let ws = polygon_words(m, k);
    let vs = m.ring(k).map_values(|v: u32| nat_text(v as nat));
    let qs = written_nbrs(m, k).map_values(|q: i32| int_text(q as int));
    assert(ws.drop_first() =~= vs + qs);
    lemma_sp_words_concat(vs, qs);
    lemma_vids_text(m.ring(k));
    lemma_ids_text(written_nbrs(m, k));
    assert(polygon_line(m, k) =~= words_line(ws) + seq![10u8]);
    lemma_nat_word_ok(m.ring(k).len());
    assert forall|i: int| 0 <= i < ws.drop_first().len() implies word_ok(#[trigger] ws.drop_first()[i]) by {
        if i < vs.len() {
            lemma_nat_word_ok(m.ring(k)[i] as nat);
        } else {
            lemma_int_word_ok(written_nbrs(m, k)[i - vs.len()] as int);
        }
    }
    lemma_plain_of_words(ws[0], ws.drop_first());
    lemma_tokens_words(ws[0], ws.drop_first());
    assert(seq![ws[0]] + ws.drop_first() =~= ws);
}

/// The lines that `mesh_text` writes, without their newlines.
pub open spec fn text_lines(m: MeshMerger) -> Seq<Seq<u8>> {
    seq![
        mesh_word(),
        seq![50u8],
        words_line(seq![nat_text(m.mesh_vertices@.len()), nat_text(m.mesh_polygons@.len())]),
    ] + Seq::new(m.mesh_vertices@.len(), |v: int| words_line(vertex_words(m.mesh_vertices@[v])))
        + Seq::new(m.mesh_polygons@.len(), |k: int| words_line(polygon_words(m, k)))
}

proof fn lemma_vertex_lines(vs: Seq<Vertex>, k: int)
    requires
        0 <= k <= vs.len(),
    ensures
        vertex_lines(vs, k) == join_nl(Seq::new(k as nat, |v: int| words_line(vertex_words(vs[v])))),
    decreases k,
{
    if k > 0 {
        lemma_vertex_lines(vs, k - 1);
        lemma_vertex_line(vs[k - 1]);
        assert(Seq::new(k as nat, |v: int| words_line(vertex_words(vs[v]))).drop_last() =~= Seq::new(
            (k - 1) as nat,
            |v: int| words_line(vertex_words(vs[v])),
        ));
    } else {
        assert(Seq::new(k as nat, |v: int| words_line(vertex_words(vs[v]))) =~= Seq::<Seq<u8>>::empty());
    }
}

proof fn lemma_polygon_lines(m: MeshMerger, k: int)
    requires
        0 <= k <= m.mesh_polygons.len(),
    ensures
        polygon_lines(m, k) == join_nl(Seq::new(k as nat, |j: int| words_line(polygon_words(m, j)))),
    decreases k,
{
    if k > 0 {
        lemma_polygon_lines(m, k - 1);
        lemma_polygon_line(m, k - 1);
        assert(Seq::new(k as nat, |j: int| words_line(polygon_words(m, j))).drop_last() =~= Seq::new(
            (k - 1) as nat,
            |j: int| words_line(polygon_words(m, j)),
        ));
    } else {
        assert(Seq::new(k as nat, |j: int| words_line(polygon_words(m, j))) =~= Seq::<Seq<u8>>::empty());
    }
}

/// The written text splits into the written lines.
#[verifier::rlimit(80)]
pub proof fn lemma_text_lines(m: MeshMerger)
    ensures
        lines(mesh_text(m)) == text_lines(m),
{
    let nv = m.mesh_vertices@.len() as int;
    let np = m.mesh_polygons@.len() as int;
    let head = seq![
        mesh_word(),
        seq![50u8],
        words_line(seq![nat_text(nv as nat), nat_text(np as nat)]),
    ];
    let vl = Seq::new(nv as nat, |v: int| words_line(vertex_words(m.mesh_vertices@[v])));
    let pl = Seq::new(np as nat, |k: int| words_line(polygon_words(m, k)));
    lemma_vertex_lines(m.mesh_vertices@, nv);
    lemma_polygon_lines(m, np);
    lemma_join_nl_concat(head, vl);
    lemma_join_nl_concat(head + vl, pl);
    let cw = seq![nat_text(nv as nat), nat_text(np as nat)];
    assert(cw.drop_first() =~= seq![nat_text(np as nat)]);
    assert(seq![nat_text(np as nat)].drop_last() =~= Seq::<Seq<u8>>::empty());
    assert(head.drop_last().drop_last().drop_last() =~= Seq::<Seq<u8>>::empty());
    assert(head.drop_last().drop_last() =~= seq![mesh_word()]);
    assert(head.drop_last() =~= seq![mesh_word(), seq![50u8]]);
    assert(join_nl(Seq::<Seq<u8>>::empty()) == Seq::<u8>::empty());
    assert(join_nl(seq![mesh_word()]) =~= mesh_word() + seq![10u8]);
    assert(join_nl(seq![mesh_word(), seq![50u8]]) =~= mesh_word() + seq![10u8, 50u8, 10u8]);
    lemma_sp_words_one(nat_text(np as nat));
    assert(words_line(cw) =~= nat_text(nv as nat) + seq![32u8] + nat_text(np as nat));
    assert(join_nl(head) =~= seq![109u8, 101u8, 115u8, 104u8, 10u8, 50u8, 10u8] + nat_text(nv as nat)
        + seq![32u8] + nat_text(np as nat) + seq![10u8]);
    assert(mesh_text(m) =~= join_nl(head + vl + pl));
    lemma_nat_word_ok(nv as nat);
    lemma_nat_word_ok(np as nat);
    lemma_plain_of_words(nat_text(nv as nat), seq![nat_text(np as nat)]);
    assert forall|i: int| 0 <= i < (head + vl + pl).len() implies plain_line(#[trigger] (head + vl + pl)[i]) by {
        if i >= 3 && i < 3 + nv {
            lemma_vertex_line(m.mesh_vertices@[i - 3]);
        } else if i >= 3 + nv {
            lemma_polygon_line(m, i - 3 - nv);
        }
    }
    lemma_lines_join(head + vl + pl);
    assert(text_lines(m) =~= head + vl + pl);
}

proof fn lemma_words_none(toks: Seq<Seq<u8>>, lo: int, hi: int, bound: int, signed: bool)
    requires
        forall|t: int| lo <= t < hi ==> #[trigger] word(toks[t], bound, signed) is Ok,
    ensures
        words_err(toks, lo, hi, bound, signed) is None,
    decreases hi - lo,
{
    if hi > lo {
        lemma_words_none(toks, lo, hi - 1, bound, signed);
    }
}

/// A mesh that the writer and the loader agree on: compacted (every polygon
/// its own root), with every vertex on at least two listed polygons, every
/// polygon of positive area, counts that fit the format's 32-bit numbers,
/// and no coordinate at the very bottom of the `i32` range.
pub open spec fn writable(m: MeshMerger) -> bool {
    &&& m.wf()
    &&& m.polygon_unions@ == Seq::new(m.mesh_polygons@.len(), |k: int| k as i32)
    &&& forall|v: int|
        0 <= v < m.mesh_vertices.len() ==> 2 <= (#[trigger] m.mesh_vertices@[v]).polygons.len()
            <= u32::MAX && m.mesh_vertices@[v].p.x > i32::MIN && m.mesh_vertices@[v].p.y > i32::MIN
    &&& forall|k: int|
        0 <= k < m.mesh_polygons.len() ==> (#[trigger] m.mesh_polygons@[k]).vertices.len() <= u32::MAX
            && m.mesh_polygons@[k].area > 0
}

/// Two meshes hold the same vertices, polygons and unions.
pub open spec fn same_mesh(a: MeshMerger, b: MeshMerger) -> bool {
    &&& a.points() == b.points()
    &&& a.mesh_vertices.len() == b.mesh_vertices.len()
    &&& forall|v: int|
        0 <= v < a.mesh_vertices.len() ==> (#[trigger] a.mesh_vertices@[v]).polygons@
            == b.mesh_vertices@[v].polygons@
    &&& a.mesh_polygons.len() == b.mesh_polygons.len()
    &&& forall|k: int|
        0 <= k < a.mesh_polygons.len() ==> #[trigger] a.ring(k) == b.ring(k) && a.nbrs(k) == b.nbrs(k)
            && a.mesh_polygons@[k].area == b.mesh_polygons@[k].area
    &&& a.polygon_unions@ == b.polygon_unions@
}

proof fn lemma_vertex_words_read(m: MeshMerger, v: int)
    requires
        writable(m),
        0 <= v < m.mesh_vertices.len(),
    ensures
        vertex_err(vertex_words(m.mesh_vertices@[v]), m.mesh_polygons.len() as int) is None,
        vertex_point(vertex_words(m.mesh_vertices@[v])) == m.mesh_vertices@[v].p,
        vertex_incident(vertex_words(m.mesh_vertices@[v]), m.mesh_polygons.len() as int)
            == m.mesh_vertices@[v].polygons@,
{
    let x = m.mesh_vertices@[v];
    let np = m.mesh_polygons.len() as int;
    let toks = vertex_words(x);
    let n = x.polygons@.len() as int;
    assert(2 <= x.polygons.len() <= u32::MAX);
    lemma_coord_round_trip(x.p.x as int);
    lemma_coord_round_trip(x.p.y as int);
    lemma_nat_word_round_trip(n as nat);
    assert(m.vertex_wf(v));
    assert forall|t: int| 3 <= t < 3 + n implies #[trigger] word(toks[t], np, true) is Ok by {
        lemma_id_word_round_trip(x.polygons@[t - 3] as int, np);
    }
    lemma_words_none(toks, 3, 3 + n, np, true);
    assert forall|t: int| 0 <= t < n implies #[trigger] vertex_incident(toks, np)[t] == x.polygons@[t] by {
        lemma_id_word_round_trip(x.polygons@[t] as int, np);
        assert(toks[3 + t] == int_text(x.polygons@[t] as int));
    }
    assert(vertex_incident(toks, np) =~= x.polygons@);
}

proof fn lemma_polygon_words_read(m: MeshMerger, k: int)
    requires
        writable(m),
        0 <= k < m.mesh_polygons.len(),
    ensures
        polygon_ring(polygon_words(m, k), m.mesh_vertices.len() as int) == m.ring(k),
        polygon_raw_nbrs(polygon_words(m, k), m.mesh_polygons.len() as int) == written_nbrs(m, k),
        rotate_left(written_nbrs(m, k)) == m.nbrs(k),
        crate::load::polygon_shape_err(
            polygon_words(m, k),
            m.mesh_vertices.len() as int,
            m.mesh_polygons.len() as int,
        ) is None,
{
    let nv = m.mesh_vertices.len() as int;
    let np = m.mesh_polygons.len() as int;
    let toks = polygon_words(m, k);
    let r = m.ring(k);
    let n = r.len() as int;
    assert(m.polygon_wf(k));
    assert(m.is_live(k));
    assert(m.mesh_polygons@[k].vertices.len() <= u32::MAX);
    lemma_nat_word_round_trip(n as nat);
    let w = written_nbrs(m, k);
    assert forall|i: int| 0 <= i < n implies #[trigger] w[i] == m.nbrs(k)[wrap(i + n - 1, n)] && (w[i]
        == -1 || 0 <= w[i] < np) by {
        let q = m.nbrs(k)[wrap(i + n - 1, n)];
        if q != -1 {
            assert(m.polygon_unions@[q as int] == q);
        }
    }
    assert forall|t: int| 1 <= t < 1 + n implies #[trigger] word(toks[t], nv, false) is Ok by {
        lemma_nat_word_round_trip(r[t - 1] as nat);
    }
    lemma_words_none(toks, 1, 1 + n, nv, false);
    assert forall|t: int| 1 + n <= t < 1 + 2 * n implies #[trigger] word(toks[t], np, true) is Ok by {
        lemma_id_word_round_trip(w[t - 1 - n] as int, np);
    }
    lemma_words_none(toks, 1 + n, 1 + 2 * n, np, true);
    assert forall|t: int| 0 <= t < n implies #[trigger] polygon_ring(toks, nv)[t] == r[t] by {
        lemma_nat_word_round_trip(r[t] as nat);
        assert(toks[1 + t] == nat_text(r[t] as nat));
    }
    assert(polygon_ring(toks, nv) =~= r);
    assert forall|t: int| 0 <= t < n implies #[trigger] polygon_raw_nbrs(toks, np)[t] == w[t] by {
        lemma_id_word_round_trip(w[t] as int, np);
        assert(toks[1 + n + t] == int_text(w[t] as int));
    }
    assert(polygon_raw_nbrs(toks, np) =~= w);
    assert(rotate_left(w) =~= m.nbrs(k));
}

proof fn lemma_body_none(m: MeshMerger, l: Seq<Seq<u8>>, k: int)
    requires
        writable(m),
        l == text_lines(m),
        0 <= k <= m.mesh_vertices.len() + m.mesh_polygons.len(),
    ensures
        body_err(l, m.mesh_vertices.len() as int, m.mesh_polygons.len() as int, k) is None,
    decreases k,
{
    let nv = m.mesh_vertices.len() as int;
    let np = m.mesh_polygons.len() as int;
    if k > 0 {
        lemma_body_none(m, l, k - 1);
        let j = k - 1;
        if j < nv {
            lemma_vertex_line(m.mesh_vertices@[j]);
            lemma_vertex_words_read(m, j);
            assert(line_toks(l, j) == vertex_words(m.mesh_vertices@[j]));
        } else {
            lemma_polygon_line(m, j - nv);
            lemma_polygon_words_read(m, j - nv);
            assert(line_toks(l, j) == polygon_words(m, j - nv));
            assert forall|v: int| 0 <= v < nv implies #[trigger] file_points(l, nv)[v] == m.points()[v] by {
                lemma_vertex_line(m.mesh_vertices@[v]);
                lemma_vertex_words_read(m, v);
                assert(line_toks(l, v) == vertex_words(m.mesh_vertices@[v]));
            }
            assert(file_points(l, nv) =~= m.points());
            assert(m.polygon_wf(j - nv));
        }
        assert(line_err(l, nv, np, j) is None);
    }
}

proof fn lemma_write_loads(m: MeshMerger)
    requires
        writable(m),
    ensures
        load_err(mesh_text(m)) is None,
        lines(mesh_text(m)) == text_lines(m),
        counts(text_lines(m)) == Some((m.mesh_vertices.len() as int, m.mesh_polygons.len() as int)),
{
    let l = text_lines(m);
    let nv = m.mesh_vertices.len() as int;
    let np = m.mesh_polygons.len() as int;
    lemma_text_lines(m);
    lemma_nat_word_ok(nv as nat);
    lemma_nat_word_ok(np as nat);
    lemma_tokens_words(nat_text(nv as nat), seq![nat_text(np as nat)]);
    assert(seq![nat_text(nv as nat)] + seq![nat_text(np as nat)] =~= seq![
        nat_text(nv as nat),
        nat_text(np as nat),
    ]);
    assert(seq![nat_text(nv as nat), nat_text(np as nat)].drop_first() =~= seq![nat_text(np as nat)]);
    lemma_nat_word_round_trip(nv as nat);
    lemma_nat_word_round_trip(np as nat);
    assert(counts(l) == Some((nv, np)));
    lemma_body_none(m, l, nv + np);
}

#[verifier::rlimit(60)]
proof fn lemma_loaded_same(m: MeshMerger, m2: MeshMerger)
    requires
        writable(m),
        loaded_from(m2, text_lines(m)),
        counts(text_lines(m)) == Some((m.mesh_vertices.len() as int, m.mesh_polygons.len() as int)),
    ensures
        same_mesh(m2, m),
{
    let l = text_lines(m);
    let nv = m.mesh_vertices.len() as int;
    let np = m.mesh_polygons.len() as int;
    assert forall|v: int| 0 <= v < nv implies #[trigger] m2.points()[v] == m.points()[v]
        && m2.mesh_vertices@[v].polygons@ == m.mesh_vertices@[v].polygons@ by {
        lemma_vertex_line(m.mesh_vertices@[v]);
        lemma_vertex_words_read(m, v);
        assert(line_toks(l, v) == vertex_words(m.mesh_vertices@[v]));
    }
    assert(m2.points() =~= m.points());
    assert forall|k: int| 0 <= k < np implies #[trigger] m2.ring(k) == m.ring(k) && m2.nbrs(k)
        == m.nbrs(k) && m2.mesh_polygons@[k].area == m.mesh_polygons@[k].area by {
        lemma_polygon_line(m, k);
        lemma_polygon_words_read(m, k);
        assert(line_toks(l, nv + k) == polygon_words(m, k));
        assert(m.polygon_wf(k));
        assert(m2.polygon_wf(k));
    }
    assert(m2.polygon_unions@ =~= m.polygon_unions@);
    assert(m2.mesh_vertices.len() == m.mesh_vertices.len());
    assert(m2.mesh_polygons.len() == m.mesh_polygons.len());
    assert forall|v: int| 0 <= v < m2.mesh_vertices.len() implies (#[trigger] m2.mesh_vertices@[v]).polygons@
        == m.mesh_vertices@[v].polygons@ by {
        assert(m2.points()[v] == m.points()[v]);
    }
    assert forall|k: int| 0 <= k < m2.mesh_polygons.len() implies #[trigger] m2.ring(k) == m.ring(k)
        && m2.nbrs(k) == m.nbrs(k) && m2.mesh_polygons@[k].area == m.mesh_polygons@[k].area by {
        assert(m2.ring(k) == m.ring(k));
    }
    assert(same_mesh(m2, m));
}


/// Writing a mesh that the format can hold and reading the text back gives
/// the same mesh: the text loads without error, and whatever it loads to
/// holds the same vertices, polygons, neighbor lists and areas.
pub proof fn lemma_write_then_load(m: MeshMerger, m2: MeshMerger)
    requires
        writable(m),
    ensures
        load_err(mesh_text(m)) is None,
        loaded_from(m2, lines(mesh_text(m))) ==> same_mesh(m2, m),
{
    lemma_write_loads(m);
    if loaded_from(m2, lines(mesh_text(m))) {
        lemma_loaded_same(m, m2);
    }
}

} // verus!
