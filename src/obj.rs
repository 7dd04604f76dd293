//! Reading triangle meshes from Wavefront OBJ text.
//!
//! A line `v x y z` adds a vertex and a line `f i j k ...` adds a polygon,
//! which is split into a fan of triangles. Every other line is skipped.
//! Vertex coordinates are kept as their decimal text, checked to be numbers,
//! so that the caller can convert them to the number type it draws with.
use vstd::prelude::*;

use crate::setup::faces_in_range;
use crate::text::{
    CharClass, chars_of, copy_span, float_syntax, float_token, i32_value, lines, parse_i32,
    run_len, scan, trim, trim_span, word_spans, words,
};

verus! {

/// A triangle: three zero-based indices into the vertex list of its mesh.
#[derive(Clone, Copy, Debug)]
pub struct Face {
    pub vertex_indices: [usize; 3],
}

/// The three coordinates of a vertex, as the decimal text they were written in.
#[derive(Clone, Debug)]
pub struct VertexText {
    pub x: Vec<char>,
    pub y: Vec<char>,
    pub z: Vec<char>,
}

/// A loaded mesh: its vertices, and its triangles, whose indices are all
/// in range of the vertices.
#[derive(Clone, Debug)]
pub struct ObjMesh {
    pub vertices: Vec<VertexText>,
    pub faces: Vec<Face>,
}

/// Why a mesh could not be loaded. Lines are numbered from 1.
#[derive(Clone, Copy, Debug, PartialEq, Eq, Structural)]
pub enum LoadError {
    /// A vertex line with fewer than three coordinates.
    VertexLine { line: usize },
    /// A face line with fewer than three vertex references.
    FaceLine { line: usize },
    /// A coordinate or a vertex reference that is not a number.
    Number { line: usize },
    /// A vertex reference that names no vertex.
    Index { line: usize },
    /// The text defines no vertex.
    NoVertices,
    /// The text defines no face.
    NoFaces,
}

/// What the lines read so far have defined: each vertex as its three
/// coordinate texts, each polygon as its resolved zero-based indices, and the
/// line that each polygon stands on.
pub struct ObjModel {
    pub vertices: Seq<Seq<Seq<char>>>,
    pub polygons: Seq<Seq<int>>,
    pub polygon_lines: Seq<usize>,
}

pub open spec fn empty_model() -> ObjModel {
    ObjModel { vertices: seq![], polygons: seq![], polygon_lines: seq![] }
}

pub open spec fn ints(v: Seq<usize>) -> Seq<int> {
    v.map_values(|i: usize| i as int)
}

pub open spec fn face_view(f: Face) -> Seq<int> {
    ints(f.vertex_indices@)
}

pub open spec fn vertex_view(v: VertexText) -> Seq<Seq<char>> {
    seq![v.x@, v.y@, v.z@]
}

pub open spec fn faces_view(fs: Seq<Face>) -> Seq<Seq<int>> {
    fs.map_values(|f: Face| face_view(f))
}

pub open spec fn vertices_view(vs: Seq<VertexText>) -> Seq<Seq<Seq<char>>> {
    vs.map_values(|v: VertexText| vertex_view(v))
}

/// The part of a face token before its first `/`.
pub open spec fn index_part(tok: Seq<char>) -> Seq<char> {
    tok.take(run_len(tok, CharClass::NotSlash) as int)
}

/// The zero-based vertex index that a face token names, when `count`
/// vertices have been read: `i` names the `i`-th vertex, `-i` the `i`-th
/// counted back from the last one read.
pub open spec fn resolve(tok: Seq<char>, count: nat, line: usize) -> Result<int, LoadError> {
    match i32_value(index_part(tok)) {
        None => Err(LoadError::Number { line }),
        Some(i) => if i > 0 {
            Ok(i - 1)
        } else if i < 0 && count + i >= 0 {
            Ok(count + i)
        } else {
            Err(LoadError::Index { line })
        },
    }
}

/// The indices that the tokens of a face line name, or the error of the
/// first token that names none.
pub open spec fn resolve_all(toks: Seq<Seq<char>>, count: nat, line: usize) -> Result<
    Seq<int>,
    LoadError,
>
    decreases toks.len(),
{
    if toks.len() == 0 {
        Ok(seq![])
    } else {
        match resolve_all(toks.drop_last(), count, line) {
            Err(e) => Err(e),
            Ok(p) => match resolve(toks.last(), count, line) {
                Err(e) => Err(e),
                Ok(i) => Ok(p.push(i)),
            },
        }
    }
}

pub open spec fn tagged(l: Seq<char>, tag: char) -> bool {
    l.len() >= 2 && l[0] == tag && l[1] == ' '
}

/// The effect of line number `line`, whose text is `raw`, on the model `m`.
pub open spec fn read_line(m: ObjModel, raw: Seq<char>, line: usize) -> Result<ObjModel, LoadError> {
    let l = trim(raw);
    let w = words(l.skip(2));
    if tagged(l, 'v') {
        if w.len() < 3 {
            Err(LoadError::VertexLine { line })
        } else if !(float_syntax(w[0]) && float_syntax(w[1]) && float_syntax(w[2])) {
            Err(LoadError::Number { line })
        } else {
            Ok(ObjModel { vertices: m.vertices.push(w.take(3)), ..m })
        }
    } else if tagged(l, 'f') {
        if w.len() < 3 {
            Err(LoadError::FaceLine { line })
        } else {
            match resolve_all(w, m.vertices.len(), line) {
                Err(e) => Err(e),
                Ok(p) => Ok(
                    ObjModel {
                        polygons: m.polygons.push(p),
                        polygon_lines: m.polygon_lines.push(line),
                        ..m
                    },
                ),
            }
        }
    } else {
        Ok(m)
    }
}

/// The model that the lines `ls` define, the first being line 1, or the
/// error of the first line that is malformed.
pub open spec fn read_lines(ls: Seq<Seq<char>>) -> Result<ObjModel, LoadError>
    decreases ls.len(),
{
    if ls.len() == 0 {
        Ok(empty_model())
    } else {
        match read_lines(ls.drop_last()) {
            Err(e) => Err(e),
            Ok(m) => read_line(m, ls.last(), ls.len() as usize),
        }
    }
}

/// The fan of a polygon `p`: the triangles `(p[0], p[i], p[i + 1])`.
pub open spec fn fan(p: Seq<int>) -> Seq<Seq<int>> {
    Seq::new((p.len() - 2) as nat, |i: int| seq![p[0], p[i + 1], p[i + 2]])
}

/// The triangles of the polygons `ps`, polygon by polygon.
pub open spec fn triangles(ps: Seq<Seq<int>>) -> Seq<Seq<int>>
    decreases ps.len(),
{
    if ps.len() == 0 {
        seq![]
    } else {
        triangles(ps.drop_last()) + fan(ps.last())
    }
}

pub open spec fn in_range(p: Seq<int>, n: int) -> bool {
    forall|j: int| 0 <= j < p.len() ==> #[trigger] p[j] < n
}

pub open spec fn some_out_of_range(ps: Seq<Seq<int>>, n: int) -> bool {
    exists|k: int| 0 <= k < ps.len() && !in_range(#[trigger] ps[k], n)
}

/// The first polygon of `ps` with an index of `n` or more.
pub open spec fn first_out_of_range(ps: Seq<Seq<int>>, n: int) -> int {
    choose|k: int|
        0 <= k < ps.len() && !in_range(ps[k], n) && forall|j: int|
            0 <= j < k ==> in_range(#[trigger] ps[j], n)
}

/// What loading the OBJ text `t` gives.
pub open spec fn load_result(t: Seq<char>) -> Result<ObjModel, LoadError> {
    match read_lines(lines(t)) {
        Err(e) => Err(e),
        Ok(m) => if m.vertices.len() == 0 {
            Err(LoadError::NoVertices)
        } else if m.polygons.len() == 0 {
            Err(LoadError::NoFaces)
        } else if some_out_of_range(m.polygons, m.vertices.len() as int) {
            Err(
                LoadError::Index {
                    line: m.polygon_lines[first_out_of_range(m.polygons, m.vertices.len() as int)],
                },
            )
        } else {
            Ok(m)
        },
    }
}

/// The sum over the polygons `ps` of their vertex counts less two.
pub open spec fn fan_total(ps: Seq<Seq<int>>) -> int
    decreases ps.len(),
{
    if ps.len() == 0 {
        0
    } else {
        fan_total(ps.drop_last()) + ps.last().len() - 2
    }
}

/// Splitting polygons into fans gives each polygon of `n` vertices `n - 2`
/// triangles, so the triangles number the sum of the vertex counts less two
/// for each polygon.
pub proof fn lemma_triangle_count(ps: Seq<Seq<int>>)
    requires
        forall|k: int| 0 <= k < ps.len() ==> (#[trigger] ps[k]).len() >= 3,
    ensures
        triangles(ps).len() == fan_total(ps),
    decreases ps.len(),
{
    if ps.len() > 0 {
        let q = ps.drop_last();
        assert forall|k: int| 0 <= k < q.len() implies (#[trigger] q[k]).len() >= 3 by {
            assert(q[k] == ps[k]);
        }
        lemma_triangle_count(q);
        assert(ps.last() == ps[ps.len() - 1]);
    }
}

proof fn lemma_resolve_all_len(toks: Seq<Seq<char>>, count: nat, line: usize)
    requires
        resolve_all(toks, count, line) is Ok,
    ensures
        resolve_all(toks, count, line)->Ok_0.len() == toks.len(),
    decreases toks.len(),
{
    if toks.len() > 0 {
        lemma_resolve_all_len(toks.drop_last(), count, line);
    }
}

proof fn lemma_read_lines_polygons(ls: Seq<Seq<char>>)
    requires
        read_lines(ls) is Ok,
    ensures
        forall|k: int|
            0 <= k < read_lines(ls)->Ok_0.polygons.len() ==> (#[trigger] read_lines(
                ls,
            )->Ok_0.polygons[k]).len() >= 3,
    decreases ls.len(),
{
    if ls.len() > 0 {
        lemma_read_lines_polygons(ls.drop_last());
        let m = read_lines(ls.drop_last())->Ok_0;
        let l = trim(ls.last());
        let w = words(l.skip(2));
        if !tagged(l, 'v') && tagged(l, 'f') && w.len() >= 3 {
            lemma_resolve_all_len(w, m.vertices.len(), ls.len() as usize);
        }
    }
}

/// A loaded mesh has, for each face line of `n` vertex references, `n - 2`
/// triangles.
pub proof fn lemma_loaded_triangle_count(t: Seq<char>)
    requires
        load_result(t) is Ok,
    ensures
        triangles(load_result(t)->Ok_0.polygons).len() == fan_total(load_result(t)->Ok_0.polygons),
{
    lemma_read_lines_polygons(lines(t));
    lemma_triangle_count(load_result(t)->Ok_0.polygons);
}

proof fn lemma_triangles_in_range(ps: Seq<Seq<int>>, n: int)
    requires
        forall|k: int| 0 <= k < ps.len() ==> in_range(#[trigger] ps[k], n),
        forall|k: int| 0 <= k < ps.len() ==> (#[trigger] ps[k]).len() >= 3,
    ensures
        forall|t: int, j: int|
            0 <= t < triangles(ps).len() && 0 <= j < 3 ==> (#[trigger] triangles(ps)[t][j]) < n,
        forall|t: int| 0 <= t < triangles(ps).len() ==> (#[trigger] triangles(ps)[t]).len() == 3,
    decreases ps.len(),
{
    if ps.len() > 0 {
        let q = ps.drop_last();
        assert forall|k: int| 0 <= k < q.len() implies in_range(#[trigger] q[k], n) by {
            assert(q[k] == ps[k]);
        }
        assert forall|k: int| 0 <= k < q.len() implies (#[trigger] q[k]).len() >= 3 by {
            assert(q[k] == ps[k]);
        }
        lemma_triangles_in_range(q, n);
        let p = ps.last();
        assert(in_range(ps[ps.len() - 1], n));
        assert(ps[ps.len() - 1].len() >= 3);
        let a = triangles(q);
        let b = fan(p);
        assert forall|t: int, j: int|
            0 <= t < triangles(ps).len() && 0 <= j < 3 implies (#[trigger] triangles(ps)[t][j]) < n by {
            if t >= a.len() {
                let i = t - a.len();
                assert(triangles(ps)[t] == b[i]);
                assert(b[i] == seq![p[0], p[i + 1], p[i + 2]]);
                assert(p[0] < n && p[i + 1] < n && p[i + 2] < n);
            } else {
                assert(triangles(ps)[t] == a[t]);
            }
        }
        assert forall|t: int| 0 <= t < triangles(ps).len() implies (#[trigger] triangles(ps)[t]).len() == 3 by {
            if t >= a.len() {
                assert(triangles(ps)[t] == b[t - a.len()]);
            } else {
                assert(triangles(ps)[t] == a[t]);
            }
        }
    }
}

/// The largest of `p`, or -1 for an empty `p`.
spec fn seq_max(p: Seq<int>) -> int
    decreases p.len(),
{
    if p.len() == 0 {
        -1
    } else if seq_max(p.drop_last()) < p.last() {
        p.last()
    } else {
        seq_max(p.drop_last())
    }
}

proof fn lemma_seq_max_in_range(p: Seq<int>, n: int)
    requires
        n >= 0,
    ensures
        in_range(p, n) <==> seq_max(p) < n,
    decreases p.len(),
{
    if p.len() > 0 {
        let q = p.drop_last();
        lemma_seq_max_in_range(q, n);
        if in_range(p, n) {
            assert forall|j: int| 0 <= j < q.len() implies #[trigger] q[j] < n by {
                assert(q[j] == p[j]);
            }
            assert(p[p.len() - 1] < n);
        }
        if seq_max(p) < n {
            assert forall|j: int| 0 <= j < p.len() implies #[trigger] p[j] < n by {
                if j < q.len() {
                    assert(q[j] == p[j]);
                }
            }
        }
    }
}

proof fn lemma_resolve_all_err(toks: Seq<Seq<char>>, k: int, count: nat, line: usize, e: LoadError)
    requires
        0 <= k <= toks.len(),
        resolve_all(toks.take(k), count, line) == Err::<Seq<int>, LoadError>(e),
    ensures
        resolve_all(toks, count, line) == Err::<Seq<int>, LoadError>(e),
    decreases toks.len(),
{
    if k == toks.len() {
        assert(toks.take(k) =~= toks);
    } else {
        assert(toks.drop_last().take(k) =~= toks.take(k));
        lemma_resolve_all_err(toks.drop_last(), k, count, line, e);
    }
}

proof fn lemma_read_lines_err(a: Seq<Seq<char>>, b: Seq<Seq<char>>, e: LoadError)
    requires
        read_lines(a) == Err::<ObjModel, LoadError>(e),
    ensures
        read_lines(a + b) == Err::<ObjModel, LoadError>(e),
    decreases b.len(),
{
    if b.len() == 0 {
        assert(a + b =~= a);
    } else {
        assert((a + b).drop_last() =~= a + b.drop_last());
        lemma_read_lines_err(a, b.drop_last(), e);
    }
}

/// The mesh being built while lines are read, with the largest index and
/// the line of each polygon.
struct Builder {
    vertices: Vec<VertexText>,
    faces: Vec<Face>,
    polygon_max: Vec<(usize, usize)>,
}

impl Builder {
    spec fn holds(&self, m: ObjModel) -> bool {
        &&& vertices_view(self.vertices@) == m.vertices
        &&& faces_view(self.faces@) == triangles(m.polygons)
        &&& self.polygon_max.len() == m.polygons.len()
        &&& m.polygon_lines.len() == m.polygons.len()
        &&& forall|k: int|
            0 <= k < m.polygons.len() ==> {
                &&& (#[trigger] self.polygon_max[k]).0 == seq_max(m.polygons[k])
                &&& self.polygon_max[k].1 == m.polygon_lines[k]
            }
    }
}

/// Reads the tokens of a face line, in `spans`, into zero-based indices.
fn resolve_tokens(
    cs: &Vec<char>,
    spans: &Vec<(usize, usize)>,
    count: usize,
    line: usize,
    Ghost(toks): Ghost<Seq<Seq<char>>>,
) -> (r: Result<(Vec<usize>, usize), LoadError>)
    requires
        spans.len() == toks.len(),
        toks.len() > 0,
        forall|k: int|
            0 <= k < spans.len() ==> {
                &&& (#[trigger] spans[k]).0 <= spans[k].1 <= cs.len()
                &&& cs@.subrange(spans[k].0 as int, spans[k].1 as int) == toks[k]
            },
    ensures
        match resolve_all(toks, count as nat, line) {
            Err(e) => r == Err::<(Vec<usize>, usize), LoadError>(e),
            Ok(p) => r matches Ok((idx, max)) && ints(idx@) == p && idx.len() == toks.len()
                && max == seq_max(p),
        },
{
    let mut idx: Vec<usize> = Vec::new();
    let mut max: usize = 0;
    let mut k: usize = 0;
    assert(toks.take(0) =~= seq![]);
    assert(ints(idx@) =~= seq![]);
    while k < spans.len()
        invariant
            spans.len() == toks.len(),
            forall|k: int|
                0 <= k < spans.len() ==> {
                    &&& (#[trigger] spans[k]).0 <= spans[k].1 <= cs.len()
                    &&& cs@.subrange(spans[k].0 as int, spans[k].1 as int) == toks[k]
                },
            0 <= k <= spans.len(),
            idx.len() == k,
            resolve_all(toks.take(k as int), count as nat, line) == Ok::<Seq<int>, LoadError>(
                ints(idx@),
            ),
            k == 0 || max == seq_max(ints(idx@)),
        decreases spans.len() - k,
    {
        let (lo, hi) = spans[k];
        let se = scan(cs, lo, hi, CharClass::NotSlash);
        let ghost tok = toks[k as int];
        let ghost before = ints(idx@);
        assert(index_part(tok) =~= cs@.subrange(lo as int, se as int));
        assert(toks.take(k + 1).drop_last() =~= toks.take(k as int));
        assert(toks.take(k + 1).last() == tok);
        let parsed = parse_i32(cs, lo, se);
        let resolved: usize;
        match parsed {
            None => {
                proof {
                    lemma_resolve_all_err(toks, k + 1, count as nat, line, LoadError::Number { line });
                }
                return Err(LoadError::Number { line });
            },
            Some(i) => {
                if i > 0 {
                    resolved = (i - 1) as usize;
                } else if i < 0 && (0 - (i as i64)) as usize <= count {
                    resolved = count - (0 - (i as i64)) as usize;
                } else {
                    proof {
                        lemma_resolve_all_err(toks, k + 1, count as nat, line, LoadError::Index { line });
                    }
                    return Err(LoadError::Index { line });
                }
            },
        }
        idx.push(resolved);
        proof {
            let after = ints(idx@);
            assert(after =~= before.push(resolved as int));
            assert(after.drop_last() =~= before);
            assert(after.last() == resolved as int);
            if k == 0 {
                assert(before =~= seq![]);
            }
            assert(seq_max(after) == if seq_max(before) < resolved as int {
                resolved as int
            } else {
                seq_max(before)
            });
        }
        if k == 0 || max < resolved {
            max = resolved;
        }
        k += 1;
    }
    assert(toks.take(k as int) =~= toks);
    Ok((idx, max))
}

proof fn lemma_triangles_push(ps: Seq<Seq<int>>, p: Seq<int>)
    ensures
        triangles(ps.push(p)) == triangles(ps) + fan(p),
{
    assert(ps.push(p).drop_last() =~= ps);
}

/// Appends the fan of the polygon `idx` to `faces`.
fn push_fan(faces: &mut Vec<Face>, idx: &Vec<usize>)
    requires
        idx.len() >= 3,
    ensures
        faces_view(final(faces)@) == faces_view(old(faces)@) + fan(ints(idx@)),
{
    let ghost start = faces_view(old(faces)@);
    let ghost p = ints(idx@);
    let mut i: usize = 1;
    while i + 1 < idx.len()
        invariant
            1 <= i < idx.len(),
            p == ints(idx@),
            faces_view(faces@) == start + fan(p).take(i - 1),
        decreases idx.len() - i,
    {
        let f = Face { vertex_indices: [idx[0], idx[i], idx[i + 1]] };
        proof {
            assert(face_view(f) =~= fan(p)[i - 1]);
        }
        let ghost prev = faces@;
        faces.push(f);
        proof {
            assert(faces_view(faces@) =~= faces_view(prev).push(face_view(f)));
            assert(fan(p).take(i as int) =~= fan(p).take(i - 1).push(fan(p)[i - 1]));
            assert(faces_view(faces@) =~= start + fan(p).take(i as int));
        }
        i += 1;
    }
    assert(fan(p).take(i - 1) =~= fan(p));
}

/// Reads line number `line`, the characters `cs[lo..hi]`, into `b`.
fn read_line_into(
    cs: &Vec<char>,
    lo: usize,
    hi: usize,
    line: usize,
    b: &mut Builder,
    Ghost(m): Ghost<ObjModel>,
) -> (r: Result<(), LoadError>)
    requires
        lo <= hi <= cs.len(),
        old(b).holds(m),
    ensures
        match read_line(m, cs@.subrange(lo as int, hi as int), line) {
            Err(e) => r == Err::<(), LoadError>(e),
            Ok(m2) => r is Ok && final(b).holds(m2),
        },
{
    let ghost raw = cs@.subrange(lo as int, hi as int);
    let (a, e) = trim_span(cs, lo, hi);
    let ghost l = cs@.subrange(a as int, e as int);
    if e - a < 2 || !(cs[a] == 'v' || cs[a] == 'f') || cs[a + 1] != ' ' {
        return Ok(());
    }
    assert(l.skip(2) =~= cs@.subrange(a + 2, e as int));
    let spans = word_spans(cs, a + 2, e);
    let ghost w = words(cs@.subrange(a + 2, e as int));
    if cs[a] == 'v' {
        if spans.len() < 3 {
            return Err(LoadError::VertexLine { line });
        }
        if !(float_token(cs, spans[0].0, spans[0].1) && float_token(cs, spans[1].0, spans[1].1)
            && float_token(cs, spans[2].0, spans[2].1)) {
            return Err(LoadError::Number { line });
        }
        let v = VertexText {
            x: copy_span(cs, spans[0].0, spans[0].1),
            y: copy_span(cs, spans[1].0, spans[1].1),
            z: copy_span(cs, spans[2].0, spans[2].1),
        };
        proof {
            assert(vertex_view(v) =~= w.take(3));
        }
        let ghost before = b.vertices@;
        b.vertices.push(v);
        proof {
            assert(vertices_view(b.vertices@) =~= vertices_view(before).push(w.take(3)));
        }
        Ok(())
    } else {
        if spans.len() < 3 {
            return Err(LoadError::FaceLine { line });
        }
        let ghost toks = Seq::new(spans.len() as nat, |k: int| cs@.subrange(spans[k].0 as int, spans[k].1 as int));
        assert(toks =~= w);
        let count = b.vertices.len();
        assert(count == m.vertices.len());
        let (idx, max) = resolve_tokens(cs, &spans, count, line, Ghost(w))?;
        let ghost p = ints(idx@);
        proof {
            lemma_triangles_push(m.polygons, p);
        }
        push_fan(&mut b.faces, &idx);
        b.polygon_max.push((max, line));
        Ok(())
    }
}

/// Loads a mesh from OBJ text.
///
/// The text is read line by line; lines are numbered from 1. On each line,
/// white space at both ends is ignored. A line `v x y z` adds a vertex: it
/// needs at least three words, of which the first three must be numbers. A
/// line `f t1 t2 t3 ...` adds a polygon of three or more vertices: the part of
/// each token before any `/` is an integer `i`, which names vertex `i`
/// counting from 1, or for a negative `i` the `-i`-th vertex counted back from
/// the last one read so far. The polygon `(v0, v1, ..., vn)` gives the
/// triangles `(v0, vi, vi+1)`. Other lines are skipped. The first malformed
/// line fails the load; so does a text without vertices or faces, and a
/// face that names a vertex the text does not define.
pub fn parse_obj(text: &str) -> (r: Result<ObjMesh, LoadError>)
    ensures
        match load_result(text@) {
            Err(e) => r == Err::<ObjMesh, LoadError>(e),
            Ok(m) => r matches Ok(mesh) && vertices_view(mesh.vertices@) == m.vertices && faces_view(mesh.faces@) == triangles(
                m.polygons,
            ) && faces_in_range(mesh.faces@, mesh.vertices.len() as int),
        },
{
    let cs = chars_of(text);
    let ghost t = cs@;
    let n = cs.len();
    let mut b = Builder { vertices: Vec::new(), faces: Vec::new(), polygon_max: Vec::new() };
    let ghost mut m = empty_model();
    let ghost mut done: Seq<Seq<char>> = seq![];
    let mut start: usize = 0;
    let mut line: usize = 1;
    proof {
        assert(vertices_view(b.vertices@) =~= seq![]);
        assert(faces_view(b.faces@) =~= seq![]);
        assert(t.subrange(0, n as int) =~= t);
    }
    loop
        invariant_except_break
            start <= n,
            line == done.len() + 1,
            line <= start + 1,
            lines(t) == done + lines(t.subrange(start as int, n as int)),
        invariant
            t == cs@,
            n == cs.len(),
            text@ == t,
            read_lines(done) == Ok::<ObjModel, LoadError>(m),
            b.holds(m),
        ensures
            lines(t) == done,
        decreases n - start,
    {
        let e = scan(&cs, start, n, CharClass::NotNewline);
        let ghost rest = t.subrange(start as int, n as int);
        let ghost piece = t.subrange(start as int, e as int);
        proof {
            assert(rest.take(e - start) =~= piece);
            if e < n {
                assert(rest.skip(e - start + 1) =~= t.subrange(e + 1, n as int));
            }
            assert(done.push(piece).drop_last() =~= done);
        }
        let res = read_line_into(&cs, start, e, line, &mut b, Ghost(m));
        match res {
            Err(err) => {
                proof {
                    let later = if e < n {
                        lines(t.subrange(e + 1, n as int))
                    } else {
                        seq![]
                    };
                    assert(lines(t) =~= done.push(piece) + later);
                    lemma_read_lines_err(done.push(piece), later, err);
                }
                return Err(err);
            },
            Ok(()) => {},
        }
        proof {
            m = read_line(m, piece, line).unwrap();
            done = done.push(piece);
        }
        if e == n {
            proof {
                assert(lines(t) =~= done);
            }
            break;
        }
        if e + 1 == n {
            proof {
                let last = t.subrange(n as int, n as int);
                assert(lines(last) =~= seq![last]);
                assert(lines(t) =~= done.push(last));
                assert(done.push(last).drop_last() =~= done);
                assert(trim(last) =~= last);
                done = done.push(last);
            }
            break;
        }
        proof {
            assert(lines(t) =~= done + lines(t.subrange(e + 1, n as int)));
        }
        start = e + 1;
        line += 1;
    }
    let ghost nv = m.vertices.len() as int;
    if b.vertices.len() == 0 {
        return Err(LoadError::NoVertices);
    }
    if b.polygon_max.len() == 0 {
        return Err(LoadError::NoFaces);
    }
    let mut k: usize = 0;
    while k < b.polygon_max.len()
        invariant
            b.holds(m),
            read_lines(lines(text@)) == Ok::<ObjModel, LoadError>(m),
            b.polygon_max.len() > 0,
            nv == m.vertices.len(),
            nv == b.vertices.len(),
            nv > 0,
            0 <= k <= b.polygon_max.len(),
            forall|j: int| 0 <= j < k ==> in_range(#[trigger] m.polygons[j], nv),
        decreases b.polygon_max.len() - k,
    {
        let (max, l) = b.polygon_max[k];
        proof {
            lemma_seq_max_in_range(m.polygons[k as int], nv);
        }
        if max >= b.vertices.len() {
            proof {
                assert(!in_range(m.polygons[k as int], nv));
                assert(some_out_of_range(m.polygons, nv));
                let c = first_out_of_range(m.polygons, nv);
                assert(0 <= c < m.polygons.len() && !in_range(m.polygons[c], nv) && forall|j: int|
                    0 <= j < c ==> in_range(#[trigger] m.polygons[j], nv));
                if c < k {
                    assert(in_range(m.polygons[c], nv));
                } else if c > k {
                    assert(in_range(m.polygons[k as int], nv));
                }
                assert(c == k);
                assert(l == m.polygon_lines[k as int]);
            }
            return Err(LoadError::Index { line: l });
        }
        k += 1;
    }
    proof {
        lemma_read_lines_polygons(lines(text@));
        lemma_triangles_in_range(m.polygons, nv);
        let tris = triangles(m.polygons);
        assert forall|t: int, j: int|
            0 <= t < b.faces.len() && 0 <= j < 3 implies (#[trigger] b.faces@[t].vertex_indices[j]) < nv by {
            assert(faces_view(b.faces@)[t] == face_view(b.faces@[t]));
            assert(face_view(b.faces@[t])[j] == b.faces@[t].vertex_indices[j] as int);
            assert(tris[t][j] < nv);
        }
    }
    Ok(ObjMesh { vertices: b.vertices, faces: b.faces })
}

} // verus!
