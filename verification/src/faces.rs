//! Tracing the faces of the planar graph that the region finder builds
//! from the sketch's edges. Round each vertex the half-edges leaving it
//! are listed in counter-clockwise order (an order the caller works out
//! from the geometry); a face is followed by turning, at the vertex each
//! half-edge arrives at, onto the outgoing half-edge just clockwise of
//! its twin, which keeps the face on the left.

use crate::loops::{twin_of, Half};
use vstd::prelude::*;

verus! {

/// The lists of a list of lists.
pub open spec fn rows(v: Seq<Vec<Half>>) -> Seq<Seq<Half>> {
    v.map_values(|l: Vec<Half>| l@)
}

/// The vertex half-edge `h` leaves from: the first end of its edge when
/// it runs forward, the second otherwise.
pub open spec fn origin(ends: Seq<(usize, usize)>, h: Half) -> int {
    if h.forward {
        ends[h.edge as int].0 as int
    } else {
        ends[h.edge as int].1 as int
    }
}

/// `h` is listed among the half-edges leaving its vertex.
pub open spec fn listed(ends: Seq<(usize, usize)>, out: Seq<Seq<Half>>, h: Half) -> bool {
    out[origin(ends, h)].contains(h)
}

/// `out` lists, for each vertex, the half-edges leaving it, each once:
/// every edge's ends are vertices of `out`, every listed half-edge leaves
/// the vertex it is listed at, no list repeats one, and every half-edge
/// of every edge is listed.
pub open spec fn rotation_wf(ends: Seq<(usize, usize)>, out: Seq<Seq<Half>>) -> bool {
    &&& forall|i: int| 0 <= i < ends.len() ==> (#[trigger] ends[i]).0 < out.len() && ends[i].1 < out.len()
    &&& forall|v: int, j: int|
        0 <= v < out.len() && 0 <= j < out[v].len() ==> (#[trigger] out[v][j]).edge < ends.len()
            && origin(ends, out[v][j]) == v
    &&& forall|v: int, j: int, k: int|
        0 <= v < out.len() && 0 <= j < out[v].len() && 0 <= k < out[v].len() && #[trigger] out[v][j]
            == #[trigger] out[v][k] ==> j == k
    &&& forall|h: Half| h.edge < ends.len() ==> #[trigger] listed(ends, out, h)
}

/// Where `h` stands in `l`.
pub open spec fn position(l: Seq<Half>, h: Half) -> int {
    choose|j: int| 0 <= j < l.len() && l[j] == h
}

/// The half-edge after `h` round its face: at the vertex `h` arrives at
/// (where its twin leaves), the one listed just before the twin,
/// cyclically.
pub open spec fn next_half(ends: Seq<(usize, usize)>, out: Seq<Seq<Half>>, h: Half) -> Half {
    let t = twin_of(h);
    let l = out[origin(ends, t)];
    let p = position(l, t);
    if p == 0 {
        l[l.len() - 1]
    } else {
        l[p - 1]
    }
}

proof fn lemma_position(ends: Seq<(usize, usize)>, out: Seq<Seq<Half>>, h: Half)
    requires
        rotation_wf(ends, out),
        h.edge < ends.len(),
    ensures
        0 <= origin(ends, h) < out.len(),
        0 <= position(out[origin(ends, h)], h) < out[origin(ends, h)].len(),
        out[origin(ends, h)][position(out[origin(ends, h)], h)] == h,
        forall|j: int|
            0 <= j < out[origin(ends, h)].len() && out[origin(ends, h)][j] == h ==> j == position(
                out[origin(ends, h)],
                h,
            ),
{
    assert(ends[h.edge as int].0 < out.len() && ends[h.edge as int].1 < out.len());
    assert(listed(ends, out, h));
    let v = origin(ends, h);
    let l = out[v];
    let j = choose|j: int| 0 <= j < l.len() && l[j] == h;
    let p = position(l, h);
    assert forall|k: int| 0 <= k < l.len() && l[k] == h implies k == p by {
        assert(out[v][k] == out[v][p]);
    }
}

proof fn lemma_next(ends: Seq<(usize, usize)>, out: Seq<Seq<Half>>, h: Half)
    requires
        rotation_wf(ends, out),
        h.edge < ends.len(),
    ensures
        next_half(ends, out, h).edge < ends.len(),
        origin(ends, next_half(ends, out, h)) == origin(ends, twin_of(h)),
{
    let t = twin_of(h);
    lemma_position(ends, out, t);
    let v = origin(ends, t);
    let l = out[v];
    let p = position(l, t);
    let q = if p == 0 {
        l.len() - 1
    } else {
        p - 1
    };
    assert(out[v][q] == next_half(ends, out, h));
}

/// Following faces never merges two half-edges into one: `next_half` is
/// one-to-one.
proof fn lemma_next_injective(ends: Seq<(usize, usize)>, out: Seq<Seq<Half>>, a: Half, b: Half)
    requires
        rotation_wf(ends, out),
        a.edge < ends.len(),
        b.edge < ends.len(),
        next_half(ends, out, a) == next_half(ends, out, b),
    ensures
        a == b,
{
    lemma_next(ends, out, a);
    lemma_next(ends, out, b);
    let (ta, tb) = (twin_of(a), twin_of(b));
    lemma_position(ends, out, ta);
    lemma_position(ends, out, tb);
    let v = origin(ends, ta);
    assert(origin(ends, tb) == v);
    let l = out[v];
    let (pa, pb) = (position(l, ta), position(l, tb));
    let qa = if pa == 0 {
        l.len() - 1
    } else {
        pa - 1
    };
    let qb = if pb == 0 {
        l.len() - 1
    } else {
        pb - 1
    };
    assert(out[v][qa] == out[v][qb]);
    assert(qa == qb);
    assert(pa == pb);
    assert(ta == tb);
}

/// The number a half-edge goes by when the half-edges are taken in
/// order: each edge forward, then backward.
pub open spec fn half_index(h: Half) -> int {
    2 * h.edge + if h.forward {
        0int
    } else {
        1int
    }
}

/// The half-edge numbered `i`.
pub open spec fn half_at(i: int) -> Half {
    Half { edge: (i / 2) as usize, forward: i % 2 == 0 }
}

proof fn lemma_half_numbering(h: Half, i: int)
    requires
        0 <= i <= usize::MAX,
    ensures
        half_at(half_index(h)) == h,
        half_index(half_at(i)) == i,
{
}

/// `f` is one face, followed from `f[0]`: each half-edge is followed by
/// the next round the face, the last by the first, and none comes twice.
pub open spec fn traces_face(ends: Seq<(usize, usize)>, out: Seq<Seq<Half>>, f: Seq<Half>) -> bool {
    &&& f.len() > 0
    &&& forall|j: int| 0 <= j < f.len() ==> (#[trigger] f[j]).edge < ends.len()
    &&& forall|j: int| 0 <= j < f.len() - 1 ==> f[j + 1] == next_half(ends, out, #[trigger] f[j])
    &&& next_half(ends, out, f.last()) == f[0]
    &&& forall|j: int, k: int| 0 <= j < f.len() && 0 <= k < f.len() && #[trigger] f[j] == #[trigger] f[k] ==> j == k
}

/// `h` lies on one of the faces `fs`.
pub open spec fn on_a_face(fs: Seq<Seq<Half>>, h: Half) -> bool {
    exists|k: int| 0 <= k < fs.len() && #[trigger] fs[k].contains(h)
}

/// `h` lies on one of the first `k` faces of `fs`.
pub open spec fn on_a_face_before(fs: Seq<Seq<Half>>, k: int, h: Half) -> bool {
    exists|m: int| 0 <= m < k && #[trigger] fs[m].contains(h)
}

/// `fs` are the faces of the graph, each once: every face is traced, no
/// half-edge lies on two, every half-edge lies on one, and each face
/// starts from the first half-edge (in numbering order) on none of the
/// faces before it.
pub open spec fn faces_of(ends: Seq<(usize, usize)>, out: Seq<Seq<Half>>, fs: Seq<Seq<Half>>) -> bool {
    &&& forall|k: int| 0 <= k < fs.len() ==> traces_face(ends, out, #[trigger] fs[k])
    &&& forall|k: int, m: int, h: Half|
        0 <= k < m < fs.len() && #[trigger] fs[k].contains(h) ==> !(#[trigger] fs[m].contains(h))
    &&& forall|h: Half| h.edge < ends.len() ==> #[trigger] on_a_face(fs, h)
    &&& forall|k: int, h: Half|
        0 <= k < fs.len() && h.edge < ends.len() && half_index(h) < half_index(#[trigger] fs[k][0])
            ==> #[trigger] on_a_face_before(fs, k, h)
}

/// The half-edge after `h` round its face.
pub fn next_around(ends: &Vec<(usize, usize)>, out: &Vec<Vec<Half>>, h: Half) -> (n: Half)
    requires
        rotation_wf(ends@, rows(out@)),
        h.edge < ends@.len(),
    ensures
        n == next_half(ends@, rows(out@), h),
        n.edge < ends@.len(),
{
    let ghost o = rows(out@);
    let t = h.twin();
    proof {
        lemma_position(ends@, o, t);
        lemma_next(ends@, o, h);
    }
    let v = if t.forward {
        ends[t.edge].0
    } else {
        ends[t.edge].1
    };
    let list = &out[v];
    assert(list@ == o[v as int]);
    let ghost p = position(o[v as int], t);
    let n = list.len();
    let mut pos: usize = 0;
    while !(list[pos] == t)
        invariant
            n == list@.len(),
            0 <= p < n,
            list@[p] == t,
            pos <= p,
        decreases p - pos,
    {
        pos = pos + 1;
    }
    assert(pos == p);
    if pos == 0 {
        list[n - 1]
    } else {
        list[pos - 1]
    }
}

/// How many entries of `s` are false.
pub open spec fn falses(s: Seq<bool>) -> nat
    decreases s.len(),
{
    if s.len() == 0 {
        0
    } else {
        falses(s.drop_last()) + if s.last() {
            0nat
        } else {
            1nat
        }
    }
}

proof fn lemma_falses_set(s: Seq<bool>, i: int)
    requires
        0 <= i < s.len(),
        !s[i],
    ensures
        falses(s.update(i, true)) + 1 == falses(s),
    decreases s.len(),
{
    let u = s.update(i, true);
    if i == s.len() - 1 {
        assert(u.drop_last() =~= s.drop_last());
    } else {
        lemma_falses_set(s.drop_last(), i);
        assert(u.drop_last() =~= s.drop_last().update(i, true));
    }
}

/// The number of half-edge `h` as an index.
fn index_of(h: Half) -> (i: usize)
    requires
        2 * h.edge + 1 <= usize::MAX,
    ensures
        i == half_index(h),
{
    if h.forward {
        2 * h.edge
    } else {
        2 * h.edge + 1
    }
}

/// A half-edge whose successor lies on a traced face lies on it too.
proof fn lemma_closed_face(ends: Seq<(usize, usize)>, out: Seq<Seq<Half>>, f: Seq<Half>, h: Half)
    requires
        rotation_wf(ends, out),
        traces_face(ends, out, f),
        h.edge < ends.len(),
        f.contains(next_half(ends, out, h)),
    ensures
        f.contains(h),
{
    let m = choose|m: int| 0 <= m < f.len() && f[m] == next_half(ends, out, h);
    let q = if m == 0 {
        f.len() - 1
    } else {
        m - 1
    };
    assert(f[q].edge < ends.len());
    if m > 0 {
        assert(f[m] == next_half(ends, out, f[m - 1]));
    }
    lemma_next_injective(ends, out, f[q], h);
}

/// A path followed from `f[0]` does not come back to one of its own
/// half-edges other than the first.
proof fn lemma_path_fresh(ends: Seq<(usize, usize)>, out: Seq<Seq<Half>>, f: Seq<Half>)
    requires
        rotation_wf(ends, out),
        f.len() > 0,
        forall|j: int| 0 <= j < f.len() ==> (#[trigger] f[j]).edge < ends.len(),
        forall|j: int| 0 <= j < f.len() - 1 ==> f[j + 1] == next_half(ends, out, #[trigger] f[j]),
        forall|j: int, k: int| 0 <= j < f.len() && 0 <= k < f.len() && #[trigger] f[j] == #[trigger] f[k] ==> j == k,
        next_half(ends, out, f.last()) != f[0],
    ensures
        !f.contains(next_half(ends, out, f.last())),
{
    let x = next_half(ends, out, f.last());
    if f.contains(x) {
        let j = choose|j: int| 0 <= j < f.len() && f[j] == x;
        assert(j != 0);
        assert(f[j] == next_half(ends, out, f[j - 1]));
        assert(f[f.len() - 1].edge < ends.len());
        lemma_next_injective(ends, out, f[j - 1], f.last());
        assert(f[j - 1] == f[f.len() - 1]);
    }
}

/// Every face of the graph, each traced once from its first half-edge
/// (taking the half-edges in order: each edge forward, then backward),
/// in the order of those first half-edges.
pub fn face_cycles(ends: &Vec<(usize, usize)>, out: &Vec<Vec<Half>>) -> (faces: Vec<Vec<Half>>)
    requires
        rotation_wf(ends@, rows(out@)),
        ends@.len() * 2 <= usize::MAX,
    ensures
        faces_of(ends@, rows(out@), rows(faces@)),
{
    let ghost o = rows(out@);
    let n2 = 2 * ends.len();
    let mut seen: Vec<bool> = Vec::new();
    while seen.len() < n2
        invariant
            seen@.len() <= n2,
            forall|i: int| 0 <= i < seen@.len() ==> !seen@[i],
        decreases n2 - seen@.len(),
    {
        seen.push(false);
    }
    let mut faces: Vec<Vec<Half>> = Vec::new();
    let ghost mut fs: Seq<Seq<Half>> = Seq::empty();
    let mut e: usize = 0;
    while e < n2
        invariant
            o == rows(out@),
            rotation_wf(ends@, o),
            n2 == 2 * ends@.len(),
            n2 <= usize::MAX,
            seen@.len() == n2,
            e <= n2,
            rows(faces@) == fs,
            forall|i: int| 0 <= i < n2 ==> (#[trigger] seen@[i] <==> on_a_face(fs, half_at(i))),
            forall|i: int| 0 <= i < e ==> #[trigger] seen@[i],
            forall|k: int| 0 <= k < fs.len() ==> traces_face(ends@, o, #[trigger] fs[k]),
            forall|k: int, m: int, h: Half|
                0 <= k < m < fs.len() && #[trigger] fs[k].contains(h) ==> !(#[trigger] fs[m].contains(h)),
            forall|k: int, h: Half|
                0 <= k < fs.len() && h.edge < ends@.len() && half_index(h) < half_index(#[trigger] fs[k][0])
                    ==> #[trigger] on_a_face_before(fs, k, h),
        decreases n2 - e,
    {
        if !seen[e] {
            let start = Half { edge: e / 2, forward: e % 2 == 0 };
            proof {
                lemma_half_numbering(start, e as int);
                assert(!seen@[e as int]);
                assert forall|x: int| 0 <= x < e implies on_a_face(fs, #[trigger] half_at(x)) by {
                    assert(seen@[x]);
                }
            }
            let mut face: Vec<Half> = Vec::new();
            let mut h = start;
            let mut closed = false;
            while !closed
                invariant
                    o == rows(out@),
                    rotation_wf(ends@, o),
                    n2 == 2 * ends@.len(),
                    n2 <= usize::MAX,
                    seen@.len() == n2,
                    e < n2,
                    start == half_at(e as int),
                    half_index(start) == e,
                    start.edge < ends@.len(),
                    !on_a_face(fs, start),
                    forall|x: int| 0 <= x < e ==> on_a_face(fs, #[trigger] half_at(x)),
                    forall|k: int| 0 <= k < fs.len() ==> traces_face(ends@, o, #[trigger] fs[k]),
                    forall|i: int|
                        0 <= i < n2 ==> (#[trigger] seen@[i] <==> (on_a_face(fs, half_at(i))
                            || face@.contains(half_at(i)))),
                    forall|j: int| 0 <= j < face@.len() ==> (#[trigger] face@[j]).edge < ends@.len(),
                    forall|j: int| 0 <= j < face@.len() ==> !on_a_face(fs, #[trigger] face@[j]),
                    forall|j: int|
                        0 <= j < face@.len() - 1 ==> face@[j + 1] == next_half(ends@, o, #[trigger] face@[j]),
                    forall|j: int, k: int|
                        0 <= j < face@.len() && 0 <= k < face@.len() && #[trigger] face@[j]
                            == #[trigger] face@[k] ==> j == k,
                    face@.len() > 0 ==> face@[0] == start,
                    !closed ==> h.edge < ends@.len() && !seen@[half_index(h)],
                    !closed && face@.len() == 0 ==> h == start,
                    !closed && face@.len() > 0 ==> h == next_half(ends@, o, face@.last()) && h != start,
                    closed ==> face@.len() > 0 && next_half(ends@, o, face@.last()) == start,
                decreases falses(seen@),
            {
                let ghost before = seen@;
                let ghost f0 = face@;
                proof {
                    lemma_half_numbering(h, 0);
                }
                let i = index_of(h);
                face.push(h);
                seen.set(i, true);
                proof {
                    lemma_falses_set(before, i as int);
                    assert forall|x: int| 0 <= x < n2 implies (#[trigger] seen@[x] <==> (on_a_face(
                        fs,
                        half_at(x),
                    ) || face@.contains(half_at(x)))) by {
                        lemma_half_numbering(h, x);
                        if x == i as int {
                            assert(face@[face@.len() - 1] == h);
                        } else {
                            assert(seen@[x] == before[x]);
                            if f0.contains(half_at(x)) {
                                let j = choose|j: int| 0 <= j < f0.len() && f0[j] == half_at(x);
                                assert(face@[j] == f0[j]);
                            }
                            if face@.contains(half_at(x)) {
                                let j = choose|j: int| 0 <= j < face@.len() && face@[j] == half_at(x);
                                if j < f0.len() {
                                    assert(f0[j] == face@[j]);
                                }
                            }
                        }
                    }
                    assert(!on_a_face(fs, h));
                    assert forall|j: int, k: int|
                        0 <= j < face@.len() && 0 <= k < face@.len() && #[trigger] face@[j]
                            == #[trigger] face@[k] implies j == k by {
                        if j < f0.len() && k == f0.len() {
                            assert(f0.contains(h));
                            assert(seen@[i as int] && before[i as int] == false);
                        }
                        if k < f0.len() && j == f0.len() {
                            assert(f0.contains(h));
                        }
                    }
                    if f0.len() > 0 {
                        assert(face@[f0.len() as int] == next_half(ends@, o, f0.last()));
                    }
                }
                let nx = next_around(ends, out, h);
                if nx == start {
                    closed = true;
                } else {
                    proof {
                        lemma_path_fresh(ends@, o, face@);
                        if on_a_face(fs, nx) {
                            let k = choose|k: int| 0 <= k < fs.len() && #[trigger] fs[k].contains(nx);
                            lemma_closed_face(ends@, o, fs[k], h);
                            assert(on_a_face(fs, h));
                        }
                        lemma_half_numbering(nx, 0);
                        assert(half_at(half_index(nx)) == nx);
                    }
                    h = nx;
                }
            }
            let ghost f = face@;
            assert(traces_face(ends@, o, f));
            faces.push(face);
            proof {
                let fs0 = fs;
                fs = fs.push(f);
                assert(rows(faces@) =~= fs);
                assert forall|x: int| 0 <= x < n2 implies (#[trigger] seen@[x] <==> on_a_face(fs, half_at(x))) by {
                    if on_a_face(fs0, half_at(x)) {
                        let k = choose|k: int| 0 <= k < fs0.len() && #[trigger] fs0[k].contains(half_at(x));
                        assert(fs[k] == fs0[k]);
                    }
                    if f.contains(half_at(x)) {
                        assert(fs[fs0.len() as int] == f);
                    }
                    if on_a_face(fs, half_at(x)) {
                        let k = choose|k: int| 0 <= k < fs.len() && #[trigger] fs[k].contains(half_at(x));
                        if k < fs0.len() {
                            assert(fs0[k] == fs[k]);
                        }
                    }
                }
                assert forall|k: int| 0 <= k < fs.len() implies traces_face(ends@, o, #[trigger] fs[k]) by {
                    if k < fs0.len() {
                        assert(fs[k] == fs0[k]);
                    }
                }
                assert forall|k: int, m: int, x: Half|
                    0 <= k < m < fs.len() && #[trigger] fs[k].contains(x) implies !(#[trigger] fs[m].contains(x)) by {
                    assert(fs[k] == fs0[k]);
                    if m < fs0.len() {
                        assert(fs[m] == fs0[m]);
                    } else if fs[m].contains(x) {
                        let j = choose|j: int| 0 <= j < f.len() && f[j] == x;
                        assert(!on_a_face(fs0, f[j]));
                        assert(fs0[k].contains(x));
                    }
                }
                assert forall|k: int, x: Half|
                    0 <= k < fs.len() && x.edge < ends@.len() && half_index(x) < half_index(#[trigger] fs[k][0])
                        implies #[trigger] on_a_face_before(fs, k, x) by {
                    if k < fs0.len() {
                        assert(fs[k] == fs0[k]);
                        assert(on_a_face_before(fs0, k, x));
                        let m = choose|m: int| 0 <= m < k && #[trigger] fs0[m].contains(x);
                        assert(fs[m] == fs0[m]);
                    } else {
                        lemma_half_numbering(x, 0);
                        assert(half_index(x) < e);
                        assert(on_a_face(fs0, half_at(half_index(x))));
                        let m = choose|m: int| 0 <= m < fs0.len() && #[trigger] fs0[m].contains(x);
                        assert(fs[m] == fs0[m]);
                    }
                }
            }
        }
        e = e + 1;
    }
    proof {
        assert forall|h: Half| h.edge < ends@.len() implies #[trigger] on_a_face(fs, h) by {
            lemma_half_numbering(h, 0);
            assert(seen@[half_index(h)]);
        }
    }
    faces
}

/// For each of the vertices `0..verts`, the half-edges leaving it, in
/// edge order: the lists the region finder sorts by angle.
pub fn leaving(verts: usize, ends: &Vec<(usize, usize)>) -> (out: Vec<Vec<Half>>)
    requires
        forall|i: int| 0 <= i < ends@.len() ==> (#[trigger] ends@[i]).0 < verts && ends@[i].1 < verts,
    ensures
        rows(out@).len() == verts,
        rotation_wf(ends@, rows(out@)),
{
    let mut out: Vec<Vec<Half>> = Vec::new();
    let mut v: usize = 0;
    while v < verts
        invariant
            v <= verts,
            out@.len() == v,
            forall|u: int| 0 <= u < v ==> (#[trigger] out@[u])@.len() == 0,
        decreases verts - v,
    {
        out.push(Vec::new());
        v = v + 1;
    }
    let n = ends.len();
    let mut i: usize = 0;
    while i < n
        invariant
            n == ends@.len(),
            i <= n,
            out@.len() == verts,
            forall|k: int| 0 <= k < ends@.len() ==> (#[trigger] ends@[k]).0 < verts && ends@[k].1 < verts,
            forall|u: int, j: int|
                0 <= u < verts && 0 <= j < out@[u]@.len() ==> (#[trigger] out@[u]@[j]).edge < i && origin(
                    ends@,
                    out@[u]@[j],
                ) == u,
            forall|u: int, j: int, k: int|
                0 <= u < verts && 0 <= j < out@[u]@.len() && 0 <= k < out@[u]@.len()
                    && #[trigger] out@[u]@[j] == #[trigger] out@[u]@[k] ==> j == k,
            forall|h: Half| h.edge < i ==> #[trigger] listed(ends@, rows(out@), h),
        decreases n - i,
    {
        let (a, b) = ends[i];
        assert(ends@[i as int].0 < verts && ends@[i as int].1 < verts);
        let f = Half { edge: i, forward: true };
        let r = Half { edge: i, forward: false };
        let ghost o0 = out@;
        let mut la = out[a].clone();
        assert(la@ == o0[a as int]@);
        la.push(f);
        out.set(a, la);
        let ghost o1 = out@;
        let mut lb = out[b].clone();
        assert(lb@ == o1[b as int]@);
        lb.push(r);
        out.set(b, lb);
        proof {
            assert forall|u: int, j: int|
                0 <= u < verts && 0 <= j < out@[u]@.len() implies (#[trigger] out@[u]@[j]).edge < i + 1
                && origin(ends@, out@[u]@[j]) == u by {
                if u == b as int && j == out@[u]@.len() - 1 {
                } else if u == b as int {
                    assert(out@[u]@[j] == o1[u]@[j]);
                    if u == a as int && j == o1[u]@.len() - 1 {
                    } else if u == a as int {
                        assert(o1[u]@[j] == o0[u]@[j]);
                    }
                } else if u == a as int {
                    assert(out@[u] == o1[u]);
                    if j < o0[u]@.len() {
                        assert(o1[u]@[j] == o0[u]@[j]);
                    }
                } else {
                    assert(out@[u] == o0[u]);
                }
            }
            assert forall|u: int, j: int, k: int|
                0 <= u < verts && 0 <= j < out@[u]@.len() && 0 <= k < out@[u]@.len()
                    && #[trigger] out@[u]@[j] == #[trigger] out@[u]@[k] implies j == k by {
                if out@[u]@[j].edge == i && out@[u]@[k].edge == i {
                    // Each new half-edge went to the end of its list, once.
                    if u == b as int {
                        let last = out@[u]@.len() - 1;
                        if j != last {
                            assert(out@[u]@[j] == o1[u]@[j]);
                        }
                        if k != last {
                            assert(out@[u]@[k] == o1[u]@[k]);
                        }
                        if j != last && k != last && u == a as int {
                            let l1 = o1[u]@.len() - 1;
                            if j != l1 {
                                assert(o1[u]@[j] == o0[u]@[j]);
                            }
                            if k != l1 {
                                assert(o1[u]@[k] == o0[u]@[k]);
                            }
                        }
                    } else if u == a as int {
                        let last = out@[u]@.len() - 1;
                        assert(out@[u] == o1[u]);
                        if j != last {
                            assert(o1[u]@[j] == o0[u]@[j]);
                        }
                        if k != last {
                            assert(o1[u]@[k] == o0[u]@[k]);
                        }
                    } else {
                        assert(out@[u] == o0[u]);
                    }
                } else {
                    if u == b as int {
                        if j < o1[u]@.len() && k < o1[u]@.len() {
                            assert(out@[u]@[j] == o1[u]@[j]);
                            assert(out@[u]@[k] == o1[u]@[k]);
                            if u == a as int && j < o0[u]@.len() && k < o0[u]@.len() {
                                assert(o1[u]@[j] == o0[u]@[j]);
                                assert(o1[u]@[k] == o0[u]@[k]);
                            }
                        }
                    } else if u == a as int {
                        assert(out@[u] == o1[u]);
                        if j < o0[u]@.len() && k < o0[u]@.len() {
                            assert(o1[u]@[j] == o0[u]@[j]);
                            assert(o1[u]@[k] == o0[u]@[k]);
                        }
                    } else {
                        assert(out@[u] == o0[u]);
                    }
                }
            }
            assert forall|h: Half| h.edge < i + 1 implies #[trigger] listed(ends@, rows(out@), h) by {
                let w = origin(ends@, h);
                if h.edge < i {
                    assert(listed(ends@, rows(o0), h));
                    let j = choose|j: int| 0 <= j < o0[w]@.len() && o0[w]@[j] == h;
                    assert(o1[w]@[j] == h);
                    assert(out@[w]@[j] == h);
                    assert(rows(out@)[w][j] == h);
                } else if h.forward {
                    assert(w == a as int);
                    let j = o1[w]@.len() - 1;
                    assert(o1[w]@[j] == h);
                    assert(out@[w]@[j] == h);
                    assert(rows(out@)[w][j] == h);
                } else {
                    assert(w == b as int);
                    let j = out@[w]@.len() - 1;
                    assert(out@[w]@[j] == h);
                    assert(rows(out@)[w][j] == h);
                }
            }
        }
        i = i + 1;
    }
    proof {
        let o = rows(out@);
        assert forall|v: int, j: int| 0 <= v < o.len() && 0 <= j < o[v].len() implies (#[trigger] o[v][j]).edge
            < ends@.len() && origin(ends@, o[v][j]) == v by {
            assert(o[v][j] == out@[v]@[j]);
        }
        assert forall|v: int, j: int, k: int|
            0 <= v < o.len() && 0 <= j < o[v].len() && 0 <= k < o[v].len() && #[trigger] o[v][j]
                == #[trigger] o[v][k] implies j == k by {
            assert(o[v][j] == out@[v]@[j]);
            assert(o[v][k] == out@[v]@[k]);
        }
    }
    out
}

} // verus!
