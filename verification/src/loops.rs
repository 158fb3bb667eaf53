//! Bookkeeping of the region finder: a union–find over point indices
//! (merging coincident points), directed half-edges, and the pruning of
//! edges that cannot bound a region.

use vstd::prelude::*;

verus! {

/// Disjoint sets over `0..n`, with path compression.
pub struct UnionFind {
    parent: Vec<usize>,
    /// The representative of each element's set.
    roots: Ghost<Seq<int>>,
    /// Strictly increases from child to parent.
    rank: Ghost<Seq<nat>>,
    /// No rank exceeds it.
    bound: Ghost<nat>,
}

impl UnionFind {
    /// The number of elements.
    pub closed spec fn size(&self) -> nat {
        self.parent@.len()
    }

    /// The representative of element `i`'s set.
    pub closed spec fn root_of(&self, i: int) -> int {
        self.roots@[i]
    }

    /// The representatives of all elements, in element order.
    pub closed spec fn roots(&self) -> Seq<int> {
        self.roots@
    }

    /// The forest is well formed: parents are elements, representatives
    /// are roots reached by following parents, and ranks grow towards
    /// the roots.
    pub closed spec fn wf(&self) -> bool {
        forest_wf(self.parent@, self.roots@, self.rank@, self.bound@)
    }

    /// `n` elements, each in a set of its own.
    pub fn new(n: usize) -> (uf: UnionFind)
        ensures
            uf.wf(),
            uf.size() == n,
            forall|i: int| 0 <= i < n ==> #[trigger] uf.root_of(i) == i,
    {
        let mut parent: Vec<usize> = Vec::new();
        let mut i: usize = 0;
        while i < n
            invariant
                i <= n,
                parent@.len() == i,
                forall|j: int| 0 <= j < i ==> #[trigger] parent@[j] == j,
            decreases n - i,
        {
            parent.push(i);
            i = i + 1;
        }
        UnionFind {
            parent,
            roots: Ghost(Seq::new(n as nat, |j: int| j)),
            rank: Ghost(Seq::new(n as nat, |j: int| 0nat)),
            bound: Ghost(0),
        }
    }

    /// The representative of `i`'s set; compresses the path it follows.
    pub fn find(&mut self, i: usize) -> (r: usize)
        requires
            old(self).wf(),
            i < old(self).size(),
        ensures
            final(self).wf(),
            final(self).size() == old(self).size(),
            final(self).roots() == old(self).roots(),
            r == old(self).root_of(i as int),
            r < old(self).size(),
    {
        let n = self.parent.len();
        let mut r = i;
        while self.parent[r] != r
            invariant
                self.wf(),
                *self == *old(self),
                n == self.parent@.len(),
                r < n,
                self.roots@[r as int] == self.roots@[i as int],
            decreases self.bound@ - self.rank@[r as int],
        {
            r = self.parent[r];
        }
        let mut c = i;
        while self.parent[c] != r
            invariant
                self.wf(),
                n == self.parent@.len(),
                self.roots@ == old(self).roots@,
                self.rank@ == old(self).rank@,
                self.bound@ == old(self).bound@,
                r < n,
                c < n,
                self.parent@[r as int] == r,
                self.roots@[r as int] == r,
                self.roots@[c as int] == r,
            decreases self.bound@ - self.rank@[c as int],
        {
            let next = self.parent[c];
            proof {
                assert(self.parent@[c as int] != c) by {
                    if self.parent@[c as int] == c {
                        assert(self.roots@[c as int] == c);
                    }
                }
            }
            self.parent.set(c, r);
            c = next;
        }
        r
    }

    /// Merges the sets of `a` and `b`: the representative of `a`'s set
    /// becomes that of `b`'s.
    pub fn union(&mut self, a: usize, b: usize)
        requires
            old(self).wf(),
            a < old(self).size(),
            b < old(self).size(),
        ensures
            final(self).wf(),
            final(self).size() == old(self).size(),
            final(self).roots() == merged(old(self).roots(), a as int, b as int),
    {
        let ra = self.find(a);
        let rb = self.find(b);
        if ra != rb {
            let ghost old_roots = self.roots@;
            let ghost old_rank = self.rank@;
            let ghost new_rank_b = if old_rank[rb as int] > old_rank[ra as int] {
                old_rank[rb as int]
            } else {
                old_rank[ra as int] + 1
            };
            let ghost old_parent = self.parent@;
            let ghost old_bound = self.bound@;
            self.parent.set(ra, rb);
            self.roots = Ghost(merged(old_roots, a as int, b as int));
            self.rank = Ghost(old_rank.update(rb as int, new_rank_b));
            self.bound = Ghost(
                if self.bound@ >= new_rank_b {
                    self.bound@
                } else {
                    new_rank_b
                },
            );
            proof {
                lemma_link(old_parent, old_roots, old_rank, old_bound, ra as int, rb as int);
                assert(self.roots@ =~= old_roots.map_values(
                    |x: int| if x == ra as int { rb as int } else { x },
                ));
            }
        }
    }
}

impl UnionFind {
    /// Every element's representative is an element, and its own
    /// representative.
    pub proof fn lemma_roots(&self)
        requires
            self.wf(),
        ensures
            self.roots().len() == self.size(),
            forall|i: int|
                0 <= i < self.size() ==> 0 <= #[trigger] self.root_of(i) < self.size() && self.root_of(
                    self.root_of(i),
                ) == self.root_of(i),
    {
        assert forall|i: int| 0 <= i < self.size() implies 0 <= #[trigger] self.root_of(i) < self.size()
            && self.root_of(self.root_of(i)) == self.root_of(i) by {
            let r = self.roots@[i];
            assert(self.parent@[r] == r);
        }
    }
}

/// `i` is the first element of its set.
pub open spec fn first_of_set(roots: Seq<int>, i: int) -> bool {
    forall|j: int| 0 <= j < i ==> roots[j] != roots[i]
}

/// Numbers the sets of `uf` in the order of their first elements, as the
/// region finder numbers the vertices that merged points become. Gives,
/// for each element, the number of its set, and for each set its first
/// element.
pub fn vertex_numbers(uf: &mut UnionFind) -> (r: (Vec<usize>, Vec<usize>))
    requires
        old(uf).wf(),
    ensures
        final(uf).wf(),
        final(uf).size() == old(uf).size(),
        final(uf).roots() == old(uf).roots(),
        r.0@.len() == old(uf).size(),
        forall|v: int|
            0 <= v < r.1@.len() ==> (#[trigger] r.1@[v]) < old(uf).size() && first_of_set(
                old(uf).roots(),
                r.1@[v] as int,
            ) && r.0@[r.1@[v] as int] == v,
        forall|v: int, w: int| 0 <= v < w < r.1@.len() ==> #[trigger] r.1@[v] < #[trigger] r.1@[w],
        forall|i: int|
            0 <= i < old(uf).size() ==> (#[trigger] r.0@[i]) < r.1@.len() && old(uf).roots()[r.1@[r.0@[i]
                as int] as int] == old(uf).roots()[i],
        forall|i: int, j: int|
            0 <= i < old(uf).size() && 0 <= j < old(uf).size() ==> (#[trigger] r.0@[i] == #[trigger] r.0@[j]
                <==> old(uf).roots()[i] == old(uf).roots()[j]),
{
    let ghost roots = uf.roots();
    proof {
        uf.lemma_roots();
    }
    let n = uf.parent.len();
    let mut slot: Vec<Option<usize>> = Vec::new();
    while slot.len() < n
        invariant
            slot@.len() <= n,
            forall|k: int| 0 <= k < slot@.len() ==> slot@[k] is None,
        decreases n - slot@.len(),
    {
        slot.push(None);
    }
    let mut vert_of: Vec<usize> = Vec::new();
    let mut firsts: Vec<usize> = Vec::new();
    let mut i: usize = 0;
    while i < n
        invariant
            uf.wf(),
            n == uf.size(),
            uf.roots() == roots,
            roots.len() == n,
            forall|k: int| 0 <= k < n ==> 0 <= #[trigger] roots[k] < n,
            i <= n,
            slot@.len() == n,
            vert_of@.len() == i,
            forall|q: int|
                0 <= q < n ==> match #[trigger] slot@[q] {
                    Some(v) => v < firsts@.len() && roots[firsts@[v as int] as int] == q,
                    None => forall|j: int| 0 <= j < i ==> roots[j] != q,
                },
            forall|v: int|
                0 <= v < firsts@.len() ==> (#[trigger] firsts@[v]) < i && first_of_set(roots, firsts@[v] as int)
                    && vert_of@[firsts@[v] as int] == v,
            forall|v: int, w: int| 0 <= v < w < firsts@.len() ==> #[trigger] firsts@[v] < #[trigger] firsts@[w],
            forall|j: int|
                0 <= j < i ==> (#[trigger] vert_of@[j]) < firsts@.len() && roots[firsts@[vert_of@[j] as int] as int]
                    == roots[j],
        decreases n - i,
    {
        let r = uf.find(i);
        match slot[r] {
            Some(v) => {
                vert_of.push(v);
            },
            None => {
                let v = firsts.len();
                proof {
                    assert forall|j: int| 0 <= j < i implies roots[j] != roots[i as int] by {
                        assert(slot@[r as int] is None);
                    }
                }
                slot.set(r, Some(v));
                vert_of.push(v);
                firsts.push(i);
            },
        }
        i = i + 1;
    }
    proof {
        assert forall|a: int, b: int|
            0 <= a < n && 0 <= b < n implies (#[trigger] vert_of@[a] == #[trigger] vert_of@[b] <==> roots[a]
            == roots[b]) by {
            if roots[a] == roots[b] {
                let (fa, fb) = (firsts@[vert_of@[a] as int] as int, firsts@[vert_of@[b] as int] as int);
                if fa < fb {
                    assert(roots[fa] == roots[fb]);
                } else if fb < fa {
                    assert(roots[fa] == roots[fb]);
                }
                if vert_of@[a] < vert_of@[b] {
                    assert(firsts@[vert_of@[a] as int] < firsts@[vert_of@[b] as int]);
                } else if vert_of@[b] < vert_of@[a] {
                    assert(firsts@[vert_of@[b] as int] < firsts@[vert_of@[a] as int]);
                }
            }
        }
    }
    (vert_of, firsts)
}

/// Parents `p`, representatives `r`, ranks `k` and their bound make a
/// well-formed forest.
pub closed spec fn forest_wf(p: Seq<usize>, r: Seq<int>, k: Seq<nat>, bound: nat) -> bool {
    let n = p.len();
    &&& r.len() == n
        &&& k.len() == n
        &&& forall|i: int| 0 <= i < n ==> #[trigger] p[i] < n
        &&& forall|i: int| 0 <= i < n ==> 0 <= #[trigger] r[i] < n
        &&& forall|i: int| 0 <= i < n ==> p[#[trigger] r[i]] == r[i]
        &&& forall|i: int| 0 <= i < n ==> r[p[i] as int] == #[trigger] r[i]
        &&& forall|i: int| 0 <= i < n && #[trigger] p[i] == i ==> r[i] == i
        &&& forall|i: int| 0 <= i < n && #[trigger] p[i] != i ==> k[i] < k[p[i] as int]
        &&& forall|i: int| 0 <= i < n && #[trigger] r[i] != i ==> k[i] < k[r[i]]
        &&& forall|i: int| 0 <= i < n ==> #[trigger] k[i] <= bound
    }

/// The representatives after merging the set of `a` into that of `b`.
pub open spec fn merged(roots: Seq<int>, a: int, b: int) -> Seq<int> {
    roots.map_values(|x: int| if x == roots[a] { roots[b] } else { x })
}

proof fn lemma_link(p: Seq<usize>, r: Seq<int>, k: Seq<nat>, bound: nat, ra: int, rb: int)
    requires
        forest_wf(p, r, k, bound),
        0 <= ra < p.len(),
        0 <= rb < p.len(),
        p[ra] == ra,
        p[rb] == rb,
        ra != rb,
    ensures
        ({
            let nk = if k[rb] > k[ra] {
                k[rb]
            } else {
                k[ra] + 1
            };
            forest_wf(
                p.update(ra, rb as usize),
                r.map_values(|x: int| if x == ra { rb } else { x }),
                k.update(rb, nk),
                if bound >= nk {
                    bound
                } else {
                    nk
                },
            )
        }),
{
    let n = p.len() as int;
    let nk = if k[rb] > k[ra] {
        k[rb]
    } else {
        k[ra] + 1
    };
    let p2 = p.update(ra, rb as usize);
    let r2 = r.map_values(|x: int| if x == ra { rb } else { x });
    let k2 = k.update(rb, nk);
    assert(r[ra] == ra);
    assert(r[rb] == rb);
    assert forall|i: int| 0 <= i < n implies r2[p2[i] as int] == #[trigger] r2[i] by {
        if i != ra {
            assert(r[p[i] as int] == r[i]);
        }
    }
    assert forall|i: int| 0 <= i < n && #[trigger] p2[i] != i implies k2[i] < k2[p2[i] as int] by {
        if i != ra {
            assert(k[i] < k[p[i] as int]);
        }
    }
    assert forall|i: int| 0 <= i < n && #[trigger] r2[i] != i implies k2[i] < k2[r2[i]] by {
        if r[i] == ra {
            if i != ra {
                assert(k[i] < k[ra]);
            }
        } else if r[i] != i {
            assert(k[i] < k[r[i]]);
        }
    }
    assert forall|i: int| 0 <= i < n && #[trigger] p2[i] == i implies r2[i] == i by {
        assert(i != ra);
        assert(p[i] == i);
    }
    assert forall|i: int| 0 <= i < n implies p2[#[trigger] r2[i]] == r2[i] by {
        assert(p[r[i]] == r[i]);
    }
    assert forall|i: int| 0 <= i < n implies 0 <= #[trigger] r2[i] < n by {
        assert(0 <= r[i] < n);
    }
    assert forall|i: int| 0 <= i < n implies #[trigger] p2[i] < n by {
        assert(p[i] < n);
    }
    assert forall|i: int| 0 <= i < n implies #[trigger] k2[i] <= (if bound >= nk {
        bound
    } else {
        nk
    }) by {
        assert(k[i] <= bound);
    }
}

/// After a merge, the two elements are in one set.
pub proof fn law_union_joins(roots: Seq<int>, a: int, b: int)
    requires
        0 <= a < roots.len(),
        0 <= b < roots.len(),
    ensures
        merged(roots, a, b)[a] == merged(roots, a, b)[b],
{
}

/// A merge keeps every pair that shared a set together, and puts
/// together exactly those pairs whose sets were the two merged.
pub proof fn law_union_only_merges_the_two_sets(roots: Seq<int>, a: int, b: int, x: int, y: int)
    requires
        0 <= a < roots.len(),
        0 <= b < roots.len(),
        0 <= x < roots.len(),
        0 <= y < roots.len(),
    ensures
        (merged(roots, a, b)[x] == merged(roots, a, b)[y]) <==> (roots[x] == roots[y] || (
        roots[x] == roots[a] && roots[y] == roots[b]) || (roots[x] == roots[b] && roots[y]
            == roots[a])),
{
}

/// A directed half-edge: an edge index and a direction (`forward` goes
/// from the edge's first vertex to its second).
#[derive(Clone, Copy, PartialEq, Eq, Structural, Hash, Debug)]
pub struct Half {
    pub edge: usize,
    pub forward: bool,
}

/// The same edge the other way.
pub open spec fn twin_of(h: Half) -> Half {
    Half { edge: h.edge, forward: !h.forward }
}

impl Half {
    /// The same edge the other way.
    pub fn twin(self) -> (h: Half)
        ensures
            h == twin_of(self),
    {
        Half { edge: self.edge, forward: !self.forward }
    }
}

/// A half-edge's twin is another half-edge of the same edge, and the
/// twin's twin is the half-edge itself.
pub proof fn law_twin_twice(h: Half)
    ensures
        twin_of(twin_of(h)) == h,
        twin_of(h) != h,
        twin_of(h).edge == h.edge,
{
}


// ---------------------------------------------------------- dangling edges

/// How many edge ends of `es` sit at vertex `v`; an edge from a vertex to
/// itself counts twice.
pub open spec fn degree(es: Seq<(usize, usize)>, v: usize) -> nat
    decreases es.len(),
{
    if es.len() == 0 {
        0
    } else {
        degree(es.drop_last(), v) + (if es.last().0 == v {
            1nat
        } else {
            0nat
        }) + (if es.last().1 == v {
            1nat
        } else {
            0nat
        })
    }
}

/// Each end of `e` meets another edge end of `es`.
pub open spec fn attached(es: Seq<(usize, usize)>, e: (usize, usize)) -> bool {
    degree(es, e.0) > 1 && degree(es, e.1) > 1
}

/// The edges of `from` that are attached among `es`, in order.
pub open spec fn attached_in(es: Seq<(usize, usize)>, from: Seq<(usize, usize)>) -> Seq<
    (usize, usize),
>
    decreases from.len(),
{
    if from.len() == 0 {
        from
    } else {
        let rest = attached_in(es, from.drop_last());
        if attached(es, from.last()) {
            rest.push(from.last())
        } else {
            rest
        }
    }
}

/// What is left of `es` after removing, again and again, every edge with
/// an end that no other edge meets.
pub open spec fn without_dangling(es: Seq<(usize, usize)>) -> Seq<(usize, usize)>
    decreases es.len(),
{
    let next = attached_in(es, es);
    if next.len() < es.len() {
        without_dangling(next)
    } else {
        es
    }
}

/// Every edge joins vertices numbered below `verts`.
pub open spec fn edges_within(es: Seq<(usize, usize)>, verts: usize) -> bool {
    forall|i: int| 0 <= i < es.len() ==> (#[trigger] es[i]).0 < verts && es[i].1 < verts
}

proof fn lemma_attached_in(es: Seq<(usize, usize)>, from: Seq<(usize, usize)>)
    ensures
        attached_in(es, from).len() <= from.len(),
        attached_in(es, from).len() == from.len() ==> attached_in(es, from) == from,
        forall|i: int|
            0 <= i < attached_in(es, from).len() ==> attached(es, #[trigger] attached_in(es, from)[i])
                && from.contains(attached_in(es, from)[i]),
        (forall|i: int| 0 <= i < from.len() ==> attached(es, #[trigger] from[i])) ==> attached_in(
            es,
            from,
        ) == from,
    decreases from.len(),
{
    if from.len() > 0 {
        let d = from.drop_last();
        lemma_attached_in(es, d);
        let rest = attached_in(es, d);
        let r = attached_in(es, from);
        assert forall|i: int| 0 <= i < r.len() implies attached(es, #[trigger] r[i]) && from.contains(
            r[i],
        ) by {
            if i < rest.len() {
                assert(r[i] == rest[i]);
                let k = choose|k: int| 0 <= k < d.len() && d[k] == rest[i];
                assert(from[k] == d[k]);
            } else {
                assert(r[i] == from.last());
                assert(from[from.len() - 1] == from.last());
            }
        }
        if r.len() == from.len() {
            assert(attached(es, from.last()));
            assert(rest == d);
            assert(r =~= from);
        }
        if forall|i: int| 0 <= i < from.len() ==> attached(es, #[trigger] from[i]) {
            assert forall|i: int| 0 <= i < d.len() implies attached(es, #[trigger] d[i]) by {
                assert(d[i] == from[i]);
            }
            assert(attached(es, from[from.len() - 1]));
            assert(r =~= from);
        }
    }
}

/// The degree of every vertex below `verts` in `edges`.
fn degrees(verts: usize, edges: &Vec<(usize, usize)>) -> (d: Vec<usize>)
    requires
        edges_within(edges@, verts),
        edges@.len() * 2 <= usize::MAX,
    ensures
        d@.len() == verts,
        forall|v: usize| v < verts ==> d@[v as int] == degree(edges@, v),
{
    let mut d: Vec<usize> = Vec::new();
    let mut v: usize = 0;
    while v < verts
        invariant
            v <= verts,
            d@.len() == v,
            forall|u: int| 0 <= u < v ==> d@[u] == 0,
        decreases verts - v,
    {
        d.push(0);
        v = v + 1;
    }
    let n = edges.len();
    let mut i: usize = 0;
    while i < n
        invariant
            n == edges@.len(),
            n * 2 <= usize::MAX,
            i <= n,
            d@.len() == verts,
            edges_within(edges@, verts),
            forall|u: usize| u < verts ==> d@[u as int] == degree(edges@.take(i as int), u),
            forall|u: usize| u < verts ==> d@[u as int] <= 2 * i,
        decreases n - i,
    {
        let (a, b) = edges[i];
        let ghost before = d@;
        assert(edges@.take(i + 1).drop_last() =~= edges@.take(i as int));
        assert(edges@[i as int].0 < verts && edges@[i as int].1 < verts);
        let da = d[a];
        d.set(a, da + 1);
        let db = d[b];
        d.set(b, db + 1);
        assert forall|u: usize| u < verts implies d@[u as int] == degree(edges@.take(i + 1), u) && d@[u
            as int] <= 2 * (i + 1) by {
            assert(before[u as int] == degree(edges@.take(i as int), u));
        }
        i = i + 1;
    }
    assert(edges@.take(n as int) =~= edges@);
    d
}

/// The edges of `edges` whose ends both have degree above one by `d`.
fn attached_edges(d: &Vec<usize>, edges: &Vec<(usize, usize)>) -> (kept: Vec<(usize, usize)>)
    requires
        edges_within(edges@, d@.len() as usize),
        d@.len() <= usize::MAX,
        forall|v: usize| v < d@.len() ==> d@[v as int] == degree(edges@, v),
    ensures
        kept@ == attached_in(edges@, edges@),
{
    let mut kept: Vec<(usize, usize)> = Vec::new();
    let n = edges.len();
    let mut i: usize = 0;
    while i < n
        invariant
            n == edges@.len(),
            i <= n,
            edges_within(edges@, d@.len() as usize),
            forall|v: usize| v < d@.len() ==> d@[v as int] == degree(edges@, v),
            kept@ == attached_in(edges@, edges@.take(i as int)),
        decreases n - i,
    {
        let (a, b) = edges[i];
        assert(edges@.take(i + 1).drop_last() =~= edges@.take(i as int));
        assert(edges@[i as int].0 < d@.len() && edges@[i as int].1 < d@.len());
        if d[a] > 1 && d[b] > 1 {
            kept.push((a, b));
        }
        i = i + 1;
    }
    assert(edges@.take(n as int) =~= edges@);
    kept
}

/// Repeatedly removes the edges with an end that no other edge meets;
/// they cannot bound a region. The edges join vertices numbered below
/// `verts`.
pub fn prune_dangling(verts: usize, edges: &mut Vec<(usize, usize)>)
    requires
        edges_within(old(edges)@, verts),
        old(edges)@.len() * 2 <= usize::MAX,
    ensures
        final(edges)@ == without_dangling(old(edges)@),
{
    let mut done = false;
    while !done
        invariant
            edges_within(edges@, verts),
            edges@.len() * 2 <= usize::MAX,
            without_dangling(edges@) == without_dangling(old(edges)@),
            done ==> edges@ == without_dangling(old(edges)@),
        decreases 2 * edges@.len() + if done {
            0int
        } else {
            1int
        },
    {
        let d = degrees(verts, edges);
        let before = edges.len();
        let kept = attached_edges(&d, edges);
        proof {
            lemma_attached_in(edges@, edges@);
        }
        if kept.len() == before {
            done = true;
        } else {
            assert forall|i: int| 0 <= i < kept@.len() implies (#[trigger] kept@[i]).0 < verts
                && kept@[i].1 < verts by {
                let k = choose|k: int| 0 <= k < edges@.len() && edges@[k] == kept@[i];
            }
            *edges = kept;
        }
    }
}

/// No edge left by the pruning dangles: each end of each of them meets
/// another of them.
pub proof fn law_no_edge_is_left_dangling(es: Seq<(usize, usize)>)
    ensures
        forall|i: int|
            0 <= i < without_dangling(es).len() ==> attached(
                without_dangling(es),
                #[trigger] without_dangling(es)[i],
            ),
    decreases es.len(),
{
    let next = attached_in(es, es);
    lemma_attached_in(es, es);
    if next.len() < es.len() {
        assert(without_dangling(es) == without_dangling(next));
        law_no_edge_is_left_dangling(next);
    } else {
        assert(without_dangling(es) == es);
        assert forall|i: int| 0 <= i < es.len() implies attached(es, #[trigger] es[i]) by {
            assert(next[i] == es[i]);
        }
    }
}

/// Edges of which none dangles are left as they are.
pub proof fn law_edges_without_dangling_ends_stay(es: Seq<(usize, usize)>)
    requires
        forall|i: int| 0 <= i < es.len() ==> attached(es, #[trigger] es[i]),
    ensures
        without_dangling(es) == es,
{
    lemma_attached_in(es, es);
}

/// Pruning twice is pruning once.
pub proof fn law_pruning_is_idempotent(es: Seq<(usize, usize)>)
    ensures
        without_dangling(without_dangling(es)) == without_dangling(es),
{
    law_no_edge_is_left_dangling(es);
    law_edges_without_dangling_ends_stay(without_dangling(es));
}

/// Pruning only removes: every edge left was one of the edges.
pub proof fn law_pruning_only_removes(es: Seq<(usize, usize)>)
    ensures
        forall|i: int| 0 <= i < without_dangling(es).len() ==> es.contains(#[trigger] without_dangling(es)[i]),
    decreases es.len(),
{
    let next = attached_in(es, es);
    lemma_attached_in(es, es);
    if next.len() < es.len() {
        assert(without_dangling(es) == without_dangling(next));
        law_pruning_only_removes(next);
        let w = without_dangling(es);
        assert forall|i: int| 0 <= i < w.len() implies es.contains(#[trigger] w[i]) by {
            assert(next.contains(w[i]));
            let k = choose|k: int| 0 <= k < next.len() && next[k] == w[i];
            assert(es.contains(next[k]));
        }
    } else {
        assert(without_dangling(es) == es);
        assert forall|i: int| 0 <= i < es.len() implies es.contains(#[trigger] es[i]) by {}
    }
}

/// How many times `x` occurs in `es`.
pub open spec fn occurrences(es: Seq<(usize, usize)>, x: (usize, usize)) -> nat
    decreases es.len(),
{
    if es.len() == 0 {
        0
    } else {
        occurrences(es.drop_last(), x) + if es.last() == x {
            1nat
        } else {
            0nat
        }
    }
}

/// Each edge occurs in `part` at most as often as in `es`.
pub open spec fn sub_collection(part: Seq<(usize, usize)>, es: Seq<(usize, usize)>) -> bool {
    forall|x: (usize, usize)| #[trigger] occurrences(part, x) <= occurrences(es, x)
}

/// The ends of `x` at vertex `v`.
pub open spec fn ends_at(x: (usize, usize), v: usize) -> nat {
    (if x.0 == v {
        1nat
    } else {
        0nat
    }) + (if x.1 == v {
        1nat
    } else {
        0nat
    })
}

proof fn lemma_occurs_somewhere(es: Seq<(usize, usize)>, x: (usize, usize))
    requires
        occurrences(es, x) > 0,
    ensures
        exists|k: int| 0 <= k < es.len() && es[k] == x,
    decreases es.len(),
{
    if es.last() != x {
        lemma_occurs_somewhere(es.drop_last(), x);
        let k = choose|k: int| 0 <= k < es.len() - 1 && es.drop_last()[k] == x;
        assert(es[k] == x);
    }
}

proof fn lemma_remove_one(es: Seq<(usize, usize)>, k: int)
    requires
        0 <= k < es.len(),
    ensures
        forall|y: (usize, usize)|
            #[trigger] occurrences(es.remove(k), y) + (if es[k] == y {
                1nat
            } else {
                0nat
            }) == occurrences(es, y),
        forall|v: usize| #[trigger] degree(es.remove(k), v) + ends_at(es[k], v) == degree(es, v),
    decreases es.len(),
{
    let r = es.remove(k);
    if k == es.len() - 1 {
        assert(r =~= es.drop_last());
        assert forall|y: (usize, usize)|
            #[trigger] occurrences(r, y) + (if es[k] == y {
                1nat
            } else {
                0nat
            }) == occurrences(es, y) by {}
        assert forall|v: usize| #[trigger] degree(r, v) + ends_at(es[k], v) == degree(es, v) by {}
    } else {
        let d = es.drop_last();
        lemma_remove_one(d, k);
        assert(r.drop_last() =~= d.remove(k));
        assert(r.last() == es.last());
        assert(d[k] == es[k]);
        assert forall|y: (usize, usize)|
            #[trigger] occurrences(r, y) + (if es[k] == y {
                1nat
            } else {
                0nat
            }) == occurrences(es, y) by {
            assert(occurrences(d.remove(k), y) + (if d[k] == y {
                1nat
            } else {
                0nat
            }) == occurrences(d, y));
        }
        assert forall|v: usize| #[trigger] degree(r, v) + ends_at(es[k], v) == degree(es, v) by {
            assert(degree(d.remove(k), v) + ends_at(d[k], v) == degree(d, v));
        }
    }
}

proof fn lemma_degree_grows(part: Seq<(usize, usize)>, es: Seq<(usize, usize)>, v: usize)
    requires
        sub_collection(part, es),
    ensures
        degree(part, v) <= degree(es, v),
    decreases part.len(),
{
    if part.len() > 0 {
        let x = part.last();
        let p = part.drop_last();
        assert(occurrences(part, x) > 0);
        assert(occurrences(es, x) > 0);
        lemma_occurs_somewhere(es, x);
        let k = choose|k: int| 0 <= k < es.len() && es[k] == x;
        lemma_remove_one(es, k);
        let t = es.remove(k);
        assert forall|y: (usize, usize)| #[trigger] occurrences(p, y) <= occurrences(t, y) by {
            assert(occurrences(part, y) <= occurrences(es, y));
        }
        lemma_degree_grows(p, t, v);
        assert(degree(t, v) + ends_at(x, v) == degree(es, v));
    }
}

proof fn lemma_attached_occurrences(es: Seq<(usize, usize)>, from: Seq<(usize, usize)>, x: (usize, usize))
    ensures
        occurrences(attached_in(es, from), x) == if attached(es, x) {
            occurrences(from, x)
        } else {
            0
        },
    decreases from.len(),
{
    if from.len() > 0 {
        lemma_attached_occurrences(es, from.drop_last(), x);
        let rest = attached_in(es, from.drop_last());
        if attached(es, from.last()) {
            assert(rest.push(from.last()).drop_last() =~= rest);
        }
    }
}

/// Pruning keeps every part of the edges in which no edge dangles: such
/// a part could bound a region, and none of its edges is removed.
pub proof fn law_pruning_keeps_every_part_without_dangling_ends(
    es: Seq<(usize, usize)>,
    part: Seq<(usize, usize)>,
)
    requires
        sub_collection(part, es),
        forall|i: int| 0 <= i < part.len() ==> attached(part, #[trigger] part[i]),
    ensures
        sub_collection(part, without_dangling(es)),
    decreases es.len(),
{
    let next = attached_in(es, es);
    lemma_attached_in(es, es);
    assert forall|x: (usize, usize)| #[trigger] occurrences(part, x) <= occurrences(next, x) by {
        lemma_attached_occurrences(es, es, x);
        if occurrences(part, x) > 0 {
            lemma_occurs_somewhere(part, x);
            let i = choose|i: int| 0 <= i < part.len() && part[i] == x;
            assert(attached(part, part[i]));
            lemma_degree_grows(part, es, x.0);
            lemma_degree_grows(part, es, x.1);
        }
    }
    if next.len() < es.len() {
        assert(without_dangling(es) == without_dangling(next));
        law_pruning_keeps_every_part_without_dangling_ends(next, part);
    } else {
        assert(without_dangling(es) == es);
    }
}

} // verus!
