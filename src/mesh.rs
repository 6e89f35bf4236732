//! An index-addressed half-edge mesh.
use vstd::prelude::*;

verus! {

/// Index of a vertex, halfedge or face inside one mesh's arena.
pub type Id = usize;

/// A vertex: the halfedges that originate at it.
pub struct Vertex {
    pub halfedges: Vec<Id>,
}

/// A directed edge-side: its origin vertex, bounding face, the next
/// halfedge around that face and its twin across the shared edge.
#[derive(Clone, Copy)]
pub struct Halfedge {
    pub vertex: Id,
    pub face: Id,
    pub next: Id,
    pub opposite: Id,
}

/// A face, reached through one of its boundary halfedges.
#[derive(Clone, Copy)]
pub struct Face {
    pub halfedge: Id,
}

/// A mesh owns three arenas; every relation is an index into one of them.
pub struct Mesh {
    pub vertices: Vec<Vertex>,
    pub halfedges: Vec<Halfedge>,
    pub faces: Vec<Face>,
}

/// The number of corners of the first `k` polygons.
pub open spec fn corner_total(polygons: Seq<Vec<Id>>, k: int) -> nat
    decreases k,
{
    if k <= 0 {
        0
    } else {
        corner_total(polygons, k - 1) + polygons[k - 1]@.len()
    }
}

proof fn lemma_corner_total_grows(polygons: Seq<Vec<Id>>, j: int, k: int)
    requires
        0 <= j <= k,
    ensures
        corner_total(polygons, j) <= corner_total(polygons, k),
    decreases k - j,
{
    if j < k {
        lemma_corner_total_grows(polygons, j, k - 1);
    }
}

/// Appending `h` to vertex `v`'s list keeps every listed halfedge listed.
pub proof fn lemma_lists_grow(m1: &Mesh, m0: &Mesh, v: int, h: Id)
    requires
        0 <= v < m0.nv(),
        m1.vertices@.len() == m0.vertices@.len(),
        m1.vertices@[v].halfedges@ == m0.vertices@[v].halfedges@.push(h),
        forall|x: int| 0 <= x < m0.nv() && x != v ==> #[trigger] m1.vertices@[x] == m0.vertices@[x],
    ensures
        m1.vertices@[v].halfedges@.contains(h),
        forall|x: int, g: Id| 0 <= x < m0.nv() && #[trigger] m0.vertices@[x].halfedges@.contains(g)
            ==> m1.vertices@[x].halfedges@.contains(g),
{
    assert(m1.vertices@[v].halfedges@[m0.vertices@[v].halfedges@.len() as int] == h);
    assert forall|x: int, g: Id| 0 <= x < m0.nv() && #[trigger] m0.vertices@[x].halfedges@.contains(g)
        implies m1.vertices@[x].halfedges@.contains(g) by {
        if x == v {
            let i = choose|i: int| 0 <= i < m0.vertices@[v].halfedges@.len() && m0.vertices@[v].halfedges@[i] == g;
            assert(m1.vertices@[v].halfedges@[i] == g);
        }
    }
}

/// Corner `j` of polygon `q` is halfedge `corner_total(q) + j`: it starts at
/// the polygon's `j`-th vertex, bounds face `q` and is followed by the next
/// corner of the same polygon.
pub open spec fn corner_laid_out(m: &Mesh, polygons: Seq<Vec<Id>>, q: int, j: int) -> bool {
    let x = corner_total(polygons, q) + j;
    let n = polygons[q]@.len();
    &&& m.he(x).vertex == polygons[q]@[j]
    &&& m.he(x).face == q
    &&& m.he(x).next == if j + 1 == n { corner_total(polygons, q) as int } else { x + 1 }
}

/// Each vertex lists exactly the halfedges that start at it.
pub open spec fn incidence_exact(m: &Mesh) -> bool {
    &&& forall|v: int, i: int|
        0 <= v < m.nv() && 0 <= i < m.vertices@[v].halfedges@.len()
            ==> m.he(#[trigger] m.vertices@[v].halfedges@[i] as int).vertex == v
    &&& forall|h: int| 0 <= h < m.nh()
        ==> m.vertices@[(#[trigger] m.he(h)).vertex as int].halfedges@.contains(h as Id)
}

proof fn lemma_incidence_same(m1: &Mesh, m0: &Mesh)
    requires
        incidence_exact(m0),
        m1.vertices@ == m0.vertices@,
        m1.halfedges@ == m0.halfedges@,
    ensures
        incidence_exact(m1),
{
    assert forall|v: int, i: int|
        0 <= v < m1.nv() && 0 <= i < m1.vertices@[v].halfedges@.len()
            implies m1.he(#[trigger] m1.vertices@[v].halfedges@[i] as int).vertex == v by {
        assert(m0.he(m0.vertices@[v].halfedges@[i] as int).vertex == v);
    }
    assert forall|h: int| 0 <= h < m1.nh()
        implies m1.vertices@[(#[trigger] m1.he(h)).vertex as int].halfedges@.contains(h as Id) by {
        assert(m0.vertices@[m0.he(h).vertex as int].halfedges@.contains(h as Id));
    }
}

impl Mesh {
    pub open spec fn nv(&self) -> nat {
        self.vertices@.len()
    }

    pub open spec fn nh(&self) -> nat {
        self.halfedges@.len()
    }

    pub open spec fn nf(&self) -> nat {
        self.faces@.len()
    }

    pub open spec fn he(&self, h: int) -> Halfedge {
        self.halfedges@[h]
    }

    /// The halfedge after `h` around its face (ids out of range stay put).
    pub open spec fn next_of(&self, h: int) -> int {
        if 0 <= h < self.nh() {
            self.he(h).next as int
        } else {
            h
        }
    }

    /// `h` after `k` steps along `next`.
    pub open spec fn next_iter(&self, h: int, k: nat) -> int
        decreases k,
    {
        if k == 0 {
            h
        } else {
            self.next_of(self.next_iter(h, (k - 1) as nat))
        }
    }

    /// Every stored index addresses a live entity.
    pub open spec fn links_wf(&self) -> bool {
        &&& forall|h: int|
            0 <= h < self.nh() ==> {
                &&& (#[trigger] self.he(h)).vertex < self.nv()
                &&& self.he(h).face < self.nf()
                &&& self.he(h).next < self.nh()
                &&& self.he(h).opposite < self.nh()
            }
        &&& forall|f: int| 0 <= f < self.nf() ==> (#[trigger] self.faces@[f]).halfedge < self.nh()
        &&& forall|v: int, i: int|
            0 <= v < self.nv() && 0 <= i < self.vertices@[v].halfedges@.len()
                ==> #[trigger] self.vertices@[v].halfedges@[i] < self.nh()
    }

    /// The representative of the edge that holds `h`: the smaller id of the pair.
    pub open spec fn canonical(&self, h: int) -> int {
        let o = self.he(h).opposite as int;
        if o < h { o } else { h }
    }

    /// The halfedges met from `start` along `next` before returning to it,
    /// at most one per halfedge of the mesh.
    pub open spec fn is_boundary_walk(&self, start: int, s: Seq<Id>) -> bool {
        &&& 1 <= s.len() <= self.nh()
        &&& forall|j: int| 0 <= j < s.len() ==> #[trigger] s[j] as int == self.next_iter(start, j as nat)
        &&& forall|j: int| 0 < j < s.len() ==> #[trigger] self.next_iter(start, j as nat) != start
        &&& self.next_iter(start, s.len()) == start || s.len() == self.nh()
    }

    /// The first `j` from `k` on at which the walk from `start` is back at
    /// `start`, or the halfedge count where it is not back before that.
    pub open spec fn return_from(&self, start: int, k: nat) -> nat
        decreases self.nh() - k,
    {
        if k >= self.nh() {
            self.nh()
        } else if self.next_iter(start, k) == start {
            k
        } else {
            self.return_from(start, k + 1)
        }
    }

    /// The boundary walk from `start`: one halfedge per corner of its face.
    pub open spec fn boundary_walk(&self, start: int) -> Seq<Id> {
        Seq::new(self.return_from(start, 1), |j: int| self.next_iter(start, j as nat) as Id)
    }

    proof fn lemma_return_from(&self, start: int, s: Seq<Id>, k: nat)
        requires
            self.is_boundary_walk(start, s),
            1 <= k <= s.len(),
        ensures
            self.return_from(start, k) == s.len(),
        decreases s.len() - k,
    {
        if k < s.len() {
            let j: int = k as int;
            assert(self.next_iter(start, j as nat) != start);
            self.lemma_return_from(start, s, k + 1);
        }
    }

    /// A walk found by [`Mesh::face_halfedges`] is the boundary walk.
    pub proof fn lemma_boundary_walk(&self, start: int, s: Seq<Id>)
        requires
            self.is_boundary_walk(start, s),
        ensures
            s == self.boundary_walk(start),
    {
        self.lemma_return_from(start, s, 1);
        assert(s =~= self.boundary_walk(start));
    }

    /// The representative halfedge of some edge.
    pub open spec fn is_edge_rep(&self, h: int) -> bool {
        exists|g: int| 0 <= g < self.nh() && #[trigger] self.canonical(g) == h
    }

    /// The number of edge representatives among the first `k` halfedges.
    pub open spec fn count_edge_reps(&self, k: int) -> nat
        decreases k,
    {
        if k <= 0 {
            0
        } else {
            self.count_edge_reps(k - 1) + if self.is_edge_rep(k - 1) { 1nat } else { 0nat }
        }
    }

    /// The number of edges: of distinct representatives.
    pub open spec fn edge_count(&self) -> nat {
        self.count_edge_reps(self.nh() as int)
    }

    /// The first halfedge of face `f`'s boundary walk.
    pub open spec fn face_start(&self, f: int) -> int {
        self.faces@[f].halfedge as int
    }

    /// The number of corners of face `f`.
    pub open spec fn degree(&self, f: int) -> nat {
        self.return_from(self.face_start(f), 1)
    }

    /// Halfedge `h` is met on the boundary walk of its face.
    pub open spec fn on_own_face(&self, h: int) -> bool {
        exists|j: int| 0 <= j < self.degree(self.he(h).face as int)
            && #[trigger] self.next_iter(self.face_start(self.he(h).face as int), j as nat) == h
    }

    /// A closed polygon mesh: each face's walk comes back to its start, the
    /// halfedges met on it are exactly those of that face, and each vertex
    /// starts at least one halfedge and lists only halfedges that start at it.
    pub open spec fn is_closed(&self) -> bool {
        &&& self.links_wf()
        &&& forall|f: int| 0 <= f < self.nf() ==>
            self.next_iter(self.face_start(f), #[trigger] self.degree(f)) == self.face_start(f)
        &&& forall|f: int, j: int| 0 <= f < self.nf() && 0 <= j < self.degree(f) ==>
            self.he(#[trigger] self.next_iter(self.face_start(f), j as nat)).face == f
        &&& forall|h: int| 0 <= h < self.nh() ==> #[trigger] self.on_own_face(h)
        &&& forall|v: int| 0 <= v < self.nv() ==> (#[trigger] self.vertices@[v]).halfedges@.len() >= 1
        &&& forall|v: int, i: int|
            0 <= v < self.nv() && 0 <= i < self.vertices@[v].halfedges@.len()
                ==> self.he(#[trigger] self.vertices@[v].halfedges@[i] as int).vertex == v
    }

    pub proof fn lemma_next_iter_add(&self, h: int, a: nat, t: nat)
        ensures
            self.next_iter(h, a + t) == self.next_iter(self.next_iter(h, a), t),
        decreases t,
    {
        if t > 0 {
            self.lemma_next_iter_add(h, a, (t - 1) as nat);
            assert(self.next_iter(h, a + t) == self.next_of(self.next_iter(h, (a + t - 1) as nat)));
        }
    }

    /// Before `return_from` the walk is not back at its start.
    pub proof fn lemma_return_from_first(&self, start: int, k: nat, j: nat)
        requires
            k <= j < self.return_from(start, k),
        ensures
            self.next_iter(start, j) != start,
        decreases self.nh() - k,
    {
        if k < self.nh() && self.next_iter(start, k) != start {
            if j > k {
                self.lemma_return_from_first(start, k + 1, j);
            }
        }
    }

    pub proof fn lemma_return_from_le(&self, start: int, k: nat)
        ensures
            self.return_from(start, k) <= self.nh() || self.return_from(start, k) == k,
            k <= self.nh() ==> k <= self.return_from(start, k) <= self.nh(),
        decreases self.nh() - k,
    {
        if k < self.nh() && self.next_iter(start, k) != start {
            self.lemma_return_from_le(start, k + 1);
        }
    }

    /// The halfedges of a walk that comes back are distinct.
    pub proof fn lemma_walk_distinct(&self, start: int, a: nat, b: nat)
        requires
            self.next_iter(start, self.return_from(start, 1)) == start,
            a < b < self.return_from(start, 1),
        ensures
            self.next_iter(start, a) != self.next_iter(start, b),
    {
        let l = self.return_from(start, 1);
        let t = (l - b) as nat;
        if self.next_iter(start, a) == self.next_iter(start, b) {
            self.lemma_next_iter_add(start, a, t);
            self.lemma_next_iter_add(start, b, t);
            assert(b + t == l);
            self.lemma_return_from_first(start, 1, a + t);
        }
    }

    /// Walking along `next` from a live halfedge stays among live halfedges.
    pub proof fn lemma_next_iter_in_range(&self, h: int, k: nat)
        requires
            self.links_wf(),
            0 <= h < self.nh(),
        ensures
            0 <= self.next_iter(h, k) < self.nh(),
        decreases k,
    {
        if k > 0 {
            self.lemma_next_iter_in_range(h, (k - 1) as nat);
            assert(self.he(self.next_iter(h, (k - 1) as nat)).next < self.nh());
        }
    }

    pub fn new() -> (m: Mesh)
        ensures
            m.nv() == 0,
            m.nh() == 0,
            m.nf() == 0,
    {
        Mesh { vertices: Vec::new(), halfedges: Vec::new(), faces: Vec::new() }
    }

    pub fn vertex_count(&self) -> (r: usize)
        ensures
            r == self.nv(),
    {
        self.vertices.len()
    }

    pub fn halfedge_count(&self) -> (r: usize)
        ensures
            r == self.nh(),
    {
        self.halfedges.len()
    }

    pub fn face_count(&self) -> (r: usize)
        ensures
            r == self.nf(),
    {
        self.faces.len()
    }

    /// The vertex `id`, or `None` where no such vertex lives.
    pub fn vertex(&self, id: Id) -> (r: Option<&Vertex>)
        ensures
            id < self.nv() ==> r == Some(&self.vertices@[id as int]),
            id >= self.nv() ==> r.is_none(),
    {
        if id < self.vertices.len() {
            Some(&self.vertices[id])
        } else {
            None
        }
    }

    /// The halfedge `id`, or `None` where no such halfedge lives.
    pub fn halfedge(&self, id: Id) -> (r: Option<Halfedge>)
        ensures
            id < self.nh() ==> r == Some(self.halfedges@[id as int]),
            id >= self.nh() ==> r.is_none(),
    {
        if id < self.halfedges.len() {
            Some(self.halfedges[id])
        } else {
            None
        }
    }

    /// The face `id`, or `None` where no such face lives.
    pub fn face(&self, id: Id) -> (r: Option<Face>)
        ensures
            id < self.nf() ==> r == Some(self.faces@[id as int]),
            id >= self.nf() ==> r.is_none(),
    {
        if id < self.faces.len() {
            Some(self.faces[id])
        } else {
            None
        }
    }

    /// The id that stands for the edge holding `id`, shared with its opposite.
    pub fn peek_same_halfedge(&self, id: Id) -> (r: Id)
        requires
            id < self.nh(),
        ensures
            r == self.canonical(id as int),
    {
        let o = self.halfedges[id].opposite;
        if o < id {
            o
        } else {
            id
        }
    }

    /// The boundary halfedges met from `start` along `next`, one per corner.
    pub fn face_halfedges(&self, start: Id) -> (r: Vec<Id>)
        requires
            self.links_wf(),
            start < self.nh(),
        ensures
            self.is_boundary_walk(start as int, r@),
    {
        let mut r: Vec<Id> = Vec::new();
        r.push(start);
        let mut cur: Id = self.halfedges[start].next;
        assert(self.next_iter(start as int, 0) == start);
        assert(cur == self.next_iter(start as int, 1));
        while cur != start && r.len() < self.halfedges.len()
            invariant
                self.links_wf(),
                start < self.nh(),
                1 <= r.len() <= self.nh(),
                cur < self.nh(),
                cur as int == self.next_iter(start as int, r.len() as nat),
                forall|j: int| 0 <= j < r.len() ==> #[trigger] r@[j] as int == self.next_iter(start as int, j as nat),
                forall|j: int| 0 < j < r.len() ==> #[trigger] self.next_iter(start as int, j as nat) != start,
            decreases self.nh() - r.len(),
        {
            assert(self.next_iter(start as int, r.len() as nat) != start);
            r.push(cur);
            cur = self.halfedges[cur].next;
            assert(cur as int == self.next_iter(start as int, r.len() as nat));
        }
        r
    }

    /// The origin vertices of the boundary halfedges of face `id`, in order.
    pub fn face_vertices(&self, id: Id) -> (r: Vec<Id>)
        requires
            self.links_wf(),
            id < self.nf(),
        ensures
            exists|w: Seq<Id>|
                self.is_boundary_walk(self.faces@[id as int].halfedge as int, w) && r@.len() == w.len()
                    && forall|j: int| 0 <= j < w.len() ==> #[trigger] r@[j] == self.he(w[j] as int).vertex,
    {
        assert(self.faces@[id as int].halfedge < self.nh());
        let walk = self.face_halfedges(self.faces[id].halfedge);
        assert(self.faces@[id as int].halfedge < self.nh());
        let mut r: Vec<Id> = Vec::new();
        let mut i: usize = 0;
        while i < walk.len()
            invariant
                self.links_wf(),
                id < self.nf(),
                self.is_boundary_walk(self.faces@[id as int].halfedge as int, walk@),
                i <= walk.len(),
                r@.len() == i,
                forall|j: int| 0 <= j < i ==> #[trigger] r@[j] == self.he(walk@[j] as int).vertex,
            decreases walk.len() - i,
        {
            proof {
                self.lemma_next_iter_in_range(self.faces@[id as int].halfedge as int, i as nat);
            }
            r.push(self.halfedges[walk[i]].vertex);
            i += 1;
        }
        assert(self.is_boundary_walk(self.faces@[id as int].halfedge as int, walk@));
        r
    }

    /// The two endpoints of the edge holding `id`: its origin, then the
    /// origin of the halfedge after it.
    pub fn edge_endpoints(&self, id: Id) -> (r: (Id, Id))
        requires
            self.links_wf(),
            id < self.nh(),
        ensures
            r.0 == self.he(id as int).vertex,
            r.1 == self.he(self.he(id as int).next as int).vertex,
    {
        let he = self.halfedges[id];
        assert(self.he(id as int).next < self.nh());
        (he.vertex, self.halfedges[he.next].vertex)
    }

    /// The vertex that halfedge `h` leads to.
    pub open spec fn dest(&self, h: int) -> int {
        self.he(self.he(h).next as int).vertex as int
    }

    /// Builds a mesh of `vertex_count` vertices and one face per polygon,
    /// each polygon listing its corner vertices in order. Each halfedge's
    /// opposite is a halfedge running the other way between the same two
    /// vertices, or the halfedge itself where there is none. `None` where a
    /// polygon has fewer than three corners or names a vertex that does not
    /// exist.
    pub fn from_polygons(vertex_count: usize, polygons: &Vec<Vec<Id>>) -> (r: Option<Mesh>)
        ensures
            r is Some <==> {
                &&& forall|p: int| 0 <= p < polygons@.len() ==> {
                    &&& (#[trigger] polygons@[p])@.len() >= 3
                    &&& forall|j: int| 0 <= j < polygons@[p]@.len() ==> #[trigger] polygons@[p]@[j] < vertex_count
                }
                &&& corner_total(polygons@, polygons@.len() as int) <= usize::MAX
            },
            r matches Some(m) ==> {
                &&& m.links_wf()
                &&& m.nv() == vertex_count
                &&& m.nf() == polygons@.len()
                &&& m.nh() == corner_total(polygons@, polygons@.len() as int)
                &&& forall|q: int| 0 <= q < polygons@.len()
                    ==> (#[trigger] m.faces@[q]).halfedge == corner_total(polygons@, q)
                &&& forall|q: int, j: int| 0 <= q < polygons@.len() && 0 <= j < polygons@[q]@.len()
                    ==> #[trigger] corner_laid_out(&m, polygons@, q, j)
                &&& incidence_exact(&m)
                &&& forall|h: int| 0 <= h < m.nh() ==> {
                    let o = (#[trigger] m.he(h)).opposite as int;
                    o == h || (m.he(o).vertex == m.dest(h) && m.dest(o) == m.he(h).vertex)
                }
            },
    {
        let mut p: usize = 0;
        while p < polygons.len()
            invariant
                p <= polygons@.len(),
                forall|q: int| 0 <= q < p ==> {
                    &&& (#[trigger] polygons@[q])@.len() >= 3
                    &&& forall|j: int| 0 <= j < polygons@[q]@.len() ==> #[trigger] polygons@[q]@[j] < vertex_count
                },
            decreases polygons@.len() - p,
        {
            let poly = &polygons[p];
            if poly.len() < 3 {
                assert(polygons@[p as int]@.len() < 3);
                return None;
            }
            let mut j: usize = 0;
            while j < poly.len()
                invariant
                    p < polygons@.len(),
                    poly@ == polygons@[p as int]@,
                    j <= poly@.len(),
                    forall|k: int| 0 <= k < j ==> #[trigger] poly@[k] < vertex_count,
                decreases poly@.len() - j,
            {
                if poly[j] >= vertex_count {
                    assert(polygons@[p as int]@[j as int] >= vertex_count);
                    return None;
                }
                j += 1;
            }
            p += 1;
        }
        let mut m = Mesh::new();
        let mut v: usize = 0;
        while v < vertex_count
            invariant
                v <= vertex_count,
                m.nv() == v,
                m.nh() == 0,
                m.nf() == 0,
                forall|x: int| 0 <= x < m.nv() ==> (#[trigger] m.vertices@[x]).halfedges@.len() == 0,
            decreases vertex_count - v,
        {
            m.add_vertex();
            v += 1;
        }
        let mut p: usize = 0;
        while p < polygons.len()
            invariant
                p <= polygons@.len(),
                m.nv() == vertex_count,
                m.nf() == p,
                m.links_wf(),
                m.nh() == corner_total(polygons@, p as int),
                forall|x: int| 0 <= x < m.nh() ==> (#[trigger] m.he(x)).opposite == x,
                forall|q: int| 0 <= q < p ==> (#[trigger] m.faces@[q]).halfedge == corner_total(polygons@, q),
                forall|q: int, j: int| 0 <= q < p && 0 <= j < polygons@[q]@.len()
                    ==> #[trigger] corner_laid_out(&m, polygons@, q, j),
                incidence_exact(&m),
                forall|q: int| 0 <= q < polygons@.len() ==> {
                    &&& (#[trigger] polygons@[q])@.len() >= 3
                    &&& forall|j: int| 0 <= j < polygons@[q]@.len() ==> #[trigger] polygons@[q]@[j] < vertex_count
                },
            decreases polygons@.len() - p,
        {
            let poly = &polygons[p];
            let n = poly.len();
            let first = m.halfedges.len();
            if first > usize::MAX - n {
                proof {
                    lemma_corner_total_grows(polygons@, p as int + 1, polygons@.len() as int);
                }
                return None;
            }
            let ghost mb = m;
            let f = m.add_face();
            assert(first == corner_total(polygons@, p as int));
            assert(m.vertices@ == mb.vertices@ && m.halfedges@ == mb.halfedges@);
            proof {
                lemma_incidence_same(&m, &mb);
            }
            assert forall|q: int, k: int| 0 <= q < p && 0 <= k < polygons@[q]@.len()
                implies #[trigger] corner_laid_out(&m, polygons@, q, k) by {
                assert(corner_laid_out(&mb, polygons@, q, k));
            }
            assert forall|g: int| 0 <= g < p implies (#[trigger] m.faces@[g]).halfedge == corner_total(polygons@, g) by {
                assert(m.faces@[g] == mb.faces@[g]);
            }
            assert forall|h: int| 0 <= h < m.nh() implies {
                &&& (#[trigger] m.he(h)).vertex < m.nv()
                &&& m.he(h).face < m.nf()
                &&& m.he(h).next < first + n
                &&& m.he(h).opposite < m.nh()
                &&& m.he(h).opposite == h
            } by {
                assert(m.he(h) == mb.he(h));
            }
            let mut j: usize = 0;
            while j < n
                invariant
                    n == poly@.len(),
                    n >= 3,
                    first + n <= usize::MAX,
                    forall|k: int| 0 <= k < n ==> #[trigger] poly@[k] < vertex_count,
                    j <= n,
                    f == p,
                    m.nf() == p + 1,
                    m.nv() == vertex_count,
                    m.nh() == first + j,
                    forall|x: int| 0 <= x < m.nh() ==> (#[trigger] m.he(x)).opposite == x,
                    forall|h: int| 0 <= h < m.nh() ==> {
                        &&& (#[trigger] m.he(h)).vertex < m.nv()
                        &&& m.he(h).face < m.nf()
                        &&& m.he(h).next < first + n
                        &&& m.he(h).opposite < m.nh()
                    },
                    forall|g: int| 0 <= g < p ==> (#[trigger] m.faces@[g]).halfedge < first,
                    forall|v: int, i: int|
                        0 <= v < m.nv() && 0 <= i < m.vertices@[v].halfedges@.len()
                            ==> #[trigger] m.vertices@[v].halfedges@[i] < m.nh(),
                    p < polygons@.len(),
                    poly@ == polygons@[p as int]@,
                    first == corner_total(polygons@, p as int),
                    forall|g: int| 0 <= g < p ==> (#[trigger] m.faces@[g]).halfedge == corner_total(polygons@, g),
                    forall|q: int, k: int| 0 <= q < p && 0 <= k < polygons@[q]@.len()
                        ==> #[trigger] corner_laid_out(&m, polygons@, q, k),
                    forall|k: int| 0 <= k < j ==> #[trigger] corner_laid_out(&m, polygons@, p as int, k),
                    incidence_exact(&m),
                decreases n - j,
            {
                let ghost m3 = m;
                let h = m.add_halfedge();
                let next = if j + 1 == n { first } else { h + 1 };
                let ghost m2 = m;
                m.set_halfedge(h, Halfedge { vertex: poly[j], face: f, next, opposite: h });
                assert forall|x: int| 0 <= x < m.nh() implies {
                    &&& (#[trigger] m.he(x)).vertex < m.nv()
                    &&& m.he(x).face < m.nf()
                    &&& m.he(x).next < first + n
                    &&& m.he(x).opposite == x
                } by {
                    if x != h {
                        assert(m.he(x) == m2.he(x));
                        assert(m2.he(x) == m3.he(x));
                    }
                }
                let ghost m1 = m;
                m.add_vertex_halfedge(poly[j], h);
                assert forall|x: int| 0 <= x < m.nh() implies #[trigger] m.he(x) == m1.he(x) by {
                    assert(m.halfedges@ == m1.halfedges@);
                }
                proof {
                    lemma_lists_grow(&m, &m1, poly@[j as int] as int, h);
                    assert forall|q: int, k: int| 0 <= q < p && 0 <= k < polygons@[q]@.len()
                        implies #[trigger] corner_laid_out(&m, polygons@, q, k) by {
                        lemma_corner_total_grows(polygons@, q + 1, p as int);
                        let x = corner_total(polygons@, q) + k;
                        assert(m3.he(x) == m.he(x));
                        assert(corner_laid_out(&m3, polygons@, q, k));
                    }
                    assert forall|k: int| 0 <= k < j + 1 implies #[trigger] corner_laid_out(&m, polygons@, p as int, k) by {
                        let x = corner_total(polygons@, p as int) + k;
                        if k < j {
                            assert(m3.he(x) == m.he(x));
                            assert(corner_laid_out(&m3, polygons@, p as int, k));
                        }
                    }
                    assert forall|v: int, i: int|
                        0 <= v < m.nv() && 0 <= i < m.vertices@[v].halfedges@.len()
                            implies m.he(#[trigger] m.vertices@[v].halfedges@[i] as int).vertex == v by {
                        if v != poly@[j as int] {
                            assert(m.vertices@[v] == m1.vertices@[v]);
                            assert(m3.vertices@[v] == m1.vertices@[v]);
                            assert(m3.he(m3.vertices@[v].halfedges@[i] as int).vertex == v);
                        } else if i < m1.vertices@[v].halfedges@.len() {
                            assert(m.vertices@[v].halfedges@[i] == m1.vertices@[v].halfedges@[i]);
                            assert(m3.vertices@[v] == m1.vertices@[v]);
                            assert(m3.he(m3.vertices@[v].halfedges@[i] as int).vertex == v);
                        }
                    }
                    assert forall|x: int| 0 <= x < m.nh()
                        implies m.vertices@[(#[trigger] m.he(x)).vertex as int].halfedges@.contains(x as Id) by {
                        if x != h {
                            assert(m.he(x) == m3.he(x));
                            assert(m3.vertices@[m3.he(x).vertex as int].halfedges@.contains(x as Id));
                            assert(m3.vertices@[m3.he(x).vertex as int] == m1.vertices@[m3.he(x).vertex as int]);
                        }
                    }
                }
                assert forall|v: int, i: int|
                    0 <= v < m.nv() && 0 <= i < m.vertices@[v].halfedges@.len()
                        implies #[trigger] m.vertices@[v].halfedges@[i] < m.nh() by {
                    if v != poly@[j as int] {
                        assert(m.vertices@[v] == m1.vertices@[v]);
                    } else if i < m1.vertices@[v].halfedges@.len() {
                        assert(m.vertices@[v].halfedges@[i] == m1.vertices@[v].halfedges@[i]);
                    }
                }
                j += 1;
            }
            let ghost m4 = m;
            m.set_face_halfedge(f, first);
            assert forall|g: int| 0 <= g < m.nf() implies (#[trigger] m.faces@[g]).halfedge < m.nh() by {
                if g < p {
                    assert(m.faces@[g] == m4.faces@[g]);
                }
            }
            assert forall|h: int| 0 <= h < m.nh() implies {
                &&& (#[trigger] m.he(h)).vertex < m.nv()
                &&& m.he(h).face < m.nf()
                &&& m.he(h).next < m.nh()
                &&& m.he(h).opposite < m.nh()
                &&& m.he(h).opposite == h
            } by {
                assert(m.he(h) == m4.he(h));
            }
            assert(corner_total(polygons@, p as int + 1) == corner_total(polygons@, p as int) + n);
            assert forall|g: int| 0 <= g < p + 1 implies (#[trigger] m.faces@[g]).halfedge == corner_total(polygons@, g) by {
                if g < p {
                    assert(m.faces@[g] == m4.faces@[g]);
                }
            }
            assert forall|q: int, k: int| 0 <= q < p + 1 && 0 <= k < polygons@[q]@.len()
                implies #[trigger] corner_laid_out(&m, polygons@, q, k) by {
                assert(corner_laid_out(&m4, polygons@, q, k));
                let x = corner_total(polygons@, q) + k;
                assert(m.he(x) == m4.he(x));
            }
            proof {
                lemma_incidence_same(&m, &m4);
            }
            p += 1;
        }
        let nh = m.halfedges.len();
        let mut h: usize = 0;
        let ghost built = m;
        while h < nh
            invariant
                nh == m.nh(),
                nh == built.nh(),
                h <= nh,
                m.vertices@ == built.vertices@,
                m.faces@ == built.faces@,
                forall|x: int| 0 <= x < nh ==> {
                    &&& (#[trigger] m.he(x)).vertex == built.he(x).vertex
                    &&& m.he(x).face == built.he(x).face
                    &&& m.he(x).next == built.he(x).next
                },
                m.links_wf(),
                m.nv() == vertex_count,
                m.nf() == polygons@.len(),
                forall|g: int| 0 <= g < m.nh() ==> {
                    let o = (#[trigger] m.he(g)).opposite as int;
                    o == g || (m.he(o).vertex == m.dest(g) && m.dest(o) == m.he(g).vertex)
                },
            decreases nh - h,
        {
            let he = m.halfedges[h];
            let a = he.vertex;
            assert(m.he(h as int).next < m.nh());
            let b = m.halfedges[he.next].vertex;
            let mut g: usize = 0;
            let mut found = false;
            while !found && g < nh
                invariant
                    nh == m.nh(),
                    h < nh,
                    g <= nh,
                    m.links_wf(),
                    m.he(h as int) == he,
                    a == he.vertex,
                    b == m.dest(h as int),
                    found ==> g < nh && m.he(g as int).vertex == b && m.dest(g as int) == a,
                decreases nh - g + if found { 0int } else { 1int },
            {
                let cand = m.halfedges[g];
                assert(m.he(g as int).next < m.nh());
                if cand.vertex == b && m.halfedges[cand.next].vertex == a {
                    found = true;
                } else {
                    g += 1;
                }
            }
            if found {
                let ghost m0 = m;
                m.set_halfedge(h, Halfedge { opposite: g, ..he });
                assert forall|x: int| 0 <= x < nh implies {
                    &&& (#[trigger] m.he(x)).vertex == built.he(x).vertex
                    &&& m.he(x).face == built.he(x).face
                    &&& m.he(x).next == built.he(x).next
                } by {
                    assert(m0.he(x).vertex == built.he(x).vertex);
                }
                assert forall|x: int| 0 <= x < m.nh() implies #[trigger] m.dest(x) == m0.dest(x) && m.he(x).vertex == m0.he(x).vertex by {
                    assert(m0.he(x).next < m0.nh());
                }
                assert forall|x: int| 0 <= x < m.nh() implies {
                    &&& (#[trigger] m.he(x)).vertex < m.nv()
                    &&& m.he(x).face < m.nf()
                    &&& m.he(x).next < m.nh()
                    &&& m.he(x).opposite < m.nh()
                } by {
                    if x != h {
                        assert(m.he(x) == m0.he(x));
                    }
                }
                assert forall|x: int| 0 <= x < m.nh() implies {
                    let o = (#[trigger] m.he(x)).opposite as int;
                    o == x || (m.he(o).vertex == m.dest(x) && m.dest(o) == m.he(x).vertex)
                } by {
                    let o = m.he(x).opposite as int;
                    if x != h {
                        assert(m.he(x) == m0.he(x));
                        assert(m0.he(x).opposite < m0.nh());
                        assert(m.dest(o) == m0.dest(o));
                        assert(m.dest(x) == m0.dest(x));
                    } else {
                        assert(m.dest(x) == m0.dest(x));
                        assert(m.dest(o) == m0.dest(o));
                    }
                }
            }
            h += 1;
        }
        assert forall|q: int, j: int| 0 <= q < polygons@.len() && 0 <= j < polygons@[q]@.len()
            implies #[trigger] corner_laid_out(&m, polygons@, q, j) by {
            assert(corner_laid_out(&built, polygons@, q, j));
            lemma_corner_total_grows(polygons@, q + 1, polygons@.len() as int);
            let x = corner_total(polygons@, q) + j;
            assert(m.he(x).vertex == built.he(x).vertex);
        }
        assert forall|v: int, i: int|
            0 <= v < m.nv() && 0 <= i < m.vertices@[v].halfedges@.len()
                implies m.he(#[trigger] m.vertices@[v].halfedges@[i] as int).vertex == v by {
            assert(built.he(built.vertices@[v].halfedges@[i] as int).vertex == v);
        }
        assert forall|x: int| 0 <= x < m.nh()
            implies m.vertices@[(#[trigger] m.he(x)).vertex as int].halfedges@.contains(x as Id) by {
            assert(built.vertices@[built.he(x).vertex as int].halfedges@.contains(x as Id));
        }
        Some(m)
    }

    /// Whether every stored index addresses a live entity.
    pub fn links_ok(&self) -> (r: bool)
        ensures
            r == self.links_wf(),
    {
        let nv = self.vertices.len();
        let nh = self.halfedges.len();
        let nf = self.faces.len();
        let mut h: usize = 0;
        while h < nh
            invariant
                nv == self.nv(),
                nh == self.nh(),
                nf == self.nf(),
                h <= nh,
                forall|x: int| 0 <= x < h ==> {
                    &&& (#[trigger] self.he(x)).vertex < nv
                    &&& self.he(x).face < nf
                    &&& self.he(x).next < nh
                    &&& self.he(x).opposite < nh
                },
            decreases nh - h,
        {
            let he = self.halfedges[h];
            if he.vertex >= nv || he.face >= nf || he.next >= nh || he.opposite >= nh {
                assert(!self.links_wf()) by {
                    assert(self.he(h as int) == he);
                }
                return false;
            }
            h += 1;
        }
        let mut f: usize = 0;
        while f < nf
            invariant
                nh == self.nh(),
                nf == self.nf(),
                f <= nf,
                forall|x: int| 0 <= x < f ==> (#[trigger] self.faces@[x]).halfedge < nh,
            decreases nf - f,
        {
            if self.faces[f].halfedge >= nh {
                assert(!self.links_wf()) by {
                    assert(self.faces@[f as int].halfedge >= nh);
                }
                return false;
            }
            f += 1;
        }
        let mut v: usize = 0;
        while v < nv
            invariant
                nv == self.nv(),
                nh == self.nh(),
                v <= nv,
                forall|x: int, i: int|
                    0 <= x < v && 0 <= i < self.vertices@[x].halfedges@.len()
                        ==> #[trigger] self.vertices@[x].halfedges@[i] < nh,
            decreases nv - v,
        {
            let hs = &self.vertices[v].halfedges;
            let mut i: usize = 0;
            while i < hs.len()
                invariant
                    nv == self.nv(),
                    nh == self.nh(),
                    v < nv,
                    hs@ == self.vertices@[v as int].halfedges@,
                    i <= hs@.len(),
                    forall|x: int, k: int|
                        0 <= x < v && 0 <= k < self.vertices@[x].halfedges@.len()
                            ==> #[trigger] self.vertices@[x].halfedges@[k] < nh,
                    forall|k: int| 0 <= k < i ==> #[trigger] hs@[k] < nh,
                decreases hs@.len() - i,
            {
                if hs[i] >= nh {
                    assert(!self.links_wf()) by {
                        assert(self.vertices@[v as int].halfedges@[i as int] >= nh);
                    }
                    return false;
                }
                i += 1;
            }
            v += 1;
        }
        true
    }

    /// The number of edges: of distinct representative halfedges.
    pub fn count_edges(&self) -> (r: usize)
        requires
            self.links_wf(),
        ensures
            r == self.edge_count(),
    {
        let nh = self.halfedges.len();
        let mut marks: Vec<bool> = Vec::new();
        let mut i: usize = 0;
        while i < nh
            invariant
                i <= nh,
                marks@.len() == i,
                forall|x: int| 0 <= x < i ==> !(#[trigger] marks@[x]),
            decreases nh - i,
        {
            marks.push(false);
            i += 1;
        }
        let mut g: usize = 0;
        while g < nh
            invariant
                nh == self.nh(),
                self.links_wf(),
                g <= nh,
                marks@.len() == nh,
                forall|x: int| 0 <= x < nh ==> (#[trigger] marks@[x] <==> exists|y: int|
                    0 <= y < g && #[trigger] self.canonical(y) == x),
            decreases nh - g,
        {
            let c = self.peek_same_halfedge(g);
            assert(self.he(g as int).opposite < nh);
            let ghost old_marks = marks@;
            marks.set(c, true);
            assert forall|x: int| 0 <= x < nh implies (#[trigger] marks@[x] <==> exists|y: int|
                0 <= y < g + 1 && #[trigger] self.canonical(y) == x) by {
                if x == c {
                    assert(self.canonical(g as int) == x);
                } else {
                    assert(marks@[x] == old_marks[x]);
                    if exists|y: int| 0 <= y < g + 1 && #[trigger] self.canonical(y) == x {
                        let y = choose|y: int| 0 <= y < g + 1 && #[trigger] self.canonical(y) == x;
                        assert(y != g);
                    }
                }
            }
            g += 1;
        }
        let mut count: usize = 0;
        let mut k: usize = 0;
        while k < nh
            invariant
                nh == self.nh(),
                k <= nh,
                marks@.len() == nh,
                forall|x: int| 0 <= x < nh ==> (#[trigger] marks@[x] <==> self.is_edge_rep(x)),
                count == self.count_edge_reps(k as int),
                count <= k,
            decreases nh - k,
        {
            if marks[k] {
                count += 1;
            }
            k += 1;
        }
        count
    }

    /// Makes room for that many more vertices, halfedges and faces.
    pub fn reserve(&mut self, vertices: usize, halfedges: usize, faces: usize)
        ensures
            final(self).vertices@ == old(self).vertices@,
            final(self).halfedges@ == old(self).halfedges@,
            final(self).faces@ == old(self).faces@,
    {
        self.vertices.reserve(vertices);
        self.halfedges.reserve(halfedges);
        self.faces.reserve(faces);
    }

    /// Halfedge `x` is met on the boundary walk of one of the first `k` faces.
    pub open spec fn walked_by(&self, x: int, k: int) -> bool {
        exists|f: int, j: int| 0 <= f < k && 0 <= j < self.degree(f)
            && #[trigger] self.next_iter(self.face_start(f), j as nat) == x
    }

    /// Whether the mesh is closed (see [`Mesh::is_closed`]).
    pub fn check_closed(&self) -> (r: bool)
        requires
            self.links_wf(),
        ensures
            r == self.is_closed(),
    {
        let nh = self.halfedges.len();
        let nf = self.faces.len();
        let nv = self.vertices.len();
        let mut seen: Vec<bool> = Vec::new();
        let mut i: usize = 0;
        while i < nh
            invariant
                i <= nh,
                seen@.len() == i,
                forall|x: int| 0 <= x < i ==> !(#[trigger] seen@[x]),
            decreases nh - i,
        {
            seen.push(false);
            i += 1;
        }
        let mut f: usize = 0;
        while f < nf
            invariant
                self.links_wf(),
                nh == self.nh(),
                nf == self.nf(),
                f <= nf,
                seen@.len() == nh,
                forall|x: int| 0 <= x < nh ==> (#[trigger] seen@[x] <==> self.walked_by(x, f as int)),
                forall|g: int| 0 <= g < f ==>
                    self.next_iter(self.face_start(g), #[trigger] self.degree(g)) == self.face_start(g),
                forall|g: int, j: int| 0 <= g < f && 0 <= j < self.degree(g) ==>
                    self.he(#[trigger] self.next_iter(self.face_start(g), j as nat)).face == g,
            decreases nf - f,
        {
            let start = self.faces[f].halfedge;
            assert(start < nh);
            let walk = self.face_halfedges(start);
            proof {
                self.lemma_boundary_walk(start as int, walk@);
            }
            let last = walk[walk.len() - 1];
            proof {
                self.lemma_next_iter_in_range(start as int, (walk@.len() - 1) as nat);
                assert(self.next_iter(start as int, walk@.len()) == self.next_of(
                    self.next_iter(start as int, (walk@.len() - 1) as nat)));
            }
            if self.halfedges[last].next != start {
                assert(!self.is_closed()) by {
                    assert(self.degree(f as int) == walk@.len());
                }
                return false;
            }
            let ghost seen0 = seen@;
            let mut j: usize = 0;
            while j < walk.len()
                invariant
                    self.links_wf(),
                    nh == self.nh(),
                    nf == self.nf(),
                    f < nf,
                    start == self.face_start(f as int),
                    walk@ == self.boundary_walk(start as int),
                    walk@.len() == self.degree(f as int),
                    j <= walk@.len(),
                    seen@.len() == nh,
                    forall|x: int| 0 <= x < nh ==> (#[trigger] seen@[x] <==> (seen0[x] || exists|k: int|
                        0 <= k < j && walk@[k] == x)),
                    forall|k: int| 0 <= k < j ==> self.he(#[trigger] walk@[k] as int).face == f,
                decreases walk@.len() - j,
            {
                let h = walk[j];
                proof {
                    self.lemma_next_iter_in_range(start as int, j as nat);
                }
                if self.halfedges[h].face != f {
                    assert(!self.is_closed()) by {
                        assert(h as int == self.next_iter(self.face_start(f as int), j as nat));
                    }
                    return false;
                }
                let ghost before = seen@;
                seen.set(h, true);
                assert forall|x: int| 0 <= x < nh implies (#[trigger] seen@[x] <==> (seen0[x] || exists|k: int|
                    0 <= k < j + 1 && walk@[k] == x)) by {
                    if x == h {
                        assert(walk@[j as int] == x);
                    } else {
                        assert(seen@[x] == before[x]);
                        if exists|k: int| 0 <= k < j + 1 && walk@[k] == x {
                            let k = choose|k: int| 0 <= k < j + 1 && walk@[k] == x;
                            assert(k != j);
                        }
                    }
                }
                j += 1;
            }
            assert forall|x: int| 0 <= x < nh implies (#[trigger] seen@[x] <==> self.walked_by(x, f + 1)) by {
                if seen@[x] {
                    if !seen0[x] {
                        let k = choose|k: int| 0 <= k < walk@.len() && walk@[k] == x;
                        assert(self.next_iter(self.face_start(f as int), k as nat) == x);
                    }
                }
                if self.walked_by(x, f + 1) {
                    let (g, k) = choose|g: int, k: int| 0 <= g < f + 1 && 0 <= k < self.degree(g)
                        && #[trigger] self.next_iter(self.face_start(g), k as nat) == x;
                    if g == f {
                        assert(walk@[k] == x);
                    } else {
                        assert(self.walked_by(x, f as int));
                    }
                }
            }
            assert forall|g: int, k: int| 0 <= g < f + 1 && 0 <= k < self.degree(g) implies
                self.he(#[trigger] self.next_iter(self.face_start(g), k as nat)).face == g by {
                if g == f {
                    assert(walk@[k] as int == self.next_iter(self.face_start(g), k as nat));
                }
            }
            f += 1;
        }
        let mut h: usize = 0;
        while h < nh
            invariant
                self.links_wf(),
                nh == self.nh(),
                nf == self.nf(),
                h <= nh,
                seen@.len() == nh,
                forall|x: int| 0 <= x < nh ==> (#[trigger] seen@[x] <==> self.walked_by(x, nf as int)),
                forall|g: int, j: int| 0 <= g < nf && 0 <= j < self.degree(g) ==>
                    self.he(#[trigger] self.next_iter(self.face_start(g), j as nat)).face == g,
                forall|x: int| 0 <= x < h ==> #[trigger] self.on_own_face(x),
            decreases nh - h,
        {
            if !seen[h] {
                assert(!self.is_closed()) by {
                    if self.on_own_face(h as int) {
                        let j = choose|j: int| 0 <= j < self.degree(self.he(h as int).face as int)
                            && #[trigger] self.next_iter(self.face_start(self.he(h as int).face as int), j as nat) == h;
                        assert(self.he(h as int).face < nf);
                        assert(self.walked_by(h as int, nf as int));
                    }
                }
                return false;
            }
            proof {
                let (g, j) = choose|g: int, j: int| 0 <= g < nf && 0 <= j < self.degree(g)
                    && #[trigger] self.next_iter(self.face_start(g), j as nat) == h;
                assert(self.he(h as int).face == g);
                assert(self.on_own_face(h as int));
            }
            h += 1;
        }
        let mut v: usize = 0;
        while v < nv
            invariant
                self.links_wf(),
                nv == self.nv(),
                nh == self.nh(),
                v <= nv,
                forall|x: int| 0 <= x < v ==> (#[trigger] self.vertices@[x]).halfedges@.len() >= 1,
                forall|x: int, i: int| 0 <= x < v && 0 <= i < self.vertices@[x].halfedges@.len()
                    ==> self.he(#[trigger] self.vertices@[x].halfedges@[i] as int).vertex == x,
            decreases nv - v,
        {
            let hs = &self.vertices[v].halfedges;
            if hs.len() == 0 {
                assert(!self.is_closed()) by {
                    assert(self.vertices@[v as int].halfedges@.len() == 0);
                }
                return false;
            }
            let mut i: usize = 0;
            while i < hs.len()
                invariant
                    self.links_wf(),
                    nv == self.nv(),
                    nh == self.nh(),
                    v < nv,
                    hs@ == self.vertices@[v as int].halfedges@,
                    i <= hs@.len(),
                    forall|k: int| 0 <= k < i ==> self.he(#[trigger] hs@[k] as int).vertex == v,
                decreases hs@.len() - i,
            {
                assert(hs@[i as int] < nh);
                if self.halfedges[hs[i]].vertex != v {
                    assert(!self.is_closed()) by {
                        assert(self.he(self.vertices@[v as int].halfedges@[i as int] as int).vertex != v);
                    }
                    return false;
                }
                i += 1;
            }
            v += 1;
        }
        true
    }

    /// Adds a vertex with no incident halfedges and returns its id.
    pub fn add_vertex(&mut self) -> (id: Id)
        ensures
            id == old(self).nv(),
            final(self).vertices@ =~= old(self).vertices@.push(final(self).vertices@[id as int]),
            final(self).vertices@[id as int].halfedges@ == Seq::<Id>::empty(),
            final(self).halfedges@ == old(self).halfedges@,
            final(self).faces@ == old(self).faces@,
    {
        let id = self.vertices.len();
        self.vertices.push(Vertex { halfedges: Vec::new() });
        id
    }

    /// Adds a halfedge whose fields are all zero, to be filled in afterwards.
    pub fn add_halfedge(&mut self) -> (id: Id)
        ensures
            id == old(self).nh(),
            final(self).halfedges@ == old(self).halfedges@.push(
                (Halfedge { vertex: 0, face: 0, next: 0, opposite: 0 }),
            ),
            final(self).vertices@ == old(self).vertices@,
            final(self).faces@ == old(self).faces@,
    {
        let id = self.halfedges.len();
        self.halfedges.push(Halfedge { vertex: 0, face: 0, next: 0, opposite: 0 });
        id
    }

    /// Adds a face whose representative halfedge is zero, to be set afterwards.
    pub fn add_face(&mut self) -> (id: Id)
        ensures
            id == old(self).nf(),
            final(self).faces@ == old(self).faces@.push((Face { halfedge: 0 })),
            final(self).vertices@ == old(self).vertices@,
            final(self).halfedges@ == old(self).halfedges@,
    {
        let id = self.faces.len();
        self.faces.push(Face { halfedge: 0 });
        id
    }

    /// Sets `a.next = b`.
    pub fn link_halfedges(&mut self, a: Id, b: Id)
        requires
            a < old(self).nh(),
        ensures
            final(self).halfedges@ == old(self).halfedges@.update(
                a as int,
                (Halfedge { next: b, ..old(self).halfedges@[a as int] }),
            ),
            final(self).vertices@ == old(self).vertices@,
            final(self).faces@ == old(self).faces@,
    {
        let mut he = self.halfedges[a];
        he.next = b;
        self.halfedges.set(a, he);
    }

    /// Replaces the halfedge `id`.
    pub fn set_halfedge(&mut self, id: Id, he: Halfedge)
        requires
            id < old(self).nh(),
        ensures
            final(self).halfedges@ == old(self).halfedges@.update(id as int, he),
            final(self).vertices@ == old(self).vertices@,
            final(self).faces@ == old(self).faces@,
    {
        self.halfedges.set(id, he);
    }

    /// Sets the representative halfedge of face `id`.
    pub fn set_face_halfedge(&mut self, id: Id, halfedge: Id)
        requires
            id < old(self).nf(),
        ensures
            final(self).faces@ == old(self).faces@.update(id as int, (Face { halfedge })),
            final(self).vertices@ == old(self).vertices@,
            final(self).halfedges@ == old(self).halfedges@,
    {
        self.faces.set(id, Face { halfedge });
    }

    /// Records `halfedge` as originating at vertex `id`.
    pub fn add_vertex_halfedge(&mut self, id: Id, halfedge: Id)
        requires
            id < old(self).nv(),
        ensures
            final(self).vertices@.len() == old(self).vertices@.len(),
            final(self).vertices@[id as int].halfedges@ == old(self).vertices@[id as int].halfedges@.push(halfedge),
            forall|v: int| 0 <= v < old(self).nv() && v != id ==> #[trigger] final(self).vertices@[v] == old(self).vertices@[v],
            final(self).halfedges@ == old(self).halfedges@,
            final(self).faces@ == old(self).faces@,
    {
        let mut hs = Vec::new();
        std::mem::swap(&mut hs, &mut self.vertices[id].halfedges);
        hs.push(halfedge);
        self.vertices.set(id, Vertex { halfedges: hs });
    }
}

} // verus!
