//! One level of Catmull-Clark subdivision over a half-edge mesh.
use vstd::prelude::*;
use crate::mesh::{lemma_lists_grow, Halfedge, Id, Mesh};

verus! {

/// What a vertex of a subdivided mesh stands for in the input mesh.
#[derive(Clone, Copy, PartialEq, Eq, Structural, Debug)]
pub enum PointSource {
    /// The centroid of an input face.
    FacePoint(Id),
    /// The point of an input edge, named by its representative halfedge.
    EdgePoint(Id),
    /// The moved position of an input vertex.
    VertexPoint(Id),
}

/// How many entries of `s` are filled.
pub open spec fn count_some<T>(s: Seq<Option<T>>) -> nat
    decreases s.len(),
{
    if s.len() == 0 {
        0
    } else {
        count_some(s.drop_last()) + if s.last() is Some { 1nat } else { 0nat }
    }
}

proof fn lemma_count_some_fill<T>(s: Seq<Option<T>>, i: int, x: T)
    requires
        0 <= i < s.len(),
        s[i] is None,
    ensures
        count_some(s.update(i, Some(x))) == count_some(s) + 1,
    decreases s.len(),
{
    let t = s.update(i, Some(x));
    if i == s.len() - 1 {
        assert(t.drop_last() =~= s.drop_last());
    } else {
        assert(t.drop_last() =~= s.drop_last().update(i, Some(x)));
        lemma_count_some_fill(s.drop_last(), i, x);
    }
}

/// A mesh made of quads only: face `f` owns halfedges `4f .. 4f+3`, chained
/// in that order, and each vertex lists exactly the halfedges that start at
/// it. Twins are not paired: `opposite` is only a live index.
pub open spec fn quads_wf(m: &Mesh) -> bool {
    &&& m.nh() == 4 * m.nf()
    &&& forall|f: int| 0 <= f < m.nf() ==> (#[trigger] m.faces@[f]).halfedge == 4 * f
    &&& forall|h: int|
        0 <= h < m.nh() ==> {
            &&& (#[trigger] m.he(h)).face == h / 4
            &&& m.he(h).next == if h % 4 == 3 { h - 3 } else { h + 1 }
            &&& m.he(h).vertex < m.nv()
            &&& m.he(h).opposite < m.nh()
            &&& m.vertices@[m.he(h).vertex as int].halfedges@.contains(h as Id)
        }
    &&& forall|v: int, i: int|
        0 <= v < m.nv() && 0 <= i < m.vertices@[v].halfedges@.len() ==> {
            &&& #[trigger] m.vertices@[v].halfedges@[i] < m.nh()
            &&& m.he(m.vertices@[v].halfedges@[i] as int).vertex == v
        }
}

/// Face `f` is beside one of the first `k` halfedges that vertex `v` lists:
/// the halfedge's own face, or a face beside the edge that holds it.
pub open spec fn ring_face(m: &Mesh, v: int, f: int, k: int) -> bool {
    exists|j: int| 0 <= j < k && ({
        let h = #[trigger] m.vertices@[v].halfedges@[j] as int;
        let c = m.canonical(h);
        f == m.he(h).face || f == m.he(c).face || f == m.he(m.he(c).opposite as int).face
    })
}

/// `e` is the representative of the edge of one of the first `k` halfedges
/// that vertex `v` lists.
pub open spec fn ring_edge(m: &Mesh, v: int, e: int, k: int) -> bool {
    exists|j: int| 0 <= j < k && m.canonical(#[trigger] m.vertices@[v].halfedges@[j] as int) == e
}

/// `m1` is `m0` with one more vertex, which has no halfedges.
pub open spec fn adds_bare_vertex(m1: &Mesh, m0: &Mesh) -> bool {
    &&& m1.nv() == m0.nv() + 1
    &&& forall|v: int| 0 <= v < m0.nv() ==> #[trigger] m1.vertices@[v] == m0.vertices@[v]
    &&& m1.vertices@[m0.nv() as int].halfedges@ == Seq::<Id>::empty()
}

/// Appends the quad `a b c d` (in this cyclic order) to `m`.
fn add_quad(m: &mut Mesh, a: Id, b: Id, c: Id, d: Id)
    requires
        quads_wf(old(m)),
        a < old(m).nv(),
        b < old(m).nv(),
        c < old(m).nv(),
        d < old(m).nv(),
        old(m).nh() + 4 <= usize::MAX,
    ensures
        quads_wf(final(m)),
        final(m).nf() == old(m).nf() + 1,
        final(m).nv() == old(m).nv(),
        final(m).halfedges@.subrange(0, old(m).nh() as int) == old(m).halfedges@,
        final(m).he(old(m).nh() as int).vertex == a,
        final(m).he(old(m).nh() + 1int).vertex == b,
        final(m).he(old(m).nh() + 2int).vertex == c,
        final(m).he(old(m).nh() + 3int).vertex == d,
{
    let ghost m0 = *m;
    let f = m.add_face();
    let h0 = m.add_halfedge();
    let h1 = m.add_halfedge();
    let h2 = m.add_halfedge();
    let h3 = m.add_halfedge();
    m.set_halfedge(h0, Halfedge { vertex: a, face: f, next: 0, opposite: 0 });
    m.set_halfedge(h1, Halfedge { vertex: b, face: f, next: 0, opposite: 0 });
    m.set_halfedge(h2, Halfedge { vertex: c, face: f, next: 0, opposite: 0 });
    m.set_halfedge(h3, Halfedge { vertex: d, face: f, next: 0, opposite: 0 });
    let ghost p0 = *m;
    m.add_vertex_halfedge(a, h0);
    let ghost p1 = *m;
    proof {
        lemma_lists_grow(&p1, &p0, a as int, h0);
    }
    m.add_vertex_halfedge(b, h1);
    let ghost p2 = *m;
    proof {
        lemma_lists_grow(&p2, &p1, b as int, h1);
    }
    m.add_vertex_halfedge(c, h2);
    let ghost p3 = *m;
    proof {
        lemma_lists_grow(&p3, &p2, c as int, h2);
    }
    m.add_vertex_halfedge(d, h3);
    let ghost p4 = *m;
    proof {
        lemma_lists_grow(&p4, &p3, d as int, h3);
    }
    m.set_face_halfedge(f, h0);
    m.link_halfedges(h0, h1);
    m.link_halfedges(h1, h2);
    m.link_halfedges(h2, h3);
    m.link_halfedges(h3, h0);
    assert(m.halfedges@.subrange(0, m0.nh() as int) =~= m0.halfedges@);
    assert forall|h: int| 0 <= h < m.nh() implies {
        &&& (#[trigger] m.he(h)).face == h / 4
        &&& m.he(h).next == if h % 4 == 3 { h - 3 } else { h + 1 }
        &&& m.he(h).vertex < m.nv()
        &&& m.he(h).opposite < m.nh()
        &&& m.vertices@[m.he(h).vertex as int].halfedges@.contains(h as Id)
    } by {
        if h < m0.nh() {
            assert(m.he(h) == m0.he(h));
            let v = m.he(h).vertex as int;
            assert(m0.vertices@[v].halfedges@.contains(h as Id));
            assert(p0.vertices@[v] == m0.vertices@[v]);
        }
    }
    assert forall|v: int, i: int| 0 <= v < m.nv() && 0 <= i < m.vertices@[v].halfedges@.len() implies {
        &&& #[trigger] m.vertices@[v].halfedges@[i] < m.nh()
        &&& m.he(m.vertices@[v].halfedges@[i] as int).vertex == v
    } by {
        let e = m.vertices@[v].halfedges@[i];
        if i < m0.vertices@[v].halfedges@.len() {
            assert(e == m0.vertices@[v].halfedges@[i]);
            assert(m.he(e as int) == m0.he(e as int));
        }
    }
}

/// The corners of face `f`: the face with each halfedge of its boundary walk.
pub open spec fn face_corners(m: &Mesh, f: int) -> Seq<(Id, Id)> {
    m.boundary_walk(m.faces@[f].halfedge as int).map_values(|h: Id| (f as Id, h))
}

/// The corners of the first `k` faces, face by face: one output quad is made
/// for each, in this order.
pub open spec fn corner_seq(m: &Mesh, k: nat) -> Seq<(Id, Id)>
    decreases k,
{
    if k == 0 {
        Seq::empty()
    } else {
        corner_seq(m, (k - 1) as nat) + face_corners(m, k - 1)
    }
}

/// Output quad `q` of `out` was made for the corner `c` (a face and a
/// halfedge `h` of its boundary) of `m`: its corners are, in order, the face
/// point of the face, the edge point of `h`, the vertex point of the vertex
/// `h` leads to and the edge point of the halfedge after `h`.
pub open spec fn quad_of_corner(m: &Mesh, out: &Mesh, sources: Seq<PointSource>, q: int, c: (Id, Id)) -> bool {
    let h = c.1 as int;
    let n = m.he(h).next as int;
    &&& sources[out.he(4 * q).vertex as int] == PointSource::FacePoint(c.0)
    &&& sources[out.he(4 * q + 1).vertex as int] == PointSource::EdgePoint(m.canonical(h) as Id)
    &&& sources[out.he(4 * q + 2).vertex as int] == PointSource::VertexPoint(m.he(n).vertex)
    &&& sources[out.he(4 * q + 3).vertex as int] == PointSource::EdgePoint(m.canonical(n) as Id)
}

/// What the vertex cache keeps of an input vertex.
#[derive(Clone, Copy, PartialEq, Eq, Structural, Debug)]
pub struct VertexData {
    /// The vertex point in the output mesh.
    pub generated_vertex_id: Id,
}

impl VertexData {
    pub fn new() -> (r: Self)
        ensures
            r.generated_vertex_id == 0,
    {
        VertexData { generated_vertex_id: 0 }
    }
}

/// The result of one subdivision: the new mesh and, for each of its
/// vertices, the input entity it stands for.
pub struct Refinement {
    pub mesh: Mesh,
    pub sources: Vec<PointSource>,
}

/// A context for one subdivision of `mesh`: the mesh being built and, for
/// each input face, representative halfedge and vertex, the generated vertex
/// once there is one.
pub struct CatmullClarkSubdivider<'a> {
    /// The input mesh.
    pub mesh: &'a Mesh,
    /// The output mesh.
    pub generated_mesh: Mesh,
    /// Face point of each input face.
    pub face_data_set: Vec<Option<Id>>,
    /// Edge point of each edge, stored at its representative halfedge.
    pub edge_data_set: Vec<Option<Id>>,
    /// Vertex point of each input vertex.
    pub vertex_data_set: Vec<Option<VertexData>>,
    /// What each output vertex stands for.
    pub sources: Vec<PointSource>,
}

impl<'a> CatmullClarkSubdivider<'a> {
    /// The three caches agree with `sources`: each filled entry names an output
    /// vertex that stands for that entry, and each output vertex is named by the
    /// entry it stands for. Edge entries are filled at representatives only.
    pub open spec fn caches_wf(&self) -> bool {
        let m = self.mesh;
        let n = self.sources@.len();
        &&& n <= usize::MAX + 1
        &&& self.face_data_set@.len() == m.nf()
        &&& self.edge_data_set@.len() == m.nh()
        &&& self.vertex_data_set@.len() == m.nv()
        &&& forall|f: int|
            0 <= f < m.nf() && (#[trigger] self.face_data_set@[f]) is Some ==> {
                let id = self.face_data_set@[f]->Some_0 as int;
                id < n && self.sources@[id] == PointSource::FacePoint(f as Id)
            }
        &&& forall|h: int|
            0 <= h < m.nh() && (#[trigger] self.edge_data_set@[h]) is Some ==> {
                let id = self.edge_data_set@[h]->Some_0 as int;
                id < n && self.sources@[id] == PointSource::EdgePoint(h as Id) && m.is_edge_rep(h)
            }
        &&& forall|v: int|
            0 <= v < m.nv() && (#[trigger] self.vertex_data_set@[v]) is Some ==> {
                let id = self.vertex_data_set@[v]->Some_0.generated_vertex_id as int;
                id < n && self.sources@[id] == PointSource::VertexPoint(v as Id)
            }
        &&& forall|i: int|
            0 <= i < n ==> match #[trigger] self.sources@[i] {
                PointSource::FacePoint(f) => f < m.nf() && self.face_data_set@[f as int] == Some(i as Id),
                PointSource::EdgePoint(h) => h < m.nh() && self.edge_data_set@[h as int] == Some(i as Id),
                PointSource::VertexPoint(v) => v < m.nv() && self.vertex_data_set@[v as int] == Some(
                    VertexData { generated_vertex_id: i as Id },
                ),
            }
    }

    /// The face point of `h`'s face and the edge point of `h`'s edge exist.
    pub open spec fn has_points_beside(&self, h: int) -> bool {
        &&& self.face_data_set@[self.mesh.he(h).face as int] is Some
        &&& self.edge_data_set@[self.mesh.canonical(h)] is Some
    }

    /// The face points that a first request for the edge point of `c` makes,
    /// in order: those of the faces beside it that have none yet.
    pub open spec fn new_face_points(&self, c: int) -> Seq<PointSource> {
        let f1 = self.mesh.he(c).face;
        let f2 = self.mesh.he(self.mesh.he(c).opposite as int).face;
        let a = if self.face_data_set@[f1 as int] is None {
            seq![PointSource::FacePoint(f1)]
        } else {
            Seq::empty()
        };
        let b = if self.face_data_set@[f2 as int] is None && f2 != f1 {
            seq![PointSource::FacePoint(f2)]
        } else {
            Seq::empty()
        };
        a + b
    }

    /// Every output vertex added since `old` stands for an entry that was
    /// empty in `old`.
    pub open spec fn adds_only_fresh(&self, old: &Self) -> bool {
        forall|i: int| old.sources@.len() <= i < self.sources@.len() ==> match #[trigger] self.sources@[i] {
            PointSource::FacePoint(f) => old.face_data_set@[f as int] is None,
            PointSource::EdgePoint(h) => old.edge_data_set@[h as int] is None,
            PointSource::VertexPoint(v) => old.vertex_data_set@[v as int] is None,
        }
    }

    proof fn lemma_adds_only_fresh(&self, old: &Self)
        requires
            old.wf(),
            self.wf(),
            self.extends(old),
        ensures
            self.adds_only_fresh(old),
    {
        assert forall|i: int| old.sources@.len() <= i < self.sources@.len() implies match #[trigger] self.sources@[i] {
            PointSource::FacePoint(f) => old.face_data_set@[f as int] is None,
            PointSource::EdgePoint(h) => old.edge_data_set@[h as int] is None,
            PointSource::VertexPoint(v) => old.vertex_data_set@[v as int] is None,
        } by {
            match self.sources@[i] {
                PointSource::FacePoint(f) => {
                    assert(self.face_data_set@[f as int] == Some(i as Id));
                },
                PointSource::EdgePoint(h) => {
                    assert(self.edge_data_set@[h as int] == Some(i as Id));
                },
                PointSource::VertexPoint(v) => {
                    assert(self.vertex_data_set@[v as int] == Some(VertexData { generated_vertex_id: i as Id }));
                },
            }
        }
    }

    /// What a request for the edge point of representative `c` does, from
    /// `self` to `new`, returning `r`: nothing where the point exists, else
    /// the new face points beside the edge and then the edge point itself.
    pub open spec fn edge_point_effect(&self, c: int, new: &Self, r: Id) -> bool {
        if self.edge_data_set@[c] is Some {
            &&& self.edge_data_set@[c] == Some(r)
            &&& new.sources@ == self.sources@
            &&& new.edge_data_set@ == self.edge_data_set@
            &&& new.face_data_set@ == self.face_data_set@
        } else {
            &&& new.edge_data_set@ == self.edge_data_set@.update(c, Some(r))
            &&& new.sources@ == self.sources@ + self.new_face_points(c) + seq![PointSource::EdgePoint(c as Id)]
            &&& r == new.sources@.len() - 1
        }
    }

    /// The invariant of a subdivider between steps.
    pub open spec fn wf(&self) -> bool {
        &&& self.mesh.links_wf()
        &&& self.caches_wf()
        &&& self.generated_mesh.nv() == self.sources@.len()
        &&& self.sources@.len() == count_some(self.face_data_set@) + count_some(self.edge_data_set@)
            + count_some(self.vertex_data_set@)
        &&& quads_wf(&self.generated_mesh)
    }

    /// `self` is `old` with possibly more points generated: filled entries,
    /// sources and the output's halfedges and faces are kept.
    pub open spec fn extends(&self, old: &Self) -> bool {
        &&& self.mesh == old.mesh
        &&& self.sources@.len() >= old.sources@.len()
        &&& self.sources@.subrange(0, old.sources@.len() as int) == old.sources@
        &&& self.generated_mesh.halfedges@ == old.generated_mesh.halfedges@
        &&& self.generated_mesh.faces@ == old.generated_mesh.faces@
        &&& self.face_data_set@.len() == old.face_data_set@.len()
        &&& self.edge_data_set@.len() == old.edge_data_set@.len()
        &&& self.vertex_data_set@.len() == old.vertex_data_set@.len()
        &&& forall|f: int| 0 <= f < old.face_data_set@.len() && (#[trigger] old.face_data_set@[f]) is Some
            ==> self.face_data_set@[f] == old.face_data_set@[f]
        &&& forall|h: int| 0 <= h < old.edge_data_set@.len() && (#[trigger] old.edge_data_set@[h]) is Some
            ==> self.edge_data_set@[h] == old.edge_data_set@[h]
        &&& forall|v: int| 0 <= v < old.vertex_data_set@.len() && (#[trigger] old.vertex_data_set@[v]) is Some
            ==> self.vertex_data_set@[v] == old.vertex_data_set@[v]
    }

    proof fn lemma_extends_refl(&self)
        ensures
            self.extends(self),
    {
        assert(self.sources@.subrange(0, self.sources@.len() as int) =~= self.sources@);
    }

    proof fn lemma_extends_trans(&self, mid: &Self, first: &Self)
        requires
            mid.extends(first),
            self.extends(mid),
        ensures
            self.extends(first),
    {
        assert(self.sources@.subrange(0, first.sources@.len() as int) =~= first.sources@) by {
            assert forall|i: int| 0 <= i < first.sources@.len() implies self.sources@[i] == first.sources@[i] by {
                assert(self.sources@.subrange(0, mid.sources@.len() as int)[i] == mid.sources@[i]);
                assert(mid.sources@.subrange(0, first.sources@.len() as int)[i] == first.sources@[i]);
            }
        }
    }

    /// All quads made so far match the corners they were made for.
    pub open spec fn quads_match(&self, corners: Seq<(Id, Id)>) -> bool {
        &&& self.generated_mesh.nf() == corners.len()
        &&& forall|q: int| 0 <= q < corners.len() ==>
            quad_of_corner(self.mesh, &self.generated_mesh, self.sources@, q, #[trigger] corners[q])
    }

    proof fn lemma_quad_added(&self, old: &Self, corners: Seq<(Id, Id)>, c: (Id, Id))
        requires
            old.quads_match(corners),
            self.mesh == old.mesh,
            self.sources == old.sources,
            self.generated_mesh.nf() == old.generated_mesh.nf() + 1,
            quads_wf(&old.generated_mesh),
            quads_wf(&self.generated_mesh),
            self.generated_mesh.halfedges@.subrange(0, old.generated_mesh.nh() as int)
                == old.generated_mesh.halfedges@,
            quad_of_corner(self.mesh, &self.generated_mesh, self.sources@, corners.len() as int, c),
        ensures
            self.quads_match(corners.push(c)),
    {
        let out = &self.generated_mesh;
        let cs = corners.push(c);
        assert forall|x: int| 0 <= x < old.generated_mesh.nh() implies #[trigger] out.halfedges@[x]
            == old.generated_mesh.halfedges@[x] by {
            assert(out.halfedges@.subrange(0, old.generated_mesh.nh() as int)[x] == out.halfedges@[x]);
        }
        assert forall|q: int| 0 <= q < cs.len() implies
            quad_of_corner(self.mesh, out, self.sources@, q, #[trigger] cs[q]) by {
            if q < corners.len() {
                assert(cs[q] == corners[q]);
                assert(quad_of_corner(old.mesh, &old.generated_mesh, old.sources@, q, corners[q]));
                assert(out.he(4 * q) == old.generated_mesh.he(4 * q));
                assert(out.he(4 * q + 1) == old.generated_mesh.he(4 * q + 1));
                assert(out.he(4 * q + 2) == old.generated_mesh.he(4 * q + 2));
                assert(out.he(4 * q + 3) == old.generated_mesh.he(4 * q + 3));
            }
        }
    }

    proof fn lemma_sources_distinct(&self)
        requires
            self.caches_wf(),
        ensures
            forall|i: int, j: int| 0 <= i < j < self.sources@.len() ==> self.sources@[i] != self.sources@[j],
    {
        assert forall|i: int, j: int| 0 <= i < j < self.sources@.len() implies self.sources@[i] != self.sources@[j] by {
            let a = self.sources@[i];
            let b = self.sources@[j];
            if a == b {
                match a {
                    PointSource::FacePoint(f) => {
                        assert(self.face_data_set@[f as int] == Some(i as Id));
                        assert(self.face_data_set@[f as int] == Some(j as Id));
                    },
                    PointSource::EdgePoint(h) => {
                        assert(self.edge_data_set@[h as int] == Some(i as Id));
                        assert(self.edge_data_set@[h as int] == Some(j as Id));
                    },
                    PointSource::VertexPoint(v) => {
                        assert(self.vertex_data_set@[v as int] == Some(VertexData { generated_vertex_id: i as Id }));
                        assert(self.vertex_data_set@[v as int] == Some(VertexData { generated_vertex_id: j as Id }));
                    },
                }
            }
        }
    }

    proof fn lemma_quads_match_kept(&self, old: &Self, corners: Seq<(Id, Id)>)
        requires
            old.wf(),
            self.wf(),
            self.extends(old),
            old.quads_match(corners),
        ensures
            self.quads_match(corners),
    {
        let out = &self.generated_mesh;
        assert forall|x: int| 0 <= x < old.sources@.len() implies #[trigger] self.sources@[x] == old.sources@[x] by {
            assert(self.sources@.subrange(0, old.sources@.len() as int)[x] == self.sources@[x]);
        }
        assert forall|q: int| 0 <= q < corners.len() implies
            quad_of_corner(self.mesh, out, self.sources@, q, #[trigger] corners[q]) by {
            assert(quad_of_corner(old.mesh, &old.generated_mesh, old.sources@, q, corners[q]));
            assert(4 * q + 3 < out.nh());
            assert(out.he(4 * q).vertex < old.sources@.len());
            assert(out.he(4 * q + 1).vertex < old.sources@.len());
            assert(out.he(4 * q + 2).vertex < old.sources@.len());
            assert(out.he(4 * q + 3).vertex < old.sources@.len());
        }
    }

    /// Builds the subdivided mesh: for each input face, in storage order, and
    /// each halfedge `h` of its boundary, one quad through the face point, the
    /// edge point of `h`, the vertex point of the vertex `h` leads to and the
    /// edge point of the halfedge after `h`. Points are generated on first use.
    pub fn generate(self) -> (r: Refinement)
        requires
            self.wf(),
            self.sources@.len() == 0,
            self.generated_mesh.nf() == 0,
            4 * corner_seq(self.mesh, self.mesh.nf()).len() + 4 <= usize::MAX,
        ensures
            quads_wf(&r.mesh),
            r.mesh.nv() == r.sources@.len(),
            r.mesh.nf() == corner_seq(self.mesh, self.mesh.nf()).len(),
            forall|q: int| 0 <= q < r.mesh.nf() ==>
                quad_of_corner(self.mesh, &r.mesh, r.sources@, q, #[trigger] corner_seq(self.mesh, self.mesh.nf())[q]),
            forall|i: int, j: int| 0 <= i < j < r.sources@.len() ==> r.sources@[i] != r.sources@[j],
            self.mesh.is_closed() ==> {
                &&& r.mesh.nv() == self.mesh.nv() + self.mesh.edge_count() + self.mesh.nf()
                &&& r.mesh.nf() == self.mesh.nh()
            },
    {
        let mut this = self;
        this.reserve_internal_memory();
        let m = this.mesh;
        let nf = m.faces.len();
        let mut f: usize = 0;
        let ghost mut corners: Seq<(Id, Id)> = Seq::empty();
        while f < nf
            invariant
                this.wf(),
                this.mesh == m,
                nf == m.nf(),
                f <= nf,
                corners == corner_seq(m, f as nat),
                this.quads_match(corners),
                4 * corner_seq(m, m.nf()).len() + 4 <= usize::MAX,
            decreases nf - f,
        {
            let ghost t0 = this;
            let fp = this.face_point(f);
            proof {
                this.lemma_quads_match_kept(&t0, corners);
            }
            assert(m.faces@[f as int].halfedge < m.nh());
            let walk = m.face_halfedges(m.faces[f].halfedge);
            proof {
                m.lemma_boundary_walk(m.faces@[f as int].halfedge as int, walk@);
            }
            let ghost base = corners;
            let mut i: usize = 0;
            while i < walk.len()
                invariant
                    this.wf(),
                    this.mesh == m,
                    nf == m.nf(),
                    f < nf,
                    i <= walk.len(),
                    m.is_boundary_walk(m.faces@[f as int].halfedge as int, walk@),
                    walk@ == m.boundary_walk(m.faces@[f as int].halfedge as int),
                    base == corner_seq(m, f as nat),

                    corners == base + face_corners(m, f as int).subrange(0, i as int),
                    this.quads_match(corners),
                    this.face_data_set@[f as int] == Some(fp),
                    4 * corner_seq(m, m.nf()).len() + 4 <= usize::MAX,
                decreases walk.len() - i,
            {
                proof {
                    m.lemma_next_iter_in_range(m.faces@[f as int].halfedge as int, i as nat);
                }
                let h = walk[i];
                assert(m.he(h as int).next < m.nh());
                let nh = m.halfedges[h].next;
                assert(m.he(nh as int).vertex < m.nv());
                let v = m.halfedges[nh].vertex;
                let ghost t1 = this;
                let e1 = this.edge_point(h);
                let ghost t2 = this;
                let e2 = this.edge_point(nh);
                let ghost t3 = this;
                let vp = this.vertex_point(v);
                proof {
                    t3.lemma_extends_trans(&t2, &t1);
                    this.lemma_extends_trans(&t3, &t1);
                    this.lemma_extends_trans(&t3, &t2);
                    this.lemma_quads_match_kept(&t1, corners);
                    lemma_corner_seq_prefix(m, (f + 1) as nat, m.nf());
                    assert(corner_seq(m, (f + 1) as nat) == base + face_corners(m, f as int));
                    assert(corners.len() + 1 <= corner_seq(m, m.nf()).len());
                    assert(this.edge_data_set@[m.canonical(h as int)] == Some(e1));
                    assert(this.edge_data_set@[m.canonical(nh as int)] == Some(e2));
                }
                let ghost t4 = this;
                let ghost c: (Id, Id) = (f, h);
                add_quad(&mut this.generated_mesh, fp, e1, vp, e2);
                proof {
                    assert(face_corners(m, f as int)[i as int] == c);
                    this.lemma_quad_added(&t4, corners, c);
                    corners = corners.push(c);
                    assert(corners =~= base + face_corners(m, f as int).subrange(0, i + 1));
                }
                i += 1;
            }
            proof {
                assert(face_corners(m, f as int).subrange(0, walk@.len() as int) =~= face_corners(m, f as int));
            }
            f += 1;
        }
        proof {
            this.lemma_sources_distinct();
            if m.is_closed() {
                this.lemma_all_points_made();
                lemma_closed_corner_count(m);
            }
        }
        Refinement { mesh: this.generated_mesh, sources: this.sources }
    }

    /// Starts a subdivision of `mesh` with nothing generated yet.
    pub fn new(mesh: &'a Mesh) -> (r: Self)
        requires
            mesh.links_wf(),
        ensures
            r.wf(),
            r.mesh == mesh,
            r.sources@.len() == 0,
            r.generated_mesh.nf() == 0,
            forall|f: int| 0 <= f < mesh.nf() ==> #[trigger] r.face_data_set@[f] is None,
            forall|h: int| 0 <= h < mesh.nh() ==> #[trigger] r.edge_data_set@[h] is None,
            forall|v: int| 0 <= v < mesh.nv() ==> #[trigger] r.vertex_data_set@[v] is None,
    {
        let r = CatmullClarkSubdivider {
            mesh,
            generated_mesh: Mesh::new(),
            face_data_set: empty_cache(mesh.faces.len()),
            edge_data_set: empty_cache(mesh.halfedges.len()),
            vertex_data_set: empty_cache(mesh.vertices.len()),
            sources: Vec::new(),
        };
        proof {
            lemma_count_some_empty(r.face_data_set@);
            lemma_count_some_empty(r.edge_data_set@);
            lemma_count_some_empty(r.vertex_data_set@);
        }
        r
    }

    /// Reserves room in the output mesh for what a mesh of quads gives: four
    /// halfedges and one face per input halfedge, and one vertex per input
    /// vertex, edge and face. Sizes that do not fit in `usize` reserve nothing.
    fn reserve_internal_memory(&mut self)
        ensures
            final(self).mesh == old(self).mesh,
            final(self).generated_mesh.vertices@ == old(self).generated_mesh.vertices@,
            final(self).generated_mesh.halfedges@ == old(self).generated_mesh.halfedges@,
            final(self).generated_mesh.faces@ == old(self).generated_mesh.faces@,
            final(self).face_data_set@ == old(self).face_data_set@,
            final(self).edge_data_set@ == old(self).edge_data_set@,
            final(self).vertex_data_set@ == old(self).vertex_data_set@,
            final(self).sources@ == old(self).sources@,
    {
        let nv = self.mesh.vertices.len();
        let nh = self.mesh.halfedges.len();
        let nf = self.mesh.faces.len();
        let halfedges = if nh <= usize::MAX / 4 { nh * 4 } else { 0 };
        let faces = if nf <= usize::MAX / 4 { nf * 4 } else { 0 };
        let vertices = if nv <= usize::MAX - nf && nv + nf <= usize::MAX - nh / 2 {
            nv + nh / 2 + nf
        } else {
            0
        };
        self.generated_mesh.reserve(vertices, halfedges, faces);
        self.sources.reserve(vertices);
    }

    /// Adds an output vertex standing for `src` and returns its id.
    fn add_point(&mut self, src: PointSource) -> (id: Id)
        ensures
            id == old(self).sources@.len(),
            final(self).sources@ == old(self).sources@.push(src),
            adds_bare_vertex(&final(self).generated_mesh, &old(self).generated_mesh),
            final(self).generated_mesh.halfedges@ == old(self).generated_mesh.halfedges@,
            final(self).generated_mesh.faces@ == old(self).generated_mesh.faces@,
            final(self).mesh == old(self).mesh,
            final(self).face_data_set == old(self).face_data_set,
            final(self).edge_data_set == old(self).edge_data_set,
            final(self).vertex_data_set == old(self).vertex_data_set,
    {
        self.generated_mesh.add_vertex();
        let id = self.sources.len();
        self.sources.push(src);
        id
    }

    /// The face point of input face `id`, generated on first request.
    pub fn face_point(&mut self, id: Id) -> (r: Id)
        requires
            old(self).wf(),
            id < old(self).mesh.nf(),
        ensures
            final(self).wf(),
            final(self).extends(old(self)),
            final(self).face_data_set@[id as int] == Some(r),
            final(self).edge_data_set == old(self).edge_data_set,
            final(self).vertex_data_set == old(self).vertex_data_set,
            old(self).face_data_set@[id as int] is Some ==> *final(self) == *old(self),
            old(self).face_data_set@[id as int] is None ==> {
                &&& r == old(self).sources@.len()
                &&& final(self).sources@ == old(self).sources@.push(PointSource::FacePoint(id))
                &&& final(self).face_data_set@ == old(self).face_data_set@.update(id as int, Some(r))
                &&& final(self).generated_mesh.nv() == old(self).generated_mesh.nv() + 1
            },
    {
        match self.face_data_set[id] {
            Some(r) => {
                proof {
                    self.lemma_extends_refl();
                }
                r
            },
            None => {
                let ghost s0 = *self;
                let r = self.add_point(PointSource::FacePoint(id));
                self.face_data_set.set(id, Some(r));
                proof {
                    lemma_count_some_fill(s0.face_data_set@, id as int, r);
                    assert(self.sources@.subrange(0, s0.sources@.len() as int) =~= s0.sources@);
                    self.lemma_fill_keeps_quads(&s0);
                }
                r
            },
        }
    }

    /// The edge point of the edge holding halfedge `id`, generated on first
    /// request after the face points of the two faces beside it.
    pub fn edge_point(&mut self, id: Id) -> (r: Id)
        requires
            old(self).wf(),
            id < old(self).mesh.nh(),
        ensures
            final(self).wf(),
            final(self).extends(old(self)),
            final(self).edge_data_set@[old(self).mesh.canonical(id as int)] == Some(r),
            final(self).vertex_data_set == old(self).vertex_data_set,
            old(self).edge_data_set@[old(self).mesh.canonical(id as int)] is Some ==> *final(self) == *old(self),
            ({
                let m = old(self).mesh;
                let c = m.canonical(id as int);
                &&& final(self).face_data_set@[m.he(c).face as int] is Some
                &&& final(self).face_data_set@[m.he(m.he(c).opposite as int).face as int] is Some
            }) || old(self).edge_data_set@[old(self).mesh.canonical(id as int)] is Some,
            old(self).edge_data_set@[old(self).mesh.canonical(id as int)] is None ==> ({
                let m = old(self).mesh;
                let c = m.canonical(id as int);
                &&& final(self).edge_data_set@ == old(self).edge_data_set@.update(c, Some(r))
                &&& forall|f: int| 0 <= f < m.nf() && f != m.he(c).face && f != m.he(m.he(c).opposite as int).face
                    ==> #[trigger] final(self).face_data_set@[f] == old(self).face_data_set@[f]
                &&& final(self).sources@ == old(self).sources@ + old(self).new_face_points(c)
                    + seq![PointSource::EdgePoint(c as Id)]
                &&& r == final(self).sources@.len() - 1
            }),
            old(self).edge_point_effect(old(self).mesh.canonical(id as int), final(self), r),
    {
        let c = self.mesh.peek_same_halfedge(id);
        assert(self.mesh.he(id as int).opposite < self.mesh.nh());
        match self.edge_data_set[c] {
            Some(r) => {
                proof {
                    self.lemma_extends_refl();
                }
                r
            },
            None => {
                let ghost s0 = *self;
                let he = self.mesh.halfedges[c];
                assert(self.mesh.he(c as int).opposite < self.mesh.nh());
                let f1 = he.face;
                let f2 = self.mesh.halfedges[he.opposite].face;
                assert(self.mesh.he(he.opposite as int).face < self.mesh.nf());
                self.face_point(f1);
                let ghost s1 = *self;
                self.face_point(f2);
                let ghost s2 = *self;
                let r = self.add_point(PointSource::EdgePoint(c));
                self.edge_data_set.set(c, Some(r));
                proof {
                    assert(self.mesh.canonical(id as int) == c);
                    assert(self.mesh.is_edge_rep(c as int));
                    s2.lemma_extends_trans(&s1, &s0);
                    assert(s2.face_data_set@[f1 as int] is Some);
                    assert(s1.face_data_set@[f2 as int] is None <==> (s0.face_data_set@[f2 as int] is None
                        && f2 != f1));
                    assert(self.sources@ =~= s0.sources@ + s0.new_face_points(c as int)
                        + seq![PointSource::EdgePoint(c)]);
                    lemma_count_some_fill(s2.edge_data_set@, c as int, r);
                    assert(self.sources@.subrange(0, s2.sources@.len() as int) =~= s2.sources@);
                    self.lemma_fill_keeps_quads(&s2);
                    self.lemma_extends_trans(&s2, &s0);
                }
                r
            },
        }
    }

    /// The vertex point of input vertex `id`, generated on first request after
    /// the face and edge points around it.
    pub fn vertex_point(&mut self, id: Id) -> (r: Id)
        requires
            old(self).wf(),
            id < old(self).mesh.nv(),
        ensures
            final(self).wf(),
            final(self).extends(old(self)),
            final(self).vertex_data_set@[id as int] == Some(VertexData { generated_vertex_id: r }),
            old(self).vertex_data_set@[id as int] is Some ==> *final(self) == *old(self),
            old(self).vertex_data_set@[id as int] is None ==> forall|i: int|
                0 <= i < old(self).mesh.vertices@[id as int].halfedges@.len()
                    ==> #[trigger] final(self).has_points_beside(old(self).mesh.vertices@[id as int].halfedges@[i] as int),
            old(self).vertex_data_set@[id as int] is None ==> ({
                let m = old(self).mesh;
                let n = m.vertices@[id as int].halfedges@.len() as int;
                &&& final(self).vertex_data_set@ == old(self).vertex_data_set@.update(
                    id as int,
                    Some(VertexData { generated_vertex_id: r }),
                )
                &&& forall|f: int| 0 <= f < m.nf() && #[trigger] final(self).face_data_set@[f] != old(self).face_data_set@[f]
                    ==> ring_face(m, id as int, f, n)
                &&& forall|e: int| 0 <= e < m.nh() && #[trigger] final(self).edge_data_set@[e] != old(self).edge_data_set@[e]
                    ==> ring_edge(m, id as int, e, n)
                &&& r == final(self).sources@.len() - 1
                &&& final(self).sources@.last() == PointSource::VertexPoint(id)
                &&& final(self).adds_only_fresh(old(self))
            }),
    {
        match self.vertex_data_set[id] {
            Some(data) => {
                proof {
                    self.lemma_extends_refl();
                }
                data.generated_vertex_id
            },
            None => {
                let ghost s0 = *self;
                let m = self.mesh;
                let n = m.vertices[id].halfedges.len();
                let mut i: usize = 0;
                proof {
                    self.lemma_extends_refl();
                }
                while i < n
                    invariant
                        self.wf(),
                        self.extends(&s0),
                        self.mesh == m,
                        m == s0.mesh,
                        self.vertex_data_set == s0.vertex_data_set,
                        id < m.nv(),
                        n == m.vertices@[id as int].halfedges@.len(),
                        i <= n,
                        forall|k: int| 0 <= k < i
                            ==> #[trigger] self.has_points_beside(m.vertices@[id as int].halfedges@[k] as int),
                        forall|f: int| 0 <= f < m.nf() && #[trigger] self.face_data_set@[f] != s0.face_data_set@[f]
                            ==> ring_face(m, id as int, f, i as int),
                        forall|e: int| 0 <= e < m.nh() && #[trigger] self.edge_data_set@[e] != s0.edge_data_set@[e]
                            ==> ring_edge(m, id as int, e, i as int),
                    decreases n - i,
                {
                    let h = m.vertices[id].halfedges[i];
                    assert(h < m.nh());
                    let f = m.halfedges[h].face;
                    assert(m.he(h as int).face < m.nf());
                    let ghost t0 = *self;
                    self.face_point(f);
                    let ghost t1 = *self;
                    self.edge_point(h);
                    proof {
                        t1.lemma_extends_trans(&t0, &s0);
                        self.lemma_extends_trans(&t1, &s0);
                        assert forall|k: int| 0 <= k < i + 1
                            implies #[trigger] self.has_points_beside(m.vertices@[id as int].halfedges@[k] as int) by {
                            let g = m.vertices@[id as int].halfedges@[k] as int;
                            assert(g < m.nh());
                            assert(m.he(g).face < m.nf());
                            assert(m.he(g).opposite < m.nh());
                            assert(0 <= m.canonical(g) < m.nh());
                            if k < i {
                                assert(t0.has_points_beside(g));
                            }
                        }
                        let hi = m.vertices@[id as int].halfedges@[i as int];
                        assert(hi == h);
                        assert forall|g: int| 0 <= g < m.nf() && #[trigger] self.face_data_set@[g] != s0.face_data_set@[g]
                            implies ring_face(m, id as int, g, i + 1) by {
                            if t0.face_data_set@[g] != s0.face_data_set@[g] {
                                let j = choose|j: int| 0 <= j < i && ({
                                    let x = #[trigger] m.vertices@[id as int].halfedges@[j] as int;
                                    let c = m.canonical(x);
                                    g == m.he(x).face || g == m.he(c).face || g == m.he(m.he(c).opposite as int).face
                                });
                                assert(0 <= j < i + 1);
                            } else {
                                assert(0 <= i < i + 1);
                            }
                        }
                        assert forall|e: int| 0 <= e < m.nh() && #[trigger] self.edge_data_set@[e] != s0.edge_data_set@[e]
                            implies ring_edge(m, id as int, e, i + 1) by {
                            if t0.edge_data_set@[e] != s0.edge_data_set@[e] {
                                let j = choose|j: int| 0 <= j < i
                                    && m.canonical(#[trigger] m.vertices@[id as int].halfedges@[j] as int) == e;
                                assert(0 <= j < i + 1);
                            } else {
                                assert(m.canonical(hi as int) == e);
                            }
                        }
                    }
                    i += 1;
                }
                let ghost s1 = *self;
                let mut data = VertexData::new();
                data.generated_vertex_id = self.add_point(PointSource::VertexPoint(id));
                let r = data.generated_vertex_id;
                self.vertex_data_set.set(id, Some(data));
                proof {
                    lemma_count_some_fill(s1.vertex_data_set@, id as int, data);
                    assert forall|k: int| 0 <= k < n
                        implies #[trigger] self.has_points_beside(m.vertices@[id as int].halfedges@[k] as int) by {
                        assert(s1.has_points_beside(m.vertices@[id as int].halfedges@[k] as int));
                    }
                    assert(self.sources@.subrange(0, s1.sources@.len() as int) =~= s1.sources@);
                    self.lemma_fill_keeps_quads(&s1);
                    self.lemma_extends_trans(&s1, &s0);
                    self.lemma_adds_only_fresh(&s0);
                }
                r
            },
        }
    }

    proof fn lemma_fill_keeps_quads(&self, s0: &Self)
        requires
            quads_wf(&s0.generated_mesh),
            s0.generated_mesh.nv() == s0.sources@.len(),
            adds_bare_vertex(&self.generated_mesh, &s0.generated_mesh),
            self.generated_mesh.halfedges@ == s0.generated_mesh.halfedges@,
            self.generated_mesh.faces@ == s0.generated_mesh.faces@,
        ensures
            quads_wf(&self.generated_mesh),
    {
        let m = &self.generated_mesh;
        let m0 = &s0.generated_mesh;
        assert forall|h: int| 0 <= h < m.nh() implies {
            &&& (#[trigger] m.he(h)).face == h / 4
            &&& m.he(h).next == if h % 4 == 3 { h - 3 } else { h + 1 }
            &&& m.he(h).vertex < m.nv()
            &&& m.he(h).opposite < m.nh()
            &&& m.vertices@[m.he(h).vertex as int].halfedges@.contains(h as Id)
        } by {
            assert(m.he(h) == m0.he(h));
            assert(m.vertices@[m.he(h).vertex as int] == m0.vertices@[m.he(h).vertex as int]);
        }
        assert forall|v: int, i: int| 0 <= v < m.nv() && 0 <= i < m.vertices@[v].halfedges@.len() implies {
            &&& #[trigger] m.vertices@[v].halfedges@[i] < m.nh()
            &&& m.he(m.vertices@[v].halfedges@[i] as int).vertex == v
        } by {
            if v < m0.nv() {
                assert(m.vertices@[v] == m0.vertices@[v]);
            }
        }
    }
}

/// A cache with `n` empty entries.
fn empty_cache<T>(n: usize) -> (r: Vec<Option<T>>)
    ensures
        r@.len() == n,
        forall|i: int| 0 <= i < n ==> #[trigger] r@[i] is None,
{
    let mut r: Vec<Option<T>> = Vec::new();
    let mut i: usize = 0;
    while i < n
        invariant
            i <= n,
            r@.len() == i,
            forall|j: int| 0 <= j < i ==> #[trigger] r@[j] is None,
        decreases n - i,
    {
        r.push(None);
        i += 1;
    }
    r
}

proof fn lemma_count_some_empty<T>(s: Seq<Option<T>>)
    requires
        forall|i: int| 0 <= i < s.len() ==> #[trigger] s[i] is None,
    ensures
        count_some(s) == 0,
    decreases s.len(),
{
    if s.len() > 0 {
        lemma_count_some_empty(s.drop_last());
    }
}

/// A quad mesh is a mesh whose every index is live.
pub proof fn lemma_quads_links_wf(m: &Mesh)
    requires
        quads_wf(m),
    ensures
        m.links_wf(),
{
    assert forall|h: int| 0 <= h < m.nh() implies {
        &&& (#[trigger] m.he(h)).vertex < m.nv()
        &&& m.he(h).face < m.nf()
        &&& m.he(h).next < m.nh()
        &&& m.he(h).opposite < m.nh()
    } by {
        assert(m.he(h).face == h / 4);
    }
}

/// Each face of a quad mesh has four corners.
pub proof fn lemma_quad_corners(m: &Mesh, f: int)
    requires
        quads_wf(m),
        0 <= f < m.nf(),
    ensures
        face_corners(m, f).len() == 4,
{
    let s = 4 * f;
    assert(m.faces@[f].halfedge == s);
    assert(m.he(s).next == s + 1);
    assert(m.he(s + 1).next == s + 2);
    assert(m.he(s + 2).next == s + 3);
    assert(m.he(s + 3).next == s);
    assert(m.next_iter(s, 0) == s);
    assert(m.next_iter(s, 1) == s + 1);
    assert(m.next_iter(s, 2) == s + 2);
    assert(m.next_iter(s, 3) == s + 3);
    assert(m.next_iter(s, 4) == s);
    assert(m.nh() >= 4);
    assert(m.return_from(s, 4) == 4);
    assert(m.return_from(s, 3) == 4);
    assert(m.return_from(s, 2) == 4);
    assert(m.return_from(s, 1) == 4);
}

/// The number of corners of the first `k` faces, where each has `d` of them.
proof fn lemma_corner_count(m: &Mesh, k: nat, d: nat)
    requires
        k <= m.nf(),
        forall|f: int| 0 <= f < k ==> #[trigger] face_corners(m, f).len() == d,
    ensures
        corner_seq(m, k).len() == k * d,
    decreases k,
{
    if k > 0 {
        let k1 = (k - 1) as nat;
        lemma_corner_count(m, k1, d);
        assert(face_corners(m, k1 as int).len() == d);
        assert(corner_seq(m, k) == corner_seq(m, k1) + face_corners(m, k1 as int));
        assert(k * d == k1 * d + d) by (nonlinear_arith)
            requires
                k1 == k - 1,
        ;
        assert(corner_seq(m, k).len() == corner_seq(m, k1).len() + d);
    } else {
        assert(corner_seq(m, k).len() == 0);
        assert(k * d == 0) by (nonlinear_arith)
            requires
                k == 0,
        ;
    }
}

/// Subdividing a quad mesh gives four faces for each of its faces.
pub proof fn lemma_quads_fourfold(m: &Mesh)
    requires
        quads_wf(m),
    ensures
        corner_seq(m, m.nf()).len() == 4 * m.nf(),
{
    assert forall|f: int| 0 <= f < m.nf() implies #[trigger] face_corners(m, f).len() == 4 by {
        lemma_quad_corners(m, f);
    }
    lemma_corner_count(m, m.nf(), 4);
}

/// Subdividing twice makes sixteen faces of each quad of the first mesh, and
/// four of each face of the middle mesh whatever the first one was.
pub proof fn lemma_subdivide_twice(m0: &Mesh, m1: &Mesh, m2: &Mesh)
    requires
        m0.subdivides_to(m1),
        m1.subdivides_to(m2),
    ensures
        m2.nf() == 4 * m1.nf(),
        (forall|f: int| 0 <= f < m0.nf() ==> #[trigger] face_corners(m0, f).len() == 4)
            ==> m2.nf() == 16 * m0.nf(),
{
    lemma_quads_fourfold(m1);
    if forall|f: int| 0 <= f < m0.nf() ==> #[trigger] face_corners(m0, f).len() == 4 {
        lemma_corner_count(m0, m0.nf(), 4);
    }
}

/// Edge-point lookups through a halfedge and through its opposite meet at
/// the same cache entry, so they give the same output vertex.
pub proof fn lemma_edge_point_shared(s: &CatmullClarkSubdivider, h: Id, r1: Id, r2: Id)
    requires
        s.wf(),
        h < s.mesh.nh(),
        s.mesh.he(s.mesh.he(h as int).opposite as int).opposite == h,
        s.edge_data_set@[s.mesh.canonical(h as int)] == Some(r1),
        s.edge_data_set@[s.mesh.canonical(s.mesh.he(h as int).opposite as int)] == Some(r2),
    ensures
        r1 == r2,
{
}

/// The first `k1` faces' corners open the list of the first `k2` faces'.
proof fn lemma_corner_seq_prefix(m: &Mesh, k1: nat, k2: nat)
    requires
        k1 <= k2,
    ensures
        corner_seq(m, k1).len() <= corner_seq(m, k2).len(),
        corner_seq(m, k2).subrange(0, corner_seq(m, k1).len() as int) == corner_seq(m, k1),
    decreases k2,
{
    if k1 < k2 {
        let k = (k2 - 1) as nat;
        lemma_corner_seq_prefix(m, k1, k);
        assert(corner_seq(m, k2) == corner_seq(m, k) + face_corners(m, k as int));
        assert(corner_seq(m, k2).subrange(0, corner_seq(m, k1).len() as int)
            =~= corner_seq(m, k).subrange(0, corner_seq(m, k1).len() as int));
    } else {
        assert(corner_seq(m, k2).subrange(0, corner_seq(m, k1).len() as int) =~= corner_seq(m, k1));
    }
}

/// Corner `j` of face `f` stands in the list of all corners.
proof fn lemma_corner_in_seq(m: &Mesh, f: int, j: int)
    requires
        0 <= f < m.nf(),
        0 <= j < m.degree(f),
    ensures
        ({
            let q = corner_seq(m, f as nat).len() + j;
            &&& q < corner_seq(m, m.nf()).len()
            &&& corner_seq(m, m.nf())[q] == (f as Id, m.next_iter(m.face_start(f), j as nat) as Id)
        }),
{
    let k = (f + 1) as nat;
    lemma_corner_seq_prefix(m, k, m.nf());
    assert(corner_seq(m, k) == corner_seq(m, f as nat) + face_corners(m, f));
    let q = corner_seq(m, f as nat).len() + j;
    assert(corner_seq(m, m.nf()).subrange(0, corner_seq(m, k).len() as int)[q] == corner_seq(m, m.nf())[q]);
}

/// The halfedges of the corners of the first `k` faces.
pub open spec fn corner_halfedges(m: &Mesh, k: nat) -> Seq<int> {
    corner_seq(m, k).map_values(|c: (Id, Id)| c.1 as int)
}

proof fn lemma_corner_halfedges_distinct(m: &Mesh, k: nat)
    requires
        m.is_closed(),
        k <= m.nf(),
    ensures
        corner_halfedges(m, k).no_duplicates(),
        forall|i: int| 0 <= i < corner_halfedges(m, k).len() ==> {
            &&& 0 <= #[trigger] corner_halfedges(m, k)[i] < m.nh()
            &&& m.he(corner_halfedges(m, k)[i]).face < k
        },
    decreases k,
{
    if k > 0 {
        let f = (k - 1) as int;
        let a = corner_halfedges(m, f as nat);
        let start = m.face_start(f);
        let b = face_corners(m, f).map_values(|c: (Id, Id)| c.1 as int);
        lemma_corner_halfedges_distinct(m, f as nat);
        assert(corner_seq(m, k) == corner_seq(m, f as nat) + face_corners(m, f));
        assert(corner_halfedges(m, k) =~= a + b);
        assert(m.faces@[f].halfedge < m.nh());
        assert(m.next_iter(start, m.degree(f)) == start);
        assert forall|j: int| 0 <= j < b.len() implies {
            &&& 0 <= #[trigger] b[j] < m.nh()
            &&& m.he(b[j]).face == f
            &&& b[j] == m.next_iter(start, j as nat)
        } by {
            m.lemma_next_iter_in_range(start, j as nat);
            assert(m.he(m.next_iter(start, j as nat)).face == f);
        }
        assert forall|i: int, j: int| 0 <= i < b.len() && 0 <= j < b.len() && i != j implies b[i] != b[j] by {
            if i < j {
                m.lemma_walk_distinct(start, i as nat, j as nat);
            } else {
                m.lemma_walk_distinct(start, j as nat, i as nat);
            }
        }
        assert forall|i: int, j: int| 0 <= i < a.len() && 0 <= j < b.len() implies a[i] != b[j] by {
            assert(m.he(a[i]).face < f);
        }
        vstd::seq_lib::lemma_no_dup_in_concat(a, b);
        assert forall|i: int| 0 <= i < corner_halfedges(m, k).len() implies {
            &&& 0 <= #[trigger] corner_halfedges(m, k)[i] < m.nh()
            &&& m.he(corner_halfedges(m, k)[i]).face < k
        } by {
            if i >= a.len() {
                assert(corner_halfedges(m, k)[i] == b[i - a.len()]);
            } else {
                assert(corner_halfedges(m, k)[i] == a[i]);
            }
        }
    }
}

/// In a closed mesh each halfedge is the corner of exactly one output quad.
pub proof fn lemma_closed_corner_count(m: &Mesh)
    requires
        m.is_closed(),
    ensures
        corner_seq(m, m.nf()).len() == m.nh(),
{
    let hs = corner_halfedges(m, m.nf());
    lemma_corner_halfedges_distinct(m, m.nf());
    hs.unique_seq_to_set();
    assert forall|h: int| hs.to_set().contains(h) <==> vstd::set_lib::set_int_range(0, m.nh() as int).contains(h) by {
        if 0 <= h < m.nh() {
            assert(m.on_own_face(h));
            let f = m.he(h).face as int;
            let j = choose|j: int| 0 <= j < m.degree(f) && #[trigger] m.next_iter(m.face_start(f), j as nat) == h;
            lemma_corner_in_seq(m, f, j);
            let q = corner_seq(m, f as nat).len() + j;
            assert(hs[q] == h);
        }
        if hs.to_set().contains(h) {
            let i = choose|i: int| 0 <= i < hs.len() && hs[i] == h;
        }
    }
    assert(hs.to_set() =~= vstd::set_lib::set_int_range(0, m.nh() as int));
    vstd::set_lib::lemma_int_range(0, m.nh() as int);
}

proof fn lemma_count_some_full<T>(s: Seq<Option<T>>)
    requires
        forall|i: int| 0 <= i < s.len() ==> #[trigger] s[i] is Some,
    ensures
        count_some(s) == s.len(),
    decreases s.len(),
{
    if s.len() > 0 {
        lemma_count_some_full(s.drop_last());
    }
}

proof fn lemma_count_some_edges<T>(m: &Mesh, s: Seq<Option<T>>)
    requires
        forall|i: int| 0 <= i < s.len() ==> (#[trigger] s[i] is Some <==> m.is_edge_rep(i)),
    ensures
        count_some(s) == m.count_edge_reps(s.len() as int),
    decreases s.len(),
{
    if s.len() > 0 {
        let t = s.drop_last();
        assert forall|i: int| 0 <= i < t.len() implies (#[trigger] t[i] is Some <==> m.is_edge_rep(i)) by {
            assert(t[i] == s[i]);
        }
        lemma_count_some_edges(m, t);
        assert(s.last() is Some <==> m.is_edge_rep(s.len() - 1));
    }
}

impl<'a> CatmullClarkSubdivider<'a> {
    /// The quad made for corner `j` of face `f` and the points it reaches.
    proof fn lemma_corner_points(&self, f: int, j: int)
        requires
            self.wf(),
            self.mesh.is_closed(),
            self.quads_match(corner_seq(self.mesh, self.mesh.nf())),
            0 <= f < self.mesh.nf(),
            0 <= j < self.mesh.degree(f),
        ensures
            ({
                let m = self.mesh;
                let h = m.next_iter(m.face_start(f), j as nat);
                let n = m.he(h).next as int;
                &&& self.face_data_set@[f] is Some
                &&& self.edge_data_set@[m.canonical(h)] is Some
                &&& self.vertex_data_set@[m.he(n).vertex as int] is Some
            }),
    {
        let m = self.mesh;
        let out = &self.generated_mesh;
        let start = m.face_start(f);
        let h = m.next_iter(start, j as nat);
        assert(m.faces@[f].halfedge < m.nh());
        m.lemma_next_iter_in_range(start, j as nat);
        lemma_corner_in_seq(m, f, j);
        let q = corner_seq(m, f as nat).len() + j;
        let c = corner_seq(m, m.nf())[q];
        assert(quad_of_corner(m, out, self.sources@, q, c));
        assert(m.he(h).next < m.nh());
        let n = m.he(h).next as int;
        assert(m.he(n).vertex < m.nv());
        assert(0 <= m.canonical(h) < m.nh());
        assert(out.he(4 * q).vertex < out.nv());
        assert(out.he(4 * q + 1).vertex < out.nv());
        assert(out.he(4 * q + 2).vertex < out.nv());
    }

    /// After a whole pass over a closed mesh, one point has been made for each
    /// face, each edge and each vertex.
    proof fn lemma_all_points_made(&self)
        requires
            self.wf(),
            self.mesh.is_closed(),
            self.quads_match(corner_seq(self.mesh, self.mesh.nf())),
        ensures
            self.sources@.len() == self.mesh.nv() + self.mesh.edge_count() + self.mesh.nf(),
    {
        let m = self.mesh;
        assert forall|f: int| 0 <= f < m.nf() implies #[trigger] self.face_data_set@[f] is Some by {
            assert(m.faces@[f].halfedge < m.nh());
            m.lemma_return_from_le(m.face_start(f), 1);
            self.lemma_corner_points(f, 0);
        }
        assert forall|v: int| 0 <= v < m.nv() implies #[trigger] self.vertex_data_set@[v] is Some by {
            assert(m.vertices@[v].halfedges@.len() >= 1);
            let g = m.vertices@[v].halfedges@[0] as int;
            assert(m.he(g).vertex == v);
            assert(m.on_own_face(g));
            let f = m.he(g).face as int;
            let start = m.face_start(f);
            let j = choose|j: int| 0 <= j < m.degree(f) && #[trigger] m.next_iter(start, j as nat) == g;
            let jp = if j > 0 { j - 1 } else { m.degree(f) - 1 };
            assert(m.next_iter(start, m.degree(f)) == start);
            assert(m.faces@[f].halfedge < m.nh());
            m.lemma_next_iter_in_range(start, jp as nat);
            assert(m.next_iter(start, (jp + 1) as nat) == m.next_of(m.next_iter(start, jp as nat)));
            self.lemma_corner_points(f, jp);
        }
        assert forall|h: int| 0 <= h < m.nh() implies (#[trigger] self.edge_data_set@[h] is Some <==> m.is_edge_rep(h)) by {
            if m.is_edge_rep(h) {
                let g = choose|g: int| 0 <= g < m.nh() && #[trigger] m.canonical(g) == h;
                assert(m.on_own_face(g));
                let f = m.he(g).face as int;
                let j = choose|j: int| 0 <= j < m.degree(f) && #[trigger] m.next_iter(m.face_start(f), j as nat) == g;
                self.lemma_corner_points(f, j);
            }
        }
        lemma_count_some_full(self.face_data_set@);
        lemma_count_some_full(self.vertex_data_set@);
        lemma_count_some_edges(m, self.edge_data_set@);
    }
}

/// One level of subdivision of a mesh.
pub trait Subdivide: Sized {
    /// The meshes that can be subdivided.
    spec fn subdividable(&self) -> bool;

    /// `r` is the subdivision of `self`.
    spec fn subdivides_to(&self, r: &Self) -> bool;

    fn subdivide(&self) -> (r: Self)
        requires
            self.subdividable(),
        ensures
            self.subdivides_to(&r),
    ;
}

impl Subdivide for Mesh {
    open spec fn subdividable(&self) -> bool {
        &&& self.links_wf()
        &&& 4 * corner_seq(self, self.nf()).len() + 4 <= usize::MAX
    }

    /// A quad mesh, itself with live links, with one face per corner of
    /// `self`, joining in each the points that its output vertices stand for
    /// as `generate` does; for a closed mesh, one vertex per vertex, edge and face of
    /// `self` and one face per halfedge.
    open spec fn subdivides_to(&self, r: &Mesh) -> bool {
        &&& quads_wf(r)
        &&& r.links_wf()
        &&& r.nf() == corner_seq(self, self.nf()).len()
        &&& exists|s: Seq<PointSource>| {
            &&& s.len() == r.nv()
            &&& forall|i: int, j: int| 0 <= i < j < s.len() ==> s[i] != s[j]
            &&& forall|q: int| 0 <= q < r.nf() ==>
                quad_of_corner(self, r, s, q, #[trigger] corner_seq(self, self.nf())[q])
        }
        &&& self.is_closed() ==> {
            &&& r.nv() == self.nv() + self.edge_count() + self.nf()
            &&& r.nf() == self.nh()
        }
    }

    fn subdivide(&self) -> (r: Mesh) {
        let out = CatmullClarkSubdivider::new(self).generate();
        proof {
            lemma_quads_links_wf(&out.mesh);
        }
        out.mesh
    }
}

} // verus!
