use catmull_clark::mesh::{Id, Mesh};
use catmull_clark::subdivide::{CatmullClarkSubdivider, PointSource, Subdivide};

fn build(vertex_count: usize, polygons: &[&[Id]]) -> Mesh {
    let polys: Vec<Vec<Id>> = polygons.iter().map(|p| p.to_vec()).collect();
    Mesh::from_polygons(vertex_count, &polys).expect("valid polygons")
}

fn cube() -> Mesh {
    build(
        8,
        &[
            &[0, 3, 2, 1],
            &[4, 5, 6, 7],
            &[0, 1, 5, 4],
            &[1, 2, 6, 5],
            &[2, 3, 7, 6],
            &[3, 0, 4, 7],
        ],
    )
}

fn triangle() -> Mesh {
    build(3, &[&[0, 1, 2]])
}

fn cube_positions() -> Vec<[f32; 3]> {
    vec![
        [0.0, 0.0, 0.0],
        [1.0, 0.0, 0.0],
        [1.0, 1.0, 0.0],
        [0.0, 1.0, 0.0],
        [0.0, 0.0, 1.0],
        [1.0, 0.0, 1.0],
        [1.0, 1.0, 1.0],
        [0.0, 1.0, 1.0],
    ]
}

fn count_kind(sources: &[PointSource], kind: fn(&PointSource) -> bool) -> usize {
    sources.iter().filter(|s| kind(s)).count()
}

#[test]
fn cube_fixture_counts() {
    let m = cube();
    assert_eq!(m.vertex_count(), 8);
    assert_eq!(m.halfedge_count(), 24);
    assert_eq!(m.face_count(), 6);
    assert!(m.links_ok());
    for h in 0..24 {
        let he = m.halfedge(h).unwrap();
        assert_ne!(he.opposite, h);
        assert_eq!(m.halfedge(he.opposite).unwrap().opposite, h);
    }
    for v in 0..8 {
        assert_eq!(m.vertex(v).unwrap().halfedges.len(), 3);
    }
}

#[test]
fn cube_subdivides_once() {
    let m = cube();
    let r = CatmullClarkSubdivider::new(&m).generate();
    assert_eq!(r.mesh.vertex_count(), 8 + 12 + 6);
    assert_eq!(r.mesh.face_count(), 24);
    assert_eq!(r.mesh.halfedge_count(), 96);
    assert_eq!(r.sources.len(), 26);
    assert_eq!(count_kind(&r.sources, |s| matches!(s, PointSource::FacePoint(_))), 6);
    assert_eq!(count_kind(&r.sources, |s| matches!(s, PointSource::EdgePoint(_))), 12);
    assert_eq!(count_kind(&r.sources, |s| matches!(s, PointSource::VertexPoint(_))), 8);
    for f in 0..r.mesh.face_count() {
        let start = r.mesh.face(f).unwrap().halfedge;
        assert_eq!(r.mesh.face_halfedges(start).len(), 4);
    }
    for v in 0..r.mesh.vertex_count() {
        for &h in r.mesh.vertex(v).unwrap().halfedges.iter() {
            assert_eq!(r.mesh.halfedge(h).unwrap().vertex, v);
        }
    }
}

#[test]
fn triangle_subdivides_into_three_quads() {
    let m = triangle();
    let r = CatmullClarkSubdivider::new(&m).generate();
    assert_eq!(r.mesh.face_count(), 3);
    assert_eq!(r.mesh.vertex_count(), 3 + 3 + 1);
    for f in 0..3 {
        let start = r.mesh.face(f).unwrap().halfedge;
        assert_eq!(r.mesh.face_halfedges(start).len(), 4);
    }
}

#[test]
fn first_quad_corners() {
    let m = triangle();
    let r = CatmullClarkSubdivider::new(&m).generate();
    let start = r.mesh.face(0).unwrap().halfedge;
    let corners: Vec<PointSource> = r
        .mesh
        .face_vertices(0)
        .iter()
        .map(|&v| r.sources[v])
        .collect();
    assert_eq!(start, 0);
    assert_eq!(
        corners,
        vec![
            PointSource::FacePoint(0),
            PointSource::EdgePoint(0),
            PointSource::VertexPoint(1),
            PointSource::EdgePoint(1),
        ]
    );
    assert_eq!(r.sources[0], PointSource::FacePoint(0));
}

#[test]
fn subdividing_twice_gives_sixteen_faces_per_quad() {
    let m = cube();
    let once = m.subdivide();
    let twice = once.subdivide();
    assert_eq!(once.face_count(), 4 * 6);
    assert_eq!(twice.face_count(), 16 * 6);
}

#[test]
fn face_and_edge_points_are_memoized() {
    let m = cube();
    let mut s = CatmullClarkSubdivider::new(&m);
    let a = s.face_point(2);
    let b = s.face_point(2);
    assert_eq!(a, b);
    assert_eq!(s.generated_mesh.vertex_count(), 1);
    let e = s.edge_point(5);
    let e2 = s.edge_point(5);
    assert_eq!(e, e2);
    let v = s.vertex_point(0);
    assert_eq!(s.vertex_point(0), v);
    let n = s.generated_mesh.vertex_count();
    s.vertex_point(0);
    s.face_point(0);
    assert_eq!(s.generated_mesh.vertex_count(), n);
}

#[test]
fn edge_point_shared_with_opposite() {
    let m = cube();
    let mut s = CatmullClarkSubdivider::new(&m);
    for h in 0..m.halfedge_count() {
        let o = m.halfedge(h).unwrap().opposite;
        assert_eq!(m.peek_same_halfedge(h), m.peek_same_halfedge(o));
        assert_eq!(m.peek_same_halfedge(h), h.min(o));
        let a = s.edge_point(h);
        let b = s.edge_point(o);
        assert_eq!(a, b);
    }
}

#[test]
fn edge_point_generates_face_points_first() {
    let m = cube();
    let mut s = CatmullClarkSubdivider::new(&m);
    let e = s.edge_point(0);
    assert_eq!(e, 2);
    assert_eq!(s.sources.len(), 3);
    assert!(matches!(s.sources[0], PointSource::FacePoint(_)));
    assert!(matches!(s.sources[1], PointSource::FacePoint(_)));
}

#[test]
fn centers_are_averages() {
    let positions = cube_positions();
    let avg = |ids: &[Id]| {
        let mut c = [0.0f32; 3];
        for &i in ids {
            for k in 0..3 {
                c[k] += positions[i][k];
            }
        }
        c.map(|x| x / ids.len() as f32)
    };
    // triangle, quad and pentagon faces over the cube's corners
    let m = build(8, &[&[0, 1, 2], &[0, 1, 2, 3], &[0, 1, 5, 6, 7]]);
    assert_eq!(m.face_vertices(0), vec![0, 1, 2]);
    assert_eq!(m.face_vertices(1), vec![0, 1, 2, 3]);
    assert_eq!(m.face_vertices(2), vec![0, 1, 5, 6, 7]);
    assert_eq!(avg(&m.face_vertices(1)), [0.5, 0.5, 0.0]);
    assert_eq!(avg(&m.face_vertices(0)), [2.0 / 3.0, 1.0 / 3.0, 0.0]);
    assert_eq!(avg(&m.face_vertices(2)), [0.6, 0.4, 0.6]);
    let (a, b) = m.edge_endpoints(0);
    assert_eq!((a, b), (0, 1));
    assert_eq!(avg(&[a, b]), [0.5, 0.0, 0.0]);
    let (c, d) = m.edge_endpoints(2);
    assert_eq!((c, d), (2, 0));
}

#[test]
fn polygons_rejected() {
    let short: Vec<Vec<Id>> = vec![vec![0, 1]];
    assert!(Mesh::from_polygons(3, &short).is_none());
    let missing: Vec<Vec<Id>> = vec![vec![0, 1, 3]];
    assert!(Mesh::from_polygons(3, &missing).is_none());
    let none: Vec<Vec<Id>> = vec![];
    let empty = Mesh::from_polygons(2, &none).unwrap();
    assert_eq!(empty.vertex_count(), 2);
    assert_eq!(empty.face_count(), 0);
}

#[test]
fn lookups_fail_outside_the_arenas() {
    let m = triangle();
    assert!(m.vertex(3).is_none());
    assert!(m.halfedge(3).is_none());
    assert!(m.face(1).is_none());
    assert!(m.face(0).is_some());
    assert_eq!(m.halfedge(1).unwrap().next, 2);
    assert_eq!(m.halfedge(2).unwrap().next, 0);
}

#[test]
fn triangle_has_unpaired_halfedges() {
    let m = triangle();
    for h in 0..3 {
        assert_eq!(m.halfedge(h).unwrap().opposite, h);
        assert_eq!(m.peek_same_halfedge(h), h);
    }
}

#[test]
fn built_mesh_links() {
    let mut m = Mesh::new();
    let v = m.add_vertex();
    let a = m.add_halfedge();
    let b = m.add_halfedge();
    let f = m.add_face();
    m.link_halfedges(a, b);
    m.set_face_halfedge(f, a);
    m.add_vertex_halfedge(v, a);
    assert_eq!(m.halfedge(a).unwrap().next, b);
    assert_eq!(m.face(f).unwrap().halfedge, a);
    assert_eq!(m.vertex(v).unwrap().halfedges, vec![a]);
    assert!(m.links_ok());
    m.link_halfedges(b, 7);
    assert!(!m.links_ok());
}

#[test]
fn output_counts_follow_input_counts() {
    for m in [cube(), triangle(), build(5, &[&[0, 1, 2, 3, 4], &[4, 3, 2, 1, 0]])] {
        let v = m.vertex_count();
        let e = m.count_edges();
        let f = m.face_count();
        let h = m.halfedge_count();
        let r = CatmullClarkSubdivider::new(&m).generate();
        assert_eq!(r.mesh.vertex_count(), v + e + f);
        assert_eq!(r.mesh.face_count(), h);
        assert_eq!(r.mesh.halfedge_count(), 4 * h);
    }
}

#[test]
fn edge_counts() {
    assert_eq!(cube().count_edges(), 12);
    assert_eq!(triangle().count_edges(), 3);
    let pentagon_pair = build(5, &[&[0, 1, 2, 3, 4], &[4, 3, 2, 1, 0]]);
    assert_eq!(pentagon_pair.count_edges(), 5);
    assert_eq!(pentagon_pair.halfedge_count(), 10);
}

#[test]
fn closed_meshes() {
    assert!(cube().check_closed());
    assert!(triangle().check_closed());
    let isolated = build(4, &[&[0, 1, 2]]);
    assert!(!isolated.check_closed());
    let r = CatmullClarkSubdivider::new(&cube()).generate();
    assert!(r.mesh.check_closed());
    let mut broken = triangle();
    broken.link_halfedges(2, 1);
    assert!(!broken.check_closed());
}

#[test]
fn polygons_laid_out_in_order() {
    let polys: [&[Id]; 2] = [&[0, 1, 2], &[2, 1, 3, 4]];
    let m = build(5, &polys);
    assert_eq!(m.halfedge_count(), 7);
    assert_eq!(m.face(0).unwrap().halfedge, 0);
    assert_eq!(m.face(1).unwrap().halfedge, 3);
    for (q, poly) in polys.iter().enumerate() {
        let first = if q == 0 { 0 } else { 3 };
        for (j, &v) in poly.iter().enumerate() {
            let he = m.halfedge(first + j).unwrap();
            assert_eq!(he.vertex, v);
            assert_eq!(he.face, q);
            let next = if j + 1 == poly.len() { first } else { first + j + 1 };
            assert_eq!(he.next, next);
            assert!(m.vertex(v).unwrap().halfedges.contains(&(first + j)));
        }
    }
    // 1 -> 2 in the triangle and 2 -> 1 in the quad are twins
    assert_eq!(m.halfedge(1).unwrap().opposite, 3);
    assert_eq!(m.halfedge(3).unwrap().opposite, 1);
}
