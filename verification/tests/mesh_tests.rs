//! Construction and topology tests on a regular tetrahedron.

use halfedge::{build_mesh, MeshError, Vec3};

/// Half the edge length of the test tetrahedron, in fixed-point units.
const C: i64 = 181;

fn tetra_positions() -> Vec<Vec3> {
    vec![
        Vec3::new(C, C, C),
        Vec3::new(C, -C, -C),
        Vec3::new(-C, C, -C),
        Vec3::new(-C, -C, C),
    ]
}

fn tetra_indices() -> Vec<usize> {
    vec![0, 1, 2, 0, 3, 1, 1, 3, 2, 2, 3, 0]
}

#[test]
fn tetra_builds() {
    let m = build_mesh(tetra_indices(), tetra_positions()).unwrap();
    assert_eq!(m.num_vertices(), 4);
    assert_eq!(m.num_faces(), 4);
    assert_eq!(m.num_halfedges(), 12);
}

#[test]
fn twin_symmetry() {
    let m = build_mesh(tetra_indices(), tetra_positions()).unwrap();
    for e in 0..m.num_halfedges() {
        let t = m.twin_edge(e);
        assert_ne!(t, e);
        assert_eq!(m.twin_edge(t), e);
        // The twin runs the same undirected edge backwards.
        assert_eq!(m.origin_vertex(t), m.dest_vertex(e));
        assert_eq!(m.dest_vertex(t), m.origin_vertex(e));
    }
}

#[test]
fn face_closure() {
    let m = build_mesh(tetra_indices(), tetra_positions()).unwrap();
    for e in 0..m.num_halfedges() {
        assert_eq!(m.next_edge(m.next_edge(m.next_edge(e))), e);
        assert_eq!(m.edge_face(e), e / 3);
    }
}

#[test]
fn face_vertices_match_indices() {
    let idx = tetra_indices();
    let m = build_mesh(tetra_indices(), tetra_positions()).unwrap();
    for f in 0..m.num_faces() {
        let (a, b, c) = m.face_vertices(f);
        assert_eq!(a, idx[3 * f]);
        assert_eq!(b, idx[3 * f + 1]);
        assert_eq!(c, idx[3 * f + 2]);
    }
}

#[test]
fn vertex_neighbors_complete() {
    let m = build_mesh(tetra_indices(), tetra_positions()).unwrap();
    for v in 0..4 {
        let mut nbrs = m.vertex_neighbors(v);
        nbrs.sort();
        let expected: Vec<usize> = (0..4).filter(|&u| u != v).collect();
        assert_eq!(nbrs, expected);
    }
}

#[test]
fn walker_traverses() {
    let m = build_mesh(tetra_indices(), tetra_positions()).unwrap();
    let w = halfedge::Walker::at_halfedge(&m, 0);
    assert_eq!(w.step_next(&m).halfedge(), 1);
    assert_eq!(w.step_twin(&m).halfedge(), m.twin_edge(0));
    // Rotating keeps the origin vertex.
    let r = w.rotate(&m);
    assert_eq!(m.origin_vertex(r.halfedge()), m.origin_vertex(0));
}

fn expect_error(r: Result<halfedge::Mesh, MeshError>) -> MeshError {
    match r {
        Err(e) => e,
        Ok(_) => panic!("expected construction to fail"),
    }
}

#[test]
fn open_mesh_rejected() {
    let r = build_mesh(vec![0, 1, 2], tetra_positions());
    assert_eq!(expect_error(r), MeshError::NonManifoldEdge);
}

#[test]
fn duplicate_edge_rejected() {
    let r = build_mesh(vec![0, 1, 2, 0, 1, 2], tetra_positions());
    assert_eq!(expect_error(r), MeshError::NonManifoldEdge);
}

#[test]
fn degenerate_triangle_rejected() {
    let r = build_mesh(vec![0, 0, 1], tetra_positions());
    assert_eq!(expect_error(r), MeshError::MalformedTopology);
}

#[test]
fn out_of_range_index_rejected() {
    let r = build_mesh(vec![0, 1, 9], tetra_positions());
    assert_eq!(expect_error(r), MeshError::MalformedTopology);
}

#[test]
fn buffers_flatten_geometry() {
    let m = build_mesh(tetra_indices(), tetra_positions()).unwrap();
    let pb = m.positions_buffer();
    assert_eq!(pb.len(), 12);
    assert_eq!(&pb[0..3], &[C, C, C]);
    assert_eq!(&pb[3..6], &[C, -C, -C]);
    let ib = m.indices_buffer();
    assert_eq!(ib, tetra_indices());
    let nb = m.normals_buffer();
    assert_eq!(nb.len(), 12);
}

#[test]
fn tetra_normals_point_outward() {
    let m = build_mesh(tetra_indices(), tetra_positions()).unwrap();
    // By symmetry the accumulated normal of vertex 0 lies along (1, 1, 1);
    // normalized to scale 1024 each component is exactly 591.
    assert_eq!(m.vertex_normal(0), Vec3::new(591, 591, 591));
    // Every vertex normal points away from the center.
    for v in 0..4 {
        let p = m.vertex_position(v);
        let n = m.vertex_normal(v);
        assert!(p.x * n.x + p.y * n.y + p.z * n.z > 0);
    }
}
