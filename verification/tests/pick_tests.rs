//! Ray picking tests: face, vertex and edge classification on a
//! tetrahedron.

use halfedge::{build_mesh, intersect, Hit, Mesh, Vec3};

const C: i64 = 181;

fn tetra() -> Mesh {
    let positions = vec![
        Vec3::new(C, C, C),
        Vec3::new(C, -C, -C),
        Vec3::new(-C, C, -C),
        Vec3::new(-C, -C, C),
    ];
    let indices = vec![0, 1, 2, 0, 3, 1, 1, 3, 2, 2, 3, 0];
    build_mesh(indices, positions).unwrap()
}

#[test]
fn centroid_ray_hits_face() {
    let m = tetra();
    // Centroid of face 0 is at roughly (60, 60, -60); approach it from
    // outside along the face normal (1, 1, -1).
    let origin = Vec3::new(560, 560, -560);
    let dir = Vec3::new(-1, -1, 1);
    match intersect(&m, origin, dir) {
        Some(Hit::Face(f, p)) => {
            assert_eq!(f, 0);
            assert!((p.x - 60).abs() <= 2 && (p.y - 60).abs() <= 2 && (p.z + 60).abs() <= 2);
        },
        other => panic!("expected a face hit, got {:?}", other),
    }
}

#[test]
fn vertex_ray_hits_vertex() {
    let m = tetra();
    // Aim exactly at vertex 0 from outside.
    let origin = Vec3::new(C + 100, C + 100, C + 100);
    let dir = Vec3::new(-1, -1, -1);
    match intersect(&m, origin, dir) {
        Some(Hit::Vertex(v, p)) => {
            assert_eq!(v, 0);
            assert_eq!(p, Vec3::new(C, C, C));
        },
        other => panic!("expected a vertex hit, got {:?}", other),
    }
}

#[test]
fn edge_midpoint_ray_hits_edge() {
    let m = tetra();
    // The midpoint of the edge between vertices 0 and 1 is (C, 0, 0);
    // half-edge 0 runs from vertex 0 to vertex 1.
    let origin = Vec3::new(C + 100, 0, 0);
    let dir = Vec3::new(-1, 0, 0);
    match intersect(&m, origin, dir) {
        Some(Hit::Edge(e, p)) => {
            assert_eq!(e, 0);
            assert_eq!(p, Vec3::new(C, 0, 0));
        },
        other => panic!("expected an edge hit, got {:?}", other),
    }
}

#[test]
fn ray_through_center_hits_near_face_only() {
    let m = tetra();
    // A ray through the body hits the near face, not the far one.
    let origin = Vec3::new(560, 560, -560);
    let dir = Vec3::new(-1, -1, 1);
    let h = intersect(&m, origin, dir).unwrap();
    match h {
        Hit::Face(f, _) => assert_eq!(f, 0),
        other => panic!("expected a face hit, got {:?}", other),
    }
}

#[test]
fn miss_returns_none() {
    let m = tetra();
    let origin = Vec3::new(2000, 0, 0);
    let dir = Vec3::new(1, 0, 0);
    assert_eq!(intersect(&m, origin, dir), None);
}

#[test]
fn zero_direction_returns_none() {
    let m = tetra();
    let origin = Vec3::new(0, 0, 0);
    assert_eq!(intersect(&m, origin, Vec3::new(0, 0, 0)), None);
}
