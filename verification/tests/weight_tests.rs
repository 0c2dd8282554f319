//! Region-growth weight and displacement tests.

use halfedge::{build_mesh, compute_weights, falloff, Mesh, Vec3, MAX_DIST_SQ, SCALE};

const C: i64 = 181;

fn tetra_scaled(c: i64) -> Mesh {
    let positions = vec![
        Vec3::new(c, c, c),
        Vec3::new(c, -c, -c),
        Vec3::new(-c, c, -c),
        Vec3::new(-c, -c, c),
    ];
    let indices = vec![0, 1, 2, 0, 3, 1, 1, 3, 2, 2, 3, 0];
    build_mesh(indices, positions).unwrap()
}

#[test]
fn falloff_exact_values() {
    // At the seed the falloff is exactly one (SCALE in fixed point).
    assert_eq!(falloff(0), SCALE);
    // At a quarter of the squared cutoff: 1 - (1/4)^2 (3 - 1/2) = 27/32.
    assert_eq!(falloff(MAX_DIST_SQ / 4), 27 * SCALE / 32);
    // At half: 1 - (1/2)^2 (3 - 1) = 1/2.
    assert_eq!(falloff(MAX_DIST_SQ / 2), SCALE / 2);
}

#[test]
fn falloff_monotone_samples() {
    let mut prev = falloff(0);
    let samples = [1, 100, 10_000, 262_088, 524_288, 1_000_000, MAX_DIST_SQ - 1];
    for &d2 in samples.iter() {
        let f = falloff(d2);
        assert!(f <= prev, "falloff rose between samples at {}", d2);
        prev = f;
    }
    assert!(falloff(MAX_DIST_SQ - 1) >= 0);
}

#[test]
fn tetra_weights_cover_all_vertices() {
    // Edge length 0.5 model units: every vertex sits inside the cutoff of
    // any other, so seeding at vertex 0 weights the whole tetrahedron.
    let m = tetra_scaled(C);
    let seed_point = m.vertex_position(0);
    let w = compute_weights(&m, 0, seed_point);
    assert_eq!(w.len(), 4);
    assert!(w.iter().all(|e| e.is_some()));
    // The seed is at distance zero: its weight is exactly its normal
    // (falloff scalar one).
    assert_eq!(w[0].unwrap(), m.vertex_normal(0));
    // Its neighbours sit at squared distance 8 C^2, inside the cutoff but
    // away from the seed: their falloff scalar is strictly below one.
    let d2 = 8 * C * C;
    assert!(d2 < MAX_DIST_SQ);
    assert!(falloff(d2) < SCALE);
    for v in 1..4 {
        let wv = w[v].unwrap();
        let n = m.vertex_normal(v);
        // Scaled down, never amplified, and not zeroed.
        assert!(wv.x.abs() < n.x.abs() && wv.y.abs() < n.y.abs() && wv.z.abs() < n.z.abs());
        assert!(wv.x != 0 || wv.y != 0 || wv.z != 0);
    }
}

#[test]
fn weights_respect_distance_cutoff() {
    // Edge length far above one model unit: only the seed itself lies
    // inside the cutoff.
    let m = tetra_scaled(1000);
    let seed_point = m.vertex_position(0);
    let w = compute_weights(&m, 0, seed_point);
    assert!(w[0].is_some());
    for v in 1..4 {
        assert!(w[v].is_none());
    }
}

#[test]
fn weights_identical_for_any_seed_vertex_order() {
    // The mapping depends only on the seed data, not on traversal order:
    // two runs agree entry for entry.
    let m = tetra_scaled(C);
    let seed_point = m.vertex_position(2);
    let w1 = compute_weights(&m, 2, seed_point);
    let w2 = compute_weights(&m, 2, seed_point);
    assert_eq!(w1, w2);
}

#[test]
fn displace_moves_one_vertex_only() {
    let mut m = tetra_scaled(C);
    let before_indices = m.indices_buffer();
    let before_twins: Vec<usize> = (0..12).map(|e| m.twin_edge(e)).collect();
    m.displace(0, Vec3::new(100, -50, 25));
    assert_eq!(m.vertex_position(0), Vec3::new(C + 100, C - 50, C + 25));
    for v in 1..4 {
        assert_eq!(m.vertex_position(v), tetra_scaled(C).vertex_position(v));
    }
    // Topology is untouched by displacement.
    assert_eq!(m.indices_buffer(), before_indices);
    let after_twins: Vec<usize> = (0..12).map(|e| m.twin_edge(e)).collect();
    assert_eq!(after_twins, before_twins);
}

#[test]
fn displace_refreshes_normals() {
    let mut m = tetra_scaled(C);
    let n1 = m.vertex_normal(1);
    // On a closed surface the accumulated normal of a vertex equals minus
    // the sum over the faces it does not touch, so moving vertex 0
    // reshapes the normals of its neighbours.
    m.displace(0, Vec3::new(400, 0, 0));
    assert_ne!(m.vertex_normal(1), n1);
    // Displacing back restores the original geometry and normals.
    m.displace(0, Vec3::new(-400, 0, 0));
    assert_eq!(m.vertex_normal(1), n1);
    assert_eq!(m.vertex_position(0), Vec3::new(C, C, C));
}

#[test]
fn displace_repeatable_per_batch() {
    let mut m = tetra_scaled(C);
    m.displace(0, Vec3::new(10, 0, 0));
    m.displace(1, Vec3::new(0, 10, 0));
    m.displace(0, Vec3::new(-10, 0, 0));
    assert_eq!(m.vertex_position(0), Vec3::new(C, C, C));
    assert_eq!(m.vertex_position(1), Vec3::new(C, -C + 10, -C));
}
