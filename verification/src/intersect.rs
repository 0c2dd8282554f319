//! Ray picking: the nearest ray-triangle intersection, classified as a
//! face, edge or vertex hit.
//!
//! Every face is tested with an exact integer Moller-Trumbore predicate:
//! the barycentric numerators and the determinant are computed in `i64`
//! and compared as rationals by cross-multiplication, so no precision is
//! lost.  Among the hit faces the one with the smallest ray parameter
//! wins; an exact tie resolves to the lowest face id.  The winning point
//! is classified by its barycentric coordinates: within `EPS_DEN`ths of a
//! corner it is a vertex hit, within `EPS_DEN`ths of a side it is an edge
//! hit on the half-edge opposite that corner, and otherwise a face hit.

use vstd::prelude::*;

use crate::math::{
    bnd, bounded, crosss, div_tz, dots, lemma_cross_range, lemma_div_tz_bound, lemma_dot_range,
    lemma_mul_bnd, mul_div_trunc, sgn, subs, v_cross, v_dot, v_sub, zero3, Vec3, COORD_LIMIT,
};
use crate::mesh::Mesh;
use crate::normals::corner_pos;

verus! {

/// Classification tolerance: a barycentric coordinate within `1 / EPS_DEN`
/// of `0` or `1` counts as lying on the boundary.
pub const EPS_DEN: i64 = 32;

/// A classified ray hit: the primitive struck and the intersection point.
#[derive(Clone, Copy, PartialEq, Eq, Structural, Debug)]
pub enum Hit {
    /// The interior of a face.
    Face(usize, Vec3),
    /// Close to an edge: the id of one of its half-edges.
    Edge(usize, Vec3),
    /// Close to a corner vertex.
    Vertex(usize, Vec3),
}

/// Moller-Trumbore determinant of face `f` against the ray `(o, d)`.
pub open spec fn mt_det(m: Mesh, f: int, o: Vec3, d: Vec3) -> int {
    let p0 = corner_pos(m.positions@, m.edges@, f, 0);
    let e1 = subs(corner_pos(m.positions@, m.edges@, f, 1), p0);
    let e2 = subs(corner_pos(m.positions@, m.edges@, f, 2), p0);
    dots(e1, crosss(d.s(), e2))
}

/// Numerator of the first barycentric coordinate (toward corner 1).
pub open spec fn mt_u(m: Mesh, f: int, o: Vec3, d: Vec3) -> int {
    let p0 = corner_pos(m.positions@, m.edges@, f, 0);
    let e2 = subs(corner_pos(m.positions@, m.edges@, f, 2), p0);
    dots(subs(o.s(), p0), crosss(d.s(), e2))
}

/// Numerator of the second barycentric coordinate (toward corner 2).
pub open spec fn mt_v(m: Mesh, f: int, o: Vec3, d: Vec3) -> int {
    let p0 = corner_pos(m.positions@, m.edges@, f, 0);
    let e1 = subs(corner_pos(m.positions@, m.edges@, f, 1), p0);
    dots(d.s(), crosss(subs(o.s(), p0), e1))
}

/// Numerator of the ray parameter.
pub open spec fn mt_t(m: Mesh, f: int, o: Vec3, d: Vec3) -> int {
    let p0 = corner_pos(m.positions@, m.edges@, f, 0);
    let e1 = subs(corner_pos(m.positions@, m.edges@, f, 1), p0);
    let e2 = subs(corner_pos(m.positions@, m.edges@, f, 2), p0);
    dots(e2, crosss(subs(o.s(), p0), e1))
}

/// The determinant's magnitude: the common positive denominator.
pub open spec fn nd_of(m: Mesh, f: int, o: Vec3, d: Vec3) -> int {
    sgn(mt_det(m, f, o, d)) * mt_det(m, f, o, d)
}

/// Barycentric numerators and ray parameter, normalized to the positive
/// denominator.
pub open spec fn nu_of(m: Mesh, f: int, o: Vec3, d: Vec3) -> int {
    sgn(mt_det(m, f, o, d)) * mt_u(m, f, o, d)
}

pub open spec fn nv_of(m: Mesh, f: int, o: Vec3, d: Vec3) -> int {
    sgn(mt_det(m, f, o, d)) * mt_v(m, f, o, d)
}

pub open spec fn nt_of(m: Mesh, f: int, o: Vec3, d: Vec3) -> int {
    sgn(mt_det(m, f, o, d)) * mt_t(m, f, o, d)
}

/// The ray `(o, d)` hits face `f`: the triangle is not parallel to the
/// ray, the barycentric coordinates lie inside it, and the ray parameter
/// is not negative.
pub open spec fn hits(m: Mesh, f: int, o: Vec3, d: Vec3) -> bool {
    &&& mt_det(m, f, o, d) != 0
    &&& nu_of(m, f, o, d) >= 0
    &&& nv_of(m, f, o, d) >= 0
    &&& nu_of(m, f, o, d) + nv_of(m, f, o, d) <= nd_of(m, f, o, d)
    &&& nt_of(m, f, o, d) >= 0
}

/// The hit on face `f` is strictly closer along the ray than the hit on
/// face `g`: `t_f / d_f < t_g / d_g` by cross-multiplication.
pub open spec fn t_lt(m: Mesh, f: int, g: int, o: Vec3, d: Vec3) -> bool {
    nt_of(m, f, o, d) * nd_of(m, g, o, d) < nt_of(m, g, o, d) * nd_of(m, f, o, d)
}

/// The nearest hit face among the first `n`, earliest face winning ties.
pub open spec fn best_upto(m: Mesh, o: Vec3, d: Vec3, n: int) -> Option<int>
    decreases n,
{
    if n <= 0 {
        None
    } else {
        let prev = best_upto(m, o, d, n - 1);
        if hits(m, n - 1, o, d) && (prev.is_none() || t_lt(m, n - 1, prev.unwrap(), o, d)) {
            Some(n - 1)
        } else {
            prev
        }
    }
}

/// The nearest hit face of the whole mesh.
pub open spec fn best_face(m: Mesh, o: Vec3, d: Vec3) -> Option<int> {
    best_upto(m, o, d, m.nf())
}

/// Strict order of positive-denominator fractions is transitive.
proof fn lemma_frac_lt_lt(a1: int, b1: int, a2: int, b2: int, a3: int, b3: int)
    requires
        0 < b1,
        0 < b2,
        0 < b3,
        a1 * b2 < a2 * b1,
        a2 * b3 < a3 * b2,
    ensures
        a1 * b3 < a3 * b1,
{
    assert(a1 * b3 < a3 * b1) by (nonlinear_arith)
        requires
            0 < b1 && 0 < b2 && 0 < b3,
            a1 * b2 < a2 * b1,
            a2 * b3 < a3 * b2,
    ;
}

/// A strict fraction bound carries over a non-strict one.
proof fn lemma_frac_lt_le(a1: int, b1: int, a2: int, b2: int, a3: int, b3: int)
    requires
        0 < b1,
        0 < b2,
        0 < b3,
        a1 * b2 < a2 * b1,
        a2 * b3 <= a3 * b2,
    ensures
        a1 * b3 < a3 * b1,
{
    assert(a1 * b3 < a3 * b1) by (nonlinear_arith)
        requires
            0 < b1 && 0 < b2 && 0 < b3,
            a1 * b2 < a2 * b1,
            a2 * b3 <= a3 * b2,
    ;
}

/// A hit face's denominator is positive.
proof fn lemma_hit_denom_pos(m: Mesh, f: int, o: Vec3, d: Vec3)
    requires
        hits(m, f, o, d),
    ensures
        0 < nd_of(m, f, o, d),
{
    let dt = mt_det(m, f, o, d);
    if dt > 0 {
        assert(nd_of(m, f, o, d) == dt);
    } else {
        assert(nd_of(m, f, o, d) == -dt);
    }
}

/// The winning face hits, nothing hits strictly closer, and an equal
/// distance never beats an earlier face.
pub proof fn lemma_best_face_min(m: Mesh, o: Vec3, d: Vec3, n: int)
    requires
        0 <= n,
    ensures
        (match best_upto(m, o, d, n) {
            Some(f) => {
                &&& 0 <= f < n
                &&& hits(m, f, o, d)
                &&& forall|g: int|
                    0 <= g < n && #[trigger] hits(m, g, o, d) ==> !t_lt(m, g, f, o, d)
                &&& forall|g: int|
                    0 <= g < f && #[trigger] hits(m, g, o, d) ==> t_lt(m, f, g, o, d)
            },
            None => forall|g: int| 0 <= g < n ==> !(#[trigger] hits(m, g, o, d)),
        }),
    decreases n,
{
    if n > 0 {
        lemma_best_face_min(m, o, d, n - 1);
        let prev = best_upto(m, o, d, n - 1);
        if hits(m, n - 1, o, d) && (prev.is_none() || t_lt(m, n - 1, prev.unwrap(), o, d)) {
            let f = n - 1;
            if prev.is_some() {
                let pf = prev.unwrap();
                lemma_hit_denom_pos(m, f, o, d);
                lemma_hit_denom_pos(m, pf, o, d);
                assert forall|g: int|
                    0 <= g < n && #[trigger] hits(m, g, o, d) implies !t_lt(m, g, f, o, d) by {
                    if g < n - 1 && t_lt(m, g, f, o, d) {
                        lemma_hit_denom_pos(m, g, o, d);
                        lemma_frac_lt_lt(
                            nt_of(m, g, o, d),
                            nd_of(m, g, o, d),
                            nt_of(m, f, o, d),
                            nd_of(m, f, o, d),
                            nt_of(m, pf, o, d),
                            nd_of(m, pf, o, d),
                        );
                    }
                }
                assert forall|g: int|
                    0 <= g < f && #[trigger] hits(m, g, o, d) implies t_lt(m, f, g, o, d) by {
                    lemma_hit_denom_pos(m, g, o, d);
                    lemma_frac_lt_le(
                        nt_of(m, f, o, d),
                        nd_of(m, f, o, d),
                        nt_of(m, pf, o, d),
                        nd_of(m, pf, o, d),
                        nt_of(m, g, o, d),
                        nd_of(m, g, o, d),
                    );
                }
            }
        }
    }
}

/// `x / nd` is within the tolerance of one.
pub open spec fn near_one(x: int, nd: int) -> bool {
    (nd - x) * EPS_DEN <= nd
}

/// `x / nd` is within the tolerance of zero.
pub open spec fn near_zero(x: int, nd: int) -> bool {
    x * EPS_DEN <= nd
}

/// The intersection point of the winning face, as the barycentric
/// combination of its corners, each coordinate truncated toward zero.
pub open spec fn hit_point(m: Mesh, f: int, o: Vec3, d: Vec3) -> (int, int, int) {
    let p0 = corner_pos(m.positions@, m.edges@, f, 0);
    let p1 = corner_pos(m.positions@, m.edges@, f, 1);
    let p2 = corner_pos(m.positions@, m.edges@, f, 2);
    let nu = nu_of(m, f, o, d);
    let nv = nv_of(m, f, o, d);
    let nd = nd_of(m, f, o, d);
    let w = nd - nu - nv;
    (
        div_tz(w * p0.0 + nu * p1.0 + nv * p2.0, nd),
        div_tz(w * p0.1 + nu * p1.1 + nv * p2.1, nd),
        div_tz(w * p0.2 + nu * p1.2 + nv * p2.2, nd),
    )
}

/// `h` is the correct classification of the hit on face `f`: a vertex hit
/// when a barycentric coordinate is within tolerance of one (checked for
/// corner 0, then 1, then 2), else an edge hit on the half-edge opposite
/// the corner whose coordinate is within tolerance of zero (same order),
/// else a face hit; always carrying the barycentric intersection point.
pub open spec fn hit_matches(m: Mesh, f: int, o: Vec3, d: Vec3, h: Hit) -> bool {
    let nu = nu_of(m, f, o, d);
    let nv = nv_of(m, f, o, d);
    let nd = nd_of(m, f, o, d);
    let w = nd - nu - nv;
    match h {
        Hit::Vertex(vid, p) => {
            &&& p.s() == hit_point(m, f, o, d)
            &&& if near_one(w, nd) {
                vid as int == m.origin_of(3 * f)
            } else if near_one(nu, nd) {
                vid as int == m.origin_of(3 * f + 1)
            } else if near_one(nv, nd) {
                vid as int == m.origin_of(3 * f + 2)
            } else {
                false
            }
        },
        Hit::Edge(eid, p) => {
            &&& p.s() == hit_point(m, f, o, d)
            &&& !near_one(w, nd) && !near_one(nu, nd) && !near_one(nv, nd)
            &&& if near_zero(w, nd) {
                eid as int == 3 * f + 1
            } else if near_zero(nu, nd) {
                eid as int == 3 * f + 2
            } else if near_zero(nv, nd) {
                eid as int == 3 * f
            } else {
                false
            }
        },
        Hit::Face(fid, p) => {
            &&& p.s() == hit_point(m, f, o, d)
            &&& fid as int == f
            &&& !near_one(w, nd) && !near_one(nu, nd) && !near_one(nv, nd)
            &&& !near_zero(w, nd) && !near_zero(nu, nd) && !near_zero(nv, nd)
        },
    }
}

/// Bound on the normalized Moller-Trumbore values for bounded inputs.
pub const MT_BOUND: i64 = 0x8_0000_0000_0000;

/// The exact integer Moller-Trumbore values of one face: whether it is
/// hit, and the normalized `(u, v, t)` numerators over the denominator.
fn face_vals(mesh: &Mesh, f: usize, o: Vec3, d: Vec3) -> (r: (bool, i64, i64, i64, i64))
    requires
        mesh.wf(),
        (f as int) < mesh.nf(),
        bounded(o, COORD_LIMIT as int),
        bounded(d, COORD_LIMIT as int),
    ensures
        r.0 == hits(*mesh, f as int, o, d),
        r.1 == nu_of(*mesh, f as int, o, d),
        r.2 == nv_of(*mesh, f as int, o, d),
        r.3 == nt_of(*mesh, f as int, o, d),
        r.4 == nd_of(*mesh, f as int, o, d),
        bnd((r.1 as int, r.2 as int, r.3 as int), MT_BOUND as int),
        0 <= r.4 <= MT_BOUND,
{
    let (a, b, c) = mesh.face_vertices(f);
    let p0 = mesh.vertex_position(a);
    let p1 = mesh.vertex_position(b);
    let p2 = mesh.vertex_position(c);
    let e1 = v_sub(p1, p0);
    let e2 = v_sub(p2, p0);
    let sv = v_sub(o, p0);
    proof {
        let l1: int = 2 * COORD_LIMIT as int;
        lemma_cross_range(d.s(), e2.s(), COORD_LIMIT as int, l1);
        lemma_cross_range(sv.s(), e1.s(), l1, l1);
    }
    let pv = v_cross(d, e2);
    let qv = v_cross(sv, e1);
    proof {
        let l1: int = 2 * COORD_LIMIT as int;
        let lc: int = 2 * (COORD_LIMIT as int * l1);
        let lq: int = 2 * (l1 * l1);
        lemma_dot_range(e1.s(), pv.s(), l1, lc);
        lemma_dot_range(sv.s(), pv.s(), l1, lc);
        lemma_dot_range(d.s(), qv.s(), COORD_LIMIT as int, lq);
        lemma_dot_range(e2.s(), qv.s(), l1, lq);
    }
    let det = v_dot(e1, pv);
    let un = v_dot(sv, pv);
    let vn = v_dot(d, qv);
    let tn = v_dot(e2, qv);
    if det == 0 {
        (false, 0, 0, 0, 0)
    } else {
        let (nu, nv, nt, nd) = if det > 0 {
            (un, vn, tn, det)
        } else {
            (-un, -vn, -tn, -det)
        };
        let hit = nu >= 0 && nv >= 0 && nu + nv <= nd && nt >= 0;
        (hit, nu, nv, nt, nd)
    }
}

/// Classify the winning hit of face `f`.
fn classify_hit(mesh: &Mesh, f: usize, o: Vec3, d: Vec3) -> (h: Hit)
    requires
        mesh.wf(),
        (f as int) < mesh.nf(),
        bounded(o, COORD_LIMIT as int),
        bounded(d, COORD_LIMIT as int),
        hits(*mesh, f as int, o, d),
    ensures
        hit_matches(*mesh, f as int, o, d, h),
{
    let (_, nu, nv, nt, nd) = face_vals(mesh, f, o, d);
    let w = nd - nu - nv;
    let (a, b, c) = mesh.face_vertices(f);
    let p0 = mesh.vertex_position(a);
    let p1 = mesh.vertex_position(b);
    let p2 = mesh.vertex_position(c);
    let px = bary_coord(w, nu, nv, nd, p0.x, p1.x, p2.x);
    let py = bary_coord(w, nu, nv, nd, p0.y, p1.y, p2.y);
    let pz = bary_coord(w, nu, nv, nd, p0.z, p1.z, p2.z);
    let p = Vec3 { x: px, y: py, z: pz };
    proof {
        assert(p.s() == hit_point(*mesh, f as int, o, d));
        lemma_mul_bnd(nd as int - w as int, EPS_DEN as int, 2 * MT_BOUND as int, EPS_DEN as int);
        lemma_mul_bnd(nd as int - nu as int, EPS_DEN as int, 2 * MT_BOUND as int, EPS_DEN as int);
        lemma_mul_bnd(nd as int - nv as int, EPS_DEN as int, 2 * MT_BOUND as int, EPS_DEN as int);
        lemma_mul_bnd(w as int, EPS_DEN as int, MT_BOUND as int, EPS_DEN as int);
        lemma_mul_bnd(nu as int, EPS_DEN as int, MT_BOUND as int, EPS_DEN as int);
        lemma_mul_bnd(nv as int, EPS_DEN as int, MT_BOUND as int, EPS_DEN as int);
    }
    let e0 = mesh.face_halfedge(f);
    if (nd - w) * EPS_DEN <= nd {
        Hit::Vertex(a, p)
    } else if (nd - nu) * EPS_DEN <= nd {
        Hit::Vertex(b, p)
    } else if (nd - nv) * EPS_DEN <= nd {
        Hit::Vertex(c, p)
    } else if w * EPS_DEN <= nd {
        Hit::Edge(e0 + 1, p)
    } else if nu * EPS_DEN <= nd {
        Hit::Edge(e0 + 2, p)
    } else if nv * EPS_DEN <= nd {
        Hit::Edge(e0, p)
    } else {
        Hit::Face(f, p)
    }
}

/// One coordinate of the barycentric combination `(w p0 + nu p1 + nv p2) / nd`.
fn bary_coord(w: i64, nu: i64, nv: i64, nd: i64, p0: i64, p1: i64, p2: i64) -> (r: i64)
    requires
        0 <= nu,
        0 <= nv,
        0 < nd <= MT_BOUND,
        w == nd - nu - nv,
        0 <= w,
        -COORD_LIMIT <= p0 <= COORD_LIMIT,
        -COORD_LIMIT <= p1 <= COORD_LIMIT,
        -COORD_LIMIT <= p2 <= COORD_LIMIT,
    ensures
        r == div_tz(w * p0 + nu * p1 + nv * p2, nd as int),
        -COORD_LIMIT <= r <= COORD_LIMIT,
{
    proof {
        lemma_mul_bnd(w as int, p0 as int, w as int, COORD_LIMIT as int);
        lemma_mul_bnd(nu as int, p1 as int, nu as int, COORD_LIMIT as int);
        lemma_mul_bnd(nv as int, p2 as int, nv as int, COORD_LIMIT as int);
        lemma_div_tz_bound(
            w as int * p0 as int + nu as int * p1 as int + nv as int * p2 as int,
            nd as int,
            COORD_LIMIT as int,
        );
    }
    let sum: i128 = (w as i128) * (p0 as i128) + (nu as i128) * (p1 as i128) + (nv as i128) * (
    p2 as i128);
    let q = crate::math::div_trunc(sum, nd as i128);
    q as i64
}

/// The nearest intersection of the ray with the mesh, classified.
///
/// Returns `None` exactly when the direction is the zero vector (the
/// documented policy for a degenerate ray) or no face is hit; otherwise
/// the classified hit on the face with the smallest ray parameter, the
/// earliest face winning exact ties.  `lemma_best_face_min` spells out
/// that minimality of the winning face.
pub fn intersect(mesh: &Mesh, ray_origin: Vec3, ray_direction: Vec3) -> (r: Option<Hit>)
    requires
        mesh.wf(),
        bounded(ray_origin, COORD_LIMIT as int),
        bounded(ray_direction, COORD_LIMIT as int),
    ensures
        r.is_none() <==> (ray_direction == zero3() || best_face(
            *mesh,
            ray_origin,
            ray_direction,
        ).is_none()),
        (match r {
            Some(h) => {
                &&& best_face(*mesh, ray_origin, ray_direction).is_some()
                &&& hit_matches(
                    *mesh,
                    best_face(*mesh, ray_origin, ray_direction).unwrap(),
                    ray_origin,
                    ray_direction,
                    h,
                )
            },
            None => true,
        }),
{
    if ray_direction.x == 0 && ray_direction.y == 0 && ray_direction.z == 0 {
        return None;
    }
    let nf = mesh.num_faces();
    let mut has_best = false;
    let mut bf: usize = 0;
    let mut bt: i64 = 0;
    let mut bd: i64 = 0;
    let mut f: usize = 0;
    while f < nf
        invariant
            mesh.wf(),
            bounded(ray_origin, COORD_LIMIT as int),
            bounded(ray_direction, COORD_LIMIT as int),
            nf as int == mesh.nf(),
            f <= nf,
            (match best_upto(*mesh, ray_origin, ray_direction, f as int) {
                Some(g) => {
                    &&& has_best
                    &&& bf as int == g
                    &&& (bf as int) < f as int
                    &&& bt == nt_of(*mesh, g, ray_origin, ray_direction)
                    &&& bd == nd_of(*mesh, g, ray_origin, ray_direction)
                },
                None => !has_best,
            }),
        decreases nf - f,
    {
        let vals = face_vals(mesh, f, ray_origin, ray_direction);
        if vals.0 {
            if !has_best {
                has_best = true;
                bf = f;
                bt = vals.3;
                bd = vals.4;
            } else {
                proof {
                    let big: int = 0x8000_0000_0000_0000;
                    lemma_mul_bnd(vals.3 as int, bd as int, big, big);
                    lemma_mul_bnd(bt as int, vals.4 as int, big, big);
                }
                let lhs: i128 = (vals.3 as i128) * (bd as i128);
                let rhs: i128 = (bt as i128) * (vals.4 as i128);
                if lhs < rhs {
                    bf = f;
                    bt = vals.3;
                    bd = vals.4;
                }
            }
        }
        f = f + 1;
    }
    if has_best {
        proof {
            lemma_best_face_min(*mesh, ray_origin, ray_direction, nf as int);
        }
        Some(classify_hit(mesh, bf, ray_origin, ray_direction))
    } else {
        None
    }
}

} // verus!
