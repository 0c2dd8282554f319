//! Vertex normals, derived from the current positions.
//!
//! The normal of a vertex is the normalized sum of the cross products of all
//! faces that use the vertex, held in fixed point with magnitude `SCALE`.
//! Normals are recomputed on every write to the positions
//! (recompute-on-write), so a well-formed mesh never serves stale normals.

use vstd::prelude::*;

use crate::math::{
    adds, bnd, bounded, crosss, div_tz, dots, isqrt, lemma_div_tz_bound, lemma_mul_bnd,
    mul_div_trunc, subs, v_cross, v_dot_wide, v_sub, zero3, Vec3, COORD_LIMIT, SCALE,
};
use crate::mesh::{next_idx, HalfEdge, Mesh};

verus! {

/// Bound on one component of a face cross product, for positions within
/// `COORD_LIMIT`.
pub const FACE_CROSS_BOUND: i64 = 0x2_0000_0000;

/// Position of corner `k` of face `t`, as integers.
pub open spec fn corner_pos(ps: Seq<Vec3>, es: Seq<HalfEdge>, t: int, k: int) -> (int, int, int) {
    ps[es[3 * t + k].origin as int].s()
}

/// Cross product of the two edge vectors of face `t`: twice its area vector.
pub open spec fn face_cross(ps: Seq<Vec3>, es: Seq<HalfEdge>, t: int) -> (int, int, int) {
    crosss(
        subs(corner_pos(ps, es, t, 1), corner_pos(ps, es, t, 0)),
        subs(corner_pos(ps, es, t, 2), corner_pos(ps, es, t, 0)),
    )
}

/// Face `t` has `v` as one of its three corners.
pub open spec fn face_has_vertex(es: Seq<HalfEdge>, t: int, v: int) -> bool {
    ||| es[3 * t].origin as int == v
    ||| es[3 * t + 1].origin as int == v
    ||| es[3 * t + 2].origin as int == v
}

/// Sum of the cross products of the faces below `t` that use `v`.
pub open spec fn acc_upto(ps: Seq<Vec3>, es: Seq<HalfEdge>, v: int, t: int) -> (int, int, int)
    decreases t,
{
    if t <= 0 {
        (0, 0, 0)
    } else {
        adds(
            acc_upto(ps, es, v, t - 1),
            if face_has_vertex(es, t - 1, v) {
                face_cross(ps, es, t - 1)
            } else {
                (0, 0, 0)
            },
        )
    }
}

/// The unnormalized normal of `v`: the sum over all faces.
pub open spec fn normal_acc(ps: Seq<Vec3>, es: Seq<HalfEdge>, v: int) -> (int, int, int) {
    acc_upto(ps, es, v, es.len() as int / 3)
}

/// `n` is the stored form of the normal of `v`: the accumulated area vector,
/// scaled to magnitude `SCALE` by its own integer length, or zero when the
/// accumulation vanishes.
/// `len` is the integer length (floored square root) of a squared length
/// `l2`.
pub open spec fn is_len_of(len: int, l2: int) -> bool {
    &&& 0 <= len
    &&& len * len <= l2
    &&& l2 < (len + 1) * (len + 1)
}

pub open spec fn normal_ok(ps: Seq<Vec3>, es: Seq<HalfEdge>, v: int, n: Vec3) -> bool {
    let a = normal_acc(ps, es, v);
    let l2 = dots(a, a);
    exists|len: int|
        {
            &&& #[trigger] is_len_of(len, l2)
            &&& if len == 0 {
                n == zero3()
            } else {
                n.s() == (
                    div_tz(a.0 * SCALE, len),
                    div_tz(a.1 * SCALE, len),
                    div_tz(a.2 * SCALE, len),
                )
            }
        }
}

impl Mesh {
    /// Every cached normal is derived from the current positions.
    pub open spec fn normals_derived(self) -> bool {
        forall|v: int|
            0 <= v < self.nv() ==> normal_ok(
                self.positions@,
                self.edges@,
                v,
                #[trigger] self.normals@[v],
            )
    }

    /// Recompute every vertex normal from the current positions.
    pub fn recompute_normals(&mut self)
        requires
            old(self).wf(),
        ensures
            final(self).wf(),
            final(self).positions@ == old(self).positions@,
            final(self).edges@ == old(self).edges@,
            final(self).out_edge@ == old(self).out_edge@,
            final(self).normals_derived(),
    {
        let ghost m0 = *old(self);
        let nv = self.positions.len();
        let nf = self.edges.len() / 3;

        // Phase one: accumulate the face cross products onto the corners.
        let mut acc: Vec<Vec3> = Vec::new();
        let mut i: usize = 0;
        while i < nv
            invariant
                nv as int == m0.nv(),
                acc@.len() == i as int,
                i as int <= m0.nv(),
                forall|u: int| 0 <= u < i as int ==> acc@[u] == zero3(),
            decreases m0.nv() - i as int,
        {
            acc.push(Vec3 { x: 0, y: 0, z: 0 });
            i = i + 1;
        }
        proof {
            assert forall|u: int| 0 <= u < m0.nv() implies acc@[u].s() == acc_upto(
                m0.positions@,
                m0.edges@,
                u,
                0,
            ) by {}
        }
        let mut t: usize = 0;
        while t < nf
            invariant
                *self == m0,
                self.wf(),
                nv as int == m0.nv(),
                nf as int == m0.nf(),
                nf as int <= 262144,
                t as int <= nf as int,
                acc@.len() == m0.nv(),
                forall|u: int|
                    0 <= u < m0.nv() ==> (#[trigger] acc@[u]).s() == acc_upto(
                        m0.positions@,
                        m0.edges@,
                        u,
                        t as int,
                    ),
                forall|u: int|
                    0 <= u < m0.nv() ==> bounded(
                        #[trigger] acc@[u],
                        (t as int) * FACE_CROSS_BOUND as int,
                    ),
            decreases nf as int - t as int,
        {
            proof {
                assert(3 * (t as int) + 2 < self.ne()) by (nonlinear_arith)
                    requires
                        0 <= (t as int) && (t as int) < self.ne() / 3,
                        self.ne() % 3 == 0,
                ;
                assert(self.edge_ok(3 * (t as int)));
                assert(self.edge_ok(3 * (t as int) + 1));
                assert(self.edge_ok(3 * (t as int) + 2));
                assert((3 * (t as int)) % 3 == 0 && (3 * (t as int) + 1) % 3 == 1 && (3 * (t
                    as int) + 2) % 3 == 2) by (nonlinear_arith);
            }
            let e0 = 3 * t;
            let a = self.edges[e0].origin;
            let b = self.edges[e0 + 1].origin;
            let c = self.edges[e0 + 2].origin;
            proof {
                // The three corners are pairwise distinct: each half-edge of
                // the face runs between two different vertices.
                assert(self.next_of(3 * (t as int)) == 3 * (t as int) + 1);
                assert(self.next_of(3 * (t as int) + 1) == 3 * (t as int) + 2);
                assert(self.next_of(3 * (t as int) + 2) == 3 * (t as int));
                assert(a != b && b != c && c != a);
            }
            let p0 = self.positions[a];
            let p1 = self.positions[b];
            let p2 = self.positions[c];
            proof {
                assert(p0 == self.pos_of(a as int) && p1 == self.pos_of(b as int) && p2
                    == self.pos_of(c as int));
                assert(bounded(p0, COORD_LIMIT as int) && bounded(p1, COORD_LIMIT as int)
                    && bounded(p2, COORD_LIMIT as int));
            }
            let u1 = v_sub(p1, p0);
            let u2 = v_sub(p2, p0);
            let cr = v_cross(u1, u2);
            proof {
                let lim: int = 2 * COORD_LIMIT as int;
                lemma_mul_bnd(u1.y as int, u2.z as int, lim, lim);
                lemma_mul_bnd(u1.z as int, u2.y as int, lim, lim);
                lemma_mul_bnd(u1.z as int, u2.x as int, lim, lim);
                lemma_mul_bnd(u1.x as int, u2.z as int, lim, lim);
                lemma_mul_bnd(u1.x as int, u2.y as int, lim, lim);
                lemma_mul_bnd(u1.y as int, u2.x as int, lim, lim);
                assert(bounded(cr, FACE_CROSS_BOUND as int));
                assert(cr.s() == face_cross(m0.positions@, m0.edges@, t as int));
                assert((t as int + 1) * FACE_CROSS_BOUND as int <= 0x8_0000_0000_0000)
                    by (nonlinear_arith)
                    requires
                        0 <= (t as int) && (t as int) < 262144,
                ;
                assert((t as int + 1) * FACE_CROSS_BOUND as int == (t as int)
                    * FACE_CROSS_BOUND as int + FACE_CROSS_BOUND as int) by (nonlinear_arith);
            }
            let av = acc[a];
            acc.set(a, Vec3 { x: av.x + cr.x, y: av.y + cr.y, z: av.z + cr.z });
            let bv = acc[b];
            acc.set(b, Vec3 { x: bv.x + cr.x, y: bv.y + cr.y, z: bv.z + cr.z });
            let cv = acc[c];
            acc.set(c, Vec3 { x: cv.x + cr.x, y: cv.y + cr.y, z: cv.z + cr.z });
            proof {
                assert forall|u: int| 0 <= u < m0.nv() implies (#[trigger] acc@[u]).s()
                    == acc_upto(m0.positions@, m0.edges@, u, t as int + 1) by {
                    assert(acc_upto(m0.positions@, m0.edges@, u, t as int + 1) == adds(
                        acc_upto(m0.positions@, m0.edges@, u, t as int),
                        if face_has_vertex(m0.edges@, t as int, u) {
                            face_cross(m0.positions@, m0.edges@, t as int)
                        } else {
                            (0, 0, 0)
                        },
                    ));
                }
                assert forall|u: int| 0 <= u < m0.nv() implies bounded(
                    #[trigger] acc@[u],
                    (t as int + 1) * FACE_CROSS_BOUND as int,
                ) by {}
            }
            t = t + 1;
        }

        // Phase two: scale each accumulated vector by its own length.
        proof {
            assert forall|u: int| 0 <= u < m0.nv() implies bounded(
                #[trigger] acc@[u],
                0x8_0000_0000_0000,
            ) by {
                assert((nf as int) * FACE_CROSS_BOUND as int <= 0x8_0000_0000_0000)
                    by (nonlinear_arith)
                    requires
                        0 <= nf as int <= 262144,
                ;
            }
        }
        let mut v: usize = 0;
        while v < nv
            invariant
                m0.wf(),
                self.positions@ == m0.positions@,
                self.edges@ == m0.edges@,
                self.out_edge@ == m0.out_edge@,
                nv as int == m0.nv(),
                v as int <= m0.nv(),
                acc@.len() == m0.nv(),
                forall|u: int|
                    0 <= u < m0.nv() ==> (#[trigger] acc@[u]).s() == normal_acc(
                        m0.positions@,
                        m0.edges@,
                        u,
                    ),
                forall|u: int| 0 <= u < m0.nv() ==> bounded(#[trigger] acc@[u], 0x8_0000_0000_0000),
                self.normals@.len() == m0.nv(),
                forall|u: int|
                    0 <= u < v as int ==> normal_ok(
                        m0.positions@,
                        m0.edges@,
                        u,
                        #[trigger] self.normals@[u],
                    ),
                forall|u: int|
                    0 <= u < v as int ==> bounded(#[trigger] self.normals@[u], SCALE as int),
            decreases m0.nv() - v as int,
        {
            let a = acc[v];
            let l2 = v_dot_wide(a, a);
            proof {
                lemma_mul_bnd(a.x as int, a.x as int, 0x8_0000_0000_0000, 0x8_0000_0000_0000);
                lemma_mul_bnd(a.y as int, a.y as int, 0x8_0000_0000_0000, 0x8_0000_0000_0000);
                lemma_mul_bnd(a.z as int, a.z as int, 0x8_0000_0000_0000, 0x8_0000_0000_0000);
                assert(a.x as int * a.x as int >= 0 && a.y as int * a.y as int >= 0 && a.z as int
                    * a.z as int >= 0) by (nonlinear_arith);
            }
            if l2 == 0 {
                self.normals.set(v, Vec3 { x: 0, y: 0, z: 0 });
                proof {
                    let av = normal_acc(m0.positions@, m0.edges@, v as int);
                    assert(is_len_of(0, dots(av, av)));
                }
            } else {
                let s = isqrt(l2 as u128);
                let len = s as i128;
                proof {
                    if s == 0 {
                        assert((l2 as u128) < (s + 1) * (s + 1));
                        assert((s + 1) * (s + 1) == 1) by (nonlinear_arith)
                            requires
                                s == 0u128,
                        ;
                        assert(false);
                    }
                }
                let nx = mul_div_trunc(a.x as i128, SCALE as i128, len);
                let ny = mul_div_trunc(a.y as i128, SCALE as i128, len);
                let nz = mul_div_trunc(a.z as i128, SCALE as i128, len);
                proof {
                    let av = normal_acc(m0.positions@, m0.edges@, v as int);
                    let li = len as int;
                    lemma_component_le_len(av.0, li, dots(av, av));
                    lemma_component_le_len(av.1, li, dots(av, av));
                    lemma_component_le_len(av.2, li, dots(av, av));
                    lemma_mul_bnd(av.0, SCALE as int, li, SCALE as int);
                    lemma_mul_bnd(av.1, SCALE as int, li, SCALE as int);
                    lemma_mul_bnd(av.2, SCALE as int, li, SCALE as int);
                    lemma_div_tz_bound(av.0 * SCALE, li, SCALE as int);
                    lemma_div_tz_bound(av.1 * SCALE, li, SCALE as int);
                    lemma_div_tz_bound(av.2 * SCALE, li, SCALE as int);
                }
                let n = Vec3 { x: nx as i64, y: ny as i64, z: nz as i64 };
                self.normals.set(v, n);
                proof {
                    let av = normal_acc(m0.positions@, m0.edges@, v as int);
                    let li = len as int;
                    assert(is_len_of(li, dots(av, av)));
                    assert(normal_ok(m0.positions@, m0.edges@, v as int, n));
                }
            }
            v = v + 1;
        }
        proof {
            assert forall|u: int| 0 <= u < self.nv() implies bounded(
                #[trigger] self.pos_of(u),
                COORD_LIMIT as int,
            ) by {
                assert(bounded(m0.pos_of(u), COORD_LIMIT as int));
            }
            assert forall|u: int| 0 <= u < self.nv() implies bounded(
                #[trigger] self.normal_spec(u),
                SCALE as int,
            ) by {
                assert(bounded(self.normals@[u], SCALE as int));
            }
            assert forall|e: int| 0 <= e < self.ne() implies self.edge_ok(e) by {
                assert(m0.edge_ok(e));
            }
            assert forall|u: int| 0 <= u < self.nv() implies self.vertex_ok(u) by {
                assert(m0.vertex_ok(u));
                if m0.out_of(u) == m0.ne() {
                    assert forall|e: int| 0 <= e < self.ne() implies self.origin_of(e) != u by {
                        assert(m0.origin_of(e) != u);
                    }
                }
            }
        }
    }
}

impl Mesh {
    /// Add `delta` to the stored position of vertex `v`, then refresh every
    /// cached normal from the updated positions.  The topology — half-edges,
    /// faces and outgoing references — is left exactly as it was, so all
    /// connectivity queries answer as before the call.
    pub fn displace(&mut self, v: usize, delta: Vec3)
        requires
            old(self).wf(),
            (v as int) < old(self).nv(),
            bnd(adds(old(self).pos_of(v as int).s(), delta.s()), COORD_LIMIT as int),
        ensures
            final(self).wf(),
            final(self).topology() == old(self).topology(),
            final(self).positions@.len() == old(self).positions@.len(),
            final(self).pos_of(v as int).s() == adds(
                old(self).pos_of(v as int).s(),
                delta.s(),
            ),
            forall|u: int|
                0 <= u < old(self).nv() && u != v as int ==> final(self).pos_of(u) == old(
                    self,
                ).pos_of(u),
            final(self).normals_derived(),
    {
        let ghost m0 = *old(self);
        let p = self.positions[v];
        proof {
            assert(p == m0.pos_of(v as int));
        }
        let np = Vec3 { x: p.x + delta.x, y: p.y + delta.y, z: p.z + delta.z };
        self.positions.set(v, np);
        proof {
            assert forall|u: int| 0 <= u < self.nv() implies bounded(
                #[trigger] self.pos_of(u),
                COORD_LIMIT as int,
            ) by {
                if u != v as int {
                    assert(self.pos_of(u) == m0.pos_of(u));
                    assert(bounded(m0.pos_of(u), COORD_LIMIT as int));
                }
            }
            assert forall|e: int| 0 <= e < self.ne() implies self.edge_ok(e) by {
                assert(m0.edge_ok(e));
            }
            assert forall|u: int| 0 <= u < self.nv() implies self.vertex_ok(u) by {
                assert(m0.vertex_ok(u));
                if m0.out_of(u) == m0.ne() {
                    assert forall|e: int| 0 <= e < self.ne() implies self.origin_of(e) != u by {
                        assert(m0.origin_of(e) != u);
                    }
                }
            }
            assert forall|u: int| 0 <= u < self.nv() implies bounded(
                #[trigger] self.normal_spec(u),
                SCALE as int,
            ) by {
                assert(bounded(m0.normal_spec(u), SCALE as int));
            }
            assert(self.wf());
        }
        self.recompute_normals();
    }
}

/// A component of a vector is bounded by any integer length of the vector.
proof fn lemma_component_le_len(a: int, len: int, l2: int)
    requires
        0 <= len,
        a * a <= l2,
        l2 < (len + 1) * (len + 1),
    ensures
        -len <= a <= len,
{
    assert(-len <= a <= len) by (nonlinear_arith)
        requires
            0 <= len,
            a * a <= l2,
            l2 < (len + 1) * (len + 1),
    ;
}

} // verus!
