//! Region-growth morph weights.
//!
//! From a seed vertex, a depth-first expansion walks the topology.  A
//! popped vertex whose squared distance to the seed point is at or above
//! `MAX_DIST_SQ` is discarded; otherwise it receives the falloff weight
//! times its normal and its unweighted neighbours join the work stack.
//! The result is pinned exactly: a vertex is weighted if and only if it is
//! joined to the seed by a path of neighbouring vertices that all lie
//! inside the distance cutoff, and its weight depends only on its own
//! distance and normal — so the outcome does not depend on the traversal
//! order.

use vstd::prelude::*;

use crate::math::{
    bounded, dist_sqs, div_tz, lemma_div_tz_bound, lemma_div_tz_ordered, lemma_mul_bnd,
    mul_div_trunc, v_dist_sq, Vec3, COORD_LIMIT, MAX_DIST_SQ, SCALE,
};
use crate::mesh::Mesh;
use vstd::arithmetic::div_mod::lemma_div_pos_is_pos;

verus! {

/// Numerator of the cubic smoothstep falloff `1 - x^2 (3 - 2 x)` at
/// `x = d2 / MAX_DIST_SQ`, over the denominator `MAX_DIST_SQ^3`.
pub open spec fn falloff_num(d2: int) -> int {
    let m = MAX_DIST_SQ as int;
    m * m * m - d2 * d2 * (3 * m - 2 * d2)
}

/// The falloff as a fixed-point scalar with scale `SCALE`: `SCALE` at the
/// seed point, falling smoothly toward zero at the cutoff.
pub open spec fn falloff_spec(d2: int) -> int {
    let m = MAX_DIST_SQ as int;
    div_tz(falloff_num(d2) * SCALE, m * m * m)
}

/// The falloff numerator stays between `0` and `MAX_DIST_SQ^3` inside the
/// cutoff.
pub proof fn lemma_falloff_num_range(d2: int)
    requires
        0 <= d2 < MAX_DIST_SQ,
    ensures
        0 <= falloff_num(d2),
        falloff_num(d2) <= (MAX_DIST_SQ as int) * (MAX_DIST_SQ as int) * (MAX_DIST_SQ as int),
{
    let m = MAX_DIST_SQ as int;
    assert(m * m * m - d2 * d2 * (3 * m - 2 * d2) == (m - d2) * (m - d2) * (m + 2 * d2))
        by (nonlinear_arith);
    assert((m - d2) * (m - d2) * (m + 2 * d2) >= 0) by (nonlinear_arith)
        requires
            0 <= d2 < m,
    ;
    assert(d2 * d2 * (3 * m - 2 * d2) >= 0) by (nonlinear_arith)
        requires
            0 <= d2 < m,
    ;
}

/// Weight falloff monotonicity: of two squared distances inside the cutoff the smaller
/// one receives the scalar weight at least as large.
pub proof fn lemma_falloff_monotone(d1: int, d2: int)
    requires
        0 <= d1 <= d2 < MAX_DIST_SQ,
    ensures
        falloff_num(d1) >= falloff_num(d2),
        falloff_spec(d1) >= falloff_spec(d2),
{
    let m = MAX_DIST_SQ as int;
    assert(d2 * d2 * (3 * m - 2 * d2) - d1 * d1 * (3 * m - 2 * d1) == (d2 - d1) * (3 * m * (d2
        + d1) - 2 * (d2 * d2 + d1 * d2 + d1 * d1))) by (nonlinear_arith);
    assert(2 * (d2 * d2 + d1 * d2 + d1 * d1) <= 3 * m * (d2 + d1)) by (nonlinear_arith)
        requires
            0 <= d1 <= d2 < m,
    ;
    assert((d2 - d1) * (3 * m * (d2 + d1) - 2 * (d2 * d2 + d1 * d2 + d1 * d1)) >= 0)
        by (nonlinear_arith)
        requires
            0 <= d1 <= d2 < m,
            2 * (d2 * d2 + d1 * d2 + d1 * d1) <= 3 * m * (d2 + d1),
    ;
    lemma_falloff_num_range(d1);
    lemma_falloff_num_range(d2);
    lemma_mul_bnd(falloff_num(d1), SCALE as int, m * m * m, SCALE as int);
    lemma_mul_bnd(falloff_num(d2), SCALE as int, m * m * m, SCALE as int);
    lemma_div_tz_ordered(falloff_num(d2) * SCALE, falloff_num(d1) * SCALE, m * m * m);
}

/// The cube of the cutoff, the common denominator of the falloff.
fn cutoff_cubed() -> (r: i128)
    ensures
        r as int == (MAX_DIST_SQ as int) * (MAX_DIST_SQ as int) * (MAX_DIST_SQ as int),
        0 < r,
{
    let m: i128 = MAX_DIST_SQ as i128;
    proof {
        lemma_mul_bnd(m as int, m as int, 0x10_0000, 0x10_0000);
        lemma_mul_bnd((m * m) as int, m as int, 0x100_0000_0000, 0x10_0000);
        assert((m as int) * (m as int) * (m as int) > 0) by (nonlinear_arith)
            requires
                m == 0x10_0000i128,
        ;
    }
    m * m * m
}

/// The falloff numerator, computed exactly.
fn falloff_num_exec(d2: i64) -> (r: i128)
    requires
        0 <= d2 < MAX_DIST_SQ,
    ensures
        r as int == falloff_num(d2 as int),
        0 <= r,
        r as int <= (MAX_DIST_SQ as int) * (MAX_DIST_SQ as int) * (MAX_DIST_SQ as int),
{
    let m: i128 = MAX_DIST_SQ as i128;
    let d: i128 = d2 as i128;
    proof {
        lemma_mul_bnd(m as int, m as int, 0x10_0000, 0x10_0000);
        lemma_mul_bnd(d as int, d as int, 0x10_0000, 0x10_0000);
    }
    let m3 = cutoff_cubed();
    let dd: i128 = d * d;
    proof {
        lemma_mul_bnd(dd as int, 3 * (m as int) - 2 * (d as int), 0x100_0000_0000, 0x40_0000);
        lemma_falloff_num_range(d2 as int);
    }
    m3 - dd * (3 * m - 2 * d)
}

/// The falloff scalar, in fixed point with scale `SCALE`.
pub fn falloff(d2: i64) -> (r: i64)
    requires
        0 <= d2 < MAX_DIST_SQ,
    ensures
        r == falloff_spec(d2 as int),
        0 <= r <= SCALE,
{
    let num = falloff_num_exec(d2);
    let m3 = cutoff_cubed();
    proof {
        lemma_mul_bnd(num as int, SCALE as int, 0x1000_0000_0000_0000, SCALE as int);
        lemma_div_pos_is_pos(num as int * SCALE as int, m3 as int);
        lemma_div_tz_bound(num as int * SCALE as int, m3 as int, SCALE as int);
    }
    let r = mul_div_trunc(num, SCALE as i128, m3);
    r as i64
}

/// Vertex `v` lies strictly inside the distance cutoff around `p`.
pub open spec fn within_cutoff(m: Mesh, p: Vec3, v: int) -> bool {
    dist_sqs(m.pos_of(v).s(), p.s()) < MAX_DIST_SQ as int
}

/// The weight stored for vertex `v`: the falloff of its squared distance
/// to the seed point, times its cached normal, in fixed point.
pub open spec fn weight_vec(m: Mesh, v: int, p: Vec3) -> (int, int, int) {
    let w = falloff_num(dist_sqs(m.pos_of(v).s(), p.s()));
    let n = m.normal_spec(v).s();
    let mm = MAX_DIST_SQ as int;
    let m3 = mm * mm * mm;
    (div_tz(w * n.0, m3), div_tz(w * n.1, m3), div_tz(w * n.2, m3))
}

/// `path` joins `seed` to `v` through neighbouring vertices that all lie
/// inside the cutoff.
pub open spec fn is_region_path(m: Mesh, p: Vec3, path: Seq<int>, seed: int, v: int) -> bool {
    &&& path.len() >= 1
    &&& path[0] == seed
    &&& path[path.len() - 1] == v
    &&& (forall|i: int|
        0 <= i < path.len() ==> 0 <= #[trigger] path[i] < m.nv() && within_cutoff(m, p, path[i]))
    &&& (forall|i: int| 0 <= i < path.len() - 1 ==> m.is_nbr(#[trigger] path[i], path[i + 1]))
}

/// `v` is joined to `seed` by some region path.
pub open spec fn region_reachable(m: Mesh, p: Vec3, seed: int, v: int) -> bool {
    exists|path: Seq<int>| #[trigger] is_region_path(m, p, path, seed, v)
}

/// A seed inside the cutoff reaches itself.
pub proof fn lemma_reach_seed(m: Mesh, p: Vec3, seed: int)
    requires
        0 <= seed < m.nv(),
        within_cutoff(m, p, seed),
    ensures
        region_reachable(m, p, seed, seed),
{
    let path = seq![seed];
    assert(is_region_path(m, p, path, seed, seed));
}

/// A region path extends across one neighbour step.
pub proof fn lemma_reach_extend(m: Mesh, p: Vec3, seed: int, u: int, w: int)
    requires
        region_reachable(m, p, seed, u),
        m.is_nbr(u, w),
        0 <= w < m.nv(),
        within_cutoff(m, p, w),
    ensures
        region_reachable(m, p, seed, w),
{
    let path = choose|path: Seq<int>| #[trigger] is_region_path(m, p, path, seed, u);
    let path2 = path.push(w);
    assert forall|i: int| 0 <= i < path2.len() - 1 implies m.is_nbr(
        #[trigger] path2[i],
        path2[i + 1],
    ) by {
        if i < path.len() - 1 {
            assert(path2[i] == path[i] && path2[i + 1] == path[i + 1]);
        } else {
            assert(path2[i] == u && path2[i + 1] == w);
        }
    }
    assert(is_region_path(m, p, path2, seed, w));
}

/// A map that contains the in-cutoff seed and is closed under in-cutoff neighbour
/// steps contains every region-reachable vertex.
proof fn lemma_closed_complete(
    m: Mesh,
    p: Vec3,
    out: Seq<Option<Vec3>>,
    seed: int,
    path: Seq<int>,
    v: int,
)
    requires
        out.len() == m.nv(),
        is_region_path(m, p, path, seed, v),
        within_cutoff(m, p, seed) && 0 <= seed < m.nv() ==> out[seed].is_some(),
        forall|u: int, w: int|
            #![trigger out[u], m.is_nbr(u, w)]
            0 <= u < m.nv() && 0 <= w < m.nv() && out[u].is_some() && m.is_nbr(u, w) && within_cutoff(
                m,
                p,
                w,
            ) ==> out[w].is_some(),
    ensures
        out[v].is_some(),
    decreases path.len(),
{
    if path.len() == 1 {
        assert(path[0] == seed && path[0] == v);
    } else {
        let path1 = path.drop_last();
        let u = path[path.len() - 2];
        assert forall|i: int| 0 <= i < path1.len() - 1 implies m.is_nbr(
            #[trigger] path1[i],
            path1[i + 1],
        ) by {
            assert(path1[i] == path[i] && path1[i + 1] == path[i + 1]);
        }
        assert(is_region_path(m, p, path1, seed, u));
        lemma_closed_complete(m, p, out, seed, path1, u);
        assert(m.is_nbr(path[path.len() - 2], path[path.len() - 2 + 1]));
    }
}

/// Number of weighted entries.
spec fn count_some(s: Seq<Option<Vec3>>) -> int
    decreases s.len(),
{
    if s.len() == 0 {
        0
    } else {
        count_some(s.drop_last()) + if s.last().is_some() {
            1int
        } else {
            0int
        }
    }
}

proof fn lemma_count_some_bounds(s: Seq<Option<Vec3>>)
    ensures
        0 <= count_some(s) <= s.len(),
    decreases s.len(),
{
    if s.len() > 0 {
        lemma_count_some_bounds(s.drop_last());
    }
}

/// Filling a `None` entry raises the count by one.
proof fn lemma_count_some_update(s: Seq<Option<Vec3>>, i: int, w: Vec3)
    requires
        0 <= i < s.len(),
        s[i].is_none(),
    ensures
        count_some(s.update(i, Some(w))) == count_some(s) + 1,
        count_some(s) < s.len(),
    decreases s.len(),
{
    let s2 = s.update(i, Some(w));
    if i == s.len() - 1 {
        assert(s2.drop_last() =~= s.drop_last());
        lemma_count_some_bounds(s.drop_last());
    } else {
        assert(s2.drop_last() =~= s.drop_last().update(i, Some(w)));
        lemma_count_some_update(s.drop_last(), i, w);
        assert(s2.last() == s.last());
    }
}

/// `w` occurs on the stack.
spec fn in_stack(st: Seq<usize>, w: int) -> bool {
    exists|i: int| 0 <= i < st.len() && #[trigger] st[i] as int == w
}

/// The full statement of what `compute_weights` returns: one entry per
/// vertex, `Some` exactly on the region-reachable vertices, carrying the
/// falloff-scaled normal.
pub open spec fn weights_spec(m: Mesh, seed: int, p: Vec3, out: Seq<Option<Vec3>>) -> bool {
    &&& out.len() == m.nv()
    &&& forall|v: int|
        0 <= v < m.nv() ==> (match #[trigger] out[v] {
            Some(w) => {
                &&& region_reachable(m, p, seed, v)
                &&& within_cutoff(m, p, v)
                &&& w.s() == weight_vec(m, v, p)
                &&& bounded(w, SCALE as int)
            },
            None => !region_reachable(m, p, seed, v),
        })
}

/// Order independence: the weight mapping is a function of the mesh, seed
/// and point alone.  Any two results that meet the contract of
/// `compute_weights` are equal, so the depth-first traversal order of the
/// expansion cannot show through.
pub proof fn lemma_weights_determined(
    m: Mesh,
    seed: int,
    p: Vec3,
    out1: Seq<Option<Vec3>>,
    out2: Seq<Option<Vec3>>,
)
    requires
        weights_spec(m, seed, p, out1),
        weights_spec(m, seed, p, out2),
    ensures
        out1 =~= out2,
{
    assert forall|v: int| 0 <= v < m.nv() implies out1[v] == out2[v] by {
        match out1[v] {
            Some(w1) => {
                assert(region_reachable(m, p, seed, v));
                let w2 = out2[v].unwrap();
                assert(w1.s() == w2.s());
                assert(w1 == w2);
            },
            None => {
                assert(!region_reachable(m, p, seed, v));
            },
        }
    }
}

/// Compute the morph weights grown from `seed` around `seed_point`.
///
/// The returned vector has one entry per vertex: `Some` exactly for the
/// vertices joined to the seed by a path of neighbours inside the distance
/// cutoff, carrying the falloff-scaled normal; `None` for every other
/// vertex.  The result is a function of the mesh, seed and point alone, so
/// the depth-first order of the expansion cannot be observed.
#[verifier::rlimit(80)]
pub fn compute_weights(mesh: &Mesh, seed: usize, seed_point: Vec3) -> (out: Vec<Option<Vec3>>)
    requires
        mesh.wf(),
        (seed as int) < mesh.nv(),
        bounded(seed_point, COORD_LIMIT as int),
    ensures
        weights_spec(*mesh, seed as int, seed_point, out@),
{
    let nv = mesh.num_vertices();
    let mut out: Vec<Option<Vec3>> = Vec::new();
    let mut i: usize = 0;
    while i < nv
        invariant
            out@.len() == i as int,
            i <= nv,
            forall|u: int| 0 <= u < i as int ==> (#[trigger] out@[u]).is_none(),
        decreases nv - i,
    {
        out.push(None);
        i = i + 1;
    }
    proof {
        lemma_count_none_zero(out@);
    }
    let mut stack: Vec<usize> = Vec::new();
    stack.push(seed);
    let mut weighted: usize = 0;
    proof {
        if within_cutoff(*mesh, seed_point, seed as int) {
            lemma_reach_seed(*mesh, seed_point, seed as int);
        }
        assert(stack@[0] as int == seed as int);
    }
    while stack.len() > 0
        invariant
            mesh.wf(),
            bounded(seed_point, COORD_LIMIT as int),
            (seed as int) < mesh.nv(),
            nv as int == mesh.nv(),
            out@.len() == mesh.nv(),
            weighted as int == count_some(out@),
            weighted <= nv,
            forall|v: int|
                0 <= v < mesh.nv() ==> (match #[trigger] out@[v] {
                    Some(w) => {
                        &&& region_reachable(*mesh, seed_point, seed as int, v)
                        &&& within_cutoff(*mesh, seed_point, v)
                        &&& w.s() == weight_vec(*mesh, v, seed_point)
                        &&& bounded(w, SCALE as int)
                    },
                    None => true,
                }),
            forall|i2: int|
                0 <= i2 < stack@.len() ==> {
                    let w = #[trigger] stack@[i2] as int;
                    &&& 0 <= w < mesh.nv()
                    &&& (within_cutoff(*mesh, seed_point, w) ==> region_reachable(
                        *mesh,
                        seed_point,
                        seed as int,
                        w,
                    ))
                },
            forall|u: int, w: int|
                #![trigger out@[u], mesh.is_nbr(u, w)]
                0 <= u < mesh.nv() && 0 <= w < mesh.nv() && out@[u].is_some() && mesh.is_nbr(u, w)
                    && within_cutoff(*mesh, seed_point, w) ==> out@[w].is_some() || in_stack(stack@, w),
            within_cutoff(*mesh, seed_point, seed as int) ==> out@[seed as int].is_some() || in_stack(
                stack@,
                seed as int,
            ),
        decreases (nv as int - weighted as int) * (mesh.ne() + 1) + stack@.len(),
    {
        let ghost stack0 = stack@;
        let ghost weighted0 = weighted as int;
        let ghost out0 = out@;
        let v = stack.pop().unwrap();
        proof {
            assert(stack0[stack0.len() - 1] == v);
            assert(stack@ =~= stack0.drop_last());
        }
        let vp = mesh.vertex_position(v);
        let d2 = v_dist_sq(vp, seed_point);
        let already = out[v].is_some();
        if !already && d2 < MAX_DIST_SQ {
            proof {
                // This vertex is reachable: it is within the cutoff, and it was pushed
                // either as the seed or as a neighbour of a weighted vertex.
                assert(within_cutoff(*mesh, seed_point, v as int));
                if v == seed {
                    lemma_reach_seed(*mesh, seed_point, seed as int);
                }
                assert(region_reachable(*mesh, seed_point, seed as int, v as int));
            }
            // Weight this vertex.
            let n = mesh.vertex_normal(v);
            let m3 = cutoff_cubed();
            let num = falloff_num_exec(d2);
            proof {
                lemma_mul_bnd(num as int, n.x as int, m3 as int, SCALE as int);
                lemma_mul_bnd(num as int, n.y as int, m3 as int, SCALE as int);
                lemma_mul_bnd(num as int, n.z as int, m3 as int, SCALE as int);
                lemma_div_tz_bound(num as int * n.x as int, m3 as int, SCALE as int);
                lemma_div_tz_bound(num as int * n.y as int, m3 as int, SCALE as int);
                lemma_div_tz_bound(num as int * n.z as int, m3 as int, SCALE as int);
            }
            let wx = mul_div_trunc(num, n.x as i128, m3);
            let wy = mul_div_trunc(num, n.y as i128, m3);
            let wz = mul_div_trunc(num, n.z as i128, m3);
            let w = Vec3 { x: wx as i64, y: wy as i64, z: wz as i64 };
            proof {
                assert(w.s() == weight_vec(*mesh, v as int, seed_point));
                lemma_count_some_update(out@, v as int, w);
            }
            out.set(v, Some(w));
            weighted = weighted + 1;
            proof {
                // Weighting the popped vertex keeps the closure: whatever
                // leaned on its stack entry now finds it weighted.
                assert forall|u: int, w2: int|
                    #![trigger out@[u], mesh.is_nbr(u, w2)]
                    0 <= u < mesh.nv() && 0 <= w2 < mesh.nv() && out@[u].is_some() && mesh.is_nbr(
                        u,
                        w2,
                    ) && within_cutoff(*mesh, seed_point, w2) && u != v as int implies out@[w2].is_some()
                    || in_stack(stack@, w2) by {
                    if !out@[w2].is_some() {
                        assert(out0[u].is_some());
                        assert(in_stack(stack0, w2));
                        let i2 = choose|i2: int|
                            0 <= i2 < stack0.len() && #[trigger] stack0[i2] as int == w2;
                        if i2 == stack0.len() - 1 {
                            assert(w2 == v as int);
                            assert(false);
                        } else {
                            assert(stack@[i2] as int == w2);
                        }
                    }
                }
                if within_cutoff(*mesh, seed_point, seed as int) && !out@[seed as int].is_some() {
                    assert(in_stack(stack0, seed as int));
                    let i2 = choose|i2: int|
                        0 <= i2 < stack0.len() && #[trigger] stack0[i2] as int == seed as int;
                    if i2 == stack0.len() - 1 {
                        assert(seed == v);
                        assert(false);
                    } else {
                        assert(stack@[i2] as int == seed as int);
                    }
                }
            }
            // Push the unweighted neighbours.
            let nbrs = mesh.vertex_neighbors(v);
            let mut j: usize = 0;
            while j < nbrs.len()
                invariant
                    mesh.wf(),
                    bounded(seed_point, COORD_LIMIT as int),
                    (seed as int) < mesh.nv(),
                    nv as int == mesh.nv(),
                    out@.len() == mesh.nv(),
                    weighted as int == count_some(out@),
                    weighted <= nv,
                    j <= nbrs.len(),
                    nbrs@.len() <= mesh.ne(),
                    (v as int) < mesh.nv(),
                    out@[v as int].is_some(),
                    forall|i2: int| 0 <= i2 < nbrs@.len() ==> (#[trigger] nbrs@[i2] as int)
                        < mesh.nv(),
                    forall|w2: int|
                        (exists|i2: int| 0 <= i2 < nbrs@.len() && #[trigger] nbrs@[i2] as int
                            == w2) <==> mesh.is_nbr(v as int, w2),
                    stack@.len() <= stack0.len() - 1 + j as int,
                    forall|v2: int|
                        0 <= v2 < mesh.nv() ==> (match #[trigger] out@[v2] {
                            Some(w2) => {
                                &&& region_reachable(*mesh, seed_point, seed as int, v2)
                                &&& within_cutoff(*mesh, seed_point, v2)
                                &&& w2.s() == weight_vec(*mesh, v2, seed_point)
                                &&& bounded(w2, SCALE as int)
                            },
                            None => true,
                        }),
                    forall|i2: int|
                        0 <= i2 < stack@.len() ==> {
                            let w2 = #[trigger] stack@[i2] as int;
                            &&& 0 <= w2 < mesh.nv()
                            &&& (within_cutoff(*mesh, seed_point, w2) ==> region_reachable(
                                *mesh,
                                seed_point,
                                seed as int,
                                w2,
                            ))
                        },
                    forall|u: int, w2: int|
                        #![trigger out@[u], mesh.is_nbr(u, w2)]
                        0 <= u < mesh.nv() && 0 <= w2 < mesh.nv() && out@[u].is_some()
                            && mesh.is_nbr(u, w2) && within_cutoff(*mesh, seed_point, w2) && u != v as int
                            ==> out@[w2].is_some() || in_stack(stack@, w2),
                    forall|i2: int|
                        0 <= i2 < j as int ==> (#[trigger] out@[nbrs@[i2] as int]).is_some()
                            || in_stack(stack@, nbrs@[i2] as int),
                    within_cutoff(*mesh, seed_point, seed as int) ==> out@[seed as int].is_some()
                        || in_stack(stack@, seed as int),
                decreases nbrs@.len() - j as int,
            {
                let nb = nbrs[j];
                if out[nb].is_none() {
                    proof {
                        // The neighbour is reachable whenever it is within the cutoff.
                        if within_cutoff(*mesh, seed_point, nb as int) {
                            assert(mesh.is_nbr(v as int, nb as int));
                            lemma_reach_extend(
                                *mesh,
                                seed_point,
                                seed as int,
                                v as int,
                                nb as int,
                            );
                        }
                    }
                    let ghost st_before = stack@;
                    stack.push(nb);
                    proof {
                        assert forall|w2: int| #[trigger]
                        in_stack(st_before, w2) implies in_stack(stack@, w2) by {
                            let i3 = choose|i3: int|
                                0 <= i3 < st_before.len() && #[trigger] st_before[i3] as int == w2;
                            assert(stack@[i3] as int == w2);
                        }
                        assert(stack@[stack@.len() - 1] == nb);
                        assert(in_stack(stack@, nb as int));
                    }
                }
                j = j + 1;
            }
            proof {
                // The closure now holds for the freshly weighted vertex too.
                assert forall|u: int, w2: int|
                    #![trigger out@[u], mesh.is_nbr(u, w2)]
                    0 <= u < mesh.nv() && 0 <= w2 < mesh.nv() && out@[u].is_some() && mesh.is_nbr(
                        u,
                        w2,
                    ) && within_cutoff(*mesh, seed_point, w2) implies out@[w2].is_some() || in_stack(
                    stack@,
                    w2,
                ) by {
                    if u == v as int {
                        let i2 = choose|i2: int|
                            0 <= i2 < nbrs@.len() && #[trigger] nbrs@[i2] as int == w2;
                        assert(out@[nbrs@[i2] as int].is_some() || in_stack(
                            stack@,
                            nbrs@[i2] as int,
                        ));
                    }
                }
                // The expansion spent one unweighted vertex, which pays for
                // everything it pushed.
                assert(((nv as int) - (weighted as int)) * (mesh.ne() + 1) == ((nv as int)
                    - weighted0) * (mesh.ne() + 1) - (mesh.ne() + 1)) by (nonlinear_arith)
                    requires
                        weighted as int == weighted0 + 1,
                ;
            }
        } else {
            proof {
                // Discarded pop: either already weighted, or outside the
                // cutoff; the closure is unharmed in both cases.
                assert forall|u: int, w2: int|
                    #![trigger out@[u], mesh.is_nbr(u, w2)]
                    0 <= u < mesh.nv() && 0 <= w2 < mesh.nv() && out@[u].is_some() && mesh.is_nbr(
                        u,
                        w2,
                    ) && within_cutoff(*mesh, seed_point, w2) implies out@[w2].is_some() || in_stack(
                    stack@,
                    w2,
                ) by {
                    if !out@[w2].is_some() {
                        assert(in_stack(stack0, w2));
                        let i2 = choose|i2: int|
                            0 <= i2 < stack0.len() && #[trigger] stack0[i2] as int == w2;
                        if i2 == stack0.len() - 1 {
                            assert(w2 == v as int);
                            assert(already || !(within_cutoff(*mesh, seed_point, v as int)));
                            assert(false);
                        } else {
                            assert(stack@[i2] as int == w2);
                        }
                    }
                }
                if within_cutoff(*mesh, seed_point, seed as int) && !out@[seed as int].is_some() {
                    let i2 = choose|i2: int|
                        0 <= i2 < stack0.len() && #[trigger] stack0[i2] as int == seed as int;
                    if i2 == stack0.len() - 1 {
                        assert(seed == v);
                        assert(false);
                    } else {
                        assert(stack@[i2] as int == seed as int);
                    }
                }
            }
        }
    }
    proof {
        // The stack is empty, so the weighted set is closed under in-cutoff
        // neighbour steps and therefore covers everything reachable.
        assert forall|v: int|
            0 <= v < mesh.nv() && region_reachable(*mesh, seed_point, seed as int, v) implies (
        #[trigger] out@[v]).is_some() by {
            let path = choose|path: Seq<int>|
                #[trigger] is_region_path(*mesh, seed_point, path, seed as int, v);
            lemma_closed_complete(*mesh, seed_point, out@, seed as int, path, v);
        }
    }
    out
}

proof fn lemma_count_none_zero(s: Seq<Option<Vec3>>)
    requires
        forall|u: int| 0 <= u < s.len() ==> (#[trigger] s[u]).is_none(),
    ensures
        count_some(s) == 0,
    decreases s.len(),
{
    if s.len() > 0 {
        lemma_count_none_zero(s.drop_last());
    }
}

} // verus!
