//! The half-edge topology: vertices, directed half-edges and triangular
//! faces, all cross-referenced by dense integer handles.
//!
//! A mesh stores three half-edges per triangle, so the face of half-edge `e`
//! is `e / 3` and the `next` reference inside a face is arithmetic on `e`.
//! The well-formedness predicate [`Mesh::wf`] captures the manifold
//! invariants: twins are mutual, `next` cycles inside each face, and the
//! origin references of a half-edge and its twin are consistent.

use vstd::prelude::*;
use vstd::arithmetic::div_mod::lemma_mod_multiples_vanish;
use vstd::seq_lib::*;
use vstd::set_lib::{lemma_int_range, lemma_len_subset, set_int_range};

use crate::math::{bounded, Vec3, COORD_LIMIT, SCALE};

verus! {

/// Largest number of half-edges a mesh may hold; keeps the normal
/// accumulators of `normals` inside `i64`.
pub const MAX_EDGE_COUNT: usize = 786432;

/// Largest number of vertices a mesh may hold; keeps the packed edge keys of
/// construction inside `u64`.
pub const MAX_VERTEX_COUNT: usize = 1073741824;

/// A directed edge: one direction of an undirected mesh edge, bordering
/// exactly one face.
#[derive(Clone, Copy, PartialEq, Eq, Structural, Debug)]
pub struct HalfEdge {
    /// Vertex this half-edge points away from.
    pub origin: usize,
    /// The oppositely-directed half-edge over the same undirected edge.
    pub twin: usize,
    /// The following half-edge around the same face.
    pub next: usize,
    /// The face this half-edge borders.
    pub face: usize,
}

/// A construction failure; fatal, the mesh cannot be used.
#[derive(Clone, Copy, PartialEq, Eq, Structural, Debug)]
pub enum MeshError {
    /// A directed edge occurred twice, or had no oppositely-directed partner:
    /// the triangle list does not describe a closed manifold surface.
    NonManifoldEdge,
    /// An index was out of range or a triangle repeated a vertex.
    MalformedTopology,
}

/// A triangle mesh: flat geometry arrays plus the half-edge connectivity.
pub struct Mesh {
    /// Position of each vertex, in fixed-point coordinates.
    pub positions: Vec<Vec3>,
    /// Cached unit normal of each vertex, scaled by `SCALE`; recomputed on
    /// every displacement (recompute-on-write), so it is never stale.
    pub normals: Vec<Vec3>,
    /// One outgoing half-edge per vertex, or `edges.len()` for a vertex that
    /// no triangle uses.
    pub out_edge: Vec<usize>,
    /// The half-edges, three per face.
    pub edges: Vec<HalfEdge>,
}

/// Successor of `e` inside its triangle: the three half-edges of a face
/// cycle.
pub open spec fn next_idx(e: int) -> int {
    if e % 3 == 2 {
        e - 2
    } else {
        e + 1
    }
}

impl Mesh {
    /// Number of vertices.
    pub open spec fn nv(self) -> int {
        self.positions@.len() as int
    }

    /// Number of half-edges.
    pub open spec fn ne(self) -> int {
        self.edges@.len() as int
    }

    /// Number of faces.
    pub open spec fn nf(self) -> int {
        self.ne() / 3
    }

    pub open spec fn origin_of(self, e: int) -> int {
        self.edges@[e].origin as int
    }

    pub open spec fn twin_of(self, e: int) -> int {
        self.edges@[e].twin as int
    }

    pub open spec fn next_of(self, e: int) -> int {
        self.edges@[e].next as int
    }

    pub open spec fn face_of(self, e: int) -> int {
        self.edges@[e].face as int
    }

    /// Vertex a half-edge points toward: the origin of its successor.
    pub open spec fn dest_of(self, e: int) -> int {
        self.origin_of(self.next_of(e))
    }

    pub open spec fn pos_of(self, v: int) -> Vec3 {
        self.positions@[v]
    }

    pub open spec fn normal_spec(self, v: int) -> Vec3 {
        self.normals@[v]
    }

    pub open spec fn out_of(self, v: int) -> int {
        self.out_edge@[v] as int
    }

    /// The connectivity invariants of one half-edge.
    pub open spec fn edge_ok(self, e: int) -> bool {
        &&& 0 <= self.origin_of(e) < self.nv()
        &&& 0 <= self.twin_of(e) < self.ne()
        &&& self.next_of(e) == next_idx(e)
        &&& self.face_of(e) == e / 3
        &&& self.twin_of(self.twin_of(e)) == e
        &&& self.twin_of(e) != e
        &&& self.origin_of(self.twin_of(e)) == self.dest_of(e)
        &&& self.origin_of(e) != self.dest_of(e)
    }

    /// The outgoing reference of one vertex: either a half-edge that really
    /// originates there, or the sentinel `ne()` for an unused vertex.
    pub open spec fn vertex_ok(self, v: int) -> bool {
        ||| (0 <= self.out_of(v) < self.ne() && self.origin_of(self.out_of(v)) == v)
        ||| (self.out_of(v) == self.ne() && (forall|e: int|
            0 <= e < self.ne() ==> self.origin_of(e) != v))
    }

    /// Well-formedness: the invariants every constructed mesh keeps for its
    /// whole lifetime.
    pub open spec fn wf(self) -> bool {
        &&& self.ne() % 3 == 0
        &&& self.ne() <= MAX_EDGE_COUNT
        &&& self.nv() <= MAX_VERTEX_COUNT
        &&& self.normals@.len() == self.nv()
        &&& self.out_edge@.len() == self.nv()
        &&& (forall|e: int| 0 <= e < self.ne() ==> self.edge_ok(e))
        &&& (forall|v: int| 0 <= v < self.nv() ==> self.vertex_ok(v))
        &&& (forall|v: int|
            0 <= v < self.nv() ==> bounded(#[trigger] self.pos_of(v), COORD_LIMIT as int))
        &&& (forall|v: int|
            0 <= v < self.nv() ==> bounded(#[trigger] self.normal_spec(v), SCALE as int))
    }

    /// The next half-edge around the origin of `e`: step to the twin, then to
    /// its successor.
    pub open spec fn rot_of(self, e: int) -> int {
        self.next_of(self.twin_of(e))
    }

    /// `k` steps of `rot_of` from `e`.
    pub open spec fn rotk(self, e: int, k: nat) -> int
        decreases k,
    {
        if k == 0 {
            e
        } else {
            self.rot_of(self.rotk(e, (k - 1) as nat))
        }
    }

    /// `w` is a neighbour of `u`: some half-edge of the orbit around `u`
    /// points at `w`.  This is exactly the enumeration the walker performs:
    /// follow twin-then-next from the stored outgoing half-edge.
    pub open spec fn is_nbr(self, u: int, w: int) -> bool {
        &&& 0 <= u < self.nv()
        &&& self.out_of(u) < self.ne()
        &&& exists|k: nat| k < self.ne() && self.dest_of(self.rotk(self.out_of(u), k)) == w
    }

    /// The topology alone: everything a displacement leaves untouched.
    pub open spec fn topology(self) -> (Seq<HalfEdge>, Seq<usize>) {
        (self.edges@, self.out_edge@)
    }
}

/// Twin symmetry: for every half-edge `e` of a well-formed mesh,
/// `twin(twin(e)) == e`.
pub proof fn lemma_twin_symmetry(m: Mesh, e: int)
    requires
        m.wf(),
        0 <= e < m.ne(),
    ensures
        m.twin_of(m.twin_of(e)) == e,
{
    assert(m.edge_ok(e));
}

/// The successor index stays inside the mesh and inside the same face.
pub proof fn lemma_next_idx_range(e: int, ne: int)
    requires
        0 <= e < ne,
        ne % 3 == 0,
    ensures
        0 <= next_idx(e) < ne,
        next_idx(e) / 3 == e / 3,
{
    let q = e / 3;
    let r = e % 3;
    assert(e == 3 * q + r);
    if r == 2 {
        assert(next_idx(e) == 3 * q);
        assert((3 * q) / 3 == q) by (nonlinear_arith);
    } else {
        assert(next_idx(e) == 3 * q + r + 1);
        assert((3 * q + r + 1) / 3 == q) by (nonlinear_arith)
            requires
                0 <= r < 2,
        ;
        assert(e + 1 < ne) by {
            assert(ne % 3 == 0 && e % 3 < 2);
        };
    }
}

/// Face closure: walking `next` three times from any half-edge returns to
/// the start.
pub proof fn lemma_face_closure(m: Mesh, e: int)
    requires
        m.wf(),
        0 <= e < m.ne(),
    ensures
        m.next_of(m.next_of(m.next_of(e))) == e,
{
    assert(m.edge_ok(e));
    lemma_next_idx_range(e, m.ne());
    let e1 = next_idx(e);
    assert(m.edge_ok(e1));
    lemma_next_idx_range(e1, m.ne());
    let e2 = next_idx(e1);
    assert(m.edge_ok(e2));
    let q = e / 3;
    let r = e % 3;
    assert(e == 3 * q + r);
}

impl Mesh {
    /// One rotation step stays inside the mesh and keeps the origin.
    pub proof fn lemma_rot_props(self, e: int)
        requires
            self.wf(),
            0 <= e < self.ne(),
        ensures
            0 <= self.rot_of(e) < self.ne(),
            self.origin_of(self.rot_of(e)) == self.origin_of(e),
    {
        assert(self.edge_ok(e));
        let t = self.twin_of(e);
        assert(self.edge_ok(t));
        lemma_next_idx_range(t, self.ne());
        // origin(next(t)) == dest(t), and dest(t) == origin(twin(t)) == origin(e).
        assert(self.origin_of(self.twin_of(t)) == self.dest_of(t));
    }

    /// Rotation is injective on half-edges.
    pub proof fn lemma_rot_injective(self, e1: int, e2: int)
        requires
            self.wf(),
            0 <= e1 < self.ne(),
            0 <= e2 < self.ne(),
            self.rot_of(e1) == self.rot_of(e2),
        ensures
            e1 == e2,
    {
        assert(self.edge_ok(e1));
        assert(self.edge_ok(e2));
        let t1 = self.twin_of(e1);
        let t2 = self.twin_of(e2);
        assert(self.edge_ok(t1));
        assert(self.edge_ok(t2));
        assert(next_idx(t1) == next_idx(t2));
        assert(t1 == t2) by {
            if t1 % 3 == 2 && t2 % 3 == 2 {
            } else if t1 % 3 != 2 && t2 % 3 != 2 {
            } else if t1 % 3 == 2 {
                assert(t1 - 2 == t2 + 1);
            } else {
                assert(t2 - 2 == t1 + 1);
            }
        };
    }

    /// Every iterated rotation stays inside the mesh and keeps the origin.
    pub proof fn lemma_rotk_props(self, e: int, k: nat)
        requires
            self.wf(),
            0 <= e < self.ne(),
        ensures
            0 <= self.rotk(e, k) < self.ne(),
            self.origin_of(self.rotk(e, k)) == self.origin_of(e),
        decreases k,
    {
        if k > 0 {
            self.lemma_rotk_props(e, (k - 1) as nat);
            self.lemma_rot_props(self.rotk(e, (k - 1) as nat));
        }
    }

    /// Iterated rotations compose additively.
    pub proof fn lemma_rotk_add(self, e: int, a: nat, b: nat)
        requires
            self.wf(),
            0 <= e < self.ne(),
        ensures
            self.rotk(e, a + b) == self.rotk(self.rotk(e, a), b),
        decreases b,
    {
        if b > 0 {
            self.lemma_rotk_add(e, a, (b - 1) as nat);
            assert(a + b == (a + (b - 1) as nat) + 1);
        }
    }

    /// A repeated iterate cancels: if `rotk(e, i + d) == rotk(e, i)` then
    /// already `rotk(e, d) == e`.
    proof fn lemma_rotk_cancel(self, e: int, i: nat, d: nat)
        requires
            self.wf(),
            0 <= e < self.ne(),
            self.rotk(e, i + d) == self.rotk(e, i),
        ensures
            self.rotk(e, d) == e,
        decreases i,
    {
        if i > 0 {
            let i1 = (i - 1) as nat;
            self.lemma_rotk_props(e, i1 + d);
            self.lemma_rotk_props(e, i1);
            assert(self.rotk(e, i + d) == self.rot_of(self.rotk(e, i1 + d)));
            assert(self.rotk(e, i) == self.rot_of(self.rotk(e, i1)));
            self.lemma_rot_injective(self.rotk(e, i1 + d), self.rotk(e, i1));
            self.lemma_rotk_cancel(e, i1, d);
        }
    }

    /// The orbit of any half-edge under rotation returns to its start within
    /// `ne()` steps.
    pub proof fn lemma_orbit_returns(self, e: int)
        requires
            self.wf(),
            0 <= e < self.ne(),
        ensures
            exists|k: nat| 1 <= k <= self.ne() && self.rotk(e, k) == e,
    {
        let n = self.ne();
        let s = Seq::<int>::new((n + 1) as nat, |i: int| self.rotk(e, i as nat));
        if s.no_duplicates() {
            assert forall|i: int| 0 <= i < s.len() implies s.to_set().contains(#[trigger] s[i]) by {}
            assert forall|x: int| s.to_set().contains(x) implies set_int_range(0, n).contains(x) by {
                let i = choose|i: int| 0 <= i < s.len() && s[i] == x;
                self.lemma_rotk_props(e, i as nat);
            }
            s.unique_seq_to_set();
            lemma_int_range(0, n);
            lemma_len_subset(s.to_set(), set_int_range(0, n));
            assert(false);
        } else {
            let (i, j) = choose|i: int, j: int|
                0 <= i < j < s.len() && s[i] == s[j];
            let d = (j - i) as nat;
            assert(self.rotk(e, (i as nat) + d) == self.rotk(e, i as nat));
            self.lemma_rotk_cancel(e, i as nat, d);
            assert(1 <= d <= n);
        }
    }

    /// Among the return steps of an orbit there is a first one.
    pub proof fn lemma_first_return(self, e: int, k: nat)
        requires
            self.wf(),
            0 <= e < self.ne(),
            1 <= k,
            self.rotk(e, k) == e,
        ensures
            exists|k0: nat|
                {
                    &&& 1 <= k0 <= k
                    &&& self.rotk(e, k0) == e
                    &&& forall|j: nat| 1 <= j < k0 ==> self.rotk(e, j) != e
                },
        decreases k,
    {
        if exists|j: nat| 1 <= j < k && self.rotk(e, j) == e {
            let j = choose|j: nat| 1 <= j < k && self.rotk(e, j) == e;
            self.lemma_first_return(e, j);
        } else {
            assert(1 <= k <= k && self.rotk(e, k) == e && (forall|j: nat|
                1 <= j < k ==> self.rotk(e, j) != e));
        }
    }

    /// Orbits are periodic: once `rotk(e, n) == e`, every step count can be
    /// reduced modulo `n`.
    pub proof fn lemma_rotk_mod(self, e: int, n: nat, k: nat)
        requires
            self.wf(),
            0 <= e < self.ne(),
            1 <= n,
            self.rotk(e, n) == e,
        ensures
            self.rotk(e, k) == self.rotk(e, k % n),
        decreases k,
    {
        if k >= n {
            self.lemma_rotk_add(e, n, (k - n) as nat);
            self.lemma_rotk_mod(e, n, (k - n) as nat);
            lemma_mod_multiples_vanish(1, k - n, n as int);
            assert(((k - n) as int) % (n as int) == (k as int) % (n as int));
        } else {
            vstd::arithmetic::div_mod::lemma_small_mod(k, n);
        }
    }

    /// Number of vertices in the mesh.
    pub fn num_vertices(&self) -> (r: usize)
        ensures
            r as int == self.nv(),
    {
        self.positions.len()
    }

    /// Number of half-edges in the mesh.
    pub fn num_halfedges(&self) -> (r: usize)
        ensures
            r as int == self.ne(),
    {
        self.edges.len()
    }

    /// Number of faces in the mesh.
    pub fn num_faces(&self) -> (r: usize)
        ensures
            r as int == self.nf(),
    {
        self.edges.len() / 3
    }

    /// The oppositely-directed half-edge of `e`.
    pub fn twin_edge(&self, e: usize) -> (r: usize)
        requires
            self.wf(),
            (e as int) < self.ne(),
        ensures
            r as int == self.twin_of(e as int),
            (r as int) < self.ne(),
    {
        proof {
            assert(self.edge_ok(e as int));
        }
        self.edges[e].twin
    }

    /// The following half-edge around the face of `e`.
    pub fn next_edge(&self, e: usize) -> (r: usize)
        requires
            self.wf(),
            (e as int) < self.ne(),
        ensures
            r as int == self.next_of(e as int),
            (r as int) < self.ne(),
    {
        proof {
            assert(self.edge_ok(e as int));
            lemma_next_idx_range(e as int, self.ne());
        }
        self.edges[e].next
    }

    /// The vertex `e` points away from.
    pub fn origin_vertex(&self, e: usize) -> (r: usize)
        requires
            self.wf(),
            (e as int) < self.ne(),
        ensures
            r as int == self.origin_of(e as int),
            (r as int) < self.nv(),
    {
        proof {
            assert(self.edge_ok(e as int));
        }
        self.edges[e].origin
    }

    /// The vertex `e` points toward: the origin of its twin.
    pub fn dest_vertex(&self, e: usize) -> (r: usize)
        requires
            self.wf(),
            (e as int) < self.ne(),
        ensures
            r as int == self.dest_of(e as int),
            (r as int) < self.nv(),
    {
        proof {
            assert(self.edge_ok(e as int));
            lemma_next_idx_range(e as int, self.ne());
            assert(self.edge_ok(self.next_of(e as int)));
        }
        self.edges[self.edges[e].next].origin
    }

    /// The face `e` borders.
    pub fn edge_face(&self, e: usize) -> (r: usize)
        requires
            self.wf(),
            (e as int) < self.ne(),
        ensures
            r as int == self.face_of(e as int),
            (r as int) < self.nf(),
    {
        proof {
            assert(self.edge_ok(e as int));
            assert((e as int) / 3 < self.ne() / 3) by (nonlinear_arith)
                requires
                    0 <= (e as int) && (e as int) < self.ne(),
                    self.ne() % 3 == 0,
            ;
        }
        self.edges[e].face
    }

    /// The first bounding half-edge of face `f`.
    pub fn face_halfedge(&self, f: usize) -> (r: usize)
        requires
            self.wf(),
            (f as int) < self.nf(),
        ensures
            r as int == 3 * (f as int),
            (r as int) < self.ne(),
    {
        proof {
            assert(3 * (f as int) < self.ne()) by (nonlinear_arith)
                requires
                    0 <= (f as int) && (f as int) < self.ne() / 3,
                    self.ne() % 3 == 0,
            ;
        }
        3 * f
    }

    /// The three corner vertices of face `f`, in winding order.
    pub fn face_vertices(&self, f: usize) -> (r: (usize, usize, usize))
        requires
            self.wf(),
            (f as int) < self.nf(),
        ensures
            r.0 as int == self.origin_of(3 * (f as int)),
            r.1 as int == self.origin_of(3 * (f as int) + 1),
            r.2 as int == self.origin_of(3 * (f as int) + 2),
            (r.0 as int) < self.nv() && (r.1 as int) < self.nv() && (r.2 as int) < self.nv(),
    {
        let e = self.face_halfedge(f);
        proof {
            assert(self.edge_ok(e as int));
            assert(self.edge_ok(e as int + 1));
            assert(self.edge_ok(e as int + 2));
        }
        (self.edges[e].origin, self.edges[e + 1].origin, self.edges[e + 2].origin)
    }

    /// An outgoing half-edge of `v`, or `None` when no triangle uses `v`.
    pub fn outgoing_halfedge(&self, v: usize) -> (r: Option<usize>)
        requires
            self.wf(),
            (v as int) < self.nv(),
        ensures
            match r {
                Some(e) => e as int == self.out_of(v as int) && (e as int) < self.ne()
                    && self.origin_of(e as int) == v as int,
                None => self.out_of(v as int) == self.ne() && (forall|e: int|
                    0 <= e < self.ne() ==> self.origin_of(e) != v as int),
            },
    {
        proof {
            assert(self.vertex_ok(v as int));
        }
        let e = self.out_edge[v];
        if e == self.edges.len() {
            None
        } else {
            Some(e)
        }
    }

    /// Current position of a vertex.
    pub fn vertex_position(&self, v: usize) -> (r: Vec3)
        requires
            self.wf(),
            (v as int) < self.nv(),
        ensures
            r == self.pos_of(v as int),
            bounded(r, COORD_LIMIT as int),
    {
        self.positions[v]
    }

    /// Cached normal of a vertex, scaled by `SCALE`.
    pub fn vertex_normal(&self, v: usize) -> (r: Vec3)
        requires
            self.wf(),
            (v as int) < self.nv(),
        ensures
            r == self.normal_spec(v as int),
            bounded(r, SCALE as int),
    {
        self.normals[v]
    }

    /// The vertex positions as a flat buffer, three values per vertex in
    /// vertex-id order.
    pub fn positions_buffer(&self) -> (r: Vec<i64>)
        requires
            self.wf(),
        ensures
            r@.len() == 3 * self.nv(),
            forall|v: int|
                0 <= v < self.nv() ==> r@[3 * v] == self.pos_of(v).x && r@[3 * v + 1]
                    == self.pos_of(v).y && r@[3 * v + 2] == self.pos_of(v).z,
    {
        let mut r: Vec<i64> = Vec::new();
        let mut v: usize = 0;
        while v < self.positions.len()
            invariant
                v as int <= self.nv(),
                r@.len() == 3 * v as int,
                forall|u: int|
                    0 <= u < v as int ==> r@[3 * u] == self.pos_of(u).x && r@[3 * u + 1]
                        == self.pos_of(u).y && r@[3 * u + 2] == self.pos_of(u).z,
            decreases self.nv() - v as int,
        {
            let p = self.positions[v];
            r.push(p.x);
            r.push(p.y);
            r.push(p.z);
            v = v + 1;
        }
        r
    }

    /// The vertex normals as a flat buffer, three values per vertex in
    /// vertex-id order.
    pub fn normals_buffer(&self) -> (r: Vec<i64>)
        requires
            self.wf(),
        ensures
            r@.len() == 3 * self.nv(),
            forall|v: int|
                0 <= v < self.nv() ==> r@[3 * v] == self.normal_spec(v).x && r@[3 * v + 1]
                    == self.normal_spec(v).y && r@[3 * v + 2] == self.normal_spec(v).z,
    {
        let mut r: Vec<i64> = Vec::new();
        let mut v: usize = 0;
        while v < self.normals.len()
            invariant
                self.normals@.len() == self.nv(),
                v as int <= self.nv(),
                r@.len() == 3 * v as int,
                forall|u: int|
                    0 <= u < v as int ==> r@[3 * u] == self.normal_spec(u).x && r@[3 * u + 1]
                        == self.normal_spec(u).y && r@[3 * u + 2] == self.normal_spec(u).z,
            decreases self.nv() - v as int,
        {
            let p = self.normals[v];
            r.push(p.x);
            r.push(p.y);
            r.push(p.z);
            v = v + 1;
        }
        r
    }

    /// The triangle list as a flat buffer, three vertex ids per face: the
    /// origins of the half-edges in id order.
    pub fn indices_buffer(&self) -> (r: Vec<usize>)
        requires
            self.wf(),
        ensures
            r@.len() == self.ne(),
            forall|e: int| 0 <= e < self.ne() ==> r@[e] as int == self.origin_of(e),
    {
        let mut r: Vec<usize> = Vec::new();
        let mut e: usize = 0;
        while e < self.edges.len()
            invariant
                e as int <= self.ne(),
                r@.len() == e as int,
                forall|d: int| 0 <= d < e as int ==> r@[d] as int == self.origin_of(d),
            decreases self.ne() - e as int,
        {
            r.push(self.edges[e].origin);
            e = e + 1;
        }
        r
    }

    /// The neighbouring vertices of `v`: the destinations of the half-edge
    /// orbit around `v`, walked twin-then-next from the outgoing half-edge.
    pub fn vertex_neighbors(&self, v: usize) -> (r: Vec<usize>)
        requires
            self.wf(),
            (v as int) < self.nv(),
        ensures
            r@.len() <= self.ne(),
            forall|i: int| 0 <= i < r@.len() ==> (r@[i] as int) < self.nv(),
            forall|i: int|
                0 <= i < r@.len() ==> r@[i] as int == self.dest_of(
                    self.rotk(self.out_of(v as int), i as nat),
                ),
            forall|w: int|
                (exists|i: int| 0 <= i < r@.len() && r@[i] as int == w) <==> self.is_nbr(
                    v as int,
                    w,
                ),
    {
        let n = self.edges.len();
        let start = self.out_edge[v];
        proof {
            assert(self.vertex_ok(v as int));
        }
        if start == n {
            let r: Vec<usize> = Vec::new();
            proof {
                assert(forall|w: int| !self.is_nbr(v as int, w));
            }
            return r;
        }
        let ghost sv: int = start as int;
        proof {
            self.lemma_orbit_returns(sv);
            let kr = choose|k: nat| 1 <= k <= self.ne() && self.rotk(sv, k) == sv;
            self.lemma_first_return(sv, kr);
        }
        let ghost k0: nat = choose|k0: nat|
            {
                &&& 1 <= k0 <= self.ne()
                &&& self.rotk(sv, k0) == sv
                &&& forall|j: nat| 1 <= j < k0 ==> self.rotk(sv, j) != sv
            };
        let mut r: Vec<usize> = Vec::new();
        proof {
            assert(self.edge_ok(sv));
            lemma_next_idx_range(sv, self.ne());
            assert(self.edge_ok(self.next_of(sv)));
        }
        r.push(self.edges[self.edges[start].next].origin);
        proof {
            self.lemma_rot_props(sv);
            assert(self.edge_ok(self.twin_of(sv)));
        }
        let mut e: usize = self.edges[self.edges[start].twin].next;
        proof {
            assert(self.rotk(sv, 0) == sv);
            assert(self.rotk(sv, 1) == self.rot_of(self.rotk(sv, 0)));
        }
        while e != start
            invariant
                self.wf(),
                sv == start as int,
                0 <= sv < self.ne(),
                1 <= k0 <= self.ne(),
                self.rotk(sv, k0) == sv,
                forall|j: nat| 1 <= j < k0 ==> self.rotk(sv, j) != sv,
                1 <= r@.len() <= k0,
                e as int == self.rotk(sv, r@.len() as nat),
                (e as int) < self.ne(),
                forall|i: int| 0 <= i < r@.len() ==> (r@[i] as int) < self.nv(),
                forall|i: int|
                    0 <= i < r@.len() ==> r@[i] as int == self.dest_of(self.rotk(sv, i as nat)),
            decreases k0 - r@.len(),
        {
            proof {
                if r@.len() == k0 {
                    assert(e as int == sv);
                    assert(false);
                }
                assert(r@.len() < k0);
                let ec = e as int;
                assert(self.edge_ok(ec));
                lemma_next_idx_range(ec, self.ne());
                assert(self.edge_ok(self.next_of(ec)));
                self.lemma_rot_props(ec);
                assert(self.edge_ok(self.twin_of(ec)));
            }
            r.push(self.edges[self.edges[e].next].origin);
            e = self.edges[self.edges[e].twin].next;
        }
        proof {
            // The loop stopped at the first return, so exactly one orbit was
            // collected.
            assert(self.rotk(sv, r@.len() as nat) == sv);
            assert(r@.len() == k0);
            assert forall|w: int|
                (exists|i: int| 0 <= i < r@.len() && r@[i] as int == w) implies self.is_nbr(
                v as int,
                w,
            ) by {
                let i = choose|i: int| 0 <= i < r@.len() && r@[i] as int == w;
                assert((i as nat) < self.ne() && self.dest_of(self.rotk(self.out_of(v as int), i as nat))
                    == w);
            }
            assert forall|w: int| self.is_nbr(v as int, w) implies (exists|i: int|
                0 <= i < r@.len() && r@[i] as int == w) by {
                let k = choose|k: nat|
                    k < self.ne() && self.dest_of(self.rotk(self.out_of(v as int), k)) == w;
                self.lemma_rotk_mod(sv, k0, k);
                let i = k % k0;
                assert(i < k0);
                assert(r@[i as int] as int == w);
            }
        }
        r
    }
}

/// A copyable cursor over the topology: a value type bound to no shared
/// state, so several logical traversals can run side by side.
#[derive(Clone, Copy, PartialEq, Eq, Structural, Debug)]
pub struct Walker {
    /// The half-edge the cursor stands on.
    pub edge: usize,
}

impl Walker {
    /// A cursor standing on half-edge `e`.
    pub fn at_halfedge(m: &Mesh, e: usize) -> (r: Walker)
        requires
            m.wf(),
            (e as int) < m.ne(),
        ensures
            r.edge == e,
    {
        Walker { edge: e }
    }

    /// The half-edge the cursor stands on.
    pub fn halfedge(&self) -> (r: usize)
        ensures
            r == self.edge,
    {
        self.edge
    }

    /// Step to the following half-edge around the current face.
    pub fn step_next(&self, m: &Mesh) -> (r: Walker)
        requires
            m.wf(),
            (self.edge as int) < m.ne(),
        ensures
            r.edge as int == m.next_of(self.edge as int),
            (r.edge as int) < m.ne(),
    {
        Walker { edge: m.next_edge(self.edge) }
    }

    /// Step to the oppositely-directed half-edge.
    pub fn step_twin(&self, m: &Mesh) -> (r: Walker)
        requires
            m.wf(),
            (self.edge as int) < m.ne(),
        ensures
            r.edge as int == m.twin_of(self.edge as int),
            (r.edge as int) < m.ne(),
    {
        Walker { edge: m.twin_edge(self.edge) }
    }

    /// Step to the next half-edge around the current origin vertex
    /// (twin, then next).
    pub fn rotate(&self, m: &Mesh) -> (r: Walker)
        requires
            m.wf(),
            (self.edge as int) < m.ne(),
        ensures
            r.edge as int == m.rot_of(self.edge as int),
            (r.edge as int) < m.ne(),
            m.origin_of(r.edge as int) == m.origin_of(self.edge as int),
    {
        proof {
            m.lemma_rot_props(self.edge as int);
        }
        let t = m.twin_edge(self.edge);
        Walker { edge: m.next_edge(t) }
    }
}

} // verus!
