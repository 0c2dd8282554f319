//! Mesh construction: triangle soup to half-edge graph.
//!
//! Three half-edges are created per triangle and linked cyclically, then
//! twins are paired by building a map from packed `(origin, destination)`
//! vertex pairs to half-edge ids and matching each directed edge with the
//! one keyed by its reversed pair.  A repeated directed edge or one without
//! a partner means the input is not a closed manifold surface and
//! construction fails.

use std::collections::HashMap;

use vstd::prelude::*;

use crate::math::{bounded, Vec3, COORD_LIMIT};
use crate::mesh::{next_idx, HalfEdge, Mesh, MeshError, MAX_EDGE_COUNT, MAX_VERTEX_COUNT};

verus! {

broadcast use vstd::std_specs::hash::group_hash_axioms;

/// Origin vertex of directed edge `e` of a triangle list.
pub open spec fn idx_origin(idx: Seq<usize>, e: int) -> int {
    idx[e] as int
}

/// Destination vertex of directed edge `e`: the origin of the following
/// edge of the same triangle.
pub open spec fn idx_dest(idx: Seq<usize>, e: int) -> int {
    idx[next_idx(e)] as int
}

/// Every index names a vertex.
pub open spec fn indices_in_range(idx: Seq<usize>, nv: int) -> bool {
    forall|e: int| 0 <= e < idx.len() ==> (#[trigger] idx[e] as int) < nv
}

/// Some triangle uses the same vertex twice.
pub open spec fn has_degenerate_edge(idx: Seq<usize>) -> bool {
    exists|e: int| 0 <= e < idx.len() && #[trigger] idx_origin(idx, e) == idx_dest(idx, e)
}

/// Some directed edge occurs twice: more than two faces share an
/// undirected edge, or two faces share it with equal winding.
pub open spec fn has_duplicate_edge(idx: Seq<usize>) -> bool {
    exists|e1: int, e2: int|
        {
            &&& 0 <= e1 < idx.len()
            &&& 0 <= e2 < idx.len()
            &&& e1 != e2
            &&& #[trigger] idx_origin(idx, e1) == #[trigger] idx_origin(idx, e2)
            &&& idx_dest(idx, e1) == idx_dest(idx, e2)
        }
}

/// Directed edge `e` has an oppositely-directed partner.
pub open spec fn has_partner(idx: Seq<usize>, e: int) -> bool {
    exists|j: int|
        {
            &&& 0 <= j < idx.len()
            &&& #[trigger] idx_origin(idx, j) == idx_dest(idx, e)
            &&& idx_dest(idx, j) == idx_origin(idx, e)
        }
}

/// Every directed edge has an oppositely-directed partner: the surface is
/// closed.
pub open spec fn fully_paired(idx: Seq<usize>) -> bool {
    forall|e: int| 0 <= e < idx.len() ==> #[trigger] has_partner(idx, e)
}

/// A triangle list that builds a mesh: indices name vertices, no triangle
/// repeats a vertex, and the directed edges pair up one to one.
pub open spec fn mesh_input_ok(idx: Seq<usize>, nv: int) -> bool {
    &&& indices_in_range(idx, nv)
    &&& !has_degenerate_edge(idx)
    &&& !has_duplicate_edge(idx)
    &&& fully_paired(idx)
}

/// Directed edge `e` packed as `origin * 2^32 + destination`.
pub open spec fn edge_key(idx: Seq<usize>, e: int) -> int {
    idx_origin(idx, e) * 0x1_0000_0000 + idx_dest(idx, e)
}

/// The same pair packed in the opposite direction.
pub open spec fn edge_key_rev(idx: Seq<usize>, e: int) -> int {
    idx_dest(idx, e) * 0x1_0000_0000 + idx_origin(idx, e)
}

/// Packing is injective for vertex ids below `2^32`.
proof fn lemma_key_components(a1: int, b1: int, a2: int, b2: int)
    requires
        0 <= a1 < 0x1_0000_0000,
        0 <= b1 < 0x1_0000_0000,
        0 <= a2 < 0x1_0000_0000,
        0 <= b2 < 0x1_0000_0000,
        a1 * 0x1_0000_0000 + b1 == a2 * 0x1_0000_0000 + b2,
    ensures
        a1 == a2,
        b1 == b2,
{
}

/// Build a half-edge mesh from a triangle list and vertex positions.
///
/// Returns `MalformedTopology` exactly when an index is out of range or a
/// triangle repeats a vertex, `NonManifoldEdge` exactly when (that not
/// being so) a directed edge repeats or lacks a partner, and otherwise the
/// well-formed mesh whose half-edge `e` runs from `indices[e]` toward the
/// origin of the following edge of its triangle.
pub fn build_mesh(indices: Vec<usize>, positions: Vec<Vec3>) -> (r: Result<Mesh, MeshError>)
    requires
        indices@.len() % 3 == 0,
        indices@.len() <= MAX_EDGE_COUNT,
        positions@.len() <= MAX_VERTEX_COUNT,
        forall|i: int|
            0 <= i < positions@.len() ==> bounded(#[trigger] positions@[i], COORD_LIMIT as int),
    ensures
        (match r {
            Ok(m) => {
                &&& mesh_input_ok(indices@, positions@.len() as int)
                &&& m.wf()
                &&& m.normals_derived()
                &&& m.positions@ == positions@
                &&& m.ne() == indices@.len()
                &&& (forall|e: int|
                    0 <= e < m.ne() ==> m.origin_of(e) == idx_origin(indices@, e))
                &&& (forall|e: int|
                    0 <= e < m.ne() ==> m.origin_of(#[trigger] m.twin_of(e)) == idx_dest(
                        indices@,
                        e,
                    ) && m.dest_of(m.twin_of(e)) == idx_origin(indices@, e))
            },
            Err(err) => (match err {
                MeshError::MalformedTopology => !indices_in_range(
                    indices@,
                    positions@.len() as int,
                ) || has_degenerate_edge(indices@),
                MeshError::NonManifoldEdge => {
                    &&& indices_in_range(indices@, positions@.len() as int)
                    &&& !has_degenerate_edge(indices@)
                    &&& (has_duplicate_edge(indices@) || !fully_paired(indices@))
                },
            }),
        }),
{
    let ne = indices.len();
    let nv = positions.len();

    // Pass one: every index names a vertex, no triangle repeats one.
    let mut e: usize = 0;
    while e < ne
        invariant
            ne == indices@.len(),
            nv == positions@.len(),
            ne % 3 == 0,
            e <= ne,
            forall|j: int| 0 <= j < e as int ==> (#[trigger] indices@[j] as int) < nv as int,
            forall|j: int|
                0 <= j < e as int ==> #[trigger] idx_origin(indices@, j) != idx_dest(indices@, j),
        decreases ne - e,
    {
        let nxt = if e % 3 == 2 {
            e - 2
        } else {
            e + 1
        };
        proof {
            crate::mesh::lemma_next_idx_range(e as int, ne as int);
        }
        if indices[e] >= nv {
            proof {
                assert((indices@[e as int] as int) >= nv as int);
                assert(!indices_in_range(indices@, nv as int));
            }
            return Err(MeshError::MalformedTopology);
        }
        if indices[e] == indices[nxt] {
            proof {
                assert(idx_origin(indices@, e as int) == idx_dest(indices@, e as int));
                assert(has_degenerate_edge(indices@));
            }
            return Err(MeshError::MalformedTopology);
        }
        e = e + 1;
    }

    // Pass two: map each packed directed edge to its half-edge id,
    // rejecting repeats.
    let mut pair_map: HashMap<u64, usize> = HashMap::new();
    let mut e: usize = 0;
    while e < ne
        invariant
            ne == indices@.len(),
            nv == positions@.len(),
            ne % 3 == 0,
            nv <= MAX_VERTEX_COUNT,
            e <= ne,
            indices_in_range(indices@, nv as int),
            forall|j: int|
                0 <= j < ne as int ==> #[trigger] idx_origin(indices@, j) != idx_dest(indices@, j),
            vstd::std_specs::hash::obeys_key_model::<u64>(),
            forall|j: int|
                0 <= j < e as int ==> {
                    &&& pair_map@.contains_key((#[trigger] edge_key(indices@, j)) as u64)
                    &&& pair_map@[edge_key(indices@, j) as u64] == j as usize
                },
            forall|k: u64|
                #[trigger] pair_map@.contains_key(k) ==> exists|j: int|
                    0 <= j < e as int && edge_key(indices@, j) == k as int,
            forall|j1: int, j2: int|
                0 <= j1 < e as int && 0 <= j2 < e as int && j1 != j2 ==> #[trigger] edge_key(
                    indices@,
                    j1,
                ) != #[trigger] edge_key(indices@, j2),
        decreases ne - e,
    {
        let nxt = if e % 3 == 2 {
            e - 2
        } else {
            e + 1
        };
        proof {
            crate::mesh::lemma_next_idx_range(e as int, ne as int);
        }
        let a = indices[e] as u64;
        let b = indices[nxt] as u64;
        let key: u64 = a * 0x1_0000_0000 + b;
        proof {
            assert(key as int == edge_key(indices@, e as int));
        }
        if pair_map.contains_key(&key) {
            proof {
                let j = choose|j: int|
                    0 <= j < e as int && edge_key(indices@, j) == key as int;
                crate::mesh::lemma_next_idx_range(j, ne as int);
                lemma_key_components(
                    idx_origin(indices@, j),
                    idx_dest(indices@, j),
                    idx_origin(indices@, e as int),
                    idx_dest(indices@, e as int),
                );
                assert(has_duplicate_edge(indices@));
            }
            return Err(MeshError::NonManifoldEdge);
        }
        pair_map.insert(key, e);
        proof {
            assert forall|j1: int, j2: int|
                0 <= j1 < e as int + 1 && 0 <= j2 < e as int + 1 && j1 != j2 implies #[trigger]
            edge_key(indices@, j1) != #[trigger] edge_key(indices@, j2) by {
                if j1 == e as int {
                    assert(pair_map@.contains_key(edge_key(indices@, j2) as u64));
                } else if j2 == e as int {
                    assert(pair_map@.contains_key(edge_key(indices@, j1) as u64));
                }
            }
        }
        e = e + 1;
    }

    // Pass three: create the half-edges, then resolve each twin through the
    // reversed key.
    let mut edges: Vec<HalfEdge> = Vec::new();
    let mut e: usize = 0;
    while e < ne
        invariant
            ne == indices@.len(),
            nv == positions@.len(),
            ne % 3 == 0,
            e <= ne,
            indices_in_range(indices@, nv as int),
            edges@.len() == e as int,
            forall|j: int|
                0 <= j < e as int ==> {
                    &&& (#[trigger] edges@[j]).origin as int == idx_origin(indices@, j)
                    &&& edges@[j].next as int == next_idx(j)
                    &&& edges@[j].face as int == j / 3
                },
        decreases ne - e,
    {
        let nxt = if e % 3 == 2 {
            e - 2
        } else {
            e + 1
        };
        proof {
            crate::mesh::lemma_next_idx_range(e as int, ne as int);
        }
        edges.push(HalfEdge { origin: indices[e], twin: 0, next: nxt, face: e / 3 });
        e = e + 1;
    }

    let mut e: usize = 0;
    while e < ne
        invariant
            ne == indices@.len(),
            nv == positions@.len(),
            ne % 3 == 0,
            nv <= MAX_VERTEX_COUNT,
            e <= ne,
            indices_in_range(indices@, nv as int),
            forall|j: int|
                0 <= j < ne as int ==> #[trigger] idx_origin(indices@, j) != idx_dest(indices@, j),
            vstd::std_specs::hash::obeys_key_model::<u64>(),
            forall|j: int|
                0 <= j < ne as int ==> {
                    &&& pair_map@.contains_key((#[trigger] edge_key(indices@, j)) as u64)
                    &&& pair_map@[edge_key(indices@, j) as u64] == j as usize
                },
            forall|k: u64|
                #[trigger] pair_map@.contains_key(k) ==> exists|j: int|
                    0 <= j < ne as int && edge_key(indices@, j) == k as int,
            forall|j1: int, j2: int|
                0 <= j1 < ne as int && 0 <= j2 < ne as int && j1 != j2 ==> #[trigger] edge_key(
                    indices@,
                    j1,
                ) != #[trigger] edge_key(indices@, j2),
            edges@.len() == ne as int,
            forall|j: int|
                0 <= j < ne as int ==> {
                    &&& (#[trigger] edges@[j]).origin as int == idx_origin(indices@, j)
                    &&& edges@[j].next as int == next_idx(j)
                    &&& edges@[j].face as int == j / 3
                },
            forall|j: int|
                0 <= j < e as int ==> {
                    &&& ((#[trigger] edges@[j]).twin as int) < ne as int
                    &&& idx_origin(indices@, edges@[j].twin as int) == idx_dest(indices@, j)
                    &&& idx_dest(indices@, edges@[j].twin as int) == idx_origin(indices@, j)
                },
        decreases ne - e,
    {
        let nxt = if e % 3 == 2 {
            e - 2
        } else {
            e + 1
        };
        proof {
            crate::mesh::lemma_next_idx_range(e as int, ne as int);
        }
        let a = indices[e] as u64;
        let b = indices[nxt] as u64;
        let rkey: u64 = b * 0x1_0000_0000 + a;
        proof {
            assert(rkey as int == edge_key_rev(indices@, e as int));
        }
        match pair_map.get(&rkey) {
            Some(t) => {
                let t = *t;
                proof {
                    let j = choose|j: int|
                        0 <= j < ne as int && edge_key(indices@, j) == rkey as int;
                    assert(pair_map@[edge_key(indices@, j) as u64] == j as usize);
                    assert(t as int == j);
                    crate::mesh::lemma_next_idx_range(j, ne as int);
                    lemma_key_components(
                        idx_origin(indices@, j),
                        idx_dest(indices@, j),
                        idx_dest(indices@, e as int),
                        idx_origin(indices@, e as int),
                    );
                }
                let mut h = edges[e];
                h.twin = t;
                edges.set(e, h);
            },
            None => {
                proof {
                    if fully_paired(indices@) {
                        assert(has_partner(indices@, e as int));
                        let j = choose|j: int|
                            {
                                &&& 0 <= j < indices@.len()
                                &&& #[trigger] idx_origin(indices@, j) == idx_dest(
                                    indices@,
                                    e as int,
                                )
                                &&& idx_dest(indices@, j) == idx_origin(indices@, e as int)
                            };
                        assert(pair_map@.contains_key(edge_key(indices@, j) as u64));
                        assert(edge_key(indices@, j) == edge_key_rev(indices@, e as int));
                    }
                }
                return Err(MeshError::NonManifoldEdge);
            },
        }
        e = e + 1;
    }

    // Pass four: an outgoing half-edge for every vertex that has one.
    let mut out_edge: Vec<usize> = Vec::new();
    let mut v: usize = 0;
    while v < nv
        invariant
            v <= nv,
            out_edge@.len() == v as int,
            forall|u: int| 0 <= u < v as int ==> #[trigger] out_edge@[u] == ne,
        decreases nv - v,
    {
        out_edge.push(ne);
        v = v + 1;
    }
    let mut e: usize = 0;
    while e < ne
        invariant
            ne == indices@.len(),
            nv == positions@.len(),
            e <= ne,
            indices_in_range(indices@, nv as int),
            out_edge@.len() == nv as int,
            forall|u: int|
                0 <= u < nv as int ==> {
                    ||| (#[trigger] out_edge@[u] == ne && (forall|j: int|
                        0 <= j < e as int ==> idx_origin(indices@, j) != u))
                    ||| ((out_edge@[u] as int) < ne as int && idx_origin(
                        indices@,
                        out_edge@[u] as int,
                    ) == u)
                },
        decreases ne - e,
    {
        let o = indices[e];
        out_edge.set(o, e);
        e = e + 1;
    }

    // Assemble and derive the normals.
    let mut normals: Vec<Vec3> = Vec::new();
    let mut v: usize = 0;
    while v < nv
        invariant
            v <= nv,
            normals@.len() == v as int,
            forall|u: int| 0 <= u < v as int ==> #[trigger] normals@[u] == crate::math::zero3(),
        decreases nv - v,
    {
        normals.push(Vec3 { x: 0, y: 0, z: 0 });
        v = v + 1;
    }

    let mut m = Mesh { positions, normals, out_edge, edges };
    proof {
        assert forall|ei: int| 0 <= ei < m.ne() implies m.edge_ok(ei) by {
            crate::mesh::lemma_next_idx_range(ei, ne as int);
            let t = m.twin_of(ei);
            crate::mesh::lemma_next_idx_range(t, ne as int);
            // dest_of matches the index list's destination.
            assert(m.dest_of(ei) == idx_dest(indices@, ei));
            assert(m.dest_of(t) == idx_dest(indices@, t));
            // twin(twin(ei)) == ei: the twin of the twin carries the same
            // directed edge as ei, and directed edges are unique.
            let t2 = m.twin_of(t);
            assert(idx_origin(indices@, t2) == idx_dest(indices@, t));
            assert(idx_dest(indices@, t2) == idx_origin(indices@, t));
            assert(edge_key(indices@, t2) == edge_key(indices@, ei));
            assert(t2 == ei);
        }
        assert forall|u: int| 0 <= u < m.nv() implies m.vertex_ok(u) by {
            if m.out_of(u) == m.ne() {
                assert forall|ei: int| 0 <= ei < m.ne() implies m.origin_of(ei) != u by {
                    assert(idx_origin(indices@, ei) != u);
                }
            }
        }
        assert(m.wf());
        // The input satisfied every manifold condition.
        assert forall|ei: int| 0 <= ei < indices@.len() implies #[trigger] has_partner(
            indices@,
            ei,
        ) by {
            let t = m.twin_of(ei);
            assert(0 <= t < indices@.len() && idx_origin(indices@, t) == idx_dest(indices@, ei)
                && idx_dest(indices@, t) == idx_origin(indices@, ei));
        }
        assert(!has_duplicate_edge(indices@)) by {
            if has_duplicate_edge(indices@) {
                let (j1, j2) = choose|j1: int, j2: int|
                    {
                        &&& 0 <= j1 < indices@.len()
                        &&& 0 <= j2 < indices@.len()
                        &&& j1 != j2
                        &&& #[trigger] idx_origin(indices@, j1) == #[trigger] idx_origin(
                            indices@,
                            j2,
                        )
                        &&& idx_dest(indices@, j1) == idx_dest(indices@, j2)
                    };
                assert(edge_key(indices@, j1) == edge_key(indices@, j2));
            }
        }
    }
    m.recompute_normals();
    proof {
        assert forall|ei: int| 0 <= ei < m.ne() implies m.origin_of(#[trigger] m.twin_of(ei))
            == idx_dest(indices@, ei) && m.dest_of(m.twin_of(ei)) == idx_origin(
            indices@,
            ei,
        ) by {
            assert(m.edge_ok(ei));
            let t = m.twin_of(ei);
            crate::mesh::lemma_next_idx_range(t, ne as int);
        }
    }
    Ok(m)
}

} // verus!
