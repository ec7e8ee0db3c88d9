use std::collections::HashMap;
use vstd::prelude::*;
use crate::bounds::is_extrema_of;
use crate::grid::AABBGrid;
use crate::mesh::{Corner, Mesh};
use crate::vector::V3;
use crate::vertex::{Occlusion, Vertex};

verus! {

broadcast use vstd::std_specs::hash::group_hash_axioms;

/// Corner number `j` of the mesh, the corners of all faces counted in a row.
pub open spec fn corner_no(mesh: Mesh, j: int) -> Corner {
    mesh.faces[j / 3].corner(j % 3)
}

/// The shading vertex of a corner: its position, its normal, no estimate yet.
pub open spec fn vertex_of(mesh: Mesh, c: Corner) -> Vertex {
    Vertex {
        pos: mesh.positions[c.position as int],
        normal: mesh.normals[c.normal as int],
        occlusion: Occlusion { hits: 0, samples: 0 },
    }
}

/// `verts` and `indices` are the vertex buffer and the index buffer of the
/// mesh: one index for each corner, one vertex for each pair of a position and
/// a normal that some corner has, and the vertices in the order in which their
/// pairs come up first.
pub open spec fn is_vertex_buffer(mesh: Mesh, verts: Seq<Vertex>, indices: Seq<u32>) -> bool {
    &&& indices.len() == 3 * mesh.faces.len()
    &&& forall|j: int|
        0 <= j < indices.len() ==> (#[trigger] indices[j]) < verts.len() && verts[indices[j] as int]
            == vertex_of(mesh, corner_no(mesh, j))
    &&& forall|j: int, k: int|
        0 <= j < indices.len() && 0 <= k < indices.len() ==> ((#[trigger] indices[j]
            == #[trigger] indices[k]) <==> corner_no(mesh, j) == corner_no(mesh, k))
    &&& forall|i: int| 0 <= i < verts.len() ==> #[trigger] used_before(indices, i, indices.len() as int)
    &&& forall|j: int, i: int|
        0 <= j < indices.len() && 0 <= i < #[trigger] indices[j] ==> #[trigger] used_before(
            indices,
            i,
            j,
        )
}

/// One of the first `upto` indices is `i`.
pub open spec fn used_before(indices: Seq<u32>, i: int, upto: int) -> bool {
    exists|j: int| 0 <= j < upto && j < indices.len() && #[trigger] indices[j] == i
}

/// A pair of indices as one key.
pub open spec fn pack(c: Corner) -> u128 {
    (c.position * 0x1_0000_0000_0000_0000 + c.normal) as u128
}

fn pack_exec(c: Corner) -> (key: u128)
    ensures
        key == pack(c),
{
    (c.position as u128) * 0x1_0000_0000_0000_0000 + (c.normal as u128)
}

/// The vertex buffer and the index buffer of a mesh: corners that share both
/// their position and their normal share one vertex.
pub fn generate_vector_buffer(mesh: &Mesh) -> (r: (Vec<Vertex>, Vec<u32>))
    requires
        mesh.wf(),
        3 * mesh.faces.len() <= u32::MAX,
    ensures
        is_vertex_buffer(*mesh, r.0@, r.1@),
{
    let total: usize = mesh.faces.len() * 3;
    let mut verts: Vec<Vertex> = Vec::new();
    let mut indices_vec: Vec<u32> = Vec::new();
    let mut map: HashMap<u128, u32> = HashMap::new();
    let ghost mut keys: Seq<Corner> = Seq::empty();
    let mut j: usize = 0;
    while j < total
        invariant
            mesh.wf(),
            total == 3 * mesh.faces.len(),
            total <= u32::MAX,
            j <= total,
            indices_vec.len() == j,
            verts.len() == keys.len(),
            keys.len() <= j,
            forall|i: int| 0 <= i < keys.len() ==> map@.contains_key(pack(#[trigger] keys[i])) && map@[pack(keys[i])] == i,
            forall|k: u128| #[trigger]
                map@.contains_key(k) ==> map@[k] < keys.len() && pack(keys[map@[k] as int]) == k,
            forall|i: int| 0 <= i < keys.len() ==> (#[trigger] verts[i]) == vertex_of(*mesh, keys[i]),
            forall|n: int|
                0 <= n < j ==> (#[trigger] indices_vec[n]) < keys.len() && keys[indices_vec[n] as int]
                    == corner_no(*mesh, n),
            forall|i: int| 0 <= i < keys.len() ==> #[trigger] used_before(indices_vec@, i, j as int),
            forall|n: int, i: int|
                0 <= n < j && 0 <= i < #[trigger] indices_vec[n] ==> #[trigger] used_before(
                    indices_vec@,
                    i,
                    n,
                ),
        decreases total - j,
    {
        let f = j / 3;
        let c = mesh.faces[f].get(j % 3);
        assert(c == corner_no(*mesh, j as int));
        assert(crate::mesh::face_valid(
            mesh.faces[f as int],
            mesh.positions.len() as int,
            mesh.normals.len() as int,
        ));
        let key = pack_exec(c);
        let ghost before = indices_vec@;
        let found = match map.get(&key) {
            Some(i) => Some(*i),
            None => None,
        };
        match found {
            Some(i) => {
                indices_vec.push(i);
                proof {
                    assert(pack(keys[i as int]) == pack(c));
                    assert(keys[i as int] == c);
                }
            },
            None => {
                let i: u32 = verts.len() as u32;
                map.insert(key, i);
                verts.push(
                    Vertex {
                        pos: mesh.positions[c.position],
                        normal: mesh.normals[c.normal],
                        occlusion: Occlusion::new(),
                    },
                );
                indices_vec.push(i);
                proof {
                    let old_keys = keys;
                    keys = keys.push(c);
                    assert forall|n: int| 0 <= n < keys.len() implies map@.contains_key(
                        pack(#[trigger] keys[n]),
                    ) && map@[pack(keys[n])] == n by {
                        if n < old_keys.len() {
                            assert(keys[n] == old_keys[n]);
                            assert(pack(old_keys[n]) != key);
                        }
                    }
                    assert forall|k: u128| #[trigger] map@.contains_key(k) implies map@[k]
                        < keys.len() && pack(keys[map@[k] as int]) == k by {
                        if k != key {
                            assert(keys[map@[k] as int] == old_keys[map@[k] as int]);
                        }
                    }
                }
            },
        }
        proof {
            let now = indices_vec@;
            assert forall|n: int| 0 <= n < j implies now[n] == before[n] by {}
            let upto = j as int + 1;
            assert forall|i: int| 0 <= i < keys.len() implies #[trigger] used_before(now, i, upto) by {
                if i == now[j as int] {
                    assert(now[j as int] == i);
                } else {
                    assert(used_before(before, i, j as int));
                    let n = choose|n: int| 0 <= n < j && n < before.len() && #[trigger] before[n] == i;
                    assert(now[n] == i);
                }
            }
            assert forall|n: int, i: int|
                0 <= n < j + 1 && 0 <= i < #[trigger] now[n] implies #[trigger] used_before(
                now,
                i,
                n,
            ) by {
                if n < j {
                    assert(before[n] == now[n]);
                    assert(used_before(before, i, n));
                    let m = choose|m: int| 0 <= m < n && m < before.len() && #[trigger] before[m] == i;
                    assert(now[m] == i);
                } else {
                    assert(used_before(before, i, j as int));
                    let m = choose|m: int| 0 <= m < j && m < before.len() && #[trigger] before[m] == i;
                    assert(now[m] == i);
                }
            }
        }
        j += 1;
    }
    proof {
        let indices = indices_vec@;
        assert forall|a: int, b: int|
            0 <= a < indices.len() && 0 <= b < indices.len() implies ((#[trigger] indices[a]
            == #[trigger] indices[b]) <==> corner_no(*mesh, a) == corner_no(*mesh, b)) by {
            assert(keys[indices[a] as int] == corner_no(*mesh, a));
            assert(keys[indices[b] as int] == corner_no(*mesh, b));
            assert(map@[pack(keys[indices[a] as int])] == indices[a]);
            assert(map@[pack(keys[indices[b] as int])] == indices[b]);
        }
    }
    (verts, indices_vec)
}

/// A grid built around the vertex buffer of a mesh encloses the mesh: every
/// corner of every face has its vertex in the buffer, and the box of the
/// grid holds every vertex.
pub proof fn lemma_generated_enclosed(g: AABBGrid, mesh: Mesh, verts: Seq<Vertex>, indices: Seq<u32>)
    requires
        mesh.wf(),
        is_vertex_buffer(mesh, verts, indices),
        is_extrema_of(g.bounds, verts),
    ensures
        g.encloses(mesh),
{
    assert forall|f: int, i: int| 0 <= f < mesh.faces.len() && 0 <= i < 3 implies g.bounds.lo(i)
        <= #[trigger] AABBGrid::face_lo(mesh, f, i) && AABBGrid::face_hi(mesh, f, i) <= g.bounds.hi(
        i,
    ) by {
        assert forall|k: int| 0 <= k < 3 implies g.bounds.lo(i) <= #[trigger] mesh.corner_pos(
            f,
            k,
        ).at(i) <= g.bounds.hi(i) by {
            let j = 3 * f + k;
            assert(j / 3 == f && j % 3 == k);
            assert(corner_no(mesh, j) == mesh.faces[f].corner(k));
            let v = indices[j];
            assert(verts[v as int] == vertex_of(mesh, corner_no(mesh, j)));
            assert(g.bounds.contains(verts[v as int].pos@));
        }
        assert(g.bounds.lo(i) <= mesh.corner_pos(f, 0).at(i) <= g.bounds.hi(i));
        assert(g.bounds.lo(i) <= mesh.corner_pos(f, 1).at(i) <= g.bounds.hi(i));
        assert(g.bounds.lo(i) <= mesh.corner_pos(f, 2).at(i) <= g.bounds.hi(i));
    }
}

/// For the grid built around the vertex buffer of a mesh, testing the faces
/// listed along a ray gives what testing every face gives, for every ray that
/// slips past no face.
pub proof fn lemma_generated_grid_agrees(
    g: AABBGrid,
    mesh: Mesh,
    verts: Seq<Vertex>,
    indices: Seq<u32>,
    o: V3,
    d: V3,
)
    requires
        mesh.wf(),
        is_vertex_buffer(mesh, verts, indices),
        g.wf(),
        is_extrema_of(g.bounds, verts),
        g.lists(mesh),
        forall|f: int, i: int|
            0 <= f < mesh.faces.len() && 0 <= i < 3 ==> !#[trigger] g.slips(mesh, o, d, f, i),
    ensures
        g.ray_blocked(mesh, o, d) == mesh.blocks(o, d),
{
    lemma_generated_enclosed(g, mesh, verts, indices);
    g.lemma_grid_agrees(mesh, o, d);
}

} // verus!
