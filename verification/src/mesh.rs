//! Triangulation of brush geometry for the collider preview.
//!
//! A brush keeps its geometry as a list of vertex positions and, for each
//! face, a polygon given as a list of indices into that vertex list. To build
//! a collider the faces are fan-triangulated: a polygon `p` with `n >= 3`
//! corners yields the `n - 2` triangles `(p[0], p[t + 1], p[t + 2])`.
//! Polygons with fewer than three corners yield nothing.
//!
//! Vertex positions are floating point and stay with the host; the library
//! works on what the triangulation reads: how many vertices there are and
//! the face polygons.
use vstd::prelude::*;

verus! {

/// The part of a brush's runtime mesh cache that the triangulation reads.
pub struct BrushMeshCache {
    /// Number of vertex positions the brush holds.
    pub vertex_count: usize,
    /// Each face as a polygon of indices into the vertex list.
    pub face_polygons: Vec<Vec<usize>>,
}

/// A triangle-list mesh: the vertex count it was built over and three
/// indices per triangle.
pub struct TriangleMesh {
    pub vertex_count: usize,
    pub indices: Vec<u32>,
}

/// The indices of the first `t` fan triangles of polygon `p`.
pub open spec fn fan_prefix(p: Seq<usize>, t: nat) -> Seq<u32>
    decreases t,
{
    if t == 0 {
        Seq::empty()
    } else {
        fan_prefix(p, (t - 1) as nat) + seq![
            p[0] as u32,
            p[t as int] as u32,
            p[t + 1int] as u32,
        ]
    }
}

/// The indices of the fan triangulation of one polygon.
pub open spec fn polygon_fan(p: Seq<usize>) -> Seq<u32> {
    if p.len() >= 3 {
        fan_prefix(p, (p.len() - 2) as nat)
    } else {
        Seq::empty()
    }
}

/// The indices of the fan triangulation of all polygons, in order.
pub open spec fn fan_indices(polygons: Seq<Seq<usize>>) -> Seq<u32>
    decreases polygons.len(),
{
    if polygons.len() == 0 {
        Seq::empty()
    } else {
        fan_indices(polygons.drop_last()) + polygon_fan(polygons.last())
    }
}

/// Number of triangles the fan of a polygon with `n` corners has.
pub open spec fn fan_triangle_count(n: nat) -> nat {
    if n >= 3 {
        (n - 2) as nat
    } else {
        0
    }
}

/// Number of triangles in the fan triangulation of all polygons.
pub open spec fn total_triangle_count(polygons: Seq<Seq<usize>>) -> nat
    decreases polygons.len(),
{
    if polygons.len() == 0 {
        0
    } else {
        total_triangle_count(polygons.drop_last()) + fan_triangle_count(polygons.last().len())
    }
}

/// The polygons viewed as sequences of sequences.
pub open spec fn polygons_view(polygons: Seq<Vec<usize>>) -> Seq<Seq<usize>> {
    polygons.map_values(|p: Vec<usize>| p@)
}

/// The mesh built from a brush cache: none without vertices, else the fan
/// triangulation of its faces over its vertices.
pub open spec fn brush_mesh_spec(vertex_count: usize, polygons: Seq<Seq<usize>>) -> Option<
    (usize, Seq<u32>),
> {
    if vertex_count == 0 {
        None
    } else {
        Some((vertex_count, fan_indices(polygons)))
    }
}

/// Triangle `k` (`k < t`) of a fan prefix is `(p[0], p[k + 1], p[k + 2])`.
pub proof fn lemma_fan_prefix_triangle(p: Seq<usize>, t: nat, k: int)
    requires
        t + 1 < p.len(),
        0 <= k < t,
    ensures
        fan_prefix(p, t).len() == 3 * t,
        fan_prefix(p, t)[3 * k] == p[0] as u32,
        fan_prefix(p, t)[3 * k + 1] == p[k + 1] as u32,
        fan_prefix(p, t)[3 * k + 2] == p[k + 2] as u32,
    decreases t,
{
    lemma_fan_prefix_len(p, t);
    if k < t - 1 {
        lemma_fan_prefix_triangle(p, (t - 1) as nat, k);
        lemma_fan_prefix_len(p, (t - 1) as nat);
    } else {
        lemma_fan_prefix_len(p, (t - 1) as nat);
    }
}

/// A fan prefix of `t` triangles holds `3 * t` indices.
pub proof fn lemma_fan_prefix_len(p: Seq<usize>, t: nat)
    ensures
        fan_prefix(p, t).len() == 3 * t,
    decreases t,
{
    if t > 0 {
        lemma_fan_prefix_len(p, (t - 1) as nat);
    }
}

/// Every index of a fan prefix is one of the polygon's corners.
pub proof fn lemma_fan_prefix_from_corners(p: Seq<usize>, t: nat, m: int)
    requires
        t + 1 < p.len(),
        0 <= m < fan_prefix(p, t).len(),
    ensures
        exists|c: int| 0 <= c < p.len() && fan_prefix(p, t)[m] == p[c] as u32,
    decreases t,
{
    lemma_fan_prefix_len(p, t);
    lemma_fan_prefix_len(p, (t - 1) as nat);
    if m < 3 * (t - 1) {
        lemma_fan_prefix_from_corners(p, (t - 1) as nat, m);
        let c = choose|c: int| 0 <= c < p.len() && fan_prefix(p, (t - 1) as nat)[m] == p[c] as u32;
        assert(fan_prefix(p, t)[m] == p[c] as u32);
    } else if m == 3 * (t - 1) {
        assert(fan_prefix(p, t)[m] == p[0] as u32);
    } else if m == 3 * (t - 1) + 1 {
        assert(fan_prefix(p, t)[m] == p[t as int] as u32);
    } else {
        assert(fan_prefix(p, t)[m] == p[t + 1int] as u32);
    }
}

/// Fan-triangulates each face polygon in turn: a polygon `p` with at least
/// three corners contributes the triangles `(p[0], p[i], p[i + 1])` for
/// `i` in `1 .. p.len() - 1`; smaller polygons contribute nothing. Indices
/// are converted to `u32` as the mesh stores them.
pub fn fan_triangulate(face_polygons: &Vec<Vec<usize>>) -> (indices: Vec<u32>)
    ensures
        indices@ == fan_indices(polygons_view(face_polygons@)),
{
    let ghost polys = polygons_view(face_polygons@);
    let mut indices: Vec<u32> = Vec::new();
    let mut j: usize = 0;
    while j < face_polygons.len()
        invariant
            0 <= j <= face_polygons.len(),
            polys == polygons_view(face_polygons@),
            indices@ == fan_indices(polys.take(j as int)),
        decreases face_polygons.len() - j,
    {
        let polygon = &face_polygons[j];
        let ghost prefix = indices@;
        assert(polys[j as int] == polygon@);
        if polygon.len() >= 3 {
            let mut i: usize = 1;
            while i < polygon.len() - 1
                invariant
                    3 <= polygon.len(),
                    1 <= i <= polygon.len() - 1,
                    indices@ == prefix + fan_prefix(polygon@, (i - 1) as nat),
                decreases polygon.len() - i,
            {
                indices.push(polygon[0] as u32);
                indices.push(polygon[i] as u32);
                indices.push(polygon[i + 1] as u32);
                assert(fan_prefix(polygon@, i as nat) == fan_prefix(polygon@, (i - 1) as nat)
                    + seq![polygon@[0] as u32, polygon@[i as int] as u32, polygon@[i + 1] as u32]);
                assert(indices@ =~= prefix + fan_prefix(polygon@, i as nat));
                i = i + 1;
            }
        }
        assert(polys.take(j + 1).drop_last() =~= polys.take(j as int));
        assert(polys.take(j + 1).last() == polygon@);
        assert(indices@ =~= fan_indices(polys.take(j + 1)));
        j = j + 1;
    }
    assert(polys.take(face_polygons.len() as int) =~= polys);
    indices
}

/// Builds the triangle mesh of a brush: `None` when the brush has no
/// vertices, otherwise its vertex count and the fan triangulation of its
/// faces.
pub fn brush_mesh_from_cache(cache: &BrushMeshCache) -> (mesh: Option<TriangleMesh>)
    ensures
        match mesh {
            None => brush_mesh_spec(cache.vertex_count, polygons_view(cache.face_polygons@))
                is None,
            Some(m) => brush_mesh_spec(cache.vertex_count, polygons_view(cache.face_polygons@))
                == Some((m.vertex_count, m.indices@)),
        },
{
    if cache.vertex_count == 0 {
        return None;
    }
    let indices = fan_triangulate(&cache.face_polygons);
    Some(TriangleMesh { vertex_count: cache.vertex_count, indices })
}

} // verus!
