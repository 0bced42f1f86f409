//! Keeping the collider preview in step with brush geometry.
//!
//! Each frame, brushes whose mesh cache went away lose their preview
//! collider, and brushes whose mesh cache or collider constructor changed
//! get a new one built from their triangulated mesh. A brush without
//! vertices has no mesh and is skipped. Building the collider itself, and
//! the preview cache, belong to the physics engine; this module decides what
//! is to be done and in which order.
use vstd::prelude::*;
use crate::components::EntityId;
use crate::mesh::{BrushMeshCache, TriangleMesh, brush_mesh_from_cache, brush_mesh_spec, polygons_view};

verus! {

/// A brush whose mesh cache or collider constructor changed.
pub struct BrushChange {
    pub entity: EntityId,
    pub cache: BrushMeshCache,
}

/// One thing to do to the collider preview.
pub enum ColliderSyncStep {
    /// Drop the preview collider of this entity.
    Remove(EntityId),
    /// Build a collider for this entity from the mesh and store it.
    Build { entity: EntityId, mesh: TriangleMesh },
}

/// A step as plain values: `(true, e, 0, [])` removes `e`; `(false, e, n, is)`
/// builds for `e` from `n` vertices and indices `is`.
pub open spec fn step_view(s: ColliderSyncStep) -> (bool, EntityId, usize, Seq<u32>) {
    match s {
        ColliderSyncStep::Remove(e) => (true, e, 0, Seq::empty()),
        ColliderSyncStep::Build { entity, mesh } => (false, entity, mesh.vertex_count, mesh.indices@),
    }
}

/// The removal steps, one per entity, in order.
pub open spec fn removal_steps(removed: Seq<EntityId>) -> Seq<(bool, EntityId, usize, Seq<u32>)> {
    removed.map_values(|e: EntityId| (true, e, 0usize, Seq::<u32>::empty()))
}

/// The build steps: one per changed brush that has a mesh, in order.
pub open spec fn build_steps(changed: Seq<BrushChange>) -> Seq<(bool, EntityId, usize, Seq<u32>)>
    decreases changed.len(),
{
    if changed.len() == 0 {
        Seq::empty()
    } else {
        let c = changed.last();
        build_steps(changed.drop_last()) + match brush_mesh_spec(
            c.cache.vertex_count,
            polygons_view(c.cache.face_polygons@),
        ) {
            None => Seq::empty(),
            Some((n, is)) => seq![(false, c.entity, n, is)],
        }
    }
}

/// Plans a preview sync: first a removal for each entity whose mesh cache
/// went away, in order, then a build for each changed brush that has a mesh,
/// in order.
pub fn sync_brush_colliders(removed: &Vec<EntityId>, changed: &Vec<BrushChange>) -> (steps: Vec<
    ColliderSyncStep,
>)
    ensures
        steps@.map_values(|s: ColliderSyncStep| step_view(s)) == removal_steps(removed@)
            + build_steps(changed@),
{
    let ghost sv = |s: ColliderSyncStep| step_view(s);
    let mut steps: Vec<ColliderSyncStep> = Vec::new();
    let mut i: usize = 0;
    while i < removed.len()
        invariant
            0 <= i <= removed.len(),
            sv == (|s: ColliderSyncStep| step_view(s)),
            steps@.map_values(sv) == removal_steps(removed@.take(i as int)),
        decreases removed.len() - i,
    {
        let ghost old_steps = steps@;
        steps.push(ColliderSyncStep::Remove(removed[i]));
        assert(removed@.take(i + 1) =~= removed@.take(i as int).push(removed@[i as int]));
        assert(steps@.map_values(sv) =~= old_steps.map_values(sv).push(
            (true, removed@[i as int], 0usize, Seq::<u32>::empty()),
        ));
        assert(steps@.map_values(sv) =~= removal_steps(removed@.take(i + 1)));
        i = i + 1;
    }
    assert(removed@.take(removed.len() as int) =~= removed@);
    let ghost prefix = steps@.map_values(sv);
    let mut j: usize = 0;
    assert(build_steps(changed@.take(0)) =~= Seq::<(bool, EntityId, usize, Seq<u32>)>::empty());
    assert(prefix + build_steps(changed@.take(0)) =~= prefix);
    while j < changed.len()
        invariant
            0 <= j <= changed.len(),
            sv == (|s: ColliderSyncStep| step_view(s)),
            steps@.map_values(sv) == prefix + build_steps(changed@.take(j as int)),
        decreases changed.len() - j,
    {
        let change = &changed[j];
        let ghost before = steps@.map_values(sv);
        assert(changed@.take(j + 1).drop_last() =~= changed@.take(j as int));
        assert(changed@.take(j + 1).last() == changed@[j as int]);
        match brush_mesh_from_cache(&change.cache) {
            Some(mesh) => {
                let ghost old_steps = steps@;
                let ghost built = (false, change.entity, mesh.vertex_count, mesh.indices@);
                steps.push(ColliderSyncStep::Build { entity: change.entity, mesh });
                assert(steps@.map_values(sv) =~= old_steps.map_values(sv).push(built));
            },
            None => {},
        }
        assert(steps@.map_values(sv) =~= prefix + build_steps(changed@.take(j + 1)));
        j = j + 1;
    }
    assert(changed@.take(changed.len() as int) =~= changed@);
    steps
}

} // verus!
