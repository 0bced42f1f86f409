use jackdaw_api::collider_sync::{sync_brush_colliders, BrushChange, ColliderSyncStep};
use jackdaw_api::mesh::BrushMeshCache;
use jackdaw_api::EntityId;

fn id(bits: u64) -> EntityId {
    EntityId { bits }
}

#[test]
fn removals_come_first_then_builds() {
    let removed = vec![id(7), id(3)];
    let changed = vec![BrushChange {
        entity: id(1),
        cache: BrushMeshCache { vertex_count: 4, face_polygons: vec![vec![0, 1, 2, 3]] },
    }];
    let steps = sync_brush_colliders(&removed, &changed);
    assert_eq!(steps.len(), 3);
    assert!(matches!(steps[0], ColliderSyncStep::Remove(e) if e == id(7)));
    assert!(matches!(steps[1], ColliderSyncStep::Remove(e) if e == id(3)));
    match &steps[2] {
        ColliderSyncStep::Build { entity, mesh } => {
            assert_eq!(*entity, id(1));
            assert_eq!(mesh.vertex_count, 4);
            assert_eq!(mesh.indices, vec![0u32, 1, 2, 0, 2, 3]);
        }
        ColliderSyncStep::Remove(_) => panic!("expected a build step"),
    }
}

#[test]
fn brushes_without_vertices_are_skipped() {
    let changed = vec![
        BrushChange { entity: id(1), cache: BrushMeshCache { vertex_count: 0, face_polygons: vec![] } },
        BrushChange {
            entity: id(2),
            cache: BrushMeshCache { vertex_count: 3, face_polygons: vec![vec![0, 1, 2]] },
        },
    ];
    let steps = sync_brush_colliders(&Vec::new(), &changed);
    assert_eq!(steps.len(), 1);
    match &steps[0] {
        ColliderSyncStep::Build { entity, mesh } => {
            assert_eq!(*entity, id(2));
            assert_eq!(mesh.indices, vec![0u32, 1, 2]);
        }
        ColliderSyncStep::Remove(_) => panic!("expected a build step"),
    }
}

#[test]
fn nothing_changed_nothing_to_do() {
    assert!(sync_brush_colliders(&Vec::new(), &Vec::new()).is_empty());
}
