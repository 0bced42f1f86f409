//! Properties of the library that span several operations.
use vstd::prelude::*;
use crate::components::{
    Component, EntityId, EntityRecord, Extension, RegisteredPanelExtension, RegisteredWindow,
    section_marker, window_marker, workspace_marker,
};
use crate::collider_sync::{BrushChange, build_steps, removal_steps};
use crate::mesh::{
    fan_indices, fan_triangle_count, lemma_fan_prefix_from_corners, lemma_fan_prefix_len,
    lemma_fan_prefix_triangle,
    brush_mesh_spec, polygon_fan, polygons_view, total_triangle_count,
};
use crate::registries::{
    DockWindowDescriptor, Keyed, WorkspaceDescriptor, has_key, registered, without_positions,
};
use crate::seq_facts::{lemma_filter_all, lemma_filter_congruent, lemma_filter_member};
use crate::world::{
    despawned_records, despawned_sections, despawned_windows, despawned_workspaces, has_entity,
    in_subtree, parent_link, removed_section_positions,
    lemma_in_subtree_step, lemma_position_of, lemma_subtree_at, parent_before, position_of,
    records_wf, removed_window_ids, removed_workspace_ids, subtree, survives, window_kept,
    workspace_kept,
};

verus! {

broadcast use vstd::seq_lib::group_seq_properties;

/// In a list where no entity is `root`, no position lies under `root`.
proof fn lemma_nothing_under_absent_root<C>(recs: Seq<EntityRecord<C>>, root: EntityId, i: int)
    requires
        forall|k: int| 0 <= k < recs.len() ==> #[trigger] recs[k].entity != root,
    ensures
        !in_subtree(recs, i, root),
    decreases i,
{
    if 0 <= i < recs.len() {
        if let Some(p) = recs[i].parent {
            let j = position_of(recs, p);
            if 0 <= j < i {
                lemma_nothing_under_absent_root(recs, root, j);
            }
        }
    }
}

/// Appending a record after a well-formed list does not change what lies
/// under `root` among the records already there.
proof fn lemma_in_subtree_push<C>(
    recs: Seq<EntityRecord<C>>,
    next: u64,
    x: EntityRecord<C>,
    k: int,
    root: EntityId,
)
    requires
        records_wf(recs, next),
        x.entity.bits >= next,
        0 <= k < recs.len(),
    ensures
        in_subtree(recs.push(x), k, root) == in_subtree(recs, k, root),
    decreases k,
{
    let p = recs.push(x);
    assert(p[k] == recs[k]);
    if recs[k].entity != root && recs[k].parent is Some {
        let q = recs[k].parent->0;
        assert(parent_before(recs, k));
        let j0 = choose|j: int| 0 <= j < k && #[trigger] recs[j].entity == q;
        lemma_position_of(recs, j0);
        assert(p[j0] == recs[j0]);
        lemma_position_of(p, j0);
        lemma_in_subtree_push(recs, next, x, j0, root);
    }
}

/// Unloading (despawning) an extension's entity takes away exactly that
/// entity and everything under it: an entity remains afterwards if and only
/// if it was there before and did not lie under the extension.
pub proof fn law_unload_removes_exactly_the_subtree<C>(recs: Seq<EntityRecord<C>>, root: EntityId)
    ensures
        forall|e: EntityId|
            #![trigger has_entity(despawned_records(recs, root), e)]
            has_entity(despawned_records(recs, root), e) <==> has_entity(recs, e) && !subtree(
                recs,
                root,
            ).contains(e),
{
    let d = despawned_records(recs, root);
    assert forall|e: EntityId| has_entity(d, e) <==> has_entity(recs, e) && !subtree(
        recs,
        root,
    ).contains(e) by {
        if has_entity(d, e) {
            let i = choose|i: int| 0 <= i < d.len() && d[i].entity == e;
            lemma_filter_member(recs, survives(recs, root), i);
            let k = choose|k: int| 0 <= k < recs.len() && recs[k] == d[i];
            assert(recs[k].entity == e);
        }
        if has_entity(recs, e) && !subtree(recs, root).contains(e) {
            let k = choose|k: int| 0 <= k < recs.len() && recs[k].entity == e;
            recs.lemma_filter_contains(survives(recs, root), k);
            let i = choose|i: int| 0 <= i < d.len() && d[i] == recs[k];
            assert(d[i].entity == e);
        }
    }
}

/// Whatever is spawned under an entity that goes with an unload goes too:
/// the children of an entity under the extension lie under it as well.
pub proof fn law_children_go_with_their_parent<C>(
    recs: Seq<EntityRecord<C>>,
    next: u64,
    root: EntityId,
    i: int,
)
    requires
        records_wf(recs, next),
        0 <= i < recs.len(),
        recs[i].parent matches Some(p) && subtree(recs, root).contains(p),
    ensures
        subtree(recs, root).contains(recs[i].entity),
{
    lemma_in_subtree_step(recs, root, i);
    let j = position_of(recs, recs[i].parent->0);
    lemma_subtree_at(recs, root, j);
    lemma_subtree_at(recs, root, i);
}

/// After an unload nothing is left of the extension: neither its entity nor
/// anything under it.
pub proof fn law_unload_leaves_nothing_of_the_extension<C>(recs: Seq<EntityRecord<C>>, root: EntityId)
    ensures
        !has_entity(despawned_records(recs, root), root),
        forall|i: int| !#[trigger] in_subtree(despawned_records(recs, root), i, root),
{
    let d = despawned_records(recs, root);
    assert forall|k: int| 0 <= k < d.len() implies #[trigger] d[k].entity != root by {
        lemma_filter_member(recs, survives(recs, root), k);
        let m = choose|m: int| 0 <= m < recs.len() && recs[m] == d[k];
        if d[k].entity == root {
            assert(in_subtree(recs, m, root));
            assert(subtree(recs, root).contains(root));
        }
    }
    assert forall|i: int| !#[trigger] in_subtree(d, i, root) by {
        lemma_nothing_under_absent_root(d, root, i);
    }
}

/// Unloading twice is unloading once.
pub proof fn law_unload_is_idempotent<C>(
    recs: Seq<EntityRecord<C>>,
    windows: Seq<DockWindowDescriptor<C>>,
    workspaces: Seq<WorkspaceDescriptor>,
    sections: Seq<C>,
    panel: Seq<char>,
    root: EntityId,
)
    ensures
        despawned_records(despawned_records(recs, root), root) == despawned_records(recs, root),
        despawned_sections(
            despawned_sections(sections, recs, root, panel),
            despawned_records(recs, root),
            root,
            panel,
        ) == despawned_sections(sections, recs, root, panel),
        despawned_windows(despawned_windows(windows, recs, root), despawned_records(recs, root), root)
            == despawned_windows(windows, recs, root),
        despawned_workspaces(
            despawned_workspaces(workspaces, recs, root),
            despawned_records(recs, root),
            root,
        ) == despawned_workspaces(workspaces, recs, root),
{
    let d = despawned_records(recs, root);
    law_unload_leaves_nothing_of_the_extension(recs, root);
    assert forall|k: int| 0 <= k < d.len() implies #[trigger] survives(d, root)(d[k]) by {
        if subtree(d, root).contains(d[k].entity) {
            let m = choose|m: int| 0 <= m < d.len() && d[m].entity == d[k].entity && in_subtree(d, m, root);
            assert(in_subtree(d, m, root));
        }
    }
    lemma_filter_all(d, survives(d, root));
    let w = despawned_windows(windows, recs, root);
    let ws = despawned_workspaces(workspaces, recs, root);
    assert(removed_window_ids(d, root, d.len() as int) =~= Set::<Seq<char>>::empty()) by {
        assert forall|k: Seq<char>| !#[trigger] removed_window_ids(d, root, d.len() as int).contains(k) by {
            if removed_window_ids(d, root, d.len() as int).contains(k) {
                let i = choose|i: int| 0 <= i < d.len() as int && i < d.len() && in_subtree(d, i, root) && #[trigger] crate::components::window_marker(d[i].component) == Some(k);
                assert(in_subtree(d, i, root));
            }
        }
    }
    assert(removed_workspace_ids(d, root, d.len() as int) =~= Set::<Seq<char>>::empty()) by {
        assert forall|k: Seq<char>| !#[trigger] removed_workspace_ids(d, root, d.len() as int).contains(k) by {
            if removed_workspace_ids(d, root, d.len() as int).contains(k) {
                let i = choose|i: int| 0 <= i < d.len() as int && i < d.len() && in_subtree(d, i, root) && #[trigger] crate::components::workspace_marker(d[i].component) == Some(k);
                assert(in_subtree(d, i, root));
            }
        }
    }
    lemma_filter_all(w, window_kept(removed_window_ids(d, root, d.len() as int)));
    lemma_filter_all(ws, workspace_kept(removed_workspace_ids(d, root, d.len() as int)));
    assert forall|j: int| !#[trigger] removed_section_positions(d, root, d.len() as int, panel).contains(j) by {
        if removed_section_positions(d, root, d.len() as int, panel).contains(j) {
            let i = choose|i: int| 0 <= i < d.len() as int && i < d.len() && in_subtree(d, i, root) && #[trigger] section_marker(d[i].component) == Some((panel, j));
            assert(in_subtree(d, i, root));
        }
    }
    lemma_without_positions_none(
        despawned_sections(sections, recs, root, panel),
        removed_section_positions(d, root, d.len() as int, panel),
    );
}

/// Loading an extension that registers nothing and unloading it again
/// leaves the world as it was.
pub proof fn law_unload_undoes_an_empty_load<C>(
    recs: Seq<EntityRecord<C>>,
    next: u64,
    windows: Seq<DockWindowDescriptor<C>>,
    workspaces: Seq<WorkspaceDescriptor>,
    sections: Seq<C>,
    panel: Seq<char>,
    name: String,
)
    requires
        records_wf(recs, next),
    ensures
        ({
            let e = EntityId { bits: next };
            let loaded = recs.push(
                EntityRecord {
                    entity: e,
                    parent: None,
                    component: Component::Extension(Extension { name }, None),
                },
            );
            &&& despawned_records(loaded, e) == recs
            &&& despawned_windows(windows, loaded, e) == windows
            &&& despawned_workspaces(workspaces, loaded, e) == workspaces
            &&& despawned_sections(sections, loaded, e, panel) == sections
        }),
{
    let e = EntityId { bits: next };
    let x = EntityRecord::<C> {
        entity: e,
        parent: None,
        component: Component::Extension(Extension { name }, None),
    };
    let loaded = recs.push(x);
    let n = recs.len() as int;
    assert forall|k: int| 0 <= k < n implies #[trigger] recs[k].entity != e by {
    }
    assert forall|k: int| 0 <= k < n implies !#[trigger] in_subtree(loaded, k, e) by {
        lemma_in_subtree_push(recs, next, x, k, e);
        lemma_nothing_under_absent_root(recs, e, k);
    }
    assert(crate::world::ids_increasing(loaded));
    assert(loaded[n] == x);
    assert(in_subtree(loaded, n, e));
    lemma_subtree_at(loaded, e, n);
    recs.lemma_filter_push(x, survives(loaded, e));
    assert forall|k: int| 0 <= k < n implies #[trigger] survives(loaded, e)(recs[k]) by {
        assert(loaded[k] == recs[k]);
        lemma_subtree_at(loaded, e, k);
    }
    lemma_filter_all(recs, survives(loaded, e));
    assert(removed_window_ids(loaded, e, n + 1) =~= Set::<Seq<char>>::empty()) by {
        assert forall|k: Seq<char>| !#[trigger] removed_window_ids(loaded, e, n + 1).contains(k) by {
            if removed_window_ids(loaded, e, n + 1).contains(k) {
                let i = choose|i: int| 0 <= i < n + 1 && i < loaded.len() && in_subtree(loaded, i, e) && #[trigger] crate::components::window_marker(loaded[i].component) == Some(k);
                if i < n {
                    assert(!in_subtree(loaded, i, e));
                }
            }
        }
    }
    assert(removed_workspace_ids(loaded, e, n + 1) =~= Set::<Seq<char>>::empty()) by {
        assert forall|k: Seq<char>| !#[trigger] removed_workspace_ids(loaded, e, n + 1).contains(k) by {
            if removed_workspace_ids(loaded, e, n + 1).contains(k) {
                let i = choose|i: int| 0 <= i < n + 1 && i < loaded.len() && in_subtree(loaded, i, e) && #[trigger] crate::components::workspace_marker(loaded[i].component) == Some(k);
                if i < n {
                    assert(!in_subtree(loaded, i, e));
                }
            }
        }
    }
    lemma_filter_all(windows, window_kept(removed_window_ids(loaded, e, n + 1)));
    lemma_filter_all(workspaces, workspace_kept(removed_workspace_ids(loaded, e, n + 1)));
    assert forall|j: int| !#[trigger] removed_section_positions(loaded, e, n + 1, panel).contains(j) by {
        if removed_section_positions(loaded, e, n + 1, panel).contains(j) {
            let i = choose|i: int| 0 <= i < n + 1 && i < loaded.len() && in_subtree(loaded, i, e) && #[trigger] section_marker(loaded[i].component) == Some((panel, j));
            if i < n {
                assert(!in_subtree(loaded, i, e));
            }
        }
    }
    lemma_without_positions_none(sections, removed_section_positions(loaded, e, n + 1, panel));
}

/// Registering a window with a fresh id under an extension is undone by
/// unloading that extension: its marker and its registry entry both go, and
/// everything else comes out as if it had never been registered.
pub proof fn law_unload_undoes_window_registration<C>(
    recs: Seq<EntityRecord<C>>,
    next: u64,
    windows: Seq<DockWindowDescriptor<C>>,
    root: EntityId,
    dock: DockWindowDescriptor<C>,
    marker_id: String,
)
    requires
        records_wf(recs, next),
        has_entity(recs, root),
        !has_key(windows, dock.key()),
        marker_id@ == dock.key(),
    ensures
        ({
            let registered_recs = recs.push(
                EntityRecord {
                    entity: EntityId { bits: next },
                    parent: Some(root),
                    component: Component::Window(RegisteredWindow { id: marker_id }),
                },
            );
            &&& despawned_records(registered_recs, root) == despawned_records(recs, root)
            &&& despawned_windows(registered(windows, dock), registered_recs, root)
                == despawned_windows(windows, recs, root)
        }),
{
    let x = EntityRecord::<C> {
        entity: EntityId { bits: next },
        parent: Some(root),
        component: Component::Window(RegisteredWindow { id: marker_id }),
    };
    let p = recs.push(x);
    let n = recs.len() as int;
    assert(crate::world::ids_increasing(p));
    assert forall|k: int| 0 <= k < n implies #[trigger] in_subtree(p, k, root) == in_subtree(
        recs,
        k,
        root,
    ) by {
        lemma_in_subtree_push(recs, next, x, k, root);
    }
    let j = choose|j: int| 0 <= j < n && recs[j].entity == root;
    assert(p[j] == recs[j]);
    lemma_position_of(p, j);
    assert(in_subtree(p, j, root));
    assert(p[n] == x);
    assert(in_subtree(p, n, root));
    lemma_subtree_at(p, root, n);
    recs.lemma_filter_push(x, survives(p, root));
    assert forall|k: int| 0 <= k < n implies #[trigger] survives(p, root)(recs[k]) == survives(
        recs,
        root,
    )(recs[k]) by {
        assert(p[k] == recs[k]);
        lemma_subtree_at(p, root, k);
        lemma_subtree_at(recs, root, k);
    }
    lemma_filter_congruent(recs, survives(p, root), survives(recs, root));
    let ids_p = removed_window_ids(p, root, n + 1);
    let ids_r = removed_window_ids(recs, root, n);
    assert(ids_p =~= ids_r.insert(dock.key())) by {
        assert forall|k: Seq<char>| ids_p.contains(k) <==> ids_r.insert(dock.key()).contains(k) by {
            if ids_p.contains(k) {
                let i = choose|i: int| 0 <= i < n + 1 && i < p.len() && in_subtree(p, i, root) && #[trigger] crate::components::window_marker(p[i].component) == Some(k);
                if i < n {
                    assert(p[i] == recs[i]);
                    assert(ids_r.contains(k));
                }
            }
            if ids_r.contains(k) {
                let i = choose|i: int| 0 <= i < n && i < recs.len() && in_subtree(recs, i, root) && #[trigger] crate::components::window_marker(recs[i].component) == Some(k);
                assert(p[i] == recs[i]);
                assert(crate::components::window_marker(p[i].component) == Some(k));
                assert(ids_p.contains(k));
            }
            if k == dock.key() {
                assert(crate::components::window_marker(p[n].component) == Some(k));
                assert(ids_p.contains(k));
            }
        }
    }
    assert(registered(windows, dock) == windows.push(dock));
    windows.lemma_filter_push(dock, window_kept(ids_p));
    assert forall|k: int| 0 <= k < windows.len() implies #[trigger] window_kept(ids_p)(windows[k])
        == window_kept(ids_r)(windows[k]) by {
        assert(windows[k].key() != dock.key());
    }
    lemma_filter_congruent(windows, window_kept(ids_p), window_kept(ids_r));
}

/// Dropping positions that a sequence does not have, or that no position of
/// it is among, leaves it whole.
proof fn lemma_without_positions_none<C>(s: Seq<C>, drop: Set<int>)
    requires
        forall|j: int| 0 <= j < s.len() ==> !#[trigger] drop.contains(j),
    ensures
        without_positions(s, drop) == s,
    decreases s.len(),
{
    if s.len() > 0 {
        lemma_without_positions_none(s.drop_last(), drop);
        assert(s.drop_last().push(s.last()) =~= s);
    }
}

/// Only the positions a sequence has matter to which positions are dropped.
proof fn lemma_without_positions_congruent<C>(s: Seq<C>, a: Set<int>, b: Set<int>)
    requires
        forall|j: int| 0 <= j < s.len() ==> #[trigger] a.contains(j) == b.contains(j),
    ensures
        without_positions(s, a) == without_positions(s, b),
    decreases s.len(),
{
    if s.len() > 0 {
        lemma_without_positions_congruent(s.drop_last(), a, b);
    }
}

/// A record pushed as a child of an existing `root` lies under it, the
/// records already there lie under `root` as before, and despawning `root`
/// leaves the same records as without it.
proof fn lemma_push_under_root<C>(
    recs: Seq<EntityRecord<C>>,
    next: u64,
    root: EntityId,
    x: EntityRecord<C>,
)
    requires
        records_wf(recs, next),
        has_entity(recs, root),
        x.entity.bits == next,
        x.parent == Some(root),
    ensures
        forall|k: int|
            0 <= k < recs.len() ==> #[trigger] in_subtree(recs.push(x), k, root) == in_subtree(
                recs,
                k,
                root,
            ),
        in_subtree(recs.push(x), recs.len() as int, root),
        subtree(recs.push(x), root).contains(x.entity),
        despawned_records(recs.push(x), root) == despawned_records(recs, root),
{
    let p = recs.push(x);
    let n = recs.len() as int;
    assert(crate::world::ids_increasing(p));
    assert forall|k: int| 0 <= k < n implies #[trigger] in_subtree(p, k, root) == in_subtree(
        recs,
        k,
        root,
    ) by {
        lemma_in_subtree_push(recs, next, x, k, root);
    }
    let j = choose|j: int| 0 <= j < n && recs[j].entity == root;
    assert(p[j] == recs[j]);
    lemma_position_of(p, j);
    assert(in_subtree(p, j, root));
    assert(p[n] == x);
    assert(in_subtree(p, n, root));
    lemma_subtree_at(p, root, n);
    recs.lemma_filter_push(x, survives(p, root));
    assert forall|k: int| 0 <= k < n implies #[trigger] survives(p, root)(recs[k]) == survives(
        recs,
        root,
    )(recs[k]) by {
        assert(p[k] == recs[k]);
        lemma_subtree_at(p, root, k);
        lemma_subtree_at(recs, root, k);
    }
    lemma_filter_congruent(recs, survives(p, root), survives(recs, root));
}

/// Whatever a registration spawns under an extension's existing root lies
/// under that root, so unloading the extension takes it away.
pub proof fn law_registration_lies_under_its_extension<C>(
    recs: Seq<EntityRecord<C>>,
    next: u64,
    root: EntityId,
    x: EntityRecord<C>,
)
    requires
        records_wf(recs, next),
        has_entity(recs, root),
        x.entity.bits == next,
        x.parent == parent_link(recs, Some(root)),
    ensures
        subtree(recs.push(x), root).contains(x.entity),
        !has_entity(despawned_records(recs.push(x), root), x.entity),
{
    lemma_push_under_root(recs, next, root, x);
    law_unload_removes_exactly_the_subtree(recs.push(x), root);
}

/// Injecting a section under an extension is undone by unloading it: the
/// marker goes, and so does the section at the marker's position.
pub proof fn law_unload_undoes_section_registration<C>(
    recs: Seq<EntityRecord<C>>,
    next: u64,
    sections: Seq<C>,
    root: EntityId,
    section: C,
    panel_id: String,
)
    requires
        records_wf(recs, next),
        has_entity(recs, root),
        sections.len() <= usize::MAX,
    ensures
        ({
            let registered_recs = recs.push(
                EntityRecord {
                    entity: EntityId { bits: next },
                    parent: Some(root),
                    component: Component::PanelExtension(
                        RegisteredPanelExtension {
                            panel_id: panel_id,
                            section_index: sections.len() as usize,
                        },
                    ),
                },
            );
            &&& despawned_records(registered_recs, root) == despawned_records(recs, root)
            &&& despawned_sections(sections.push(section), registered_recs, root, panel_id@)
                == despawned_sections(sections, recs, root, panel_id@)
        }),
{
    let x = EntityRecord::<C> {
        entity: EntityId { bits: next },
        parent: Some(root),
        component: Component::PanelExtension(
            RegisteredPanelExtension { panel_id: panel_id, section_index: sections.len() as usize },
        ),
    };
    let p = recs.push(x);
    let n = recs.len() as int;
    let k = panel_id@;
    lemma_push_under_root(recs, next, root, x);
    let rp = removed_section_positions(p, root, n + 1, k);
    let rr = removed_section_positions(recs, root, n, k);
    assert(rp =~= rr.insert(sections.len() as int)) by {
        assert forall|j: int| #[trigger] rp.contains(j) <==> rr.insert(sections.len() as int).contains(j) by {
            if rp.contains(j) {
                let i = choose|i: int| 0 <= i < n + 1 && i < p.len() && in_subtree(p, i, root) && #[trigger] section_marker(p[i].component) == Some((k, j));
                if i < n {
                    assert(p[i] == recs[i]);
                    assert(rr.contains(j));
                }
            }
            if rr.contains(j) {
                let i = choose|i: int| 0 <= i < n && i < recs.len() && in_subtree(recs, i, root) && #[trigger] section_marker(recs[i].component) == Some((k, j));
                assert(p[i] == recs[i]);
                assert(section_marker(p[i].component) == Some((k, j)));
                assert(rp.contains(j));
            }
            if j == sections.len() as int {
                assert(section_marker(p[n].component) == Some((k, j)));
                assert(rp.contains(j));
            }
        }
    }
    let pushed = sections.push(section);
    assert(pushed.drop_last() =~= sections);
    assert(without_positions(pushed, rp) == without_positions(sections, rp));
    lemma_without_positions_congruent(sections, rp, rr);
}

/// Two sections injected into one panel in turn stand at the positions
/// their markers record: the first at the panel's old length, the second
/// right after it.
pub proof fn law_section_index_locates_section<C>(
    before: Seq<C>,
    middle: Seq<C>,
    after: Seq<C>,
    first: C,
    second: C,
)
    requires
        middle == before.push(first),
        after == middle.push(second),
    ensures
        middle.len() == before.len() + 1,
        after[before.len() as int] == first,
        after[middle.len() as int] == second,
{
}

/// Every fan triangle holds three indices.
pub proof fn law_fan_index_count(polygons: Seq<Seq<usize>>)
    ensures
        fan_indices(polygons).len() == 3 * total_triangle_count(polygons),
    decreases polygons.len(),
{
    if polygons.len() > 0 {
        law_fan_index_count(polygons.drop_last());
        let p = polygons.last();
        if p.len() >= 3 {
            lemma_fan_prefix_len(p, (p.len() - 2) as nat);
        }
    }
}

/// When every polygon corner names an existing vertex, every index of the
/// triangulation names an existing vertex.
pub proof fn law_fan_indices_in_range(polygons: Seq<Seq<usize>>, vertex_count: nat)
    requires
        forall|j: int, c: int|
            0 <= j < polygons.len() && 0 <= c < polygons[j].len() ==> #[trigger] polygons[j][c]
                < vertex_count,
    ensures
        forall|m: int| 0 <= m < fan_indices(polygons).len() ==> #[trigger] fan_indices(polygons)[m]
            < vertex_count,
    decreases polygons.len(),
{
    if polygons.len() > 0 {
        let init = polygons.drop_last();
        assert forall|j: int, c: int| 0 <= j < init.len() && 0 <= c < init[j].len() implies #[trigger] init[j][c]
            < vertex_count by {
            assert(init[j] == polygons[j]);
        }
        law_fan_indices_in_range(init, vertex_count);
        let p = polygons.last();
        let a = fan_indices(init);
        let b = polygon_fan(p);
        assert forall|m: int| 0 <= m < fan_indices(polygons).len() implies #[trigger] fan_indices(
            polygons,
        )[m] < vertex_count by {
            if m < a.len() {
                assert(fan_indices(polygons)[m] == a[m]);
            } else {
                assert(fan_indices(polygons)[m] == b[m - a.len()]);
                if p.len() >= 3 {
                    lemma_fan_prefix_from_corners(p, (p.len() - 2) as nat, m - a.len());
                    let c = choose|c: int| 0 <= c < p.len() && b[m - a.len()] == p[c] as u32;
                    assert(p[c] == polygons[polygons.len() - 1][c]);
                    assert(p[c] < vertex_count);
                    let x: usize = p[c];
                    assert(x as u32 <= x) by (bit_vector);
                }
            }
        }
    }
}

/// The fan of a polygon `p` with at least three corners is made of the
/// triangles `(p[0], p[k + 1], p[k + 2])`, one for each `k < p.len() - 2`.
pub proof fn law_fan_triangles_share_the_first_corner(p: Seq<usize>, k: int)
    requires
        p.len() >= 3,
        0 <= k < p.len() - 2,
    ensures
        polygon_fan(p)[3 * k] == p[0] as u32,
        polygon_fan(p)[3 * k + 1] == p[k + 1] as u32,
        polygon_fan(p)[3 * k + 2] == p[k + 2] as u32,
{
    lemma_fan_prefix_triangle(p, (p.len() - 2) as nat, k);
}

/// A polygon with `n` corners triangulates into `max(n - 2, 0)` triangles.
pub proof fn law_polygon_triangle_count(p: Seq<usize>)
    ensures
        polygon_fan(p).len() == 3 * fan_triangle_count(p.len()),
{
    if p.len() >= 3 {
        lemma_fan_prefix_len(p, (p.len() - 2) as nat);
    }
}

/// The triangulation of the first `m` faces is a prefix of the
/// triangulation of all of them.
proof fn lemma_fan_indices_prefix(polygons: Seq<Seq<usize>>, m: int)
    requires
        0 <= m <= polygons.len(),
    ensures
        fan_indices(polygons.take(m)).len() <= fan_indices(polygons).len(),
        forall|i: int|
            0 <= i < fan_indices(polygons.take(m)).len() ==> #[trigger] fan_indices(polygons)[i]
                == fan_indices(polygons.take(m))[i],
    decreases polygons.len(),
{
    if m == polygons.len() {
        assert(polygons.take(m) =~= polygons);
    } else {
        let init = polygons.drop_last();
        assert(init.take(m) =~= polygons.take(m));
        lemma_fan_indices_prefix(init, m);
    }
}

/// Where triangle `k` of face `j` starts in the triangulation of all faces:
/// after three indices for each triangle of the faces before it.
pub open spec fn fan_offset(polygons: Seq<Seq<usize>>, j: int, k: int) -> int {
    3 * total_triangle_count(polygons.take(j)) + 3 * k
}

/// A brush without vertices has no mesh. A brush with vertices has a mesh
/// over its vertices holding, face after face, every fan triangle
/// `(p[0], p[k + 1], p[k + 2])` of every face `p` with at least three
/// corners, and nothing else: three indices per triangle.
#[verifier::spinoff_prover]
pub proof fn law_brush_mesh_is_the_fan_of_every_face(vertex_count: usize, polygons: Seq<Seq<usize>>)
    ensures
        (brush_mesh_spec(vertex_count, polygons) is None) == (vertex_count == 0),
        vertex_count > 0 ==> (brush_mesh_spec(vertex_count, polygons) matches Some((n, is))
            && n == vertex_count && is.len() == 3 * total_triangle_count(polygons) && forall|
            j: int,
            k: int,
        |
            0 <= j < polygons.len() && 0 <= k && k + 2 < polygons[j].len() ==> {
                &&& #[trigger] is[fan_offset(polygons, j, k)] == polygons[j][0] as u32
                &&& is[fan_offset(polygons, j, k) + 1] == polygons[j][k + 1] as u32
                &&& is[fan_offset(polygons, j, k) + 2] == polygons[j][k + 2] as u32
            }),
{
    if vertex_count > 0 {
        let is = fan_indices(polygons);
        law_fan_index_count(polygons);
        assert forall|j: int, k: int|
            0 <= j < polygons.len() && 0 <= k && k + 2 < polygons[j].len() implies {
                &&& #[trigger] is[fan_offset(polygons, j, k)] == polygons[j][0] as u32
                &&& is[fan_offset(polygons, j, k) + 1] == polygons[j][k + 1] as u32
                &&& is[fan_offset(polygons, j, k) + 2] == polygons[j][k + 2] as u32
            } by {
            let p = polygons[j];
            let pre = polygons.take(j);
            let upto = polygons.take(j + 1);
            assert(upto.drop_last() =~= pre);
            assert(upto.last() == p);
            law_fan_index_count(pre);
            lemma_fan_prefix_triangle(p, (p.len() - 2) as nat, k);
            lemma_fan_indices_prefix(polygons, j + 1);
            let base = 3 * total_triangle_count(pre) + 3 * k;
            assert(fan_indices(upto) == fan_indices(pre) + polygon_fan(p));
            assert(fan_indices(upto)[base] == polygon_fan(p)[3 * k]);
            assert(fan_indices(upto)[base + 1] == polygon_fan(p)[3 * k + 1]);
            assert(fan_indices(upto)[base + 2] == polygon_fan(p)[3 * k + 2]);
        }
        assert(brush_mesh_spec(vertex_count, polygons) == Some((vertex_count, is)));
    }
}

/// The collider sync plan: one removal per entity whose mesh cache went
/// away, in order; then, for the changed brushes in order, one build for
/// each brush with vertices, from that brush's entity, vertex count and
/// fan triangulation, and nothing for a brush without vertices. So there
/// are as many builds as changed brushes with vertices.
pub proof fn law_sync_builds_every_changed_brush_with_vertices(
    removed: Seq<EntityId>,
    changed: Seq<BrushChange>,
    c: BrushChange,
)
    ensures
        removal_steps(removed).len() == removed.len(),
        forall|i: int|
            0 <= i < removed.len() ==> #[trigger] removal_steps(removed)[i] == (
                true,
                removed[i],
                0usize,
                Seq::<u32>::empty(),
            ),
        build_steps(Seq::<BrushChange>::empty()) == Seq::<(bool, EntityId, usize, Seq<u32>)>::empty(),
        build_steps(changed.push(c)) == build_steps(changed) + if c.cache.vertex_count > 0 {
            seq![
                (
                    false,
                    c.entity,
                    c.cache.vertex_count,
                    fan_indices(polygons_view(c.cache.face_polygons@)),
                ),
            ]
        } else {
            Seq::<(bool, EntityId, usize, Seq<u32>)>::empty()
        },
        build_steps(changed).len() == changed.filter(
            |b: BrushChange| b.cache.vertex_count > 0,
        ).len(),
    decreases changed.len(),
{
    let with_vertices = |b: BrushChange| b.cache.vertex_count > 0;
    assert(changed.push(c).drop_last() =~= changed);
    if changed.len() == 0 {
        crate::seq_facts::lemma_filter_none(changed, with_vertices);
    } else {
        let init = changed.drop_last();
        law_sync_builds_every_changed_brush_with_vertices(removed, init, changed.last());
        assert(init.push(changed.last()) =~= changed);
        init.lemma_filter_push(changed.last(), with_vertices);
    }
}

/// Unloading leaves registered every window whose id no window marker
/// under the extension names.
pub proof fn law_unload_keeps_windows_of_other_extensions<C>(
    windows: Seq<DockWindowDescriptor<C>>,
    recs: Seq<EntityRecord<C>>,
    root: EntityId,
    w: int,
)
    requires
        0 <= w < windows.len(),
        forall|i: int|
            0 <= i < recs.len() && in_subtree(recs, i, root) ==> #[trigger] window_marker(
                recs[i].component,
            ) != Some(windows[w].key()),
    ensures
        despawned_windows(windows, recs, root).contains(windows[w]),
{
    let ids = removed_window_ids(recs, root, recs.len() as int);
    assert(!ids.contains(windows[w].key()));
    windows.lemma_filter_contains(window_kept(ids), w);
}

/// Unloading drops every workspace whose id a workspace marker under the
/// extension names.
pub proof fn law_unload_drops_workspaces_marked_under_the_extension<C>(
    workspaces: Seq<WorkspaceDescriptor>,
    recs: Seq<EntityRecord<C>>,
    root: EntityId,
    i: int,
)
    requires
        0 <= i < recs.len(),
        in_subtree(recs, i, root),
        workspace_marker(recs[i].component) is Some,
    ensures
        forall|d: WorkspaceDescriptor|
            #[trigger] despawned_workspaces(workspaces, recs, root).contains(d) ==> d.key()
                != workspace_marker(recs[i].component)->0,
{
    let ids = removed_workspace_ids(recs, root, recs.len() as int);
    assert(ids.contains(workspace_marker(recs[i].component)->0));
    assert forall|d: WorkspaceDescriptor| #[trigger] despawned_workspaces(workspaces, recs, root).contains(d) implies d.key()
        != workspace_marker(recs[i].component)->0 by {
        workspaces.lemma_filter_contains_rev(workspace_kept(ids), d);
        let m = choose|m: int| 0 <= m < despawned_workspaces(workspaces, recs, root).len() && despawned_workspaces(workspaces, recs, root)[m] == d;
        lemma_filter_member(workspaces, workspace_kept(ids), m);
    }
}

/// Unloading drops every window whose id a window marker under the
/// extension names.
pub proof fn law_unload_drops_windows_marked_under_the_extension<C>(
    windows: Seq<DockWindowDescriptor<C>>,
    recs: Seq<EntityRecord<C>>,
    root: EntityId,
    i: int,
)
    requires
        0 <= i < recs.len(),
        in_subtree(recs, i, root),
        window_marker(recs[i].component) is Some,
    ensures
        forall|d: DockWindowDescriptor<C>|
            #[trigger] despawned_windows(windows, recs, root).contains(d) ==> d.key()
                != window_marker(recs[i].component)->0,
{
    let ids = removed_window_ids(recs, root, recs.len() as int);
    assert(ids.contains(window_marker(recs[i].component)->0));
    assert forall|d: DockWindowDescriptor<C>| #[trigger] despawned_windows(windows, recs, root).contains(d) implies d.key()
        != window_marker(recs[i].component)->0 by {
        let m = choose|m: int| 0 <= m < despawned_windows(windows, recs, root).len() && despawned_windows(windows, recs, root)[m] == d;
        lemma_filter_member(windows, window_kept(ids), m);
    }
}

} // verus!
