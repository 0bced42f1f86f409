//! The part of the editor world that extensions touch: the entities they
//! spawn, with their parent links and components, and the registries they
//! add to.
//!
//! Entities are kept in spawn order. A child is always spawned after its
//! parent, so a parent comes before its children, and ids grow with spawn
//! order. Despawning an entity despawns everything under it; a window or
//! workspace marker that goes with it takes its registry entry along, as the
//! editor's cleanup observers do.
use vstd::prelude::*;
use crate::components::{
    Component, EntityId, EntityRecord, Extension, section_index_of, section_marker, section_panel, window_marker,
    workspace_marker,
};
use crate::registries::{
    DockWindowDescriptor, Keyed, PanelExtensionRegistry, Registry, WindowRegistry,
    WorkspaceDescriptor, WorkspaceRegistry, named_positions, registered, without_positions,
};
use crate::seq_facts::{lemma_filter_filter, lemma_filter_member};

verus! {

broadcast use vstd::seq_lib::group_seq_properties;

/// Ids grow strictly along the record list.
pub open spec fn ids_increasing<C>(recs: Seq<EntityRecord<C>>) -> bool {
    forall|i: int, j: int| 0 <= i < j < recs.len() ==> recs[i].entity.bits < recs[j].entity.bits
}

/// Every id is below `next`.
pub open spec fn ids_below<C>(recs: Seq<EntityRecord<C>>, next: u64) -> bool {
    forall|i: int| 0 <= i < recs.len() ==> recs[i].entity.bits < next
}

/// The entity at `i` has its parent at some earlier position.
pub open spec fn parent_before<C>(recs: Seq<EntityRecord<C>>, i: int) -> bool {
    recs[i].parent is Some ==> exists|j: int|
        0 <= j < i && #[trigger] recs[j].entity == recs[i].parent->0
}

/// Every child's parent comes before it.
pub open spec fn parents_before<C>(recs: Seq<EntityRecord<C>>) -> bool {
    forall|i: int| 0 <= i < recs.len() ==> #[trigger] parent_before(recs, i)
}

/// The record list is well formed with `next` as the next id to hand out.
pub open spec fn records_wf<C>(recs: Seq<EntityRecord<C>>, next: u64) -> bool {
    &&& ids_increasing(recs)
    &&& ids_below(recs, next)
    &&& parents_before(recs)
}

/// Some record is entity `e`.
pub open spec fn has_entity<C>(recs: Seq<EntityRecord<C>>, e: EntityId) -> bool {
    exists|i: int| 0 <= i < recs.len() && recs[i].entity == e
}

/// The parent a spawned entity ends up with when asked for `parent`: the
/// same if it exists, none otherwise.
pub open spec fn parent_link<C>(recs: Seq<EntityRecord<C>>, parent: Option<EntityId>) -> Option<
    EntityId,
> {
    match parent {
        Some(p) => if has_entity(recs, p) {
            Some(p)
        } else {
            None
        },
        None => None,
    }
}

/// The extension object stored on root entity `e`, if any.
pub open spec fn stored_extension<C>(recs: Seq<EntityRecord<C>>, e: EntityId) -> Option<C> {
    if has_entity(recs, e) {
        match recs[position_of(recs, e)].component {
            Component::Extension(_, s) => s,
            _ => None,
        }
    } else {
        None
    }
}

/// The records with the extension object stored on root `e` taken away,
/// its marker kept.
pub open spec fn cleared_extension<C>(recs: Seq<EntityRecord<C>>, e: EntityId) -> Seq<
    EntityRecord<C>,
> {
    if has_entity(recs, e) {
        let i = position_of(recs, e);
        match recs[i].component {
            Component::Extension(m, Some(_)) => recs.update(
                i,
                EntityRecord { entity: e, parent: recs[i].parent, component: Component::Extension(m, None) },
            ),
            _ => recs,
        }
    } else {
        recs
    }
}

/// The position of entity `e` in the record list.
pub open spec fn position_of<C>(recs: Seq<EntityRecord<C>>, e: EntityId) -> int {
    choose|i: int| 0 <= i < recs.len() && recs[i].entity == e
}

/// The entity at position `i` is `root` or lies under it: following parents
/// from it reaches `root`.
pub open spec fn in_subtree<C>(recs: Seq<EntityRecord<C>>, i: int, root: EntityId) -> bool
    decreases i,
{
    if i < 0 || i >= recs.len() {
        false
    } else if recs[i].entity == root {
        true
    } else {
        match recs[i].parent {
            None => false,
            Some(p) => {
                let j = position_of(recs, p);
                if 0 <= j < i {
                    in_subtree(recs, j, root)
                } else {
                    false
                }
            },
        }
    }
}

/// The entities that despawning `root` takes away: `root` and everything
/// under it.
pub open spec fn subtree<C>(recs: Seq<EntityRecord<C>>, root: EntityId) -> Set<EntityId> {
    Set::new(
        |e: EntityId| exists|i: int| 0 <= i < recs.len() && recs[i].entity == e && in_subtree(recs, i, root),
    )
}

/// Whether a record outlives the despawn of `root`.
pub open spec fn survives<C>(recs: Seq<EntityRecord<C>>, root: EntityId) -> spec_fn(
    EntityRecord<C>,
) -> bool {
    |r: EntityRecord<C>| !subtree(recs, root).contains(r.entity)
}

/// The ids of window markers among the first `n` records that lie under
/// `root`.
pub open spec fn removed_window_ids<C>(recs: Seq<EntityRecord<C>>, root: EntityId, n: int) -> Set<
    Seq<char>,
> {
    Set::new(
        |k: Seq<char>|
            exists|i: int|
                0 <= i < n && i < recs.len() && in_subtree(recs, i, root) && #[trigger] window_marker(
                    recs[i].component,
                ) == Some(k),
    )
}

/// The ids of workspace markers among the first `n` records that lie under
/// `root`.
pub open spec fn removed_workspace_ids<C>(recs: Seq<EntityRecord<C>>, root: EntityId, n: int) -> Set<
    Seq<char>,
> {
    Set::new(
        |k: Seq<char>|
            exists|i: int|
                0 <= i < n && i < recs.len() && in_subtree(recs, i, root)
                    && #[trigger] workspace_marker(recs[i].component) == Some(k),
    )
}

/// The positions of panel `k`'s sections whose markers, among the first `n`
/// records, lie under `root`.
pub open spec fn removed_section_positions<C>(
    recs: Seq<EntityRecord<C>>,
    root: EntityId,
    n: int,
    k: Seq<char>,
) -> Set<int> {
    Set::new(
        |j: int|
            exists|i: int|
                0 <= i < n && i < recs.len() && in_subtree(recs, i, root) && #[trigger] section_marker(
                    recs[i].component,
                ) == Some((k, j)),
    )
}

/// The sections of panel `k` left after despawning `root`: those whose
/// markers went are dropped.
pub open spec fn despawned_sections<C>(
    sections: Seq<C>,
    recs: Seq<EntityRecord<C>>,
    root: EntityId,
    k: Seq<char>,
) -> Seq<C> {
    without_positions(sections, removed_section_positions(recs, root, recs.len() as int, k))
}

/// Whether a window descriptor keeps its registration: its id is not among
/// the given ids.
pub open spec fn window_kept<C>(ids: Set<Seq<char>>) -> spec_fn(DockWindowDescriptor<C>) -> bool {
    |d: DockWindowDescriptor<C>| !ids.contains(d.key())
}

/// Whether a workspace descriptor keeps its registration.
pub open spec fn workspace_kept(ids: Set<Seq<char>>) -> spec_fn(WorkspaceDescriptor) -> bool {
    |d: WorkspaceDescriptor| !ids.contains(d.key())
}

/// The records left after despawning `root`.
pub open spec fn despawned_records<C>(recs: Seq<EntityRecord<C>>, root: EntityId) -> Seq<
    EntityRecord<C>,
> {
    recs.filter(survives(recs, root))
}

/// The window registrations left after despawning `root`.
pub open spec fn despawned_windows<C>(
    windows: Seq<DockWindowDescriptor<C>>,
    recs: Seq<EntityRecord<C>>,
    root: EntityId,
) -> Seq<DockWindowDescriptor<C>> {
    windows.filter(window_kept(removed_window_ids(recs, root, recs.len() as int)))
}

/// The workspace registrations left after despawning `root`.
pub open spec fn despawned_workspaces<C>(
    workspaces: Seq<WorkspaceDescriptor>,
    recs: Seq<EntityRecord<C>>,
    root: EntityId,
) -> Seq<WorkspaceDescriptor> {
    workspaces.filter(workspace_kept(removed_workspace_ids(recs, root, recs.len() as int)))
}

/// With increasing ids, the entity at `i` is found at `i`.
pub proof fn lemma_position_of<C>(recs: Seq<EntityRecord<C>>, i: int)
    requires
        ids_increasing(recs),
        0 <= i < recs.len(),
    ensures
        has_entity(recs, recs[i].entity),
        position_of(recs, recs[i].entity) == i,
{
    assert(has_entity(recs, recs[i].entity));
    let j = position_of(recs, recs[i].entity);
    if j < i {
        assert(recs[j].entity.bits < recs[i].entity.bits);
    } else if j > i {
        assert(recs[i].entity.bits < recs[j].entity.bits);
    }
}

/// With increasing ids, `subtree` holds the entity at `i` exactly when that
/// position lies under `root`.
pub proof fn lemma_subtree_at<C>(recs: Seq<EntityRecord<C>>, root: EntityId, i: int)
    requires
        ids_increasing(recs),
        0 <= i < recs.len(),
    ensures
        subtree(recs, root).contains(recs[i].entity) == in_subtree(recs, i, root),
{
    if subtree(recs, root).contains(recs[i].entity) {
        let k = choose|k: int|
            0 <= k < recs.len() && recs[k].entity == recs[i].entity && in_subtree(recs, k, root);
        lemma_position_of(recs, i);
        lemma_position_of(recs, k);
    }
}

/// The entity at `i` lies under `root` exactly when it is `root` or its
/// parent lies under `root`.
pub proof fn lemma_in_subtree_step<C>(recs: Seq<EntityRecord<C>>, root: EntityId, i: int)
    requires
        ids_increasing(recs),
        parents_before(recs),
        0 <= i < recs.len(),
    ensures
        in_subtree(recs, i, root) == (recs[i].entity == root || (recs[i].parent is Some
            && in_subtree(recs, position_of(recs, recs[i].parent->0), root))),
        recs[i].parent is Some ==> 0 <= position_of(recs, recs[i].parent->0) < i
            && recs[position_of(recs, recs[i].parent->0)].entity == recs[i].parent->0,
{
    assert(parent_before(recs, i));
    if recs[i].parent is Some {
        let p = recs[i].parent->0;
        let j0 = choose|j: int| 0 <= j < i && #[trigger] recs[j].entity == p;
        lemma_position_of(recs, j0);
    }
}

impl<C> ExtensionWorld<C> {
    /// Entity ids grow along the record list, stay below the next id, and
    /// every parent comes before its children; each registry is well formed.
    #[verifier::type_invariant]
    spec fn well_formed(&self) -> bool {
        &&& records_wf(self.records@, self.next_entity)
        &&& self.windows.wf()
        &&& self.workspaces.wf()
        &&& self.panel_extensions.wf()
    }

    /// The entities, in spawn order.
    pub closed spec fn entities(&self) -> Seq<EntityRecord<C>> {
        self.records@
    }

    /// The id the next spawned entity takes.
    pub closed spec fn next_id(&self) -> u64 {
        self.next_entity
    }

    /// The registered dock windows.
    pub closed spec fn window_registry(&self) -> WindowRegistry<C> {
        self.windows
    }

    /// The registered workspaces.
    pub closed spec fn workspace_registry(&self) -> WorkspaceRegistry {
        self.workspaces
    }

    /// The sections injected into existing panels.
    pub closed spec fn panel_registry(&self) -> PanelExtensionRegistry<C> {
        self.panel_extensions
    }

    /// Whether entity `e` exists.
    pub open spec fn has(&self, e: EntityId) -> bool {
        has_entity(self.entities(), e)
    }

    /// The record of entity `e`.
    pub open spec fn record(&self, e: EntityId) -> EntityRecord<C> {
        self.entities()[position_of(self.entities(), e)]
    }

    /// An empty world.
    pub fn new() -> (w: Self)
        ensures
            w.entities() == Seq::<EntityRecord<C>>::empty(),
            w.next_id() == 0,
            w.window_registry().entries@ == Seq::<DockWindowDescriptor<C>>::empty(),
            w.workspace_registry().entries@ == Seq::<WorkspaceDescriptor>::empty(),
            forall|k: Seq<char>| #[trigger] w.panel_registry().sections(k) == Seq::<C>::empty(),
    {
        ExtensionWorld {
            records: Vec::new(),
            next_entity: 0,
            windows: Registry::new(),
            workspaces: Registry::new(),
            panel_extensions: PanelExtensionRegistry::new(),
        }
    }

    /// The entities, in spawn order.
    pub fn records(&self) -> (r: &Vec<EntityRecord<C>>)
        ensures
            r@ == self.entities(),
            records_wf(r@, self.next_id()),
    {
        proof {
            use_type_invariant(self);
        }
        &self.records
    }

    /// The id the next spawned entity takes.
    pub fn next_entity(&self) -> (r: u64)
        ensures
            r == self.next_id(),
    {
        self.next_entity
    }

    /// The registered dock windows.
    pub fn windows(&self) -> (r: &WindowRegistry<C>)
        ensures
            *r == self.window_registry(),
            r.wf(),
    {
        proof {
            use_type_invariant(self);
        }
        &self.windows
    }

    /// The registered workspaces.
    pub fn workspaces(&self) -> (r: &WorkspaceRegistry)
        ensures
            *r == self.workspace_registry(),
            r.wf(),
    {
        proof {
            use_type_invariant(self);
        }
        &self.workspaces
    }

    /// The sections injected into existing panels.
    pub fn panel_extensions(&self) -> (r: &PanelExtensionRegistry<C>)
        ensures
            *r == self.panel_registry(),
            r.wf(),
    {
        proof {
            use_type_invariant(self);
        }
        &self.panel_extensions
    }

    /// Whether entity `e` exists.
    pub fn contains(&self, e: EntityId) -> (r: bool)
        ensures
            r == self.has(e),
    {
        self.position(e).is_some()
    }

    /// The position of entity `e` in the record list, if it exists.
    fn position(&self, e: EntityId) -> (r: Option<usize>)
        ensures
            match r {
                Some(i) => self.has(e) && i < self.entities().len() && position_of(
                    self.entities(),
                    e,
                ) == i && self.entities()[i as int].entity == e,
                None => !self.has(e),
            },
    {
        proof {
            use_type_invariant(self);
        }
        let mut i: usize = 0;
        while i < self.records.len()
            invariant
                records_wf(self.records@, self.next_entity),
                0 <= i <= self.records.len(),
                forall|k: int| 0 <= k < i ==> self.records@[k].entity != e,
            decreases self.records.len() - i,
        {
            if self.records[i].entity == e {
                proof {
                    lemma_position_of(self.records@, i as int);
                }
                return Some(i);
            }
            i = i + 1;
        }
        None
    }

    /// The record of entity `e`, if it exists.
    pub fn get(&self, e: EntityId) -> (r: Option<&EntityRecord<C>>)
        ensures
            match r {
                Some(rec) => self.has(e) && *rec == self.record(e) && rec.entity == e,
                None => !self.has(e),
            },
    {
        match self.position(e) {
            Some(i) => Some(&self.records[i]),
            None => None,
        }
    }

    /// The children of `parent`, in spawn order.
    pub fn children(&self, parent: EntityId) -> (r: Vec<EntityId>)
        ensures
            r@ == self.entities().filter(|rec: EntityRecord<C>| rec.parent == Some(parent)).map_values(
                |rec: EntityRecord<C>| rec.entity,
            ),
    {
        let ghost is_child = |rec: EntityRecord<C>| rec.parent == Some(parent);
        let ghost ent = |rec: EntityRecord<C>| rec.entity;
        let mut r: Vec<EntityId> = Vec::new();
        let mut i: usize = 0;
        while i < self.records.len()
            invariant
                0 <= i <= self.records.len(),
                r@ == self.records@.take(i as int).filter(is_child).map_values(ent),
                is_child == (|rec: EntityRecord<C>| rec.parent == Some(parent)),
                ent == (|rec: EntityRecord<C>| rec.entity),
            decreases self.records.len() - i,
        {
            let ghost before = self.records@.take(i as int);
            proof {
                assert(self.records@.take(i + 1) =~= before.push(self.records@[i as int]));
                before.lemma_filter_push(self.records@[i as int], is_child);
            }
            let is_child_here = match self.records[i].parent {
                Some(p) => p == parent,
                None => false,
            };
            if is_child_here {
                r.push(self.records[i].entity);
                proof {
                    let fb = before.filter(is_child);
                    assert(before.push(self.records@[i as int]).filter(is_child) == fb.push(
                        self.records@[i as int],
                    ));
                    assert(fb.push(self.records@[i as int]).map_values(ent) =~= fb.map_values(
                        ent,
                    ).push(self.records@[i as int].entity));
                }
            } else {
                proof {
                    assert(before.push(self.records@[i as int]).filter(is_child) == before.filter(
                        is_child,
                    ));
                }
            }
            i = i + 1;
        }
        assert(self.records@.take(self.records.len() as int) =~= self.records@);
        r
    }

    /// Spawns an entity carrying `component`, as a child of `parent` when one
    /// is given and exists; a parent that does not exist is dropped and the
    /// entity is spawned without one. The new entity takes the next id.
    pub fn spawn(&mut self, component: Component<C>, parent: Option<EntityId>) -> (e: EntityId)
        requires
            old(self).next_id() < u64::MAX,
        ensures
            e.bits == old(self).next_id(),
            final(self).next_id() == old(self).next_id() + 1,
            final(self).entities() == old(self).entities().push(
                (EntityRecord {
                    entity: e,
                    parent: parent_link(old(self).entities(), parent),
                    component: component,
                }),
            ),
            final(self).window_registry() == old(self).window_registry(),
            final(self).workspace_registry() == old(self).workspace_registry(),
            final(self).panel_registry() == old(self).panel_registry(),
    {
        proof {
            use_type_invariant(&*self);
        }
        let e = EntityId { bits: self.next_entity };
        let parent = match parent {
            Some(p) => if self.contains(p) {
                Some(p)
            } else {
                None
            },
            None => None,
        };
        let mut recs: Vec<EntityRecord<C>> = Vec::new();
        std::mem::swap(&mut recs, &mut self.records);
        let ghost before = recs@;
        self.next_entity = self.next_entity + 1;
        recs.push(EntityRecord { entity: e, parent, component });
        proof {
            let t = recs@;
            assert forall|i: int| 0 <= i < t.len() implies #[trigger] parent_before(t, i) by {
                if i < before.len() {
                    assert(parent_before(before, i));
                    if t[i].parent is Some {
                        let j = choose|j: int|
                            0 <= j < i && #[trigger] before[j].entity == before[i].parent->0;
                        assert(t[j] == before[j]);
                    }
                } else {
                    if parent is Some {
                        let j = choose|j: int|
                            0 <= j < before.len() && before[j].entity == parent->0;
                        assert(t[j] == before[j]);
                    }
                }
            }
        }
        self.records = recs;
        e
    }

    /// Registers a dock window, replacing the one with its id if any.
    pub fn register_dock_window(&mut self, dock: DockWindowDescriptor<C>)
        ensures
            final(self).window_registry().entries@ == registered(
                old(self).window_registry().entries@,
                dock,
            ),
            final(self).entities() == old(self).entities(),
            final(self).next_id() == old(self).next_id(),
            final(self).workspace_registry() == old(self).workspace_registry(),
            final(self).panel_registry() == old(self).panel_registry(),
    {
        proof {
            use_type_invariant(&*self);
        }
        let mut windows: WindowRegistry<C> = Registry::new();
        std::mem::swap(&mut windows, &mut self.windows);
        windows.register(dock);
        self.windows = windows;
    }

    /// Registers a workspace, replacing the one with its id if any.
    pub fn register_workspace(&mut self, descriptor: WorkspaceDescriptor)
        ensures
            final(self).workspace_registry().entries@ == registered(
                old(self).workspace_registry().entries@,
                descriptor,
            ),
            final(self).entities() == old(self).entities(),
            final(self).next_id() == old(self).next_id(),
            final(self).window_registry() == old(self).window_registry(),
            final(self).panel_registry() == old(self).panel_registry(),
    {
        proof {
            use_type_invariant(&*self);
        }
        let mut workspaces: WorkspaceRegistry = Registry::new();
        std::mem::swap(&mut workspaces, &mut self.workspaces);
        workspaces.register(descriptor);
        self.workspaces = workspaces;
    }

    /// Appends a section to a panel's list.
    pub fn add_panel_section(&mut self, panel_id: String, section: C)
        ensures
            final(self).panel_registry().sections(panel_id@) == old(
                self,
            ).panel_registry().sections(panel_id@).push(section),
            forall|k: Seq<char>|
                k != panel_id@ ==> #[trigger] final(self).panel_registry().sections(k) == old(
                    self,
                ).panel_registry().sections(k),
            final(self).entities() == old(self).entities(),
            final(self).next_id() == old(self).next_id(),
            final(self).window_registry() == old(self).window_registry(),
            final(self).workspace_registry() == old(self).workspace_registry(),
    {
        proof {
            use_type_invariant(&*self);
        }
        let mut panels: PanelExtensionRegistry<C> = PanelExtensionRegistry::new();
        std::mem::swap(&mut panels, &mut self.panel_extensions);
        panels.add(panel_id, section);
        self.panel_extensions = panels;
    }

    /// Puts the extension object on its root entity `e`, whose marker then
    /// reads `Extension { name }` with `extension` stored beside it. Changes
    /// nothing when `e` does not exist.
    pub fn store_extension(&mut self, e: EntityId, name: String, extension: C)
        ensures
            old(self).has(e) ==> final(self).entities() == old(self).entities().update(
                position_of(old(self).entities(), e),
                (EntityRecord {
                    entity: e,
                    parent: old(self).record(e).parent,
                    component: Component::Extension(Extension { name }, Some(extension)),
                }),
            ),
            !old(self).has(e) ==> final(self).entities() == old(self).entities(),
            final(self).has(e) == old(self).has(e),
            old(self).has(e) ==> final(self).record(e) == (EntityRecord {
                entity: e,
                parent: old(self).record(e).parent,
                component: Component::Extension(Extension { name }, Some(extension)),
            }),
            final(self).next_id() == old(self).next_id(),
            final(self).window_registry() == old(self).window_registry(),
            final(self).workspace_registry() == old(self).workspace_registry(),
            final(self).panel_registry() == old(self).panel_registry(),
    {
        proof {
            use_type_invariant(&*self);
        }
        match self.position(e) {
            Some(i) => {
                let mut recs: Vec<EntityRecord<C>> = Vec::new();
                std::mem::swap(&mut recs, &mut self.records);
                let ghost before = recs@;
                let parent = recs[i].parent;
                recs.set(
                    i,
                    EntityRecord {
                        entity: e,
                        parent,
                        component: Component::Extension(Extension { name }, Some(extension)),
                    },
                );
                proof {
                    lemma_records_wf_same_links(before, recs@, self.next_entity);
                    lemma_position_of(recs@, i as int);
                }
                self.records = recs;
            },
            None => {},
        }
    }

    /// Takes the extension object stored on root entity `e`, leaving its
    /// marker without one. Returns nothing, and changes nothing, when `e` does
    /// not exist or holds no stored extension.
    pub fn take_stored_extension(&mut self, e: EntityId) -> (r: Option<C>)
        ensures
            r == stored_extension(old(self).entities(), e),
            final(self).entities() == cleared_extension(old(self).entities(), e),
            r is Some ==> (old(self).record(e).component matches Component::Extension(m, _)
                && final(self).entities() == old(self).entities().update(
                position_of(old(self).entities(), e),
                (EntityRecord {
                    entity: e,
                    parent: old(self).record(e).parent,
                    component: Component::Extension(m, None),
                }),
            )),
            r is None ==> final(self).entities() == old(self).entities(),
            final(self).next_id() == old(self).next_id(),
            final(self).window_registry() == old(self).window_registry(),
            final(self).workspace_registry() == old(self).workspace_registry(),
            final(self).panel_registry() == old(self).panel_registry(),
    {
        proof {
            use_type_invariant(&*self);
        }
        match self.position(e) {
            Some(i) => {
                let mut recs: Vec<EntityRecord<C>> = Vec::new();
                std::mem::swap(&mut recs, &mut self.records);
                let ghost before = recs@;
                let rec = recs.remove(i);
                let entity = rec.entity;
                let parent = rec.parent;
                let (component, taken) = match rec.component {
                    Component::Extension(m, Some(x)) => (Component::Extension(m, None), Some(x)),
                    other => (other, None),
                };
                recs.insert(i, EntityRecord { entity, parent, component });
                proof {
                    assert(recs@ =~= before.update(i as int, recs@[i as int]));
                    if taken is None {
                        assert(recs@ =~= before);
                    }
                    lemma_records_wf_same_links(before, recs@, self.next_entity);
                }
                self.records = recs;
                taken
            },
            None => None,
        }
    }

    /// Despawns `root` and every entity under it. Window and workspace
    /// markers that go take their registry entries with them, and panel
    /// section markers take the sections at their positions. Despawning an
    /// entity that does not exist changes nothing.
    pub fn despawn(&mut self, root: EntityId)
        ensures
            final(self).entities() == despawned_records(old(self).entities(), root),
            final(self).window_registry().entries@ == despawned_windows(
                old(self).window_registry().entries@,
                old(self).entities(),
                root,
            ),
            final(self).workspace_registry().entries@ == despawned_workspaces(
                old(self).workspace_registry().entries@,
                old(self).entities(),
                root,
            ),
            forall|k: Seq<char>|
                #[trigger] final(self).panel_registry().sections(k) == despawned_sections(
                    old(self).panel_registry().sections(k),
                    old(self).entities(),
                    root,
                    k,
                ),
            final(self).next_id() == old(self).next_id(),
    {
        proof {
            use_type_invariant(&*self);
        }
        let ghost orig = self.records@;
        let ghost orig_w = self.windows.entries@;
        let ghost orig_ws = self.workspaces.entries@;
        let ghost keep = survives(orig, root);
        let next = self.next_entity;
        let mut pending: Vec<EntityRecord<C>> = Vec::new();
        std::mem::swap(&mut pending, &mut self.records);
        let mut windows: WindowRegistry<C> = Registry::new();
        std::mem::swap(&mut windows, &mut self.windows);
        let mut workspaces: WorkspaceRegistry = Registry::new();
        std::mem::swap(&mut workspaces, &mut self.workspaces);
        let mut panels: PanelExtensionRegistry<C> = PanelExtensionRegistry::new();
        std::mem::swap(&mut panels, &mut self.panel_extensions);
        let ghost orig_panels = panels;
        let mut removed_sections: Vec<(String, usize)> = Vec::new();
        let n = pending.len();
        let mut kept: Vec<EntityRecord<C>> = Vec::new();
        let mut removed: Vec<EntityId> = Vec::new();
        let mut i: usize = 0;
        assert(orig.take(0).filter(keep) =~= Seq::<EntityRecord<C>>::empty()) by {
            reveal(Seq::filter);
        }
        assert(orig_w.filter(window_kept(removed_window_ids(orig, root, 0))) =~= orig_w) by {
            crate::seq_facts::lemma_filter_all(orig_w, window_kept(removed_window_ids(orig, root, 0)));
        }
        assert(orig_ws.filter(workspace_kept(removed_workspace_ids(orig, root, 0))) =~= orig_ws)
            by {
            crate::seq_facts::lemma_filter_all(
                orig_ws,
                workspace_kept(removed_workspace_ids(orig, root, 0)),
            );
        }
        while i < n
            invariant
                n == orig.len(),
                0 <= i <= n,
                pending@ =~= orig.subrange(i as int, n as int),
                records_wf(orig, next),
                keep == survives(orig, root),
                kept@ == orig.take(i as int).filter(keep),
                records_wf(kept@, next),
                forall|e: EntityId|
                    #![trigger removed@.contains(e)]
                    removed@.contains(e) <==> exists|k: int|
                        0 <= k < i && orig[k].entity == e && in_subtree(orig, k, root),
                windows.wf(),
                windows.entries@ == orig_w.filter(
                    window_kept(removed_window_ids(orig, root, i as int)),
                ),
                workspaces.wf(),
                workspaces.entries@ == orig_ws.filter(
                    workspace_kept(removed_workspace_ids(orig, root, i as int)),
                ),
                panels == orig_panels,
                panels.wf(),
                forall|k: Seq<char>|
                    #[trigger] named_positions(removed_sections@, k) == removed_section_positions(
                        orig,
                        root,
                        i as int,
                        k,
                    ),
            decreases n - i,
        {
            let rec = pending.remove(0);
            assert(rec == orig[i as int]);
            let doomed = if rec.entity == root {
                true
            } else {
                match rec.parent {
                    Some(p) => contains_entity(&removed, p),
                    None => false,
                }
            };
            proof {
                lemma_in_subtree_step(orig, root, i as int);
                if rec.entity != root && rec.parent is Some {
                    let p = rec.parent->0;
                    let j = position_of(orig, p);
                    if removed@.contains(p) {
                        let k = choose|k: int|
                            0 <= k < i && orig[k].entity == p && in_subtree(orig, k, root);
                        lemma_position_of(orig, k);
                    } else {
                        assert(!(0 <= j < i && orig[j].entity == p && in_subtree(orig, j, root)));
                    }
                }
                assert(doomed == in_subtree(orig, i as int, root));
                lemma_subtree_at(orig, root, i as int);
                assert(keep(orig[i as int]) == !doomed);
                assert(orig.take(i + 1) =~= orig.take(i as int).push(orig[i as int]));
                orig.take(i as int).lemma_filter_push(orig[i as int], keep);
            }
            if doomed {
                let ghost prev_w = windows.entries@;
                let ghost prev_ws = workspaces.entries@;
                let ghost prev_sections = removed_sections@;
                proof {
                    lemma_marker_ids_step(orig, root, i as int);
                    lemma_section_positions_step(orig, root, i as int);
                }
                let entity = rec.entity;
                match rec.component {
                    Component::Window(w) => {
                        windows.unregister(&w.id);
                        proof {
                            let ids = removed_window_ids(orig, root, i as int);
                            let f = window_kept(ids);
                            let g = |d: DockWindowDescriptor<C>| d.key() != w.id@;
                            assert(windows.entries@ == prev_w.filter(g));
                            lemma_filter_filter(orig_w, f, g);
                            assert(window_kept(removed_window_ids(orig, root, i + 1)) =~= (|
                                x: DockWindowDescriptor<C>,
                            | f(x) && g(x)));
                        }
                    },
                    Component::Workspace(w) => {
                        workspaces.unregister(&w.id);
                        proof {
                            let ids = removed_workspace_ids(orig, root, i as int);
                            let f = workspace_kept(ids);
                            let g = |d: WorkspaceDescriptor| d.key() != w.id@;
                            assert(workspaces.entries@ == prev_ws.filter(g));
                            lemma_filter_filter(orig_ws, f, g);
                            assert(workspace_kept(removed_workspace_ids(orig, root, i + 1)) =~= (|
                                x: WorkspaceDescriptor,
                            | f(x) && g(x)));
                        }
                    },
                    Component::PanelExtension(p) => {
                        let ghost pk = p.panel_id@;
                        let ghost pj = p.section_index as int;
                        removed_sections.push((p.panel_id, p.section_index));
                        proof {
                            assert forall|k: Seq<char>| #[trigger] named_positions(
                                removed_sections@,
                                k,
                            ) == removed_section_positions(orig, root, i + 1, k) by {
                                let a = named_positions(prev_sections, k);
                                let b = named_positions(removed_sections@, k);
                                if k == pk {
                                    assert(b =~= a.insert(pj)) by {
                                        let last = prev_sections.len() as int;
                                        assert(removed_sections@[last].0@ == pk);
                                        assert(removed_sections@[last].1 as int == pj);
                                        assert(b.contains(pj));
                                        assert forall|j: int| #[trigger] b.contains(j) implies a.insert(
                                            pj,
                                        ).contains(j) by {
                                            let m = choose|m: int|
                                                0 <= m < removed_sections@.len()
                                                    && removed_sections@[m].0@ == k
                                                    && #[trigger] removed_sections@[m].1 as int
                                                    == j;
                                            if m < prev_sections.len() {
                                                assert(removed_sections@[m] == prev_sections[m]);
                                            }
                                        }
                                        assert forall|j: int| #[trigger] a.contains(j) implies b.contains(
                                            j,
                                        ) by {
                                            let m = choose|m: int|
                                                0 <= m < prev_sections.len()
                                                    && prev_sections[m].0@ == k
                                                    && #[trigger] prev_sections[m].1 as int == j;
                                            assert(removed_sections@[m] == prev_sections[m]);
                                        }
                                    }
                                } else {
                                    assert(b =~= a) by {
                                        assert forall|j: int| #[trigger] b.contains(j) implies a.contains(
                                            j,
                                        ) by {
                                            let m = choose|m: int|
                                                0 <= m < removed_sections@.len()
                                                    && removed_sections@[m].0@ == k
                                                    && #[trigger] removed_sections@[m].1 as int
                                                    == j;
                                            if m < prev_sections.len() {
                                                assert(removed_sections@[m] == prev_sections[m]);
                                            }
                                        }
                                        assert forall|j: int| #[trigger] a.contains(j) implies b.contains(
                                            j,
                                        ) by {
                                            let m = choose|m: int|
                                                0 <= m < prev_sections.len()
                                                    && prev_sections[m].0@ == k
                                                    && #[trigger] prev_sections[m].1 as int == j;
                                            assert(removed_sections@[m] == prev_sections[m]);
                                        }
                                    }
                                }
                            }
                        }
                    },
                    _ => {},
                }
                removed.push(entity);
            } else {
                proof {
                    lemma_marker_ids_step(orig, root, i as int);
                    lemma_section_positions_step(orig, root, i as int);
                    lemma_kept_push_wf(orig, kept@, root, i as int, next);
                }
                kept.push(rec);
            }
            i = i + 1;
        }
        assert(orig.take(n as int) =~= orig);
        panels.remove_positions(&removed_sections);
        self.windows = windows;
        self.workspaces = workspaces;
        self.panel_extensions = panels;
        self.records = kept;
    }
}

/// Changing only the components of records keeps the list well formed.
proof fn lemma_records_wf_same_links<C>(a: Seq<EntityRecord<C>>, b: Seq<EntityRecord<C>>, next: u64)
    requires
        records_wf(a, next),
        a.len() == b.len(),
        forall|i: int| 0 <= i < a.len() ==> #[trigger] b[i].entity == a[i].entity && b[i].parent
            == a[i].parent,
    ensures
        records_wf(b, next),
{
    assert forall|i: int| 0 <= i < b.len() implies #[trigger] parent_before(b, i) by {
        assert(b[i].entity == a[i].entity);
        assert(parent_before(a, i));
        if b[i].parent is Some {
            let j = choose|j: int| 0 <= j < i && #[trigger] a[j].entity == a[i].parent->0;
            assert(b[j].entity == a[j].entity);
        }
    }
    assert forall|i: int, j: int| 0 <= i < j < b.len() implies b[i].entity.bits
        < b[j].entity.bits by {
        assert(b[i].entity == a[i].entity);
        assert(b[j].entity == a[j].entity);
    }
    assert forall|i: int| 0 <= i < b.len() implies b[i].entity.bits < next by {
        assert(b[i].entity == a[i].entity);
    }
}

/// Whether `e` is among `ids`.
fn contains_entity(ids: &Vec<EntityId>, e: EntityId) -> (r: bool)
    ensures
        r == ids@.contains(e),
{
    let mut i: usize = 0;
    while i < ids.len()
        invariant
            0 <= i <= ids.len(),
            forall|k: int| 0 <= k < i ==> ids@[k] != e,
        decreases ids.len() - i,
    {
        if ids[i] == e {
            return true;
        }
        i = i + 1;
    }
    false
}

/// How the removed marker ids grow by one record.
proof fn lemma_marker_ids_step<C>(recs: Seq<EntityRecord<C>>, root: EntityId, i: int)
    requires
        0 <= i < recs.len(),
    ensures
        in_subtree(recs, i, root) && window_marker(recs[i].component) is Some ==> removed_window_ids(
            recs,
            root,
            i + 1,
        ) == removed_window_ids(recs, root, i).insert(window_marker(recs[i].component)->0),
        !(in_subtree(recs, i, root) && window_marker(recs[i].component) is Some)
            ==> removed_window_ids(recs, root, i + 1) == removed_window_ids(recs, root, i),
        in_subtree(recs, i, root) && workspace_marker(recs[i].component) is Some
            ==> removed_workspace_ids(recs, root, i + 1) == removed_workspace_ids(
            recs,
            root,
            i,
        ).insert(workspace_marker(recs[i].component)->0),
        !(in_subtree(recs, i, root) && workspace_marker(recs[i].component) is Some)
            ==> removed_workspace_ids(recs, root, i + 1) == removed_workspace_ids(recs, root, i),
{
    let a = removed_window_ids(recs, root, i);
    let b = removed_window_ids(recs, root, i + 1);
    if in_subtree(recs, i, root) && window_marker(recs[i].component) is Some {
        assert(b =~= a.insert(window_marker(recs[i].component)->0));
    } else {
        assert(b =~= a);
    }
    let c = removed_workspace_ids(recs, root, i);
    let d = removed_workspace_ids(recs, root, i + 1);
    if in_subtree(recs, i, root) && workspace_marker(recs[i].component) is Some {
        assert(d =~= c.insert(workspace_marker(recs[i].component)->0));
    } else {
        assert(d =~= c);
    }
}

/// How the removed section positions grow by one record.
proof fn lemma_section_positions_step<C>(recs: Seq<EntityRecord<C>>, root: EntityId, i: int)
    requires
        0 <= i < recs.len(),
    ensures
        forall|k: Seq<char>|
            #[trigger] removed_section_positions(recs, root, i + 1, k) == if in_subtree(
                recs,
                i,
                root,
            ) && section_marker(recs[i].component) is Some && section_panel(recs[i].component) == k {
                removed_section_positions(recs, root, i, k).insert(
                    section_index_of(recs[i].component),
                )
            } else {
                removed_section_positions(recs, root, i, k)
            },
{
    assert forall|k: Seq<char>|
        #[trigger] removed_section_positions(recs, root, i + 1, k) == if in_subtree(recs, i, root)
            && section_marker(recs[i].component) is Some && section_panel(recs[i].component)
            == k {
            removed_section_positions(recs, root, i, k).insert(
                section_index_of(recs[i].component),
            )
        } else {
            removed_section_positions(recs, root, i, k)
        } by {
        let a = removed_section_positions(recs, root, i, k);
        let b = removed_section_positions(recs, root, i + 1, k);
        if in_subtree(recs, i, root) && section_marker(recs[i].component) is Some
            && section_panel(recs[i].component) == k {
            assert(b =~= a.insert(section_index_of(recs[i].component)));
        } else {
            assert(b =~= a);
        }
    }
}

/// Keeping a record whose position does not lie under `root` keeps the kept
/// list well formed.
proof fn lemma_kept_push_wf<C>(
    orig: Seq<EntityRecord<C>>,
    kept: Seq<EntityRecord<C>>,
    root: EntityId,
    i: int,
    next: u64,
)
    requires
        records_wf(orig, next),
        0 <= i < orig.len(),
        !in_subtree(orig, i, root),
        kept == orig.take(i).filter(survives(orig, root)),
        records_wf(kept, next),
    ensures
        records_wf(kept.push(orig[i]), next),
{
    let t = kept.push(orig[i]);
    let pre = orig.take(i);
    assert forall|a: int, b: int| 0 <= a < b < t.len() implies t[a].entity.bits
        < t[b].entity.bits by {
        if b == kept.len() {
            lemma_filter_member(pre, survives(orig, root), a);
            let m = choose|m: int| 0 <= m < pre.len() && pre[m] == kept[a];
            assert(orig[m] == kept[a]);
        }
    }
    assert forall|a: int| 0 <= a < t.len() implies #[trigger] parent_before(t, a) by {
        if a < kept.len() {
            assert(parent_before(kept, a));
            if t[a].parent is Some {
                let j = choose|j: int| 0 <= j < a && #[trigger] kept[j].entity == kept[a].parent->0;
                assert(t[j] == kept[j]);
            }
        } else if t[a].parent is Some {
            lemma_in_subtree_step(orig, root, i);
            let p = orig[i].parent->0;
            let j = position_of(orig, p);
            assert(!in_subtree(orig, j, root));
            lemma_subtree_at(orig, root, j);
            assert(pre[j] == orig[j]);
            pre.lemma_filter_contains(survives(orig, root), j);
            let m = choose|m: int| 0 <= m < kept.len() && kept[m] == pre[j];
            assert(t[m].entity == p);
        }
    }
}

/// The part of the editor world that extensions touch.
pub struct ExtensionWorld<C> {
    /// Entities in spawn order.
    records: Vec<EntityRecord<C>>,
    /// The id the next spawned entity takes.
    next_entity: u64,
    /// Registered dock windows.
    windows: WindowRegistry<C>,
    /// Registered workspaces.
    workspaces: WorkspaceRegistry,
    /// Sections injected into existing panels.
    panel_extensions: PanelExtensionRegistry<C>,
}

} // verus!
