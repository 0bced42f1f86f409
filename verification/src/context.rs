//! The context an extension registers through, and loading an extension.
//!
//! Every registration spawns a child entity under the extension's entity, so
//! that despawning the extension takes all of it away (see
//! [`ExtensionWorld::despawn`]).
use vstd::prelude::*;
use crate::components::{
    Component, EntityId, EntityRecord, Extension, OperatorEntity, OperatorObserver,
    RegisteredMenuEntry, RegisteredPanelExtension, RegisteredWindow, RegisteredWorkspace, Trigger,
};
use crate::registries::{DockWindowDescriptor, WorkspaceDescriptor, registered};
use crate::laws::law_unload_leaves_nothing_of_the_extension;
use crate::world::{
    ExtensionWorld, despawned_records, despawned_sections, despawned_windows, despawned_workspaces,
    has_entity,
    in_subtree, parent_link, stored_extension, cleared_extension,
};

verus! {

/// The engine's `bevy::app::App`, which `register_input_contexts` receives.
/// Only carried through: nothing is claimed of what is inside it.
#[verifier::external_type_specification]
#[verifier::external_body]
pub struct ExApp(bevy::app::App);

/// The name an extension is known by.
pub trait NamedExtension {
    fn name(&self) -> &str;
}

/// What an extension author implements: a name and the registration logic.
/// `C` is what the host attaches to registrations (window builders, panel
/// sections, operator systems, spawned bundles).
pub trait JackdawExtension<C>: NamedExtension {

    /// One-time hook for input context registration, called once per
    /// catalog entry at app startup, before any `register` call. Does nothing
    /// unless an extension overrides it.
    fn register_input_contexts(&self, app: &mut bevy::app::App)
        default_ensures
            *final(app) == *old(app),
    {
    }

    /// Main registration logic, called each time the extension is enabled.
    fn register(&self, ctx: &mut ExtensionContext<'_, C>);

    /// Called before the extension entity despawns, for state that entity
    /// cleanup does not cover. Does nothing unless an extension overrides it.
    fn unregister(&self, world: &mut ExtensionWorld<C>, extension_entity: EntityId)
        default_ensures
            *final(world) == *old(world),
    {
    }
}

/// An operator: an editor action with an id, a label and the systems that
/// run it, dispatched by input according to its trigger.
pub trait Operator<C> {
    const ID: &'static str;

    const LABEL: &'static str;

    const DESCRIPTION: &'static str;

    const MODAL: bool;

    const TRIGGER: Trigger;

    fn register_execute() -> C;

    fn register_invoke() -> C;

    fn register_poll() -> C;
}

/// A panel that accepts sections from extensions.
pub trait ExtensionPoint {
    const ID: &'static str;
}

/// The inspector's component panel.
pub struct InspectorWindow;

impl ExtensionPoint for InspectorWindow {
    const ID: &'static str = "jackdaw.inspector.components";
}

/// The hierarchy panel.
pub struct HierarchyWindow;

impl ExtensionPoint for HierarchyWindow {
    const ID: &'static str = "jackdaw.hierarchy";
}

/// The ids of the editor's own extension points.
pub proof fn lemma_extension_point_ids()
    ensures
        InspectorWindow::ID == "jackdaw.inspector.components",
        HierarchyWindow::ID == "jackdaw.hierarchy",
{
}

/// What a panel-extension section is given when it is rendered.
pub struct PanelContext {
    pub window_id: String,
    pub panel_entity: EntityId,
}

/// A menu bar entry an extension contributes.
pub struct MenuEntryDescriptor {
    /// Top-level menu name (`"Add"`, `"Tools"`, ...).
    pub menu: String,
    /// Text shown on the menu item.
    pub label: String,
    /// Id of the operator that clicking the entry dispatches.
    pub operator_id: &'static str,
}

/// Window registration info as an extension gives it. Extensions leave
/// `default_area` as `None` so their windows are not placed automatically.
pub struct WindowDescriptor<C> {
    pub id: String,
    pub name: String,
    pub icon: Option<String>,
    pub default_area: Option<String>,
    pub priority: Option<i32>,
    pub build: C,
}

impl<C: Default> Default for WindowDescriptor<C> {
    fn default() -> (d: Self)
        ensures
            d.id@ == Seq::<char>::empty(),
            d.name@ == Seq::<char>::empty(),
            d.icon is None,
            d.default_area is None,
            d.priority is None,
    {
        WindowDescriptor {
            id: String::new(),
            name: String::new(),
            icon: None,
            default_area: None,
            priority: None,
            build: C::default(),
        }
    }
}

/// The priority a window gets when its descriptor gives none.
pub const DEFAULT_WINDOW_PRIORITY: i32 = 100;

/// `dock` is the registry's form of `d`: the same id, name, icon and
/// builder, the given area or the empty one, the given priority or
/// [`DEFAULT_WINDOW_PRIORITY`].
pub open spec fn docked_from<C>(dock: DockWindowDescriptor<C>, d: WindowDescriptor<C>) -> bool {
    &&& dock.id == d.id
    &&& dock.name == d.name
    &&& dock.icon == d.icon
    &&& match d.default_area {
        Some(a) => dock.default_area == a,
        None => dock.default_area@ == Seq::<char>::empty(),
    }
    &&& dock.priority == match d.priority {
        Some(p) => p,
        None => DEFAULT_WINDOW_PRIORITY,
    }
    &&& dock.build == d.build
}

/// `r` is the record of a panel-extension marker with the given id, parent,
/// panel and section index.
pub open spec fn panel_extension_record<C>(
    r: EntityRecord<C>,
    bits: u64,
    parent: Option<EntityId>,
    panel: Seq<char>,
    index: nat,
) -> bool {
    &&& r.entity == (EntityId { bits })
    &&& r.parent == parent
    &&& r.component matches Component::PanelExtension(m) && m.panel_id@ == panel && m.section_index
        == index
}

/// How many entities registering operator `O` spawns: its own, and an
/// observer unless it is dispatched manually.
pub open spec fn operator_entity_count<C, O: Operator<C>>() -> int {
    if O::TRIGGER == Trigger::Manual {
        1
    } else {
        2
    }
}

/// The entity of operator `O` with the given systems.
pub fn operator_entity<C, O: Operator<C>>(execute: C, invoke: C, poll: C) -> (op: OperatorEntity<C>)
    ensures
        op == (OperatorEntity {
            id: O::ID,
            label: O::LABEL,
            description: O::DESCRIPTION,
            execute,
            invoke,
            poll,
            modal: O::MODAL,
        }),
{
    OperatorEntity {
        id: O::ID,
        label: O::LABEL,
        description: O::DESCRIPTION,
        execute,
        invoke,
        poll,
        modal: O::MODAL,
    }
}

/// `r` is the record of operator `O`'s entity with the given id and parent,
/// holding systems that `O`'s `register_execute`, `register_invoke` and
/// `register_poll` returned.
pub open spec fn operator_record<C, O: Operator<C>>(
    r: EntityRecord<C>,
    bits: u64,
    parent: Option<EntityId>,
) -> bool {
    &&& r.entity == (EntityId { bits })
    &&& r.parent == parent
    &&& r.component matches Component::Operator(op) && op.id == O::ID && op.label == O::LABEL
        && op.description == O::DESCRIPTION && op.modal == O::MODAL && call_ensures(
        O::register_execute,
        (),
        op.execute,
    ) && call_ensures(O::register_invoke, (), op.invoke) && call_ensures(
        O::register_poll,
        (),
        op.poll,
    )
}

/// What every registration through the context needs: room for `n` more
/// entity ids.
pub open spec fn can_register<C>(ctx: ExtensionContext<'_, C>, n: int) -> bool {
    ctx.world.next_id() + n <= u64::MAX
}

/// The parent a registration gets: the extension entity, or none when that
/// entity does not exist.
pub open spec fn registration_parent<C>(ctx: ExtensionContext<'_, C>) -> Option<EntityId> {
    parent_link(ctx.world.entities(), Some(ctx.extension_entity))
}

/// Handed to [`JackdawExtension::register`]: the world and the extension
/// entity that registrations are spawned under.
pub struct ExtensionContext<'a, C> {
    pub world: &'a mut ExtensionWorld<C>,
    pub extension_entity: EntityId,
}

impl<'a, C> ExtensionContext<'a, C> {
    pub fn new(world: &'a mut ExtensionWorld<C>, extension_entity: EntityId) -> (ctx: Self)
        ensures
            *ctx.world == *old(world),
            *final(world) == *final(ctx.world),
            ctx.extension_entity == extension_entity,
    {
        ExtensionContext { world, extension_entity }
    }

    /// Direct access to the world.
    pub fn world(&mut self) -> (w: &mut ExtensionWorld<C>)
        ensures
            *w == *old(self).world,
            *final(self).world == *final(w),
            final(self).extension_entity == old(self).extension_entity,
            *final(final(self).world) == *final(old(self).world),
    {
        self.world
    }

    /// The extension's root entity.
    pub fn entity(&self) -> (e: EntityId)
        ensures
            e == self.extension_entity,
    {
        self.extension_entity
    }

    /// Registers a dock window and spawns its marker under the extension.
    pub fn register_window(&mut self, descriptor: WindowDescriptor<C>)
        requires
            can_register(*old(self), 1),
        ensures
            final(self).extension_entity == old(self).extension_entity,
            *final(final(self).world) == *final(old(self).world),
            exists|dock: DockWindowDescriptor<C>|
                docked_from(dock, descriptor) && final(self).world.window_registry().entries@ == registered(
                    old(self).world.window_registry().entries@,
                    dock,
                ),
            final(self).world.entities() == old(self).world.entities().push(
                (EntityRecord {
                    entity: EntityId { bits: old(self).world.next_id() },
                    parent: registration_parent(*old(self)),
                    component: Component::Window(RegisteredWindow { id: descriptor.id }),
                }),
            ),
            final(self).world.next_id() == old(self).world.next_id() + 1,
            final(self).world.workspace_registry() == old(self).world.workspace_registry(),
            final(self).world.panel_registry() == old(self).world.panel_registry(),
    {
        let ext = self.extension_entity;
        let default_area = match descriptor.default_area {
            Some(area) => area,
            None => String::new(),
        };
        let priority = match descriptor.priority {
            Some(p) => p,
            None => DEFAULT_WINDOW_PRIORITY,
        };
        let dock = DockWindowDescriptor {
            id: descriptor.id.clone(),
            name: descriptor.name,
            icon: descriptor.icon,
            default_area,
            priority,
            build: descriptor.build,
        };
        let ghost registered_dock = dock;
        self.world.register_dock_window(dock);
        self.world.spawn(Component::Window(RegisteredWindow { id: descriptor.id }), Some(ext));
        assert(docked_from(registered_dock, descriptor));
    }

    /// Registers a workspace and spawns its marker under the extension.
    pub fn register_workspace(&mut self, descriptor: WorkspaceDescriptor)
        requires
            can_register(*old(self), 1),
        ensures
            final(self).extension_entity == old(self).extension_entity,
            *final(final(self).world) == *final(old(self).world),
            final(self).world.workspace_registry().entries@ == registered(
                old(self).world.workspace_registry().entries@,
                descriptor,
            ),
            final(self).world.entities() == old(self).world.entities().push(
                (EntityRecord {
                    entity: EntityId { bits: old(self).world.next_id() },
                    parent: registration_parent(*old(self)),
                    component: Component::Workspace(RegisteredWorkspace { id: descriptor.id }),
                }),
            ),
            final(self).world.next_id() == old(self).world.next_id() + 1,
            final(self).world.window_registry() == old(self).world.window_registry(),
            final(self).world.panel_registry() == old(self).world.panel_registry(),
    {
        let ext = self.extension_entity;
        let id = descriptor.id.clone();
        self.world.register_workspace(descriptor);
        self.world.spawn(Component::Workspace(RegisteredWorkspace { id }), Some(ext));
    }

    /// Spawns an entity carrying `bundle` as a child of the extension entity,
    /// so that it is torn down when the extension unloads.
    pub fn spawn(&mut self, bundle: C) -> (e: EntityId)
        requires
            can_register(*old(self), 1),
        ensures
            final(self).extension_entity == old(self).extension_entity,
            *final(final(self).world) == *final(old(self).world),
            e.bits == old(self).world.next_id(),
            final(self).world.entities() == old(self).world.entities().push(
                (EntityRecord {
                    entity: e,
                    parent: registration_parent(*old(self)),
                    component: Component::Bundle(bundle),
                }),
            ),
            final(self).world.next_id() == old(self).world.next_id() + 1,
            final(self).world.window_registry() == old(self).world.window_registry(),
            final(self).world.workspace_registry() == old(self).world.workspace_registry(),
            final(self).world.panel_registry() == old(self).world.panel_registry(),
    {
        let ext = self.extension_entity;
        self.world.spawn(Component::Bundle(bundle), Some(ext))
    }

    /// Registers operator `O`: spawns its entity under the extension and,
    /// unless it is dispatched manually, an observer under the operator that
    /// dispatches it at its trigger.
    pub fn register_operator<O: Operator<C>>(&mut self)
        requires
            can_register(*old(self), operator_entity_count::<C, O>()),
        ensures
            final(self).extension_entity == old(self).extension_entity,
            *final(final(self).world) == *final(old(self).world),
            final(self).world.entities().len() == old(self).world.entities().len() + if O::TRIGGER
                == Trigger::Manual {
                1int
            } else {
                2int
            },
            final(self).world.entities().take(old(self).world.entities().len() as int)
                == old(self).world.entities(),
            operator_record::<C, O>(
                final(self).world.entities()[old(self).world.entities().len() as int],
                old(self).world.next_id(),
                registration_parent(*old(self)),
            ),
            O::TRIGGER != Trigger::Manual ==> final(self).world.entities()[old(
                self,
            ).world.entities().len() + 1int] == (EntityRecord {
                entity: EntityId { bits: (old(self).world.next_id() + 1) as u64 },
                parent: Some(EntityId { bits: old(self).world.next_id() }),
                component: Component::<C>::OperatorObserver(
                    OperatorObserver { operator_id: O::ID, trigger: O::TRIGGER },
                ),
            }),
            final(self).world.next_id() == old(self).world.next_id() + if O::TRIGGER
                == Trigger::Manual {
                1int
            } else {
                2int
            },
            final(self).world.window_registry() == old(self).world.window_registry(),
            final(self).world.workspace_registry() == old(self).world.workspace_registry(),
            final(self).world.panel_registry() == old(self).world.panel_registry(),
    {
        let ext = self.extension_entity;
        let register_execute = O::register_execute;
        let execute = register_execute();
        let register_invoke = O::register_invoke;
        let invoke = register_invoke();
        let register_poll = O::register_poll;
        let poll = register_poll();
        let ghost before = self.world.entities();
        let operator = operator_entity::<C, O>(execute, invoke, poll);
        let op_entity = self.world.spawn(Component::Operator(operator), Some(ext));
        assert(self.world.entities().take(before.len() as int) =~= before);
        let trigger = O::TRIGGER;
        match trigger {
            Trigger::Manual => {},
            _ => {
                proof {
                    lemma_last_is_present(self.world.entities());
                }
                self.world.spawn(
                    Component::OperatorObserver(OperatorObserver { operator_id: O::ID, trigger }),
                    Some(op_entity),
                );
                assert(self.world.entities().take(before.len() as int) =~= before);
            },
        }
    }

    /// Injects a section into the panel `W`. The section's marker records
    /// the panel and the section's position in that panel's list.
    pub fn extend_window<W: ExtensionPoint>(&mut self, section: C)
        requires
            can_register(*old(self), 1),
        ensures
            final(self).extension_entity == old(self).extension_entity,
            *final(final(self).world) == *final(old(self).world),
            final(self).world.panel_registry().sections(W::ID@) == old(
                self,
            ).world.panel_registry().sections(W::ID@).push(section),
            final(self).world.panel_registry().sections(W::ID@)[old(
                self,
            ).world.panel_registry().sections(W::ID@).len() as int] == section,
            forall|k: Seq<char>|
                k != W::ID@ ==> #[trigger] final(self).world.panel_registry().sections(k) == old(
                    self,
                ).world.panel_registry().sections(k),
            final(self).world.entities().len() == old(self).world.entities().len() + 1,
            final(self).world.entities().drop_last() == old(self).world.entities(),
            panel_extension_record(
                final(self).world.entities().last(),
                old(self).world.next_id(),
                registration_parent(*old(self)),
                W::ID@,
                old(self).world.panel_registry().sections(W::ID@).len(),
            ),
            final(self).world.next_id() == old(self).world.next_id() + 1,
            final(self).world.window_registry() == old(self).world.window_registry(),
            final(self).world.workspace_registry() == old(self).world.workspace_registry(),
    {
        let ext = self.extension_entity;
        let panel_id: String = W::ID.to_owned();
        let section_index = self.world.panel_extensions().get(&panel_id).len();
        self.world.add_panel_section(panel_id.clone(), section);
        let ghost before = self.world.entities();
        self.world.spawn(
            Component::PanelExtension(RegisteredPanelExtension { panel_id, section_index }),
            Some(ext),
        );
        assert(self.world.entities().drop_last() =~= before);
    }

    /// Contributes an entry to one of the editor's top-level menus; the entry
    /// goes away with the extension.
    pub fn register_menu_entry(&mut self, descriptor: MenuEntryDescriptor)
        requires
            can_register(*old(self), 1),
        ensures
            final(self).extension_entity == old(self).extension_entity,
            *final(final(self).world) == *final(old(self).world),
            final(self).world.entities() == old(self).world.entities().push(
                (EntityRecord {
                    entity: EntityId { bits: old(self).world.next_id() },
                    parent: registration_parent(*old(self)),
                    component: Component::MenuEntry(
                        RegisteredMenuEntry {
                            menu: descriptor.menu,
                            label: descriptor.label,
                            operator_id: descriptor.operator_id,
                        },
                    ),
                }),
            ),
            final(self).world.next_id() == old(self).world.next_id() + 1,
            final(self).world.window_registry() == old(self).world.window_registry(),
            final(self).world.workspace_registry() == old(self).world.workspace_registry(),
            final(self).world.panel_registry() == old(self).world.panel_registry(),
    {
        let ext = self.extension_entity;
        self.world.spawn(
            Component::MenuEntry(
                RegisteredMenuEntry {
                    menu: descriptor.menu,
                    label: descriptor.label,
                    operator_id: descriptor.operator_id,
                },
            ),
            Some(ext),
        );
    }
}

/// The last record of a non-empty list is an entity of it.
proof fn lemma_last_is_present<C>(recs: Seq<EntityRecord<C>>)
    requires
        recs.len() > 0,
    ensures
        has_entity(recs, recs.last().entity),
{
    assert(recs[recs.len() - 1].entity == recs.last().entity);
}

/// Spawns the root entity of an extension named `name`, with no extension
/// object stored on it yet.
pub fn spawn_extension<C>(world: &mut ExtensionWorld<C>, name: String) -> (e: EntityId)
    requires
        old(world).next_id() < u64::MAX,
    ensures
        e.bits == old(world).next_id(),
        final(world).entities() == old(world).entities().push(
            (EntityRecord {
                entity: e,
                parent: None,
                component: Component::Extension(Extension { name }, None),
            }),
        ),
        final(world).next_id() == old(world).next_id() + 1,
        final(world).window_registry() == old(world).window_registry(),
        final(world).workspace_registry() == old(world).workspace_registry(),
        final(world).panel_registry() == old(world).panel_registry(),
{
    world.spawn(Component::Extension(Extension { name }, None), None)
}

/// Loads an extension: spawns its root entity, named after it, lets it
/// register through a context on that entity, then stores the extension
/// object on the root so that unloading can call its `unregister`. Returns
/// the root entity. What the extension registers is up to its `register`;
/// if that despawned the root, nothing is stored.
pub fn load_static_extension<C: JackdawExtension<C>>(
    world: &mut ExtensionWorld<C>,
    extension: C,
) -> (e: EntityId)
    requires
        old(world).next_id() < u64::MAX,
    ensures
        e.bits == old(world).next_id(),
        final(world).has(e) ==> final(world).record(e).entity == e,
        final(world).has(e) ==> (final(world).record(e).component matches Component::Extension(
            marker,
            stored,
        ) && stored == Some(extension) && exists|n: &str|
            call_ensures(C::name, (&extension,), n) && #[trigger] marker.name@ == n@),
{
    let name_of = C::name;
    let n = name_of(&extension);
    let name = n.to_owned();
    let marker_name = name.clone();
    let e = spawn_extension(world, name);
    {
        let mut ctx = ExtensionContext::new(world, e);
        extension.register(&mut ctx);
    }
    world.store_extension(e, marker_name, extension);
    e
}

/// Unloads the extension rooted at `extension_entity`: takes the extension
/// object stored there and calls its `unregister`, then despawns the root
/// with everything under it. Without a stored extension this is the despawn
/// alone; with one, it is the despawn of the world that the hook left.
pub fn unload_extension<C: JackdawExtension<C>>(
    world: &mut ExtensionWorld<C>,
    extension_entity: EntityId,
)
    ensures
        !final(world).has(extension_entity),
        forall|i: int| !#[trigger] in_subtree(final(world).entities(), i, extension_entity),
        stored_extension(old(world).entities(), extension_entity) is None ==> {
            &&& final(world).entities() == despawned_records(
                old(world).entities(),
                extension_entity,
            )
            &&& final(world).window_registry().entries@ == despawned_windows(
                old(world).window_registry().entries@,
                old(world).entities(),
                extension_entity,
            )
            &&& final(world).workspace_registry().entries@ == despawned_workspaces(
                old(world).workspace_registry().entries@,
                old(world).entities(),
                extension_entity,
            )
            &&& forall|k: Seq<char>|
                #[trigger] final(world).panel_registry().sections(k) == despawned_sections(
                old(world).panel_registry().sections(k),
                old(world).entities(),
                extension_entity,
                k,
            )
        },
        stored_extension(old(world).entities(), extension_entity) matches Some(x) ==> exists|
            hook: &mut ExtensionWorld<C>,
        |
            {
                &&& call_ensures(C::unregister, (&x, hook, extension_entity), ())
                &&& hook.entities() == cleared_extension(old(world).entities(), extension_entity)
                &&& hook.next_id() == old(world).next_id()
                &&& hook.window_registry() == old(world).window_registry()
                &&& hook.workspace_registry() == old(world).workspace_registry()
                &&& hook.panel_registry() == old(world).panel_registry()
                &&& final(world).entities() == despawned_records(
                    final(hook).entities(),
                    extension_entity,
                )
                &&& final(world).window_registry().entries@ == despawned_windows(
                    final(hook).window_registry().entries@,
                    final(hook).entities(),
                    extension_entity,
                )
                &&& final(world).workspace_registry().entries@ == despawned_workspaces(
                    final(hook).workspace_registry().entries@,
                    final(hook).entities(),
                    extension_entity,
                )
                &&& forall|k: Seq<char>|
                    #[trigger] final(world).panel_registry().sections(k) == despawned_sections(
                        final(hook).panel_registry().sections(k),
                        final(hook).entities(),
                        extension_entity,
                        k,
                    )
            },
{
    match world.take_stored_extension(extension_entity) {
        Some(extension) => {
            let unregister = C::unregister;
            unregister(&extension, world, extension_entity);
        },
        None => {},
    }
    let ghost before = world.entities();
    world.despawn(extension_entity);
    proof {
        law_unload_leaves_nothing_of_the_extension(before, extension_entity);
    }
}

} // verus!
