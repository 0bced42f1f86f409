//! Entities and the components that extensions give them.
//!
//! An extension is an entity holding an [`Extension`] component; every
//! registration it makes spawns a child entity under it carrying a marker
//! that says what was registered.
use vstd::prelude::*;

verus! {

/// Identifier of an entity in the editor world.
#[derive(Clone, Copy, Debug, PartialEq, Eq, Hash, Structural)]
pub struct EntityId {
    pub bits: u64,
}

/// Marks an extension's root entity.
pub struct Extension {
    pub name: String,
}

/// Marks a dock window an extension registered.
pub struct RegisteredWindow {
    pub id: String,
}

/// Marks a workspace an extension registered.
pub struct RegisteredWorkspace {
    pub id: String,
}

/// A menu bar entry an extension contributed.
pub struct RegisteredMenuEntry {
    /// Top-level menu name (`"Add"`, `"Tools"`, ...).
    pub menu: String,
    /// Text shown on the menu item.
    pub label: String,
    /// Operator dispatched when the entry is clicked.
    pub operator_id: &'static str,
}

/// A section an extension injected into an existing panel: the panel's id
/// and the position of the section in that panel's list.
pub struct RegisteredPanelExtension {
    pub panel_id: String,
    pub section_index: usize,
}

/// When an operator runs in answer to its input action.
#[derive(Clone, Copy, Debug, PartialEq, Eq, Structural)]
pub enum Trigger {
    /// When the action starts.
    Start,
    /// Each time the action fires.
    Fire,
    /// When the action completes.
    Complete,
    /// Never by input: the operator is dispatched by id (menu, button).
    Manual,
}

/// A registered operator: its identity and the systems that run it.
pub struct OperatorEntity<C> {
    pub id: &'static str,
    pub label: &'static str,
    pub description: &'static str,
    pub execute: C,
    pub invoke: C,
    pub poll: C,
    pub modal: bool,
}

/// An observer that dispatches an operator when its input action reaches
/// the given trigger.
pub struct OperatorObserver {
    pub operator_id: &'static str,
    pub trigger: Trigger,
}

/// What an entity of the editor world carries.
pub enum Component<C> {
    /// An extension's root: its marker and, once loaded, the extension
    /// object itself, kept so that unloading can call its `unregister`.
    Extension(Extension, Option<C>),
    Window(RegisteredWindow),
    Workspace(RegisteredWorkspace),
    MenuEntry(RegisteredMenuEntry),
    PanelExtension(RegisteredPanelExtension),
    Operator(OperatorEntity<C>),
    OperatorObserver(OperatorObserver),
    /// Whatever an extension spawned through its context.
    Bundle(C),
}

/// One entity: its id, its parent if it is a child, and its component.
pub struct EntityRecord<C> {
    pub entity: EntityId,
    pub parent: Option<EntityId>,
    pub component: Component<C>,
}

/// The window id a component marks as registered, if it is a window marker.
pub open spec fn window_marker<C>(c: Component<C>) -> Option<Seq<char>> {
    match c {
        Component::Window(w) => Some(w.id@),
        _ => None,
    }
}

/// The panel and position a component marks as an injected section, if it
/// is a panel-extension marker.
pub open spec fn section_marker<C>(c: Component<C>) -> Option<(Seq<char>, int)> {
    match c {
        Component::PanelExtension(m) => Some((m.panel_id@, m.section_index as int)),
        _ => None,
    }
}

/// The panel a panel-extension marker names.
pub open spec fn section_panel<C>(c: Component<C>) -> Seq<char> {
    match c {
        Component::PanelExtension(m) => m.panel_id@,
        _ => Seq::empty(),
    }
}

/// The section position a panel-extension marker names.
pub open spec fn section_index_of<C>(c: Component<C>) -> int {
    match c {
        Component::PanelExtension(m) => m.section_index as int,
        _ => 0,
    }
}

/// The workspace id a component marks as registered, if it is a workspace
/// marker.
pub open spec fn workspace_marker<C>(c: Component<C>) -> Option<Seq<char>> {
    match c {
        Component::Workspace(w) => Some(w.id@),
        _ => None,
    }
}

} // verus!
