//! Verified core of the Jackdaw editor's extension API.
//!
//! Extensions are entities: an extension entity holds an [`Extension`]
//! component, and every registration (operators, windows, workspaces, panel
//! sections, menu entries) spawns a child entity under it. Unloading an
//! extension despawns its entity, which takes every child along, and the
//! registry entries and panel sections that went with their markers are
//! dropped.
//!
//! The library keeps, as plain values, the part of the editor world that
//! extensions touch ([`ExtensionWorld`]); the host keeps it as an engine
//! resource. The engine's own world cannot stand here: its components are
//! declared through engine derives, which verified code cannot use.
//! It also triangulates brush geometry for the collider preview ([`mesh`])
//! and plans the preview's per-frame sync ([`collider_sync`]).
pub mod collider_sync;
pub mod components;
pub mod context;
pub mod core_extension;
pub mod laws;
pub mod mesh;
pub mod prelude;
pub mod registries;
pub mod seq_facts;
pub mod world;

pub use components::{
    Component, EntityId, EntityRecord, Extension, OperatorEntity, OperatorObserver,
    RegisteredMenuEntry, RegisteredPanelExtension, RegisteredWindow, RegisteredWorkspace, Trigger,
};
pub use context::{
    ExtensionContext, ExtensionPoint, HierarchyWindow, InspectorWindow, JackdawExtension,
    MenuEntryDescriptor, NamedExtension, Operator, PanelContext, WindowDescriptor,
    load_static_extension, unload_extension,
};
pub use registries::{
    DockWindowDescriptor, PanelExtensionRegistry, WindowRegistry, WorkspaceDescriptor,
    WorkspaceRegistry,
};
pub use world::ExtensionWorld;
