//! What extension authors want in one import.
pub use crate::components::{EntityId, Extension, OperatorEntity, Trigger};
pub use crate::context::{
    ExtensionContext, ExtensionPoint, JackdawExtension, MenuEntryDescriptor, NamedExtension,
    Operator, PanelContext, WindowDescriptor,
};
