//! The editor's built-in extension.
use vstd::prelude::*;
use crate::context::{ExtensionContext, JackdawExtension, NamedExtension};

verus! {

/// Whether an extension ships with the editor or is loaded from outside.
#[derive(Clone, Copy, Debug, PartialEq, Eq, Structural)]
pub enum ExtensionKind {
    Builtin,
    External,
}

/// The extension that carries the editor's own operators.
#[derive(Default)]
pub struct JackdawCoreExtension;

impl JackdawCoreExtension {
    /// The core extension ships with the editor.
    pub fn kind() -> (k: ExtensionKind)
        ensures
            k == ExtensionKind::Builtin,
    {
        ExtensionKind::Builtin
    }
}

impl NamedExtension for JackdawCoreExtension {
    fn name(&self) -> (r: &str)
        ensures
            r@ == "Jackdaw Core Extension"@,
    {
        "Jackdaw Core Extension"
    }
}

impl<C> JackdawExtension<C> for JackdawCoreExtension {

    /// Registers nothing yet.
    fn register(&self, ctx: &mut ExtensionContext<'_, C>)
        ensures
            *final(ctx) == *old(ctx),
    {
    }
}

} // verus!
