# jackdaw_api

The extension API of the Jackdaw editor, verified with Verus.

Extensions are entities: an extension's root entity carries an `Extension`
component and every registration it makes (operators, dock windows,
workspaces, panel sections, menu entries, spawned bundles) is a child entity
under it. Unloading an extension despawns its root, which takes every
descendant along and drops the window and workspace registrations and the
panel sections whose markers went with it.

Layout:

- `src/components.rs` – entity ids and the components extensions give them.
- `src/registries.rs` – window and workspace registries (one entry per id),
  panel-section registry (sections per panel, in order).
- `src/world.rs` – `ExtensionWorld`: entities in spawn order with parent links,
  plus the registries; `spawn` and the cascading `despawn`, which also drops
  the window and workspace registrations and panel sections whose markers go. Its
  well-formedness is a type invariant. The engine's own world cannot be driven
  from verified code, since its components are declared through engine
  derives, so the part of it that extensions touch is kept here as plain
  values.
- `src/context.rs` – `ExtensionContext` and its registration methods,
  `load_static_extension` (which stores the extension object on its root),
  `unload_extension`, the author-facing traits.
- `src/core_extension.rs` – the built-in extension.
- `src/mesh.rs` – fan triangulation of brush faces.
- `src/collider_sync.rs` – what the collider preview sync does each frame.
- `src/laws.rs` – properties across operations: unload removes exactly the
  extension's subtree and is idempotent; whatever a registration spawns lies
  under its extension; unload undoes an empty load, a window registration
  with a fresh id and a section injection; section indices locate their
  sections; triangulation counts and index ranges.
- `app/` – engine glue: the extension world as an engine resource, loading
  and unloading, a helper that spawns an operator's input observer, and the
  physics plugin that applies the collider sync.
