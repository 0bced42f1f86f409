use jackdaw_api::registries::{PanelExtensionRegistry, Registry, WorkspaceDescriptor};

fn ws(id: &str, name: &str) -> WorkspaceDescriptor {
    WorkspaceDescriptor { id: id.to_string(), name: name.to_string() }
}

#[test]
fn registering_keeps_one_entry_per_id() {
    let mut reg: Registry<WorkspaceDescriptor> = Registry::new();
    reg.register(ws("layout", "Layout"));
    reg.register(ws("sculpt", "Sculpt"));
    reg.register(ws("layout", "Layout v2"));
    assert_eq!(reg.len(), 2);
    assert_eq!(reg.entries[0].name, "Layout v2");
    assert_eq!(reg.entries[1].name, "Sculpt");
    assert!(reg.contains(&"sculpt".to_string()));
    assert_eq!(reg.get(&"layout".to_string()).map(|d| d.name.clone()), Some("Layout v2".to_string()));
}

#[test]
fn unregistering_removes_only_that_id() {
    let mut reg: Registry<WorkspaceDescriptor> = Registry::new();
    reg.register(ws("a", "A"));
    reg.register(ws("b", "B"));
    reg.register(ws("c", "C"));
    reg.unregister(&"b".to_string());
    assert_eq!(reg.len(), 2);
    assert_eq!(reg.entries[0].id, "a");
    assert_eq!(reg.entries[1].id, "c");
    assert!(!reg.contains(&"b".to_string()));
    assert!(reg.get(&"b".to_string()).is_none());
}

#[test]
fn unregistering_an_unknown_id_changes_nothing() {
    let mut reg: Registry<WorkspaceDescriptor> = Registry::new();
    reg.register(ws("a", "A"));
    reg.unregister(&"zzz".to_string());
    assert_eq!(reg.len(), 1);
    assert_eq!(reg.position(&"a".to_string()), Some(0));
    assert_eq!(reg.position(&"zzz".to_string()), None);
}

#[test]
fn panel_sections_are_kept_per_panel_in_order() {
    let mut reg: PanelExtensionRegistry<u32> = PanelExtensionRegistry::new();
    assert!(reg.get(&"inspector".to_string()).is_empty());
    reg.add("inspector".to_string(), 10);
    reg.add("hierarchy".to_string(), 20);
    reg.add("inspector".to_string(), 11);
    assert_eq!(reg.get(&"inspector".to_string()), &[10, 11]);
    assert_eq!(reg.get(&"hierarchy".to_string()), &[20]);
    assert!(reg.get(&"outliner".to_string()).is_empty());
}
