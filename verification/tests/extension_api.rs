use jackdaw_api::context::{spawn_extension, unload_extension, DEFAULT_WINDOW_PRIORITY};
use jackdaw_api::core_extension::{ExtensionKind, JackdawCoreExtension};
use jackdaw_api::registries::DockWindowDescriptor;
use jackdaw_api::{
    load_static_extension, Component, EntityId, ExtensionContext, ExtensionPoint, ExtensionWorld,
    HierarchyWindow, InspectorWindow, JackdawExtension, MenuEntryDescriptor, NamedExtension,
    Operator, PanelContext, Trigger, WindowDescriptor, WorkspaceDescriptor,
};

/// What the tests attach to registrations: plain numbers, or an extension.
#[derive(Clone, Copy, Debug, PartialEq)]
enum Item {
    Empty,
    Num(u32),
    Sample,
    Cleaner,
}

struct PlaceCube;

impl Operator<Item> for PlaceCube {
    const ID: &'static str = "sample.place_cube";
    const LABEL: &'static str = "Place Cube";
    const DESCRIPTION: &'static str = "Places a cube";
    const MODAL: bool = false;
    const TRIGGER: Trigger = Trigger::Start;
    fn register_execute() -> Item {
        Item::Num(1)
    }
    fn register_invoke() -> Item {
        Item::Num(2)
    }
    fn register_poll() -> Item {
        Item::Num(3)
    }
}

struct OpenMenu;

impl Operator<Item> for OpenMenu {
    const ID: &'static str = "sample.open_menu";
    const LABEL: &'static str = "Open Menu";
    const DESCRIPTION: &'static str = "";
    const MODAL: bool = true;
    const TRIGGER: Trigger = Trigger::Manual;
    fn register_execute() -> Item {
        Item::Num(4)
    }
    fn register_invoke() -> Item {
        Item::Num(5)
    }
    fn register_poll() -> Item {
        Item::Num(6)
    }
}

fn window(id: &str) -> WindowDescriptor<Item> {
    WindowDescriptor {
        id: id.to_string(),
        name: format!("{} window", id),
        icon: None,
        default_area: None,
        priority: None,
        build: Item::Num(42),
    }
}

impl NamedExtension for Item {
    fn name(&self) -> &str {
        match self {
            Item::Sample => "Sample Plugin",
            Item::Cleaner => "Cleaner",
            _ => "",
        }
    }
}

impl JackdawExtension<Item> for Item {
    fn register(&self, ctx: &mut ExtensionContext<'_, Item>) {
        match self {
            Item::Sample => {
                ctx.register_operator::<PlaceCube>();
                ctx.register_window(window("sample.viewer"));
                ctx.register_workspace(WorkspaceDescriptor {
                    id: "sample.layout".to_string(),
                    name: "Sample".to_string(),
                });
                ctx.extend_window::<InspectorWindow>(Item::Num(7));
                ctx.register_menu_entry(MenuEntryDescriptor {
                    menu: "Add".to_string(),
                    label: "Cube".to_string(),
                    operator_id: PlaceCube::ID,
                });
                let child = ctx.spawn(Item::Num(99));
                assert_eq!(child, EntityId { bits: ctx.entity().bits + 7 });
            }
            Item::Cleaner => {
                ctx.spawn(Item::Num(1));
            }
            _ => {}
        }
    }

    fn unregister(&self, world: &mut ExtensionWorld<Item>, _extension_entity: EntityId) {
        if *self == Item::Cleaner {
            world.register_workspace(WorkspaceDescriptor {
                id: "cleaner.was_here".to_string(),
                name: "Cleaner".to_string(),
            });
        }
    }
}

fn loaded_world() -> (ExtensionWorld<Item>, EntityId) {
    let mut world: ExtensionWorld<Item> = ExtensionWorld::new();
    let ext = load_static_extension(&mut world, Item::Sample);
    (world, ext)
}

#[test]
fn load_spawns_the_extension_entity_first() {
    let (world, ext) = loaded_world();
    assert_eq!(ext, EntityId { bits: 0 });
    match &world.get(ext).expect("extension entity exists").component {
        Component::Extension(e, stored) => {
            assert_eq!(e.name, "Sample Plugin");
            assert_eq!(*stored, Some(Item::Sample));
        }
        _ => panic!("expected the extension marker"),
    }
}

#[test]
fn every_registration_is_a_child_of_the_extension() {
    let (world, ext) = loaded_world();
    let children = world.children(ext);
    // operator, window, workspace, panel section, menu entry, spawned bundle
    assert_eq!(children.len(), 6);
    assert_eq!(world.records().len(), 8);
}

#[test]
fn operator_with_start_trigger_gets_an_observer() {
    let (world, ext) = loaded_world();
    let op = world.children(ext)[0];
    match &world.get(op).unwrap().component {
        Component::Operator(o) => {
            assert_eq!(o.id, "sample.place_cube");
            assert_eq!(o.label, "Place Cube");
            assert_eq!(o.description, "Places a cube");
            assert_eq!((o.execute, o.invoke, o.poll), (Item::Num(1), Item::Num(2), Item::Num(3)));
            assert!(!o.modal);
        }
        _ => panic!("expected the operator"),
    }
    let observers = world.children(op);
    assert_eq!(observers.len(), 1);
    match &world.get(observers[0]).unwrap().component {
        Component::OperatorObserver(obs) => {
            assert_eq!(obs.operator_id, "sample.place_cube");
            assert_eq!(obs.trigger, Trigger::Start);
        }
        _ => panic!("expected the observer"),
    }
}

#[test]
fn manual_operator_gets_no_observer() {
    let mut world: ExtensionWorld<Item> = ExtensionWorld::new();
    let ext = spawn_extension(&mut world, "Manual".to_string());
    {
        let mut ctx = ExtensionContext::new(&mut world, ext);
        ctx.register_operator::<OpenMenu>();
    }
    let ops = world.children(ext);
    assert_eq!(ops.len(), 1);
    assert!(world.children(ops[0]).is_empty());
    assert_eq!(world.next_entity(), 2);
    match &world.get(ops[0]).unwrap().component {
        Component::Operator(o) => {
            assert_eq!((o.execute, o.invoke, o.poll), (Item::Num(4), Item::Num(5), Item::Num(6)));
            assert!(o.modal);
        }
        _ => panic!("expected the operator"),
    }
}

#[test]
fn window_gets_default_area_and_priority() {
    let (world, _) = loaded_world();
    let dock: &DockWindowDescriptor<Item> =
        world.windows().get(&"sample.viewer".to_string()).expect("window registered");
    assert_eq!(dock.name, "sample.viewer window");
    assert_eq!(dock.default_area, "");
    assert_eq!(dock.priority, DEFAULT_WINDOW_PRIORITY);
    assert_eq!(dock.priority, 100);
    assert_eq!(dock.icon, None);
    assert_eq!(dock.build, Item::Num(42));
}

#[test]
fn window_keeps_given_area_and_priority() {
    let mut world: ExtensionWorld<Item> = ExtensionWorld::new();
    let ext = spawn_extension(&mut world, "Builtin".to_string());
    {
        let mut ctx = ExtensionContext::new(&mut world, ext);
        let mut d = window("jackdaw.outliner");
        d.default_area = Some("left".to_string());
        d.priority = Some(5);
        d.icon = Some("tree".to_string());
        ctx.register_window(d);
    }
    let dock = world.windows().get(&"jackdaw.outliner".to_string()).unwrap();
    assert_eq!(dock.default_area, "left");
    assert_eq!(dock.priority, 5);
    assert_eq!(dock.icon.as_deref(), Some("tree"));
}

#[test]
fn panel_section_index_is_its_position_in_the_panel() {
    let mut world: ExtensionWorld<Item> = ExtensionWorld::new();
    let ext = spawn_extension(&mut world, "Panels".to_string());
    {
        let mut ctx = ExtensionContext::new(&mut world, ext);
        ctx.extend_window::<InspectorWindow>(Item::Num(1));
        ctx.extend_window::<HierarchyWindow>(Item::Num(2));
        ctx.extend_window::<InspectorWindow>(Item::Num(3));
    }
    let markers = world.children(ext);
    let expected = [
        ("jackdaw.inspector.components", 0usize),
        ("jackdaw.hierarchy", 0usize),
        ("jackdaw.inspector.components", 1usize),
    ];
    for (m, (panel, index)) in markers.iter().zip(expected.iter()) {
        match &world.get(*m).unwrap().component {
            Component::PanelExtension(p) => {
                assert_eq!(p.panel_id, *panel);
                assert_eq!(p.section_index, *index);
                let sections = world.panel_extensions().get(&p.panel_id);
                assert!(p.section_index < sections.len());
            }
            _ => panic!("expected a panel extension marker"),
        }
    }
    assert_eq!(
        world.panel_extensions().get(&InspectorWindow::ID.to_string()),
        &[Item::Num(1), Item::Num(3)]
    );
}

#[test]
fn menu_entry_records_menu_label_and_operator() {
    let (world, ext) = loaded_world();
    let entry = world.children(ext)[4];
    match &world.get(entry).unwrap().component {
        Component::MenuEntry(m) => {
            assert_eq!(m.menu, "Add");
            assert_eq!(m.label, "Cube");
            assert_eq!(m.operator_id, "sample.place_cube");
        }
        _ => panic!("expected the menu entry"),
    }
}

#[test]
fn unloading_removes_everything_the_extension_registered() {
    let (mut world, ext) = loaded_world();
    assert!(world.windows().contains(&"sample.viewer".to_string()));
    assert!(world.workspaces().contains(&"sample.layout".to_string()));
    world.despawn(ext);
    assert!(world.records().is_empty());
    assert!(!world.contains(ext));
    assert!(!world.windows().contains(&"sample.viewer".to_string()));
    assert!(!world.workspaces().contains(&"sample.layout".to_string()));
    // the injected section goes with its marker
    assert!(world.panel_extensions().get(&InspectorWindow::ID.to_string()).is_empty());
}

#[test]
fn unloading_drops_only_the_sections_the_extension_injected() {
    let mut world: ExtensionWorld<Item> = ExtensionWorld::new();
    let first = spawn_extension(&mut world, "First".to_string());
    let second = spawn_extension(&mut world, "Second".to_string());
    {
        let mut ctx = ExtensionContext::new(&mut world, first);
        ctx.extend_window::<InspectorWindow>(Item::Num(1));
    }
    {
        let mut ctx = ExtensionContext::new(&mut world, second);
        ctx.extend_window::<InspectorWindow>(Item::Num(2));
        ctx.extend_window::<HierarchyWindow>(Item::Num(3));
    }
    {
        let mut ctx = ExtensionContext::new(&mut world, first);
        ctx.extend_window::<InspectorWindow>(Item::Num(4));
        ctx.extend_window::<HierarchyWindow>(Item::Num(5));
    }
    world.despawn(first);
    assert_eq!(
        world.panel_extensions().get(&InspectorWindow::ID.to_string()),
        &[Item::Num(2)]
    );
    assert_eq!(
        world.panel_extensions().get(&HierarchyWindow::ID.to_string()),
        &[Item::Num(3)]
    );
    assert!(world.contains(second));
}

#[test]
fn unload_extension_calls_unregister_then_despawns() {
    let mut world: ExtensionWorld<Item> = ExtensionWorld::new();
    let cleaner = load_static_extension(&mut world, Item::Cleaner);
    let sample = load_static_extension(&mut world, Item::Sample);
    assert_eq!(world.records().len(), 2 + 8);
    unload_extension(&mut world, cleaner);
    assert!(!world.contains(cleaner));
    assert!(world.contains(sample));
    assert_eq!(world.records().len(), 8);
    // the cleaner's own unregister ran
    assert!(world.workspaces().contains(&"cleaner.was_here".to_string()));
    unload_extension(&mut world, sample);
    assert!(world.records().is_empty());
    assert!(!world.windows().contains(&"sample.viewer".to_string()));
}

#[test]
fn take_stored_extension_leaves_the_marker() {
    let (mut world, ext) = loaded_world();
    assert_eq!(world.take_stored_extension(ext), Some(Item::Sample));
    assert_eq!(world.take_stored_extension(ext), None);
    match &world.get(ext).unwrap().component {
        Component::Extension(e, stored) => {
            assert_eq!(e.name, "Sample Plugin");
            assert!(stored.is_none());
        }
        _ => panic!("expected the extension marker"),
    }
}

#[test]
fn unloading_one_extension_leaves_the_others() {
    let mut world: ExtensionWorld<Item> = ExtensionWorld::new();
    let first = load_static_extension(&mut world, Item::Sample);
    let other = spawn_extension(&mut world, "Other".to_string());
    {
        let mut ctx = ExtensionContext::new(&mut world, other);
        ctx.register_window(window("other.window"));
        ctx.spawn(Item::Num(5));
    }
    world.despawn(first);
    assert_eq!(world.records().len(), 3);
    assert!(world.contains(other));
    assert_eq!(world.children(other).len(), 2);
    assert!(world.windows().contains(&"other.window".to_string()));
    assert!(!world.windows().contains(&"sample.viewer".to_string()));
}

#[test]
fn unloading_twice_is_unloading_once() {
    let (mut world, ext) = loaded_world();
    let other = spawn_extension(&mut world, "Other".to_string());
    world.despawn(ext);
    let after_once = world.records().len();
    world.despawn(ext);
    assert_eq!(world.records().len(), after_once);
    assert!(world.contains(other));
}

#[test]
fn despawning_a_child_keeps_its_parent() {
    let (mut world, ext) = loaded_world();
    let op = world.children(ext)[0];
    world.despawn(op);
    assert!(world.contains(ext));
    assert_eq!(world.children(ext).len(), 5);
    assert_eq!(world.records().len(), 6);
}

#[test]
fn loading_the_core_extension_and_unloading_it_restores_the_world() {
    let mut world: ExtensionWorld<JackdawCoreExtension> = ExtensionWorld::new();
    let ext = load_static_extension(&mut world, JackdawCoreExtension);
    assert_eq!(world.records().len(), 1);
    match &world.get(ext).unwrap().component {
        Component::Extension(e, stored) => {
            assert_eq!(e.name, "Jackdaw Core Extension");
            assert!(stored.is_some());
        }
        _ => panic!("expected the extension marker"),
    }
    unload_extension(&mut world, ext);
    assert!(world.records().is_empty());
    assert_eq!(world.windows().len(), 0);
}

#[test]
fn window_registration_is_undone_by_unload() {
    let mut world: ExtensionWorld<Item> = ExtensionWorld::new();
    let ext = spawn_extension(&mut world, "W".to_string());
    world.register_dock_window(DockWindowDescriptor {
        id: "kept".to_string(),
        name: "Kept".to_string(),
        icon: None,
        default_area: String::new(),
        priority: 1,
        build: Item::Empty,
    });
    {
        let mut ctx = ExtensionContext::new(&mut world, ext);
        ctx.register_window(window("temporary"));
    }
    assert_eq!(world.windows().len(), 2);
    world.despawn(ext);
    assert_eq!(world.windows().len(), 1);
    assert_eq!(world.windows().entries[0].id, "kept");
}

#[test]
fn extension_points_have_their_panel_ids() {
    assert_eq!(InspectorWindow::ID, "jackdaw.inspector.components");
    assert_eq!(HierarchyWindow::ID, "jackdaw.hierarchy");
}

#[test]
fn window_descriptor_default_is_empty() {
    let d: WindowDescriptor<u32> = WindowDescriptor::default();
    assert!(d.id.is_empty());
    assert!(d.name.is_empty());
    assert!(d.icon.is_none() && d.default_area.is_none() && d.priority.is_none());
    assert_eq!(d.build, 0);
}

#[test]
fn core_extension_is_named() {
    let core = JackdawCoreExtension;
    assert_eq!(NamedExtension::name(&core), "Jackdaw Core Extension");
}

#[test]
fn context_exposes_its_entity_and_world() {
    let mut world: ExtensionWorld<Item> = ExtensionWorld::new();
    let ext = spawn_extension(&mut world, "Ctx".to_string());
    let mut ctx = ExtensionContext::new(&mut world, ext);
    assert_eq!(ctx.entity(), ext);
    assert_eq!(ctx.world().records().len(), 1);
    let panel = PanelContext { window_id: "w".to_string(), panel_entity: ext };
    assert_eq!(panel.panel_entity, ext);
}

#[test]
fn registering_under_a_missing_extension_spawns_without_parent() {
    let mut world: ExtensionWorld<Item> = ExtensionWorld::new();
    let missing = EntityId { bits: 40 };
    {
        let mut ctx = ExtensionContext::new(&mut world, missing);
        ctx.spawn(Item::Num(1));
        ctx.register_menu_entry(MenuEntryDescriptor {
            menu: "Tools".to_string(),
            label: "Orphan".to_string(),
            operator_id: "none",
        });
    }
    assert_eq!(world.records().len(), 2);
    assert_eq!(world.records()[0].parent, None);
    assert_eq!(world.records()[1].parent, None);
    assert!(world.children(missing).is_empty());
}

#[test]
fn core_extension_is_builtin() {
    assert_eq!(JackdawCoreExtension::kind(), ExtensionKind::Builtin);
}
