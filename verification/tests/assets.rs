use wigame::AssetDaemon;
use wigame::AssetEvent;
use wigame::Events;
use wigame::HandleId;

#[derive(Debug, Clone, Copy, PartialEq, Eq)]
struct Shape(i32);

#[test]
fn asset_add_get_remove() {
    let daemon = AssetDaemon::new();
    let mut assets = daemon.register_asset::<Shape>(7);
    let handle = assets.add(Shape(42));
    assert!(handle.is_strong());
    assert!(assets.has(handle.id));
    assert_eq!(assets.get(handle.id), Some(&Shape(42)));
    assert_eq!(assets.remove(handle.id), Some(Shape(42)));
    assert!(!assets.has(handle.id));
    handle.release();
}

#[test]
fn asset_set_replaces() {
    let daemon = AssetDaemon::new();
    let mut assets = daemon.register_asset::<Shape>(7);
    let id = HandleId::new(7, 11);
    let h1 = assets.set(id, Shape(1));
    let h2 = assets.set(id, Shape(2));
    assert_eq!(h1.id, h2.id);
    assert_eq!(assets.get(id), Some(&Shape(2)));
    h1.release();
    h2.release();
}

#[test]
fn handle_modes() {
    let daemon = AssetDaemon::new();
    let mut assets = daemon.register_asset::<Shape>(3);
    let strong = assets.add(Shape(1));
    assert!(strong.is_strong());
    assert!(!strong.is_weak());
    let weak = strong.close_weak();
    assert!(weak.is_weak());
    assert_eq!(weak.id, strong.id);
    let copy = strong.clone_handle();
    assert!(copy.is_strong());
    assert_eq!(copy.id, strong.id);
    copy.release();
    strong.release();
}

#[test]
fn daemon_refcount_free() {
    // When the last strong handle goes away the daemon frees the asset on
    // its next sweep.
    let mut daemon = AssetDaemon::new();
    let mut assets = daemon.register_asset::<Shape>(7);
    let handle = assets.add(Shape(5));
    let id = handle.id;
    let copy = handle.clone_handle();
    handle.release();
    daemon.free_unused_assets();
    daemon.update_asset_storage(&mut assets);
    // One strong handle remains: the asset stays.
    assert!(assets.has(id));
    copy.release();
    daemon.free_unused_assets();
    daemon.update_asset_storage(&mut assets);
    assert!(!assets.has(id));
}

#[test]
fn daemon_keeps_other_types_queued() {
    let mut daemon = AssetDaemon::new();
    let mut shapes = daemon.register_asset::<Shape>(7);
    let mut others = daemon.register_asset::<Shape>(8);
    let h_shape = shapes.add(Shape(1));
    let h_other = others.add(Shape(2));
    let (shape_id, other_id) = (h_shape.id, h_other.id);
    h_shape.release();
    h_other.release();
    daemon.free_unused_assets();
    daemon.update_asset_storage(&mut shapes);
    assert!(!shapes.has(shape_id));
    // The other type's free notice was not consumed by the wrong store.
    assert!(others.has(other_id));
    daemon.update_asset_storage(&mut others);
    assert!(!others.has(other_id));
}

#[test]
fn asset_events() {
    let daemon = AssetDaemon::new();
    let mut assets = daemon.register_asset::<Shape>(7);
    let mut bus: Events<AssetEvent<Shape>> = Events::default();

    let id = HandleId::new(7, 1);
    let h1 = assets.set(id, Shape(1));
    let h2 = assets.set(id, Shape(2));
    assets.remove(id);
    assets.update_events(&mut bus);

    let mut kinds: Vec<&'static str> = Vec::new();
    let mut ids: Vec<HandleId> = Vec::new();
    for ev in bus.drain() {
        match ev {
            AssetEvent::Created { handle } => {
                kinds.push("created");
                ids.push(handle.id);
            },
            AssetEvent::Modified { handle } => {
                kinds.push("modified");
                ids.push(handle.id);
            },
            AssetEvent::Removed { handle } => {
                kinds.push("removed");
                ids.push(handle.id);
            },
        }
    }
    assert_eq!(kinds, vec!["created", "modified", "removed"]);
    assert_eq!(ids, vec![id, id, id]);
    h1.release();
    h2.release();
}
