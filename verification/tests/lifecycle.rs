use wigame::ComponentTypeId;
use wigame::Query;
use wigame::QueryItem;
use wigame::QueryView;
use wigame::World;

#[derive(Debug, Clone, Copy, PartialEq, Eq)]
enum Comp {
    Foo(i32),
    Bar(i32),
}

fn foo() -> ComponentTypeId {
    ComponentTypeId::of(1)
}

fn bar() -> ComponentTypeId {
    ComponentTypeId::of(2)
}

fn spawn_three(world: &mut World<Comp>) -> (wigame::Entity, wigame::Entity, wigame::Entity) {
    let e1 = world.spawn();
    world.add_component(e1, foo(), Comp::Foo(0));
    world.add_component(e1, bar(), Comp::Bar(1));
    let e2 = world.spawn();
    world.add_component(e2, foo(), Comp::Foo(0));
    let e3 = world.spawn();
    world.add_component(e3, foo(), Comp::Foo(0));
    world.add_component(e3, bar(), Comp::Bar(2));
    (e1, e2, e3)
}

#[test]
fn basic_lifecycle() {
    let mut world: World<Comp> = World::new();
    spawn_three(&mut world);
    let rows = Query::new(vec![QueryView::Read(foo()), QueryView::TryRead(bar())]).iter(&world);
    assert_eq!(rows.len(), 3);
    assert_eq!(rows[0].1[0], QueryItem::Value(Comp::Foo(0)));
    assert_eq!(rows[0].1[1], QueryItem::Maybe(Some(Comp::Bar(1))));
    assert_eq!(rows[1].1[0], QueryItem::Value(Comp::Foo(0)));
    assert_eq!(rows[1].1[1], QueryItem::Maybe(None));
    assert_eq!(rows[2].1[0], QueryItem::Value(Comp::Foo(0)));
    assert_eq!(rows[2].1[1], QueryItem::Maybe(Some(Comp::Bar(2))));
}

#[test]
fn write_and_read() {
    let mut world: World<Comp> = World::new();
    spawn_three(&mut world);
    for (e, row) in Query::new(vec![QueryView::Write(foo())]).iter(&world) {
        if let QueryItem::Value(Comp::Foo(x)) = row[0] {
            world.add_component(e, foo(), Comp::Foo(x + 1));
        }
    }
    let rows = Query::new(vec![QueryView::Read(foo())]).iter(&world);
    assert_eq!(rows.len(), 3);
    for (_e, row) in rows {
        assert_eq!(row[0], QueryItem::Value(Comp::Foo(1)));
    }
}

#[test]
fn despawn_cascade() {
    let mut world: World<Comp> = World::new();
    let (_e1, e2, _e3) = spawn_three(&mut world);
    world.despawn(e2);
    let rows = Query::new(vec![QueryView::Read(foo())]).iter(&world);
    assert_eq!(rows.len(), 2);
    assert!(!world.is_live(e2));
    let bits = world.components.get_bitset(foo()).unwrap();
    assert_eq!(bits.len(), 2);
}

#[test]
fn generation_reuse() {
    let mut world: World<Comp> = World::new();
    let (_e1, e2, _e3) = spawn_three(&mut world);
    world.despawn(e2);
    let e4 = world.spawn();
    assert_eq!(e4.id(), e2.id());
    assert_eq!(e4.generation(), e2.generation() + 1);
    // The stale entity is a no-op everywhere.
    world.add_component(e2, bar(), Comp::Bar(9));
    assert!(world.get_component(bar(), e2).is_none());
    assert!(world.get_component(bar(), e4).is_none());
    world.despawn(e2);
    assert!(world.is_live(e4));
}

#[test]
fn component_round_trip() {
    // An added component reads back as the stored value until overwritten.
    let mut world: World<Comp> = World::new();
    let e = world.spawn();
    world.add_component(e, foo(), Comp::Foo(41));
    assert!(matches!(world.get_component(foo(), e), Some(&Comp::Foo(41))));
    world.add_component(e, foo(), Comp::Foo(42));
    assert!(matches!(world.get_component(foo(), e), Some(&Comp::Foo(42))));
}

#[test]
fn despawn_cleans() {
    // After a despawn no store holds a row for the entity.
    let mut world: World<Comp> = World::new();
    let (e1, _e2, _e3) = spawn_three(&mut world);
    world.despawn(e1);
    assert!(world.get_component(foo(), e1).is_none());
    assert!(world.get_component(bar(), e1).is_none());
    assert!(!world.components.get_bitset(foo()).unwrap().contains(e1.id()));
    assert!(!world.components.get_bitset(bar()).unwrap().contains(e1.id()));
}

#[test]
fn remove_component_is_symmetric() {
    let mut world: World<Comp> = World::new();
    let e = world.spawn();
    world.add_component(e, foo(), Comp::Foo(1));
    world.remove_commponent(e, foo());
    assert!(world.get_component(foo(), e).is_none());
    // Removing an absent row is a no-op.
    world.remove_commponent(e, foo());
    assert!(world.is_live(e));
}

#[test]
fn live_entities_unique() {
    // No two live entities ever share an index: recycling bumps the
    // generation first.
    let mut world: World<Comp> = World::new();
    let e1 = world.spawn();
    world.despawn(e1);
    let e2 = world.spawn();
    assert_eq!(e1.id(), e2.id());
    assert!(world.is_live(e2));
    assert!(!world.is_live(e1));
    assert_ne!(e1.generation(), e2.generation());
}
