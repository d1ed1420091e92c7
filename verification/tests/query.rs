use wigame::ComponentTypeId;
use wigame::Query;
use wigame::QueryItem;
use wigame::QueryView;
use wigame::World;

#[derive(Debug, Clone, Copy, PartialEq, Eq)]
enum Comp {
    Foo(i32),
    Bar(i32),
}

fn foo() -> ComponentTypeId {
    ComponentTypeId::of(1)
}

fn bar() -> ComponentTypeId {
    ComponentTypeId::of(2)
}

#[test]
fn query_query() {
    let mut world: World<Comp> = World::new();
    let e1 = world.spawn();
    world.add_component(e1, foo(), Comp::Foo(0));
    world.add_component(e1, bar(), Comp::Bar(0));
    let e2 = world.spawn();
    world.add_component(e2, foo(), Comp::Foo(1));
    let e3 = world.spawn();
    world.add_component(e3, foo(), Comp::Foo(2));
    world.add_component(e3, bar(), Comp::Bar(2));

    for (e, row) in Query::new(vec![QueryView::Write(foo())]).iter(&world) {
        if let QueryItem::Value(Comp::Foo(x)) = row[0] {
            world.add_component(e, foo(), Comp::Foo(x + 1));
        }
    }

    let rows = Query::new(vec![QueryView::Entities, QueryView::Read(foo()), QueryView::TryRead(
        bar(),
    )]).iter(&world);
    assert_eq!(rows.len(), 3);
    assert_eq!(rows[0].1[0], QueryItem::Ent(e1));
    assert_eq!(rows[0].1[1], QueryItem::Value(Comp::Foo(1)));
    assert_eq!(rows[0].1[2], QueryItem::Maybe(Some(Comp::Bar(0))));
    assert_eq!(rows[1].1[0], QueryItem::Ent(e2));
    assert_eq!(rows[1].1[1], QueryItem::Value(Comp::Foo(2)));
    assert_eq!(rows[1].1[2], QueryItem::Maybe(None));
    assert_eq!(rows[2].1[0], QueryItem::Ent(e3));
    assert_eq!(rows[2].1[1], QueryItem::Value(Comp::Foo(3)));
    assert_eq!(rows[2].1[2], QueryItem::Maybe(Some(Comp::Bar(2))));
}

#[test]
fn query_required_pair() {
    // Two required views select exactly the live entities in both stores.
    let mut world: World<Comp> = World::new();
    let e1 = world.spawn();
    world.add_component(e1, foo(), Comp::Foo(1));
    world.add_component(e1, bar(), Comp::Bar(1));
    let e2 = world.spawn();
    world.add_component(e2, foo(), Comp::Foo(2));
    let e3 = world.spawn();
    world.add_component(e3, bar(), Comp::Bar(3));
    let rows = Query::new(vec![QueryView::Read(foo()), QueryView::Read(bar())]).iter(&world);
    assert_eq!(rows.len(), 1);
    assert_eq!(rows[0].0, e1);
}

#[test]
fn query_optional() {
    // An optional view never narrows the selection and yields the component
    // exactly when the entity has it.
    let mut world: World<Comp> = World::new();
    let e1 = world.spawn();
    world.add_component(e1, foo(), Comp::Foo(1));
    let e2 = world.spawn();
    world.add_component(e2, foo(), Comp::Foo(2));
    world.add_component(e2, bar(), Comp::Bar(9));
    let _e3 = world.spawn();
    let rows = Query::new(vec![QueryView::Read(foo()), QueryView::TryRead(bar())]).iter(&world);
    assert_eq!(rows.len(), 2);
    assert_eq!(rows[0].1[1], QueryItem::Maybe(None));
    assert_eq!(rows[1].1[1], QueryItem::Maybe(Some(Comp::Bar(9))));
}

#[test]
fn query_never_inserted_type() {
    // A component type never inserted reads as an empty store: required
    // views produce no rows, optional views add nothing.
    let mut world: World<Comp> = World::new();
    let e1 = world.spawn();
    world.add_component(e1, foo(), Comp::Foo(1));
    let rows = Query::new(vec![QueryView::Read(bar())]).iter(&world);
    assert_eq!(rows.len(), 0);
    let rows = Query::new(vec![QueryView::Read(foo()), QueryView::TryRead(bar())]).iter(&world);
    assert_eq!(rows.len(), 1);
    assert_eq!(rows[0].1[1], QueryItem::Maybe(None));
}

#[test]
fn query_empty_world() {
    let world: World<Comp> = World::new();
    let rows = Query::new(vec![QueryView::Read(foo())]).iter(&world);
    assert!(rows.is_empty());
}
