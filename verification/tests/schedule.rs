use wigame::CommandBuffer;
use wigame::ComponentTypeId;
use wigame::Query;
use wigame::QueryItem;
use wigame::QueryView;
use wigame::Resources;
use wigame::Schedule;
use wigame::Stage;
use wigame::StageLabel;
use wigame::System;
use wigame::World;

#[derive(Debug, Clone, Copy, PartialEq, Eq)]
enum Comp {
    Foo(i32),
    Bar(i32),
}

fn foo() -> ComponentTypeId {
    ComponentTypeId::of(1)
}

fn bar() -> ComponentTypeId {
    ComponentTypeId::of(2)
}

enum Sys {
    Startup,
    AddBarIntoFoo,
    DespawnWithoutBar,
}

impl System<Comp, ()> for Sys {
    fn run(
        &mut self,
        world: &mut World<Comp>,
        commands: &mut CommandBuffer<Comp>,
        _resources: &mut Resources<()>,
    ) {
        match self {
            Sys::Startup => {
                let e1 = commands.spawn(world);
                commands.add_component(e1, foo(), Comp::Foo(0));
                commands.add_component(e1, bar(), Comp::Bar(0));
                let e2 = commands.spawn(world);
                commands.add_component(e2, foo(), Comp::Foo(1));
                let e3 = commands.spawn(world);
                commands.add_component(e3, foo(), Comp::Foo(2));
                commands.add_component(e3, bar(), Comp::Bar(2));
            },
            Sys::AddBarIntoFoo => {
                for (e, row) in Query::new(vec![QueryView::Write(foo()), QueryView::Read(bar())])
                    .iter(world)
                {
                    if let (QueryItem::Value(Comp::Foo(f)), QueryItem::Value(Comp::Bar(b))) = (
                        row[0],
                        row[1],
                    ) {
                        commands.add_component(e, foo(), Comp::Foo(f + b));
                    }
                }
            },
            Sys::DespawnWithoutBar => {
                for (e, row) in Query::new(vec![QueryView::Entities, QueryView::TryRead(bar())])
                    .iter(world)
                {
                    if row[1] == QueryItem::Maybe(None) {
                        commands.despawn(e);
                    }
                }
            },
        }
    }
}

#[test]
fn schedule() {
    let mut world: World<Comp> = World::new();
    let mut resources: Resources<()> = Resources::new();
    let mut schedule: Schedule<Comp, (), Sys> = Schedule::new();

    schedule.add_stage(StageLabel::Custom(1), Stage::sequence());
    schedule.add_stage(StageLabel::Custom(2), Stage::sequence());
    schedule.add_stage_after(StageLabel::Custom(2), StageLabel::Custom(3), Stage::sequence());
    schedule.add_stage_after(StageLabel::Custom(3), StageLabel::Custom(4), Stage::sequence());

    schedule.add_system_to_stage(StageLabel::Custom(1), Sys::Startup);
    schedule.add_system_to_stage(StageLabel::Custom(2), Sys::AddBarIntoFoo);
    schedule.add_system_to_stage(StageLabel::Custom(3), Sys::DespawnWithoutBar);

    schedule.run(&mut world, &mut resources);

    // The startup stage spawned three entities; the second stage folded each
    // Bar into its Foo; the third despawned the entity without a Bar.
    let rows = Query::new(vec![QueryView::Read(foo()), QueryView::Read(bar())]).iter(&world);
    assert_eq!(rows.len(), 2);
    assert_eq!(rows[0].1[0], QueryItem::Value(Comp::Foo(0)));
    assert_eq!(rows[1].1[0], QueryItem::Value(Comp::Foo(4)));
    let all = Query::new(vec![QueryView::Entities]).iter(&world);
    assert_eq!(all.len(), 2);
}

#[test]
fn add_stage_before_and_after() {
    let mut schedule: Schedule<Comp, (), Sys> = Schedule::new();
    schedule.add_stage(StageLabel::Custom(2), Stage::sequence());
    schedule.add_stage_before(StageLabel::Custom(2), StageLabel::Custom(1), Stage::sequence());
    schedule.add_stage_after(StageLabel::Custom(2), StageLabel::Custom(3), Stage::sequence());
    assert!(schedule.has_stage_labelled(StageLabel::Custom(1)));
    assert!(schedule.has_stage_labelled(StageLabel::Custom(2)));
    assert!(schedule.has_stage_labelled(StageLabel::Custom(3)));
    assert!(!schedule.has_stage_labelled(StageLabel::Custom(4)));
}
