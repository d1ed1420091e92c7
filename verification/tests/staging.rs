use wigame::App;
use wigame::AppStage;
use wigame::CommandBuffer;
use wigame::ComponentTypeId;
use wigame::Query;
use wigame::QueryView;
use wigame::Resources;
use wigame::ResourceTypeId;
use wigame::Stage;
use wigame::StageLabel;
use wigame::System;
use wigame::World;

#[derive(Debug, Clone, Copy, PartialEq, Eq)]
enum Comp {
    Foo(i32),
}

#[derive(Debug, Clone, PartialEq, Eq)]
enum Res {
    Count(u32),
    Log(Vec<u64>),
}

fn foo() -> ComponentTypeId {
    ComponentTypeId::of(1)
}

fn count_res() -> ResourceTypeId {
    ResourceTypeId::of(1)
}

fn log_res() -> ResourceTypeId {
    ResourceTypeId::of(2)
}

enum Sys {
    DespawnAllFoo,
    CountFoo,
    Bump,
    Tag(u64),
}

impl System<Comp, Res> for Sys {
    fn run(
        &mut self,
        world: &mut World<Comp>,
        commands: &mut CommandBuffer<Comp>,
        resources: &mut Resources<Res>,
    ) {
        match self {
            Sys::DespawnAllFoo => {
                for (e, _row) in Query::new(vec![QueryView::Read(foo())]).iter(world) {
                    commands.despawn(e);
                }
            },
            Sys::CountFoo => {
                let n = Query::new(vec![QueryView::Read(foo())]).iter(world).len();
                *resources.get_mut(count_res()) = Res::Count(n as u32);
            },
            Sys::Bump => {
                if let Res::Count(n) = *resources.get_mut(count_res()) {
                    *resources.get_mut(count_res()) = Res::Count(n + 1);
                }
            },
            Sys::Tag(t) => {
                if let Res::Log(log) = resources.get_mut(log_res()) {
                    log.push(*t);
                }
            },
        }
    }
}

#[test]
fn deferred_mutation() {
    // Buffers flush after the whole stage: the second system still sees the
    // entities the first queued for despawning.
    let mut world: World<Comp> = World::new();
    for _ in 0..3 {
        let e = world.spawn();
        world.add_component(e, foo(), Comp::Foo(0));
    }
    let mut resources: Resources<Res> = Resources::new();
    resources.insert(count_res(), Res::Count(99));
    let mut stage: Stage<Comp, Res, Sys> = Stage::sequence();
    stage.add_system(Sys::DespawnAllFoo);
    stage.add_system(Sys::CountFoo);
    stage.run(&mut world, &mut resources);
    assert_eq!(resources.get(count_res()), Some(&Res::Count(3)));
    assert!(Query::new(vec![QueryView::Read(foo())]).iter(&world).is_empty());
}

#[test]
fn startup_once() {
    // A system on the Startup stage runs in the first tick only.
    let mut app: App<Comp, Res, Sys> = App::new();
    app.add_resource(count_res(), Res::Count(0));
    app.add_system_to_stage(StageLabel::App(AppStage::Startup), Sys::Bump);
    app.update();
    app.update();
    app.update();
    assert_eq!(app.resources.get(count_res()), Some(&Res::Count(1)));
}

#[test]
fn update_stage_runs_every_tick() {
    let mut app: App<Comp, Res, Sys> = App::new();
    app.add_resource(count_res(), Res::Count(0));
    app.add_system(Sys::Bump);
    app.update();
    app.update();
    app.update();
    assert_eq!(app.resources.get(count_res()), Some(&Res::Count(3)));
}

#[test]
fn stage_order() {
    // Stages complete in schedule order; systems within a stage run in
    // insertion order.
    let mut app: App<Comp, Res, Sys> = App::new();
    app.add_resource(log_res(), Res::Log(Vec::new()));
    app.add_system_to_stage(StageLabel::App(AppStage::PostUpdate), Sys::Tag(30));
    app.add_system_to_stage(StageLabel::App(AppStage::PreUpdate), Sys::Tag(10));
    app.add_system_to_stage(StageLabel::App(AppStage::Update), Sys::Tag(20));
    app.add_system_to_stage(StageLabel::App(AppStage::Update), Sys::Tag(21));
    app.update();
    assert_eq!(app.resources.get(log_res()), Some(&Res::Log(vec![10, 20, 21, 30])));
}

#[test]
fn command_determinism() {
    // Flushing applies queued commands in submission order.
    let mut world: World<Comp> = World::new();
    let e1 = world.spawn();
    let e2 = world.spawn();
    let mut buffer: CommandBuffer<Comp> = CommandBuffer::new();
    buffer.add_component(e1, foo(), Comp::Foo(1));
    buffer.add_component(e2, foo(), Comp::Foo(2));
    buffer.add_component(e1, foo(), Comp::Foo(3));
    buffer.despawn(e2);
    buffer.flush(&mut world);
    assert!(buffer.is_empty());
    assert_eq!(world.get_component(foo(), e1), Some(&Comp::Foo(3)));
    assert!(!world.is_live(e2));
    assert!(world.get_component(foo(), e2).is_none());
}

#[test]
fn command_spawn_materialises_on_flush() {
    let mut world: World<Comp> = World::new();
    let mut buffer: CommandBuffer<Comp> = CommandBuffer::new();
    let e = buffer.spawn(&mut world);
    buffer.add_component(e, foo(), Comp::Foo(5));
    assert!(!world.is_live(e));
    buffer.flush(&mut world);
    assert!(world.is_live(e));
    assert_eq!(world.get_component(foo(), e), Some(&Comp::Foo(5)));
}

#[test]
fn command_on_dead_entity_is_dropped() {
    let mut world: World<Comp> = World::new();
    let e = world.spawn();
    world.despawn(e);
    let mut buffer: CommandBuffer<Comp> = CommandBuffer::new();
    buffer.add_component(e, foo(), Comp::Foo(1));
    buffer.flush(&mut world);
    assert!(world.get_component(foo(), e).is_none());
    assert!(!world.is_live(e));
}
