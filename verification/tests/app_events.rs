use wigame::App;
use wigame::AppStage;
use wigame::CommandBuffer;
use wigame::EventReader;
use wigame::Events;
use wigame::ResourceTypeId;
use wigame::Resources;
use wigame::StageLabel;
use wigame::System;
use wigame::World;

#[derive(Debug, Clone, Copy, PartialEq, Eq)]
enum Comp {
    Unused,
}

enum Res {
    Bus(Events<i32>),
    Log(Vec<i32>),
}

fn bus_res() -> ResourceTypeId {
    ResourceTypeId::of(1)
}

fn log_res() -> ResourceTypeId {
    ResourceTypeId::of(2)
}

enum Sys {
    Pump,
    Producer { tick: u32 },
    Consumer { reader: EventReader<i32> },
}

impl System<Comp, Res> for Sys {
    fn run(
        &mut self,
        _world: &mut World<Comp>,
        _commands: &mut CommandBuffer<Comp>,
        resources: &mut Resources<Res>,
    ) {
        match self {
            Sys::Pump => {
                if let Res::Bus(events) = resources.get_mut(bus_res()) {
                    events.update();
                }
            },
            Sys::Producer { tick } => {
                *tick += 1;
                let t = *tick;
                if let Res::Bus(events) = resources.get_mut(bus_res()) {
                    if t == 1 {
                        events.send(1);
                    }
                    if t == 3 {
                        events.send(2);
                    }
                }
            },
            Sys::Consumer { reader } => {
                let mut seen: Vec<i32> = Vec::new();
                if let Res::Bus(events) = resources.get(bus_res()).unwrap() {
                    seen = reader.iter(events);
                }
                if let Res::Log(log) = resources.get_mut(log_res()) {
                    log.extend(seen);
                }
            },
        }
    }
}

#[test]
fn event_visibility_through_stages() {
    // An event sent during a tick is seen by a reader in a later stage of
    // the same tick, and never again on later ticks.
    let mut app: App<Comp, Res, Sys> = App::new();
    app.add_event(bus_res(), Res::Bus(Events::default()), Sys::Pump);
    app.add_resource(log_res(), Res::Log(Vec::new()));
    app.add_system(Sys::Producer { tick: 0 });
    app.add_system_to_stage(
        StageLabel::App(AppStage::PostUpdate),
        Sys::Consumer { reader: EventReader::default() },
    );

    app.update();
    match app.resources.get(log_res()) {
        Some(Res::Log(log)) => assert_eq!(log, &vec![1]),
        _ => panic!("log resource missing"),
    }
    app.update();
    match app.resources.get(log_res()) {
        Some(Res::Log(log)) => assert_eq!(log, &vec![1]),
        _ => panic!("log resource missing"),
    }
    app.update();
    match app.resources.get(log_res()) {
        Some(Res::Log(log)) => assert_eq!(log, &vec![1, 2]),
        _ => panic!("log resource missing"),
    }
}
