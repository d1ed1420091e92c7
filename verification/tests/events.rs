use wigame::EventReader;
use wigame::Events;

#[derive(Debug, Clone, Copy, PartialEq, Eq)]
struct Ev(i32);

#[test]
fn event_one_tick_visibility() {
    let mut events: Events<Ev> = Events::default();
    let mut reader: EventReader<Ev> = EventReader::default();

    events.send(Ev(1));
    assert_eq!(reader.iter(&events), vec![Ev(1)]);

    events.update();
    assert_eq!(reader.iter(&events), Vec::<Ev>::new());

    events.send(Ev(2));
    assert_eq!(reader.iter(&events), vec![Ev(2)]);
}

#[test]
fn event_exactly_once() {
    // A reader that polls every tick sees each event exactly once.
    let mut events: Events<Ev> = Events::default();
    let mut reader: EventReader<Ev> = EventReader::default();
    let mut seen: Vec<Ev> = Vec::new();

    events.send(Ev(1));
    events.send(Ev(2));
    seen.extend(reader.iter(&events));
    events.update();

    events.send(Ev(3));
    seen.extend(reader.iter(&events));
    events.update();

    seen.extend(reader.iter(&events));
    events.update();

    events.send(Ev(4));
    seen.extend(reader.iter(&events));

    assert_eq!(seen, vec![Ev(1), Ev(2), Ev(3), Ev(4)]);
}

#[test]
fn event_survives_one_update() {
    // An unread event is still delivered after one buffer swap, and dropped
    // after two.
    let mut events: Events<Ev> = Events::default();
    let mut late: EventReader<Ev> = EventReader::default();
    events.send(Ev(7));
    events.update();
    assert_eq!(late.iter(&events), vec![Ev(7)]);

    let mut too_late: EventReader<Ev> = EventReader::default();
    events.send(Ev(8));
    events.update();
    events.update();
    assert_eq!(too_late.iter(&events), Vec::<Ev>::new());
}

#[test]
fn event_drain_and_clear() {
    let mut events: Events<Ev> = Events::default();
    events.send(Ev(1));
    events.update();
    events.send(Ev(2));
    assert!(!events.is_empty());
    assert_eq!(events.drain(), vec![Ev(1), Ev(2)]);
    assert!(events.is_empty());

    events.send(Ev(3));
    events.clear();
    assert!(events.is_empty());
    let mut reader: EventReader<Ev> = EventReader::default();
    // The cleared event is gone even for a reader that never saw it.
    assert_eq!(reader.iter(&events), Vec::<Ev>::new());
}

#[test]
fn event_extend() {
    let mut events: Events<Ev> = Events::default();
    events.send(Ev(1));
    events.extend(vec![Ev(2), Ev(3)]);
    let mut reader: EventReader<Ev> = EventReader::default();
    assert_eq!(reader.iter(&events), vec![Ev(1), Ev(2), Ev(3)]);
}
