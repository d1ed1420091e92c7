use wigame::Resources;
use wigame::ResourceTypeId;

#[derive(Debug, Clone, Copy, PartialEq, Eq)]
enum Res {
    Gravity(i64),
    Paused(bool),
}

#[test]
fn resources_basic() {
    let gravity = ResourceTypeId::of(1);
    let paused = ResourceTypeId::of(2);
    let mut r: Resources<Res> = Resources::new();
    assert!(!r.contains(gravity));
    r.insert(gravity, Res::Gravity(-10));
    assert!(r.contains(gravity));
    assert_eq!(r.get(gravity), Some(&Res::Gravity(-10)));
    // Insertion replaces.
    r.insert(gravity, Res::Gravity(-5));
    assert_eq!(r.get(gravity), Some(&Res::Gravity(-5)));
    *r.get_mut(gravity) = Res::Gravity(7);
    assert_eq!(r.get(gravity), Some(&Res::Gravity(7)));
    assert_eq!(r.remove(gravity), Some(Res::Gravity(7)));
    assert_eq!(r.remove(gravity), None);
    assert!(r.get(paused).is_none());
}

#[test]
fn resources_get_or_insert() {
    let paused = ResourceTypeId::of(2);
    let mut r: Resources<Res> = Resources::new();
    assert_eq!(r.get_or_insert(paused, Res::Paused(false)), &Res::Paused(false));
    // A second call keeps the stored value.
    assert_eq!(r.get_or_insert(paused, Res::Paused(true)), &Res::Paused(false));
}

#[test]
fn resources_merge() {
    let gravity = ResourceTypeId::of(1);
    let paused = ResourceTypeId::of(2);
    let mut a: Resources<Res> = Resources::new();
    a.insert(gravity, Res::Gravity(-10));
    let mut b: Resources<Res> = Resources::new();
    b.insert(gravity, Res::Gravity(99));
    b.insert(paused, Res::Paused(true));
    a.merge(b);
    // Existing entries win; missing entries come over.
    assert_eq!(a.get(gravity), Some(&Res::Gravity(-10)));
    assert_eq!(a.get(paused), Some(&Res::Paused(true)));
}

#[test]
fn sync_resources() {
    let gravity = ResourceTypeId::of(1);
    let mut r: Resources<Res> = Resources::new();
    r.insert(gravity, Res::Gravity(3));
    let sync = r.sync();
    assert_eq!(sync.get(gravity), Some(&Res::Gravity(3)));
    assert!(sync.get(ResourceTypeId::of(9)).is_none());
}
