use wigame::AnyMap;

#[derive(Debug, Clone, Copy, PartialEq, Eq)]
enum Registered {
    Foo(i32),
    Bar(i32),
}

#[test]
fn anymap() {
    let foo_key: u64 = 1;
    let bar_key: u64 = 2;
    let mut m: AnyMap<Registered> = AnyMap::default();
    assert!(!m.has(foo_key));
    assert!(m.insert(foo_key, Registered::Foo(10)).is_none());

    assert!(m.has(foo_key));
    assert!(!m.has(bar_key));
    assert!(matches!(m.get(foo_key), Some(&Registered::Foo(10))));
    assert!(matches!(m.insert(foo_key, Registered::Foo(12)), Some(Registered::Foo(10))));
    assert!(m.insert(bar_key, Registered::Bar(2)).is_none());
    *m.get_mut(bar_key) = Registered::Bar(22);
    assert!(matches!(m.get(bar_key), Some(&Registered::Bar(22))));
}

#[test]
fn anymap_remove() {
    let mut m: AnyMap<Registered> = AnyMap::default();
    m.insert(5, Registered::Foo(7));
    assert!(matches!(m.remove(5), Some(Registered::Foo(7))));
    assert!(m.remove(5).is_none());
    assert!(!m.has(5));
}
