use wigame::Components;
use wigame::ComponentTypeId;
use wigame::EntityAllocator;

#[derive(Debug, Clone, Copy, PartialEq, Eq)]
enum Comp {
    Foo(i32),
}

#[test]
fn components() {
    let foo = ComponentTypeId::of(1);
    let mut entities = EntityAllocator::default();
    let mut components: Components<Comp> = Components::new();

    let a = entities.allocate();
    let b = entities.allocate();
    let c = entities.allocate();
    components.insert(foo, a, Comp::Foo(0));
    components.insert(foo, b, Comp::Foo(1));
    components.insert(foo, c, Comp::Foo(2));

    assert!(matches!(components.get(foo, a), Some(&Comp::Foo(0))));
    assert!(matches!(components.get(foo, b), Some(&Comp::Foo(1))));
    assert!(matches!(components.get(foo, c), Some(&Comp::Foo(2))));
    let bits = components.get_bitset(foo).unwrap();
    assert_eq!(bits.len(), 3);
    assert!(bits.contains(0) && bits.contains(1) && bits.contains(2));

    components.remove_raw(&foo, b);
    assert!(matches!(components.get(foo, a), Some(&Comp::Foo(0))));
    assert!(components.get(foo, b).is_none());
    assert!(matches!(components.get(foo, c), Some(&Comp::Foo(2))));
    let bits = components.get_bitset(foo).unwrap();
    assert_eq!(bits.len(), 2);
    assert!(!bits.contains(1));
}

#[test]
fn bitset_store_agreement() {
    let foo = ComponentTypeId::of(1);
    let mut entities = EntityAllocator::default();
    let mut components: Components<Comp> = Components::new();
    let a = entities.allocate();
    let b = entities.allocate();
    let c = entities.allocate();
    components.insert(foo, a, Comp::Foo(0));
    components.insert(foo, c, Comp::Foo(2));
    // The membership bitset holds exactly the indices with a stored row.
    let bits = components.get_bitset(foo).unwrap();
    for e in [a, b, c] {
        assert_eq!(bits.contains(e.id()), components.get(foo, e).is_some());
    }
    components.remove(foo, c);
    let bits = components.get_bitset(foo).unwrap();
    for e in [a, b, c] {
        assert_eq!(bits.contains(e.id()), components.get(foo, e).is_some());
    }
}
