use wigame::EntityAllocator;

#[test]
fn entity_allocator() {
    let mut a = EntityAllocator::default();
    let e1 = a.reserve();
    let e2 = a.reserve();
    let e3 = a.reserve();

    assert_eq!(e1.id(), 0);
    assert_eq!(e2.id(), 1);
    assert_eq!(e3.id(), 2);

    assert_eq!(a.len(), 0);
    assert_eq!(a.get_bitset().len(), 0);
    a.flush();
    assert_eq!(a.len(), 3);
    assert_eq!(a.get_bitset().len(), 3);
    assert!(a.get_bitset().contains(0));
    assert!(a.get_bitset().contains(1));
    assert!(a.get_bitset().contains(2));

    let e4 = a.allocate();
    assert_eq!(e4.id(), 3);
    assert_eq!(a.len(), 4);
    assert_eq!(a.get_bitset().len(), 4);
    assert!(a.get_bitset().contains(3));

    a.delloc(e2);
    assert_eq!(a.len(), 3);
    assert_eq!(a.get_bitset().len(), 3);
    assert!(!a.get_bitset().contains(1));

    let e5 = a.reserve();
    assert_eq!(e5.id(), 1);
    a.flush();
    assert_eq!(a.len(), 4);
    assert_eq!(a.get_bitset().len(), 4);
    assert!(a.get_bitset().contains(1));
}

#[test]
fn generation_bumps_on_free() {
    let mut a = EntityAllocator::default();
    let e1 = a.allocate();
    assert_eq!(e1.generation(), 0);
    assert!(a.is_live(e1));
    a.delloc(e1);
    assert!(!a.is_live(e1));
    let e2 = a.allocate();
    assert_eq!(e2.id(), e1.id());
    assert_eq!(e2.generation(), 1);
    assert!(a.is_live(e2));
    assert!(!a.is_live(e1));
}

#[test]
fn reservation_uniqueness() {
    let mut a = EntityAllocator::default();
    let mut ids = Vec::new();
    for _ in 0..8 {
        ids.push(a.reserve().id());
    }
    for i in 0..8 {
        for j in 0..8 {
            if i != j {
                assert_ne!(ids[i], ids[j]);
            }
        }
    }
    a.flush();
    assert_eq!(a.len(), 8);
}
