use systems::slab_allocator::Slab;

#[test]
fn test_basic_insert_get_remove() {
    let mut slab = Slab::new();
    let k1 = slab.insert(10);
    let k2 = slab.insert(20);
    assert_eq!(slab.len(), 2);
    assert_eq!(slab.get(k1), Some(&10));
    assert_eq!(slab.get(k2), Some(&20));
    assert_eq!(slab.remove(k1), Some(10));
    assert_eq!(slab.get(k1), None);
    assert_eq!(slab.len(), 1);
    assert_eq!(slab.get(k2), Some(&20));
}

#[test]
fn test_reuse_and_generation() {
    let mut slab = Slab::new();
    let k1 = slab.insert("A");
    slab.remove(k1);
    let k2 = slab.insert("B");
    assert_eq!(k1.index, k2.index);
    assert_ne!(k1.generation, k2.generation);
    assert_eq!(slab.get(k1), None);
    assert_eq!(slab.get(k2), Some(&"B"));
}

#[test]
fn test_stale_key_access() {
    let mut slab = Slab::new();
    let k1 = slab.insert(100);
    slab.remove(k1);
    assert_eq!(slab.get(k1), None);
    slab.insert(200);
    assert_eq!(slab.get(k1), None);
}

#[test]
fn test_capacity_expansion() {
    let mut slab = Slab::with_capacity(1);
    slab.insert(1);
    slab.insert(2);
    assert_eq!(slab.len(), 2);
}

#[test]
fn slab_get_mut_and_lifo_reuse() {
    let mut slab = Slab::new();
    let a = slab.insert(1);
    let b = slab.insert(2);
    let c = slab.insert(3);
    if let Some(v) = slab.get_mut(b) {
        *v = 20;
    }
    assert_eq!(slab.get(b), Some(&20));
    assert_eq!(slab.remove(a), Some(1));
    assert_eq!(slab.remove(c), Some(3));
    assert_eq!(slab.remove(c), None);
    let d = slab.insert(4);
    assert_eq!(d.index, c.index);
    assert_eq!(d.generation, 1);
    let e = slab.insert(5);
    assert_eq!(e.index, a.index);
    assert!(slab.get_mut(a).is_none());
    assert!(!slab.is_empty());
}
