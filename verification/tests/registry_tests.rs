use ovos_bus::fanout::{deliver, fan_out};
use ovos_bus::registry::{DeliveryFailure, Registry, RegistryError};

#[test]
fn ids_are_handed_out_in_rising_order_from_one() {
    let mut registry = Registry::new(8, 4);
    assert_eq!(registry.len(), 0);
    assert_eq!(registry.register(), Ok(1));
    assert_eq!(registry.register(), Ok(2));
    assert_eq!(registry.register(), Ok(3));
    assert_eq!(registry.len(), 3);
    assert_eq!(registry.snapshot(), vec![1, 2, 3]);
    assert!(registry.contains(2));
    assert!(!registry.contains(4));
    assert!(!registry.contains(0));
}

#[test]
fn an_id_is_never_handed_out_twice() {
    let mut registry = Registry::new(8, 4);
    assert_eq!(registry.register(), Ok(1));
    assert_eq!(registry.register(), Ok(2));
    assert!(registry.unregister(2));
    assert!(registry.unregister(1));
    assert_eq!(registry.register(), Ok(3));
    assert_eq!(registry.snapshot(), vec![3]);
}

#[test]
fn a_full_registry_refuses() {
    let mut registry = Registry::new(2, 4);
    assert_eq!(registry.register(), Ok(1));
    assert_eq!(registry.register(), Ok(2));
    assert_eq!(registry.register(), Err(RegistryError::CapacityExceeded));
    assert_eq!(registry.snapshot(), vec![1, 2]);
    assert!(registry.unregister(1));
    assert_eq!(registry.register(), Ok(3));
    let mut none = Registry::new(0, 4);
    assert_eq!(none.register(), Err(RegistryError::CapacityExceeded));
}

#[test]
fn unregistering_twice_is_harmless() {
    let mut registry = Registry::new(8, 4);
    assert_eq!(registry.register(), Ok(1));
    assert_eq!(registry.register(), Ok(2));
    assert!(registry.unregister(1));
    assert!(!registry.unregister(1));
    assert!(!registry.unregister(99));
    assert_eq!(registry.snapshot(), vec![2]);
}

#[test]
fn lookup_finds_the_registered() {
    let mut registry = Registry::new(64, 4);
    for expected in 1..=40u64 {
        assert_eq!(registry.register(), Ok(expected));
    }
    for id in [3u64, 17, 40] {
        assert!(registry.unregister(id));
    }
    for id in 0..=45u64 {
        let there = (1..=40).contains(&id) && ![3, 17, 40].contains(&id);
        assert_eq!(registry.contains(id), there, "id {}", id);
        assert_eq!(registry.lookup(id).map(|c| c.id), if there { Some(id) } else { None });
    }
}

#[test]
fn a_queue_hands_out_oldest_first() {
    let mut registry = Registry::new(8, 3);
    assert_eq!(registry.register(), Ok(1));
    assert_eq!(registry.pending(1), Some(0));
    assert_eq!(registry.pending(2), None);
    assert_eq!(registry.enqueue(1, b"a".to_vec()), Ok(()));
    assert_eq!(registry.enqueue(1, b"b".to_vec()), Ok(()));
    assert_eq!(registry.enqueue(1, b"c".to_vec()), Ok(()));
    assert_eq!(registry.pending(1), Some(3));
    assert_eq!(registry.lookup(1).map(|c| c.outbound.len()), Some(3));
    assert_eq!(registry.dequeue(1), Some(b"a".to_vec()));
    assert_eq!(registry.dequeue(1), Some(b"b".to_vec()));
    assert_eq!(registry.enqueue(1, b"d".to_vec()), Ok(()));
    assert_eq!(registry.dequeue(1), Some(b"c".to_vec()));
    assert_eq!(registry.dequeue(1), Some(b"d".to_vec()));
    assert_eq!(registry.dequeue(1), None);
    assert_eq!(registry.dequeue(7), None);
}

#[test]
fn enqueue_fails_without_changing_anything() {
    let mut registry = Registry::new(8, 1);
    assert_eq!(registry.register(), Ok(1));
    assert_eq!(registry.enqueue(2, b"x".to_vec()), Err(DeliveryFailure::NotRegistered));
    assert_eq!(registry.enqueue(1, b"a".to_vec()), Ok(()));
    assert_eq!(registry.enqueue(1, b"b".to_vec()), Err(DeliveryFailure::QueueFull));
    assert!(registry.contains(1));
    assert_eq!(registry.pending(1), Some(1));
    assert_eq!(registry.dequeue(1), Some(b"a".to_vec()));
}

#[test]
fn a_failed_delivery_drops_the_recipient() {
    let mut registry = Registry::new(8, 1);
    assert_eq!(registry.register(), Ok(1));
    assert_eq!(deliver(&mut registry, 1, b"a".to_vec()), Ok(()));
    assert_eq!(deliver(&mut registry, 1, b"b".to_vec()), Err(DeliveryFailure::QueueFull));
    assert!(!registry.contains(1));
    assert_eq!(deliver(&mut registry, 1, b"c".to_vec()), Err(DeliveryFailure::NotRegistered));
    assert_eq!(registry.len(), 0);
}

#[test]
fn fan_out_delivers_once_to_each() {
    let mut registry = Registry::new(8, 2);
    for _ in 0..4 {
        assert!(registry.register().is_ok());
    }
    assert_eq!(registry.enqueue(3, b"old".to_vec()), Ok(()));
    assert_eq!(registry.enqueue(3, b"older".to_vec()), Ok(()));
    let delivery = fan_out(&mut registry, &vec![4, 9, 2, 4, 3, 2], Some(2), false, b"m");
    assert_eq!(delivery.queued, vec![4]);
    assert_eq!(delivery.dropped, vec![3]);
    assert_eq!(registry.snapshot(), vec![1, 2, 4]);
    assert_eq!(registry.pending(1), Some(0));
    assert_eq!(registry.pending(2), Some(0));
    assert_eq!(registry.pending(4), Some(1));
    assert_eq!(registry.dequeue(4), Some(b"m".to_vec()));
}
