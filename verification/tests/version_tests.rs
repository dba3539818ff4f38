use std::sync::{Arc, RwLock};

use terrain_gen::version::{Local, Publisher, Version};

fn new_slot<T>() -> Version<T> {
    Arc::new(RwLock::new(None))
}

#[test]
fn test_publish_and_update_cycle() {
    let slot: Version<u64> = new_slot();
    let mut publisher = Publisher::new(&slot);
    let mut local = Local::new(&slot);

    // nothing published yet: no change
    assert!(!local.update());
    assert!(local.local.is_none());

    publisher.publish(&7);
    assert!(local.update());
    assert_eq!(*local.local.as_ref().unwrap().as_ref(), 7);

    // same snapshot still published: no change
    assert!(!local.update());
    assert_eq!(*local.local.as_ref().unwrap().as_ref(), 7);

    publisher.publish(&8);
    assert!(local.update());
    assert_eq!(*local.local.as_ref().unwrap().as_ref(), 8);
}

#[test]
fn test_update_sees_first_publication() {
    let slot: Version<u64> = new_slot();
    let mut publisher = Publisher::new(&slot);
    let mut local = Local::new(&slot);
    publisher.publish(&1);
    assert!(local.update());
    assert!(local.local.is_some());
}

#[test]
fn test_two_locals_observe_the_same_publication() {
    let slot: Version<String> = new_slot();
    let mut publisher = Publisher::new(&slot);
    let mut a = Local::new(&slot);
    let mut b = Local::new(&slot);
    publisher.publish(&String::from("terrain"));
    assert!(a.update());
    assert!(b.update());
    assert_eq!(a.local.as_ref().unwrap().as_str(), "terrain");
    assert_eq!(b.local.as_ref().unwrap().as_str(), "terrain");
}
