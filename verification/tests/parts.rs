//! The parts that the kernel is made of.

use chorda::{
    Disposable, DisposableList, Fiber, FiberId, Realm, RealmId, Realms, ServiceId, ServiceKey,
    State,
};

#[test]
fn roots_are_roots() {
    assert!(RealmId::root().is_root());
    assert!(!RealmId(1).is_root());
    assert!(FiberId::root().is_root());
    assert!(!FiberId(1).is_root());
    assert!(Realm::root().is_root());
    let mut other = Realm::root();
    other.parent = Some(RealmId::root());
    assert!(!other.is_root());
}

#[test]
fn cleanups_are_drained_last_in_first_out() {
    let mut list = DisposableList::new();
    assert!(list.last().is_none());
    for effect in 0..3 {
        list.defer(Disposable::Effect(effect));
    }
    assert!(matches!(list.last(), Some(Disposable::Effect(2))));
    let drained: Vec<u64> = list
        .drain()
        .into_iter()
        .map(|one| match one {
            Disposable::Effect(effect) => effect,
            _ => panic!("only effects were registered"),
        })
        .collect();
    assert_eq!(drained, vec![2, 1, 0]);
    assert!(list.last().is_none());
}

#[test]
fn a_fiber_starts_pending_and_ends_disposed() {
    let mut fiber = Fiber::new(FiberId(3), FiberId(1), RealmId(2), "f".to_owned());
    assert_eq!(fiber.state, State::Pending);
    assert_eq!((fiber.id, fiber.parent, fiber.realm), (FiberId(3), FiberId(1), RealmId(2)));
    fiber.effect(Disposable::Effect(7));
    fiber.fail();
    assert_eq!(fiber.state, State::Failed);
    assert_eq!(fiber.dispose().len(), 1);
    assert_eq!(fiber.state, State::Disposed);
    assert!(fiber.dispose().is_empty());
}

#[test]
fn the_innermost_realm_wins_and_stale_services_cannot_be_removed() {
    let mut realms = Realms::new();
    let child = realms.create_realm(Some(RealmId::root()));
    let grandchild = realms.create_realm(Some(child));
    let key = ServiceKey::of::<u32>("u32");

    assert_eq!(realms.lookup(grandchild, &key), None);
    assert_eq!(realms.insert_service(RealmId::root(), &key, ServiceId(1)), None);
    assert_eq!(realms.lookup(grandchild, &key), Some(ServiceId(1)));
    assert_eq!(realms.resolving_realm(grandchild, &key), Some(RealmId::root()));

    assert_eq!(realms.insert_service(child, &key, ServiceId(2)), None);
    assert_eq!(realms.lookup(grandchild, &key), Some(ServiceId(2)));
    assert_eq!(realms.lookup(RealmId::root(), &key), Some(ServiceId(1)));

    assert_eq!(
        realms.insert_service(child, &key, ServiceId(3)),
        Some(ServiceId(2)),
        "the service before comes back"
    );
    realms.remove_service_if(child, &key, ServiceId(2));
    assert_eq!(realms.lookup(child, &key), Some(ServiceId(3)), "the newer one stays");
    realms.remove_service_if(child, &key, ServiceId(3));
    assert_eq!(realms.lookup(child, &key), Some(ServiceId(1)));

    assert_eq!(realms.realm_chain(grandchild), vec![grandchild, child, RealmId::root()]);
    assert_eq!(realms.children(RealmId::root()), vec![child]);
    assert_eq!(realms.lookup(RealmId(9), &key), None, "a realm that is not there sees nothing");
}
