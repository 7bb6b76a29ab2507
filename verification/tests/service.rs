use std::any::TypeId;

use chorda::{Dependency, ServiceKey};

#[test]
fn keys_of_the_same_type_are_equal() {
    assert_eq!(ServiceKey::of::<u32>("u32"), ServiceKey::of::<u32>("u32"));
    assert_ne!(ServiceKey::of::<u32>("u32"), ServiceKey::of::<u64>("u64"));
}

#[test]
fn keys_render_the_name_they_are_given() {
    let key = ServiceKey::of::<u32>("u32");
    assert!(key.to_string().ends_with("u32"));
    assert_eq!(key.to_string(), key.name());
    assert_eq!(key.id(), TypeId::of::<u32>());
    let other = ServiceKey::from_parts(TypeId::of::<u32>(), "other");
    assert_eq!(other.to_string(), "other");
    assert_eq!(key, other, "keys are compared by the type");
}

#[test]
fn dependencies_name_their_service_and_kind() {
    let key = ServiceKey::of::<u32>("u32");
    assert_eq!(Dependency::from(key), Dependency::hard(key));
    assert_ne!(Dependency::hard(key), Dependency::soft(key));
    assert_ne!(Dependency::hard(key), Dependency::hard(ServiceKey::of::<u64>("u64")));
    assert!(Dependency::soft(key).is_soft());
    assert!(!Dependency::hard(key).is_soft());
    assert_eq!(*Dependency::soft(key).key(), key);
}

#[test]
fn observers_are_keyed_by_the_event_type() {
    let key = chorda::observer_key::<u32>();
    assert_eq!(key.event, std::any::TypeId::of::<u32>());
    assert_ne!(key.event, std::any::TypeId::of::<u64>());
    assert!(key.kind == chorda::EventKind::Observer);
    assert!(key.result.is_none());
}

struct Ask;

impl Clone for Ask {
    fn clone(&self) -> Self {
        Ask
    }
}

impl chorda::Event for Ask {
    type Output = bool;

    const NAME: &'static str = "test/ask";
}

#[test]
fn deciders_are_keyed_by_the_event_and_its_decision() {
    let key = chorda::decider_key::<Ask>(chorda::EventKind::Bail);
    assert_eq!(key.event, TypeId::of::<Ask>());
    assert_eq!(key.result, Some(TypeId::of::<bool>()));
    assert!(key == chorda::decider_key::<Ask>(chorda::EventKind::Bail));
    assert!(key != chorda::decider_key::<Ask>(chorda::EventKind::Serial));
}
