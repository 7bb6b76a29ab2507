//! The keys of types.

use crate::context::RealmId;
use crate::events::{Event, EventKey, EventKind, HandlerId, decider_key, observer_key};
use crate::fiber::FiberId;
use crate::pipeline::PipelineId;
use crate::service::{ServiceKey, identifies};
use std::any::TypeId;
use vstd::prelude::*;
use vstd::std_specs::cmp::PartialEqSpec;

verus! {

/// Keys are equal exactly where their types have the same identity.
pub proof fn law_keys_follow_their_types<A: ?Sized + 'static, B: ?Sized + 'static>(
    a: ServiceKey,
    b: ServiceKey,
    name_a: &'static str,
    name_b: &'static str,
    id_a: TypeId,
    id_b: TypeId,
)
    requires
        call_ensures(ServiceKey::of::<A>, (name_a,), a),
        call_ensures(ServiceKey::of::<B>, (name_b,), b),
        identifies::<A>(id_a),
        identifies::<B>(id_b),
    ensures
        a.id == id_a,
        a.eq_spec(&b) == (id_a == id_b),
{
}

/// All keys of one type are equal, whatever they are named.
pub proof fn law_keys_of_one_type_are_equal<T: ?Sized + 'static>(
    a: ServiceKey,
    b: ServiceKey,
    name_a: &'static str,
    name_b: &'static str,
)
    requires
        call_ensures(ServiceKey::of::<T>, (name_a,), a),
        call_ensures(ServiceKey::of::<T>, (name_b,), b),
    ensures
        a.eq_spec(&b),
{
}

/// All observers of an event type are in one family.
pub proof fn law_observers_agree<E: 'static>(a: EventKey, b: EventKey)
    requires
        call_ensures(observer_key::<E>, (), a),
        call_ensures(observer_key::<E>, (), b),
    ensures
        a == b,
{
}

/// A handler and a dispatch of one mode cannot disagree on the decision type
/// of an event: they come to one family.
pub proof fn law_deciders_agree<E: Event>(kind: EventKind, a: EventKey, b: EventKey)
    requires
        call_ensures(decider_key::<E>, (kind,), a),
        call_ensures(decider_key::<E>, (kind,), b),
    ensures
        a == b,
{
}

/// Families, handlers and middlewares are equal exactly where they are the
/// same in every part.
pub proof fn law_registrations_are_told_apart(
    a: EventKey,
    b: EventKey,
    g: HandlerId,
    h: HandlerId,
    m: PipelineId,
    n: PipelineId,
)
    ensures
        a.eq_spec(&b) <==> a.kind == b.kind && a.event == b.event && a.result == b.result,
        g.eq_spec(&h) <==> g.key.kind == h.key.kind && g.key.event == h.key.event && g.key.result
            == h.key.result && g.id == h.id,
        m.eq_spec(&n) <==> m.type_id == n.type_id && m.id == n.id,
        EventKey::obeys_eq_spec(),
        HandlerId::obeys_eq_spec(),
        PipelineId::obeys_eq_spec(),
{
}

/// A key is what it was made of, and prints as its name.
pub proof fn law_keys_are_what_they_were_made_of(
    id: TypeId,
    name: &'static str,
    key: ServiceKey,
    same: TypeId,
    called: &'static str,
    text: String,
)
    requires
        call_ensures(ServiceKey::from_parts, (id, name), key),
        call_ensures(ServiceKey::id, (&key,), same),
        call_ensures(ServiceKey::name, (&key,), called),
        call_ensures(ServiceKey::to_string, (&key,), text),
    ensures
        same == id,
        called == name,
        text@ == name@,
{
}

/// The root fiber and the root realm have the first number, and nothing else
/// is a root.
pub proof fn law_roots_come_first(
    fiber: FiberId,
    realm: RealmId,
    other_fiber: FiberId,
    other_realm: RealmId,
    a: bool,
    b: bool,
)
    requires
        call_ensures(FiberId::root, (), fiber),
        call_ensures(RealmId::root, (), realm),
        call_ensures(FiberId::is_root, (&other_fiber,), a),
        call_ensures(RealmId::is_root, (&other_realm,), b),
    ensures
        fiber.0 == 0,
        realm.0 == 0,
        a <==> other_fiber.0 == 0,
        b <==> other_realm.0 == 0,
{
}

} // verus!
