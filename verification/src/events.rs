//! Scoped events with five dispatch modes: handlers live and die with their
//! fiber.
//!
//! One registration family per dispatch mode, all scoped to the registering
//! fiber's realm, all bubbling from the emitting realm up through its
//! ancestors, all taken out when their fiber is disposed.
//!
//! | mode        | handlers        | waits     | short-circuits |
//! |-------------|-----------------|-----------|----------------|
//! | [`Events::emit`]      | async observers | never (detached) | never |
//! | [`Events::parallel`]  | async observers | all, concurrently | never (aggregate) |
//! | [`Events::serial`]    | async deciders  | one by one | first decision |
//! | [`Events::bail`]      | sync deciders   | never | first decision |
//! | [`Events::waterfall`] | onion layers    | composed | a layer skipping `next` |
//!
//! The library decides which handlers a dispatch reaches and in what order;
//! the host runs them.

use crate::context::{Ctx, RealmId, chain};
use crate::fiber::FiberId;
use crate::kernel::Kernel;
use crate::model::{KernelView, is_active, recorded, with_handler, with_late_handler};
use crate::seqs::{lemma_filter_none, lemma_filter_step};
use crate::service::{identifies, same_type, type_id_of};
use crate::text::{decimal, number_text};
use std::any::TypeId;
use vstd::prelude::*;

verus! {

/// Which handler family a registration belongs to; each dispatch mode reads
/// exactly one family.
#[derive(Debug, Clone, Copy, PartialEq, Eq, Structural, Hash)]
pub enum EventKind {
    /// Async observers, served by `emit` and `parallel`.
    Observer,
    /// Synchronous deciders, served by `bail`.
    Bail,
    /// Async deciders, served by `serial`.
    Serial,
    /// Onion layers, served by `waterfall`.
    Waterfall,
}

/// One handler family for one event type, plus the decision type where the
/// family produces one.
#[derive(Debug, Clone, Copy, Hash)]
pub struct EventKey {
    pub kind: EventKind,
    pub event: TypeId,
    pub result: Option<TypeId>,
}

impl PartialEq for EventKey {
    fn eq(&self, other: &Self) -> (r: bool) {
        self.kind == other.kind && same_type(&self.event, &other.event) && match (
            &self.result,
            &other.result,
        ) {
            (Some(a), Some(b)) => same_type(a, b),
            (None, None) => true,
            _ => false,
        }
    }
}

impl vstd::std_specs::cmp::PartialEqSpecImpl for EventKey {
    open spec fn obeys_eq_spec() -> bool {
        true
    }

    open spec fn eq_spec(&self, other: &Self) -> bool {
        *self == *other
    }
}

impl Eq for EventKey {

}

/// The identity of a type, with the name to print for it.
#[derive(Debug, Clone, Copy)]
pub struct TypeTag {
    pub id: TypeId,
    pub name: &'static str,
}

/// A registered event handler: where it listens, which fiber it belongs to,
/// and by which number its code is found.
#[derive(Debug, Clone, Copy)]
pub struct EventHandler {
    pub key: EventKey,
    pub realm: RealmId,
    pub fiber: FiberId,
    pub id: u64,
}

/// Binds an event type to its wire name and decision type.
///
/// `Output` is the type a `serial`, `bail`, or `waterfall` dispatch of this
/// event produces: handlers and dispatches both read it from the event, so
/// they cannot disagree on it.
pub trait Event: Clone + Send + Sync + 'static {
    /// The decision type carried by `serial`, `bail`, and `waterfall`
    /// dispatches of this event.
    type Output: Send + 'static;

    /// Human-readable wire name.
    const NAME: &'static str;
}

/// Identifier of a registered event handler.
#[derive(Debug, Clone, Copy, Hash)]
pub struct HandlerId {
    pub key: EventKey,
    pub id: u64,
}

impl PartialEq for HandlerId {
    fn eq(&self, other: &Self) -> (r: bool) {
        self.key == other.key && self.id == other.id
    }
}

impl vstd::std_specs::cmp::PartialEqSpecImpl for HandlerId {
    open spec fn obeys_eq_spec() -> bool {
        true
    }

    open spec fn eq_spec(&self, other: &Self) -> bool {
        *self == *other
    }
}

impl Eq for HandlerId {

}

/// The family of observers of an event type. There is one for each type.
pub fn observer_key<E: 'static>() -> (r: EventKey)
    ensures
        identifies::<E>(r.event),
        forall|x: TypeId| #[trigger] identifies::<E>(x) ==> x == r.event,
        r == observers_of(r.event),
{
    EventKey { kind: EventKind::Observer, event: type_id_of::<E>(), result: None }
}

/// A family of deciders of an event type, keyed by the event's decision type
/// as well. There is one for each type and kind, so registering a handler and
/// dispatching the event cannot disagree on it.
pub fn decider_key<E: Event>(kind: EventKind) -> (r: EventKey)
    ensures
        identifies::<E>(r.event),
        forall|x: TypeId| #[trigger] identifies::<E>(x) ==> x == r.event,
        r.result is Some,
        identifies::<E::Output>(r.result->0),
        forall|x: TypeId| #[trigger] identifies::<E::Output>(x) ==> x == r.result->0,
        r == deciders_of(kind, r.event, r.result->0),
{
    EventKey { kind, event: type_id_of::<E>(), result: Some(type_id_of::<E::Output>()) }
}

/// The family of observers of an event type.
pub open spec fn observers_of(event: TypeId) -> EventKey {
    EventKey { kind: EventKind::Observer, event, result: None }
}

/// A family of deciders of an event type.
pub open spec fn deciders_of(kind: EventKind, event: TypeId, result: TypeId) -> EventKey {
    EventKey { kind, event, result: Some(result) }
}

// ---- which handlers a dispatch reaches ----

/// Picks the handlers of a family in a realm.
pub open spec fn listening(key: EventKey, realm: RealmId) -> spec_fn(EventHandler) -> bool {
    |h: EventHandler| h.key == key && h.realm == realm
}

/// The handlers of a family along a list of realms: realm by realm, and in
/// the order of registration within a realm.
pub open spec fn bubble(
    handlers: Seq<EventHandler>,
    key: EventKey,
    realms: Seq<RealmId>,
) -> Seq<EventHandler>
    decreases realms.len(),
{
    if realms.len() == 0 {
        Seq::empty()
    } else {
        bubble(handlers, key, realms.drop_last()) + handlers.filter(
            listening(key, realms.last()),
        )
    }
}

/// The handlers that a dispatch from `realm` reaches, innermost realm first.
pub open spec fn reached(k: KernelView, key: EventKey, realm: RealmId) -> Seq<EventHandler> {
    bubble(k.handlers, key, chain(k.realms, realm))
}

/// Picks the handlers whose fiber is in use.
pub open spec fn awake(k: KernelView) -> spec_fn(EventHandler) -> bool {
    |h: EventHandler| is_active(k, h.fiber)
}

/// The numbers of the handlers.
pub open spec fn handler_ids(handlers: Seq<EventHandler>) -> Seq<u64> {
    handlers.map_values(|h: EventHandler| h.id)
}

/// The numbers of the handlers that a dispatch from `realm` runs: those it
/// reaches whose fiber is in use.
pub open spec fn dispatched(k: KernelView, key: EventKey, realm: RealmId) -> Seq<u64> {
    handler_ids(reached(k, key, realm).filter(awake(k)))
}

impl Kernel {
    /// Returns the handlers for one event family that are bound to `realm` or
    /// any of its ancestors, ordered from the innermost realm outward.
    pub fn handlers_for(&self, key: EventKey, realm: RealmId) -> (r: Vec<EventHandler>)
        requires
            self.wf(),
        ensures
            r@ == reached(self@, key, realm),
    {
        let realms = self.realm_chain(realm);
        let handlers = self.event_handlers();
        let mut out: Vec<EventHandler> = Vec::new();
        let mut n: usize = 0;
        assert(realms@.take(0) =~= Seq::<RealmId>::empty());
        while n < realms.len()
            invariant
                n <= realms@.len(),
                out@ == bubble(handlers@, key, realms@.take(n as int)),
            decreases realms@.len() - n,
        {
            let here = realms[n];
            let ghost done = out@;
            let mut i: usize = 0;
            proof {
                lemma_filter_none(handlers@, listening(key, here));
                assert(done + Seq::<EventHandler>::empty() =~= done);
            }
            while i < handlers.len()
                invariant
                    i <= handlers@.len(),
                    out@ == done + handlers@.take(i as int).filter(listening(key, here)),
                decreases handlers@.len() - i,
            {
                proof {
                    lemma_filter_step(handlers@, i as int, listening(key, here));
                }
                let ghost before = out@;
                let h = handlers[i];
                if h.key == key && h.realm == here {
                    out.push(h);
                    assert(out@ =~= done + handlers@.take(i + 1).filter(listening(key, here)));
                }
                i = i + 1;
            }
            assert(handlers@.take(i as int) =~= handlers@);
            assert(realms@.take(n + 1).drop_last() =~= realms@.take(n as int));
            n = n + 1;
        }
        assert(realms@.take(n as int) =~= realms@);
        out
    }
}

/// The event surface of one realm: a lens over the kernel's handler registry
/// bound to the emitting realm. Every dispatch walks the realm chain from the
/// innermost realm outward.
#[derive(Debug, Clone, Copy)]
pub struct Events {
    pub realm: RealmId,
}

/// What came of running one decider.
pub enum Attempt<R> {
    /// It decided.
    Decided(R),
    /// It passed.
    Passed,
    /// It panicked; that is reported and otherwise counts as passing.
    Panicked,
}

/// The panic of one handler.
#[derive(Debug)]
pub struct HandlerPanic {
    /// What the panic said.
    pub message: String,
}

impl HandlerPanic {
    /// The text the error renders as: what went wrong, without the message of
    /// the panic that caused it.
    pub fn to_string(&self) -> (r: String)
        ensures
            r@ == "event handler panicked"@,
    {
        "event handler panicked".to_owned()
    }
}

/// The messages of the panics.
pub open spec fn messages(errors: Seq<HandlerPanic>) -> Seq<Seq<char>> {
    errors.map_values(|error: HandlerPanic| error.message@)
}

/// The aggregate failure of a [`Events::parallel`] dispatch: one entry per
/// panicking handler.
#[derive(Debug)]
pub struct EventAggregate {
    pub errors: Vec<HandlerPanic>,
}

impl EventAggregate {
    /// The text the failure renders as.
    pub fn to_string(&self) -> (r: String)
        ensures
            r@ == decimal(self.errors@.len()) + " event handler(s) panicked"@,
    {
        let mut out = number_text(self.errors.len());
        out.append(" event handler(s) panicked");
        out
    }
}

/// The message of each panic among the outcomes, in order.
pub open spec fn panics(outcomes: Seq<Option<String>>) -> Seq<Seq<char>>
    decreases outcomes.len(),
{
    if outcomes.len() == 0 {
        Seq::empty()
    } else {
        let front = panics(outcomes.drop_last());
        match outcomes.last() {
            Some(message) => front.push(message@),
            None => front,
        }
    }
}

/// Whether running the deciders in order comes to this result: the first
/// decision, with every decider before it having passed or panicked, or
/// nothing, with all of them having done so.
pub open spec fn first_decision<R, F: Fn(u64) -> Attempt<R>>(
    ids: Seq<u64>,
    run: F,
    result: Option<R>,
) -> bool {
    match result {
        Some(decision) => exists|n: int|
            0 <= n < ids.len() && undecided(ids.take(n), run) && call_ensures(
                run,
                (#[trigger] ids[n],),
                Attempt::Decided(decision),
            ),
        None => undecided(ids, run),
    }
}

/// Whether each of the deciders can have passed or panicked.
pub open spec fn undecided<R, F: Fn(u64) -> Attempt<R>>(ids: Seq<u64>, run: F) -> bool {
    forall|i: int|
        0 <= i < ids.len() ==> call_ensures(run, (#[trigger] ids[i],), Attempt::<R>::Passed)
            || call_ensures(run, (ids[i],), Attempt::<R>::Panicked)
}

impl Events {
    /// The handlers of a family that a dispatch from this realm reaches.
    pub fn handlers(&self, kernel: &Kernel, key: EventKey) -> (r: Vec<EventHandler>)
        requires
            kernel.wf(),
        ensures
            r@ == reached(kernel@, key, self.realm),
    {
        kernel.handlers_for(key, self.realm)
    }

    /// The numbers of the handlers of a family that a dispatch from this
    /// realm runs.
    fn runnable(&self, kernel: &Kernel, key: EventKey) -> (r: Vec<u64>)
        requires
            kernel.wf(),
        ensures
            r@ == dispatched(kernel@, key, self.realm),
    {
        let handlers = self.handlers(kernel, key);
        let mut out: Vec<u64> = Vec::new();
        let mut i: usize = 0;
        proof {
            lemma_filter_none(handlers@, awake(kernel@));
        }
        while i < handlers.len()
            invariant
                kernel.wf(),
                i <= handlers@.len(),
                out@ == handler_ids(handlers@.take(i as int).filter(awake(kernel@))),
            decreases handlers@.len() - i,
        {
            proof {
                lemma_filter_step(handlers@, i as int, awake(kernel@));
            }
            if kernel.is_active(handlers[i].fiber) {
                out.push(handlers[i].id);
                assert(out@ =~= handler_ids(handlers@.take(i + 1).filter(awake(kernel@))));
            }
            i = i + 1;
        }
        assert(handlers@.take(i as int) =~= handlers@);
        out
    }

    /// The observers to notify without waiting for them. A panicking one
    /// cannot affect the caller.
    pub fn emit(&self, kernel: &Kernel, event: TypeId) -> (r: Vec<u64>)
        requires
            kernel.wf(),
        ensures
            r@ == dispatched(kernel@, observers_of(event), self.realm),
    {
        self.runnable(kernel, EventKey { kind: EventKind::Observer, event, result: None })
    }

    /// The observers to run concurrently and wait for. What came of them goes
    /// to [`Events::aggregate`].
    pub fn parallel(&self, kernel: &Kernel, event: TypeId) -> (r: Vec<u64>)
        requires
            kernel.wf(),
        ensures
            r@ == dispatched(kernel@, observers_of(event), self.realm),
    {
        self.runnable(kernel, EventKey { kind: EventKind::Observer, event, result: None })
    }

    /// The outcome of a parallel dispatch, from the panic message of each
    /// observer that panicked: a failure if any did, with one entry for each,
    /// in order.
    pub fn aggregate(outcomes: &Vec<Option<String>>) -> (r: Result<(), EventAggregate>)
        ensures
            match r {
                Ok(()) => panics(outcomes@).len() == 0,
                Err(failure) => panics(outcomes@).len() > 0 && messages(failure.errors@)
                    == panics(outcomes@),
            },
    {
        let mut errors: Vec<HandlerPanic> = Vec::new();
        let mut i: usize = 0;
        assert(messages(errors@) =~= panics(outcomes@.take(0)));
        while i < outcomes.len()
            invariant
                i <= outcomes@.len(),
                messages(errors@) == panics(outcomes@.take(i as int)),
            decreases outcomes@.len() - i,
        {
            assert(outcomes@.take(i + 1).drop_last() =~= outcomes@.take(i as int));
            if let Some(message) = &outcomes[i] {
                errors.push(HandlerPanic { message: message.clone() });
                assert(messages(errors@) =~= panics(outcomes@.take(i + 1)));
            }
            i = i + 1;
        }
        assert(outcomes@.take(i as int) =~= outcomes@);
        assert(messages(errors@).len() == errors@.len());
        if errors.len() == 0 {
            Ok(())
        } else {
            Err(EventAggregate { errors })
        }
    }

    /// The async deciders to run one by one, innermost realm first, until one
    /// decides: [`Serial::go_on`] says which is the first.
    pub fn serial(&self, kernel: &Kernel, event: TypeId, result: TypeId) -> (r: Serial)
        requires
            kernel.wf(),
        ensures
            r.handlers@ == reached(
                kernel@,
                deciders_of(EventKind::Serial, event, result),
                self.realm,
            ),
            r.index == 0,
    {
        let key = EventKey { kind: EventKind::Serial, event, result: Some(result) };
        Serial { handlers: self.handlers(kernel, key), index: 0 }
    }

    /// The synchronous deciders to run in order until one decides; see
    /// [`Events::decide`].
    pub fn deciders(&self, kernel: &Kernel, event: TypeId, result: TypeId) -> (r: Vec<u64>)
        requires
            kernel.wf(),
        ensures
            r@ == dispatched(
                kernel@,
                deciders_of(EventKind::Bail, event, result),
                self.realm,
            ),
    {
        self.runnable(kernel, EventKey { kind: EventKind::Bail, event, result: Some(result) })
    }

    /// Runs deciders in order until one decides. A panicking one is skipped.
    ///
    /// Returns the first decision, or `None` when every decider passed.
    pub fn decide<R, F: Fn(u64) -> Attempt<R>>(ids: &Vec<u64>, run: F) -> (r: Option<R>)
        requires
            forall|id: u64| call_requires(run, (id,)),
        ensures
            first_decision(ids@, run, r),
    {
        let mut i: usize = 0;
        while i < ids.len()
            invariant
                i <= ids@.len(),
                forall|id: u64| call_requires(run, (id,)),
                undecided(ids@.take(i as int), run),
            decreases ids@.len() - i,
        {
            let attempt = run(ids[i]);
            match attempt {
                Attempt::Decided(decision) => {
                    assert(call_ensures(run, (ids@[i as int],), Attempt::Decided(decision)));
                    return Some(decision);
                },
                Attempt::Passed => {},
                Attempt::Panicked => {},
            }
            assert(undecided(ids@.take(i + 1), run)) by {
                assert forall|j: int| 0 <= j < i + 1 implies call_ensures(
                    run,
                    (#[trigger] ids@.take(i + 1)[j],),
                    Attempt::<R>::Passed,
                ) || call_ensures(run, (ids@.take(i + 1)[j],), Attempt::<R>::Panicked) by {
                    if j < i {
                        assert(ids@.take(i + 1)[j] == ids@.take(i as int)[j]);
                    }
                }
            }
            i = i + 1;
        }
        assert(ids@.take(i as int) =~= ids@);
        None
    }

    /// Runs synchronous deciders in order until one decides. A panicking one
    /// is skipped.
    ///
    /// Returns the first decision, or `None` when every handler passed.
    pub fn bail<R, F: Fn(u64) -> Attempt<R>>(
        &self,
        kernel: &Kernel,
        event: TypeId,
        result: TypeId,
        run: F,
    ) -> (r: Option<R>)
        requires
            kernel.wf(),
            forall|id: u64| call_requires(run, (id,)),
        ensures
            first_decision(
                dispatched(kernel@, deciders_of(EventKind::Bail, event, result), self.realm),
                run,
                r,
            ),
    {
        let ids = self.deciders(kernel, event, result);
        Events::decide(&ids, run)
    }

    /// The layers to compose around the built-in behavior. The first layer is
    /// the outermost: it receives the event and the rest of the chain, and
    /// either continues or returns on its own, vetoing everything inside it,
    /// the built-in behavior too.
    pub fn waterfall(&self, kernel: &Kernel, event: TypeId, result: TypeId) -> (r: EventNext)
        requires
            kernel.wf(),
        ensures
            r.chain@ == dispatched(
                kernel@,
                deciders_of(EventKind::Waterfall, event, result),
                self.realm,
            ),
            r.index == 0,
    {
        let key = EventKey { kind: EventKind::Waterfall, event, result: Some(result) };
        EventNext::entry(self.runnable(kernel, key), 0)
    }
}

/// The course of a serial dispatch: the deciders it reached when it started,
/// and how far it has come.
pub struct Serial {
    pub handlers: Vec<EventHandler>,
    pub index: usize,
}

/// What is to be done next in a serial dispatch.
#[derive(Debug)]
pub enum Turn<R> {
    /// The decider with this number is to be run. What came of it goes to
    /// [`Serial::answer`].
    Run(u64),
    /// The dispatch is over, with the decision if there was one.
    Done(Option<R>),
}

/// The place of the first handler from `from` on whose fiber is in use.
pub open spec fn next_awake(k: KernelView, handlers: Seq<EventHandler>, from: int) -> Option<int>
    decreases handlers.len() - from,
{
    if from < 0 || from >= handlers.len() {
        None
    } else if is_active(k, handlers[from].fiber) {
        Some(from)
    } else {
        next_awake(k, handlers, from + 1)
    }
}

/// How a serial dispatch that has come to `from` goes on: with the first
/// decider left whose fiber is in use, or to its end if there is none. With
/// it, where the dispatch has come to then.
pub open spec fn going_on<R>(k: KernelView, handlers: Seq<EventHandler>, from: int) -> (
    int,
    Turn<R>,
) {
    match next_awake(k, handlers, from) {
        Some(n) => (n + 1, Turn::Run(handlers[n].id)),
        None => (handlers.len() as int, Turn::Done(None)),
    }
}

/// How a serial dispatch that has come to `from` takes what came of the
/// decider it ran: a decision ends it, and everything else lets it go on.
pub open spec fn answered<R>(
    k: KernelView,
    handlers: Seq<EventHandler>,
    from: int,
    attempt: Attempt<R>,
) -> (int, Turn<R>) {
    match attempt {
        Attempt::Decided(decision) => (handlers.len() as int, Turn::Done(Some(decision))),
        Attempt::Passed => going_on(k, handlers, from),
        Attempt::Panicked => going_on(k, handlers, from),
    }
}

/// The handler found next is one from there on.
pub proof fn lemma_next_awake(k: KernelView, handlers: Seq<EventHandler>, from: int)
    ensures
        next_awake(k, handlers, from) matches Some(n) ==> from <= n < handlers.len(),
    decreases handlers.len() - from,
{
    if 0 <= from < handlers.len() {
        lemma_next_awake(k, handlers, from + 1);
    }
}

impl Serial {
    /// The next decider to run: the first one left whose fiber is in use now.
    /// The dispatch has come past it; `None` when none is left.
    fn next(&mut self, kernel: &Kernel) -> (r: Option<u64>)
        requires
            kernel.wf(),
            old(self).index <= old(self).handlers@.len(),
        ensures
            final(self).handlers == old(self).handlers,
            final(self).index <= final(self).handlers@.len(),
            match next_awake(kernel@, old(self).handlers@, old(self).index as int) {
                Some(n) => r == Some(old(self).handlers@[n].id) && final(self).index == n + 1,
                None => r is None && final(self).index == final(self).handlers@.len(),
            },
    {
        while self.index < self.handlers.len()
            invariant
                kernel.wf(),
                self.handlers == old(self).handlers,
                self.index <= self.handlers@.len(),
                next_awake(kernel@, self.handlers@, self.index as int) == next_awake(
                    kernel@,
                    old(self).handlers@,
                    old(self).index as int,
                ),
            decreases self.handlers@.len() - self.index,
        {
            let handler = self.handlers[self.index];
            self.index = self.index + 1;
            if kernel.is_active(handler.fiber) {
                return Some(handler.id);
            }
        }
        None
    }

    /// Goes on to the next decider whose fiber is in use now, or ends without
    /// a decision where none is left. This is how a dispatch starts.
    pub fn go_on<R>(&mut self, kernel: &Kernel) -> (r: Turn<R>)
        requires
            kernel.wf(),
            old(self).index <= old(self).handlers@.len(),
        ensures
            final(self).handlers == old(self).handlers,
            final(self).index <= final(self).handlers@.len(),
            (final(self).index as int, r) == going_on::<R>(
                kernel@,
                old(self).handlers@,
                old(self).index as int,
            ),
    {
        match self.next(kernel) {
            Some(id) => Turn::Run(id),
            None => Turn::Done(None),
        }
    }

    /// Takes what came of the decider that was run. A decision ends the
    /// dispatch; if there was none, it goes on to the next decider whose
    /// fiber is in use now.
    pub fn answer<R>(&mut self, kernel: &Kernel, attempt: Attempt<R>) -> (r: Turn<R>)
        requires
            kernel.wf(),
            old(self).index <= old(self).handlers@.len(),
        ensures
            final(self).handlers == old(self).handlers,
            final(self).index <= final(self).handlers@.len(),
            (final(self).index as int, r) == answered(
                kernel@,
                old(self).handlers@,
                old(self).index as int,
                attempt,
            ),
    {
        match attempt {
            Attempt::Decided(decision) => {
                self.index = self.handlers.len();
                Turn::Done(Some(decision))
            },
            Attempt::Passed => self.go_on(kernel),
            Attempt::Panicked => self.go_on(kernel),
        }
    }
}

/// The rest of a waterfall onion, with the built-in behavior at its end.
///
/// A layer may run the rest of the chain more than once.
#[derive(Debug)]
pub struct EventNext {
    pub chain: Vec<u64>,
    pub index: usize,
}

/// What running the rest of an onion comes to.
#[derive(Debug)]
pub enum Layer<N> {
    /// The layer with this number, which gets what is inside it.
    Inner(u64, N),
    /// The built-in behavior.
    BuiltIn,
}

impl Clone for EventNext {
    fn clone(&self) -> (r: Self)
        ensures
            r.chain@ == self.chain@,
            r.index == self.index,
    {
        EventNext { chain: copy_chain(&self.chain), index: self.index }
    }
}

impl EventNext {
    fn entry(chain: Vec<u64>, index: usize) -> (r: Self)
        ensures
            r.chain == chain,
            r.index == index,
    {
        EventNext { chain, index }
    }

    /// What is to run next: the layer at hand with the rest of the chain, or
    /// the built-in behavior where the chain has ended.
    pub fn run(&self) -> (r: Layer<EventNext>)
        ensures
            match r {
                Layer::Inner(id, next) => {
                    &&& self.index < self.chain@.len()
                    &&& id == self.chain@[self.index as int]
                    &&& next.chain@ == self.chain@
                    &&& next.index == self.index + 1
                },
                Layer::BuiltIn => self.index >= self.chain@.len(),
            },
    {
        if self.index < self.chain.len() {
            let next = EventNext::entry(copy_chain(&self.chain), self.index + 1);
            Layer::Inner(self.chain[self.index], next)
        } else {
            Layer::BuiltIn
        }
    }
}

/// A copy of a chain.
pub(crate) fn copy_chain(chain: &Vec<u64>) -> (r: Vec<u64>)
    ensures
        r@ == chain@,
{
    let mut out: Vec<u64> = Vec::new();
    let mut i: usize = 0;
    while i < chain.len()
        invariant
            i <= chain@.len(),
            out@ == chain@.take(i as int),
        decreases chain@.len() - i,
    {
        out.push(chain[i]);
        assert(out@ =~= chain@.take(i + 1));
        i = i + 1;
    }
    assert(chain@.take(i as int) =~= chain@);
    out
}

/// The kernel with an event handler registered for a context. It is kept only
/// where the context's fiber is in use.
pub open spec fn heard(k: KernelView, ctx: Ctx, key: EventKey) -> KernelView {
    if is_active(k, ctx.fiber) {
        with_handler(k, ctx, key)
    } else {
        with_late_handler(k, key)
    }
}

/// The kernel with the name of a type recorded.
pub open spec fn named(k: KernelView, tag: TypeTag) -> KernelView {
    KernelView { type_names: recorded(k.type_names, tag.id, tag.name), ..k }
}

/// What registering a handler hands back.
pub open spec fn handle(k: KernelView, key: EventKey) -> HandlerId {
    HandlerId { key, id: k.next_handler as u64 }
}

impl Ctx {
    /// The event surface bound to this context's realm.
    pub fn events(&self) -> (r: Events)
        ensures
            r.realm == self.realm,
    {
        Events { realm: self.realm }
    }

    /// Registers a handler for one family. It goes when this fiber is
    /// disposed; on a fiber that is not in use it is not kept.
    fn listen(&self, kernel: &mut Kernel, key: EventKey) -> (r: HandlerId)
        requires
            old(kernel).wf(),
            old(kernel)@.next_handler < u64::MAX,
        ensures
            final(kernel).wf(),
            r == handle(old(kernel)@, key),
            final(kernel)@ == heard(old(kernel)@, *self, key),
    {
        let id = kernel.add_handler(*self, key);
        HandlerId { key, id }
    }

    /// Registers an observer for an event type, scoped to this fiber. It
    /// serves the [`Events::emit`] and [`Events::parallel`] dispatches.
    pub fn on(&self, kernel: &mut Kernel, event: TypeTag) -> (r: HandlerId)
        requires
            old(kernel).wf(),
            old(kernel)@.next_handler < u64::MAX,
        ensures
            final(kernel).wf(),
            r == handle(old(kernel)@, observers_of(event.id)),
            final(kernel)@ == heard(named(old(kernel)@, event), *self, observers_of(event.id)),
    {
        kernel.note_type(event);
        self.listen(kernel, EventKey { kind: EventKind::Observer, event: event.id, result: None })
    }

    /// Registers a decider of some kind for an event type.
    fn on_decision(
        &self,
        kernel: &mut Kernel,
        kind: EventKind,
        event: TypeTag,
        result: TypeTag,
    ) -> (r: HandlerId)
        requires
            old(kernel).wf(),
            old(kernel)@.next_handler < u64::MAX,
        ensures
            final(kernel).wf(),
            r == handle(old(kernel)@, deciders_of(kind, event.id, result.id)),
            final(kernel)@ == heard(
                named(named(old(kernel)@, event), result),
                *self,
                deciders_of(kind, event.id, result.id),
            ),
    {
        kernel.note_type(event);
        kernel.note_type(result);
        self.listen(kernel, EventKey { kind, event: event.id, result: Some(result.id) })
    }

    /// Registers a synchronous decider for an event type, scoped to this
    /// fiber. Serves [`Events::bail`].
    pub fn on_bail(&self, kernel: &mut Kernel, event: TypeTag, result: TypeTag) -> (r:
        HandlerId)
        requires
            old(kernel).wf(),
            old(kernel)@.next_handler < u64::MAX,
        ensures
            final(kernel).wf(),
            r == handle(old(kernel)@, deciders_of(EventKind::Bail, event.id, result.id)),
            final(kernel)@ == heard(
                named(named(old(kernel)@, event), result),
                *self,
                deciders_of(EventKind::Bail, event.id, result.id),
            ),
    {
        self.on_decision(kernel, EventKind::Bail, event, result)
    }

    /// Registers an asynchronous decider for an event type, scoped to this
    /// fiber. Serves [`Events::serial`].
    pub fn on_serial(&self, kernel: &mut Kernel, event: TypeTag, result: TypeTag) -> (r:
        HandlerId)
        requires
            old(kernel).wf(),
            old(kernel)@.next_handler < u64::MAX,
        ensures
            final(kernel).wf(),
            r == handle(old(kernel)@, deciders_of(EventKind::Serial, event.id, result.id)),
            final(kernel)@ == heard(
                named(named(old(kernel)@, event), result),
                *self,
                deciders_of(EventKind::Serial, event.id, result.id),
            ),
    {
        self.on_decision(kernel, EventKind::Serial, event, result)
    }

    /// Registers a waterfall layer for an event type, scoped to this fiber.
    /// Serves [`Events::waterfall`]: within a realm the first-registered
    /// layer is the outermost.
    pub fn on_waterfall(&self, kernel: &mut Kernel, event: TypeTag, result: TypeTag) -> (r:
        HandlerId)
        requires
            old(kernel).wf(),
            old(kernel)@.next_handler < u64::MAX,
        ensures
            final(kernel).wf(),
            r == handle(old(kernel)@,
                deciders_of(EventKind::Waterfall, event.id, result.id),
            ),
            final(kernel)@ == heard(
                named(named(old(kernel)@, event), result),
                *self,
                deciders_of(EventKind::Waterfall, event.id, result.id),
            ),
    {
        self.on_decision(kernel, EventKind::Waterfall, event, result)
    }

    /// The observers of this realm to notify of an event, detached.
    pub fn emit(&self, kernel: &Kernel, event: TypeId) -> (r: Vec<u64>)
        requires
            kernel.wf(),
        ensures
            r@ == dispatched(kernel@, observers_of(event), self.realm),
    {
        self.events().emit(kernel, event)
    }
}

} // verus!
