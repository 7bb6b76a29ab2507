//! Fibers: the units of lifecycle, and what each has to clean up.

use crate::context::{RealmId, ServiceId};
use crate::events::EventKey;
use crate::plugin::Dependency;
use crate::service::ServiceKey;
use std::any::TypeId;
use vstd::prelude::*;

verus! {

/// The number of a fiber. Fibers are numbered as they are made.
#[derive(Debug, Clone, Copy, PartialEq, Eq, Structural, PartialOrd, Ord, Hash)]
pub struct FiberId(pub u32);

impl FiberId {
    /// The fiber every other fiber descends from.
    pub fn root() -> (r: Self)
        ensures
            r == FiberId(0),
    {
        FiberId(0)
    }

    /// Whether this is the root fiber.
    pub fn is_root(&self) -> (r: bool)
        ensures
            r == (*self == FiberId(0)),
    {
        self.0 == 0
    }
}

/// Where a fiber is in its lifecycle.
#[derive(Debug, Clone, Copy, PartialEq, Eq, Structural)]
pub enum State {
    /// Waiting for its dependencies.
    Pending,
    /// Its setup is running.
    Starting,
    /// Its setup has finished.
    Ready,
    /// Its setup failed; what it had registered has been cleaned up.
    Failed,
    /// It was disposed.
    Disposed,
}

/// How far the disposal of a fiber has come.
#[derive(Debug, Clone, Copy, PartialEq, Eq, Structural)]
pub enum Stage {
    /// Its children go first.
    Children,
    /// Its tasks are to be stopped.
    Tasks,
    /// Its tasks were told to stop and are being waited for.
    Joining,
    /// What it registered is cleaned up, last in first out.
    Drain,
}

/// Whether a fiber is in use, being disposed, or gone.
#[derive(Debug, Clone, Copy, PartialEq, Eq, Structural)]
pub enum Phase {
    /// Nothing has started to dispose it.
    Active,
    /// Disposal has started and has come to this stage; the fiber will end in
    /// this state.
    Disposing(Stage, State),
    /// Disposal has finished.
    Gone,
}

/// A task that a fiber keeps track of.
#[derive(Debug, Clone, Copy, PartialEq, Eq, Structural)]
pub struct Task {
    pub id: u64,
    /// Told to stop and waited for at disposal, instead of cut off.
    pub graceful: bool,
}

/// One thing to clean up when a fiber is disposed.
#[derive(Debug, Clone, Copy)]
pub enum Disposable {
    /// A cleanup to run.
    Effect(u64),
    /// An event handler to take out.
    Handler(EventKey, u64),
    /// A pipeline middleware to take out.
    Middleware(TypeId, u64),
    /// A service to take back.
    Service(RealmId, ServiceKey, ServiceId),
}

/// The things to clean up, in the order in which they were registered.
pub struct DisposableList {
    pub inner: Vec<Disposable>,
}

impl View for DisposableList {
    type V = Seq<Disposable>;

    open spec fn view(&self) -> Seq<Disposable> {
        self.inner@
    }
}

impl DisposableList {
    /// A list of nothing.
    pub fn new() -> (r: Self)
        ensures
            r@ == Seq::<Disposable>::empty(),
    {
        DisposableList { inner: Vec::new() }
    }

    /// Adds one more thing to clean up; it will be the first one done.
    pub fn defer(&mut self, disposable: Disposable)
        ensures
            final(self)@ == old(self)@.push(disposable),
    {
        self.inner.push(disposable);
    }

    /// What is to be cleaned up next: the last thing added.
    pub fn last(&self) -> (r: Option<Disposable>)
        ensures
            r == (if self@.len() == 0 {
                None
            } else {
                Some(self@.last())
            }),
    {
        let n = self.inner.len();
        if n == 0 {
            None
        } else {
            Some(self.inner[n - 1])
        }
    }

    /// Takes out everything, in the order in which it is to be cleaned up:
    /// last in, first out.
    pub fn drain(&mut self) -> (r: Vec<Disposable>)
        ensures
            final(self)@ == Seq::<Disposable>::empty(),
            r@ == old(self)@.reverse(),
    {
        let mut out: Vec<Disposable> = Vec::new();
        let ghost all = self@;
        while self.inner.len() > 0
            invariant
                out@ + self@.reverse() == all.reverse(),
            decreases self@.len(),
        {
            let ghost before = self@;
            let ghost done = out@;
            if let Some(next) = self.inner.pop() {
                out.push(next);
                assert(before.reverse() =~= seq![next] + self@.reverse());
                assert(out@ + self@.reverse() =~= done + before.reverse());
            }
        }
        assert(self@ =~= Seq::<Disposable>::empty());
        assert(out@ =~= all.reverse());
        out
    }
}

/// One fiber.
pub struct Fiber {
    pub id: FiberId,
    /// The fiber it hangs off; the root's parent is the root itself.
    pub parent: FiberId,
    pub realm: RealmId,
    pub name: String,
    pub state: State,
    pub phase: Phase,
    /// Whether its setup is running.
    pub setup: bool,
    /// Why its setup failed.
    pub failure: Option<String>,
    pub tasks: Vec<Task>,
    pub disposable: DisposableList,
    /// What its plugin depends on.
    pub inject: Vec<Dependency>,
    /// What its plugin declared to provide.
    pub declares: Vec<ServiceKey>,
}

/// What a fiber is.
#[verifier::ext_equal]
pub struct FiberView {
    pub parent: FiberId,
    pub realm: RealmId,
    pub name: Seq<char>,
    pub state: State,
    pub phase: Phase,
    pub setup: bool,
    pub failure: Option<Seq<char>>,
    pub tasks: Seq<Task>,
    pub disposables: Seq<Disposable>,
    pub inject: Seq<Dependency>,
    pub declares: Seq<ServiceKey>,
}

/// The characters of an optional text.
pub open spec fn text_view(text: Option<String>) -> Option<Seq<char>> {
    match text {
        Some(text) => Some(text@),
        None => None,
    }
}

impl View for Fiber {
    type V = FiberView;

    open spec fn view(&self) -> FiberView {
        FiberView {
            parent: self.parent,
            realm: self.realm,
            name: self.name@,
            state: self.state,
            phase: self.phase,
            setup: self.setup,
            failure: text_view(self.failure),
            tasks: self.tasks@,
            disposables: self.disposable@,
            inject: self.inject@,
            declares: self.declares@,
        }
    }
}

/// A fiber that has registered nothing yet, in the given state and phase.
pub open spec fn fresh_fiber(
    parent: FiberId,
    realm: RealmId,
    name: Seq<char>,
    state: State,
    phase: Phase,
    inject: Seq<Dependency>,
    declares: Seq<ServiceKey>,
) -> FiberView {
    FiberView {
        parent,
        realm,
        name,
        state,
        phase,
        setup: false,
        failure: None,
        tasks: Seq::empty(),
        disposables: Seq::empty(),
        inject,
        declares,
    }
}

impl Fiber {
    /// A pending fiber that has registered nothing.
    pub fn new(id: FiberId, parent: FiberId, realm: RealmId, name: String) -> (r: Self)
        ensures
            r.id == id,
            r@ == fresh_fiber(
                parent,
                realm,
                name@,
                State::Pending,
                Phase::Active,
                Seq::empty(),
                Seq::empty(),
            ),
    {
        Fiber {
            id,
            parent,
            realm,
            name,
            state: State::Pending,
            phase: Phase::Active,
            setup: false,
            failure: None,
            tasks: Vec::new(),
            disposable: DisposableList::new(),
            inject: Vec::new(),
            declares: Vec::new(),
        }
    }

    /// Marks the fiber failed.
    pub fn fail(&mut self)
        ensures
            final(self).id == old(self).id,
            final(self)@ == (FiberView { state: State::Failed, ..old(self)@ }),
    {
        self.state = State::Failed;
    }

    /// Registers something to clean up when the fiber is disposed.
    pub fn effect(&mut self, disposable: Disposable)
        ensures
            final(self).id == old(self).id,
            final(self)@ == (FiberView {
                disposables: old(self)@.disposables.push(disposable),
                ..old(self)@
            }),
    {
        self.disposable.defer(disposable);
    }

    /// Ends the fiber: hands out what is to be cleaned up, last in first
    /// out, and leaves the fiber disposed.
    pub fn dispose(&mut self) -> (r: Vec<Disposable>)
        ensures
            final(self).id == old(self).id,
            r@ == old(self)@.disposables.reverse(),
            final(self)@ == (FiberView {
                disposables: Seq::empty(),
                state: State::Disposed,
                ..old(self)@
            }),
    {
        let out = self.disposable.drain();
        self.state = State::Disposed;
        out
    }
}

} // verus!
