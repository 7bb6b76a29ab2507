//! How the setup of a plugin ends.

use crate::fiber::{FiberId, text_view};
use crate::kernel::Kernel;
use crate::model::{KernelView, fresh_kernel, is_active, setup_done, setup_failed};
use vstd::prelude::*;

verus! {

/// What came of running a plugin's setup.
#[derive(Debug)]
pub enum Outcome {
    /// It ended well.
    Done,
    /// It returned an error, with this text.
    Failed(String),
    /// It panicked, with this message.
    Panicked(String),
}

/// Why a setup failed, if it did.
pub open spec fn failure_of(outcome: Outcome) -> Option<Seq<char>> {
    match outcome {
        Outcome::Done => None,
        Outcome::Failed(reason) => Some(reason@),
        Outcome::Panicked(message) => Some("plugin setup panicked: "@ + message@),
    }
}

impl Outcome {
    /// Why the setup failed, if it did.
    pub fn failure(self) -> (r: Option<String>)
        ensures
            text_view(r) == failure_of(self),
    {
        match self {
            Outcome::Done => None,
            Outcome::Failed(reason) => Some(reason),
            Outcome::Panicked(message) => {
                let mut reason = "plugin setup panicked: ".to_owned();
                reason.append(message.as_str());
                Some(reason)
            },
        }
    }
}

/// The kernel once a running setup has ended.
pub open spec fn setup_ended(k: KernelView, id: FiberId, outcome: Outcome) -> KernelView {
    match failure_of(outcome) {
        Some(reason) => setup_failed(k, id, reason),
        None => setup_done(k, id),
    }
}

impl Kernel {
    /// Reports how a running setup ended. A fiber whose setup ended well
    /// becomes ready. An error or a panic marks the fiber failed: the reason
    /// is kept and its disposal starts, which the result says; that disposal
    /// is then to be brought to its end. In any case the plugins that waited
    /// for this one to settle may be able to start now. A fiber whose
    /// disposal has started in the meantime stays as it is.
    pub fn end_setup(&mut self, id: FiberId, outcome: Outcome) -> (r: bool)
        requires
            old(self).wf(),
        ensures
            final(self).wf(),
            r == (failure_of(outcome) is Some && is_active(old(self)@, id) && old(
                self,
            )@.fibers[id.0 as int].setup),
            final(self)@ == setup_ended(old(self)@, id, outcome),
    {
        match outcome.failure() {
            Some(reason) => self.fail_setup(id, reason),
            None => {
                self.finish_setup(id);
                false
            },
        }
    }
}

impl Default for Kernel {
    fn default() -> (r: Self)
        ensures
            r.wf(),
            r@ == fresh_kernel(),
    {
        Kernel::new()
    }
}

} // verus!
