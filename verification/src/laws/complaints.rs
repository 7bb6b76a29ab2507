//! What errors say.

use crate::entries::{LoadError, LoadErrorView};
use crate::events::EventAggregate;
use crate::fiber::text_view;
use crate::laws::snapshots::{holds, lemma_holds};
use crate::laws::texts::{lemma_decimal, number};
use crate::text::decimal;
use vstd::prelude::*;

verus! {

/// The id, or the name, that an error is about.
pub open spec fn subject(error: LoadErrorView) -> Option<Seq<char>> {
    match error {
        LoadErrorView::GroupConfig(id) => Some(id),
        LoadErrorView::DuplicateId(id) => Some(id),
        LoadErrorView::UnknownParent(id, _) => Some(id),
        LoadErrorView::ParentNotGroup(id, _) => Some(id),
        LoadErrorView::ParentCycle(id) => Some(id),
        LoadErrorView::UnknownKind(id, _) => Some(id),
        LoadErrorView::UsesUnknownKind(id, _) => Some(id),
        LoadErrorView::InvalidConfig(id, _) => Some(id),
        LoadErrorView::BuildFailed(id, _) => Some(id),
        LoadErrorView::DuplicateKind(name) => Some(name),
        _ => None,
    }
}

/// What else an error names.
pub open spec fn object(error: LoadErrorView) -> Option<Seq<char>> {
    match error {
        LoadErrorView::UnknownParent(_, parent) => Some(parent),
        LoadErrorView::ParentNotGroup(_, parent) => Some(parent),
        LoadErrorView::UsesUnknownKind(_, kind) => Some(kind),
        _ => None,
    }
}

/// The reason that was given for an error by what caused it.
pub open spec fn reason(error: LoadErrorView) -> Option<Seq<char>> {
    match error {
        LoadErrorView::InvalidDocument(reason) => Some(reason),
        LoadErrorView::InvalidRow(reason) => Some(reason),
        LoadErrorView::InvalidConfig(_, reason) => Some(reason),
        LoadErrorView::BuildFailed(_, reason) => Some(reason),
        _ => None,
    }
}

/// What an error prints as names the entry or kind it is about, and what else
/// is wrong with it; the reason it was caused by is its cause, as it was given,
/// and a kind that is unknown is named there.
pub proof fn law_errors_name_what_they_are_about(
    error: LoadError,
    text: String,
    cause: Option<String>,
)
    requires
        call_ensures(LoadError::to_string, (&error,), text),
        call_ensures(LoadError::cause, (&error,), cause),
    ensures
        subject(error@) matches Some(id) ==> holds(text@, id),
        object(error@) matches Some(other) ==> holds(text@, other),
        reason(error@) is Some ==> text_view(cause) == reason(error@),
        error@ matches LoadErrorView::UnknownKind(_, kind) ==> cause is Some && holds(
            cause->0@,
            kind,
        ),
        reason(error@) is None && !(error@ is UnknownKind) ==> cause is None,
{
    match error@ {
        LoadErrorView::GroupConfig(id) => {
            lemma_holds(text@, id, "group \""@, "\" must not carry a config"@);
        },
        LoadErrorView::DuplicateId(id) => {
            lemma_holds(text@, id, "duplicate entry id \""@, "\""@);
        },
        LoadErrorView::UnknownParent(id, parent) => {
            let (a, b, c) = ("entry \""@, "\" references unknown parent \""@, "\""@);
            assert(text@ =~= a + id + (b + parent + c));
            lemma_holds(text@, id, a, b + parent + c);
            lemma_holds(text@, parent, a + id + b, c);
        },
        LoadErrorView::ParentNotGroup(id, parent) => {
            let (a, b, c) = (
                "entry \""@,
                "\" declares \""@,
                "\" as parent, but only groups can parent"@,
            );
            assert(text@ =~= a + id + (b + parent + c));
            lemma_holds(text@, id, a, b + parent + c);
            lemma_holds(text@, parent, a + id + b, c);
        },
        LoadErrorView::ParentCycle(id) => {
            lemma_holds(text@, id, "entry \""@, "\" sits on a parent cycle"@);
        },
        LoadErrorView::UnknownKind(id, kind) => {
            lemma_holds(text@, id, "entry \""@, "\" is invalid"@);
            lemma_holds(cause->0@, kind, "unknown kind \""@, "\""@);
        },
        LoadErrorView::UsesUnknownKind(id, kind) => {
            let (a, b, c) = ("entry \""@, "\" uses unknown kind \""@, "\""@);
            assert(text@ =~= a + id + (b + kind + c));
            lemma_holds(text@, id, a, b + kind + c);
            lemma_holds(text@, kind, a + id + b, c);
        },
        LoadErrorView::InvalidConfig(id, _) => {
            lemma_holds(text@, id, "entry \""@, "\" is invalid"@);
        },
        LoadErrorView::BuildFailed(id, _) => {
            lemma_holds(text@, id, "entry \""@, "\" failed to build"@);
        },
        LoadErrorView::DuplicateKind(name) => {
            lemma_holds(text@, name, "entry kind \""@, "\" is already registered"@);
        },
        _ => {},
    }
}

/// The failure of a dispatch says how many handlers panicked.
pub proof fn law_failures_say_how_many_panicked(failure: EventAggregate, text: String)
    requires
        call_ensures(EventAggregate::to_string, (&failure,), text),
    ensures
        exists|digits: Seq<char>| #[trigger]
            number(digits) == failure.errors@.len() && text@ == digits
                + " event handler(s) panicked"@,
{
    let digits = decimal(failure.errors@.len());
    lemma_decimal(failure.errors@.len());
    assert(number(digits) == failure.errors@.len());
}

} // verus!
