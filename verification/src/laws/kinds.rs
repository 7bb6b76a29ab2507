//! The kinds a loader knows, and the entries it has mounted.

use crate::entries::{EntrySpec, LoadError, LoadErrorView};
use crate::fiber::FiberId;
use crate::json::{Json, JsonView};
use crate::loader::{
    Action, ActionView, EntryKind, Loader, action_views, candidates, doomed, entry_pairs, removals,
};
use crate::shelf::{found, keys_of, lemma_found, lemma_found_at, lemma_shelved};
use crate::text::{precedes, texts_view};
use vstd::prelude::*;

verus! {

/// A kind is registered unless one of its name is already; then it is found
/// under its name, and every other kind is found as before.
pub proof fn law_kinds_are_registered_once(
    loader: &mut Loader,
    kind: EntryKind,
    r: Result<(), LoadError>,
    name: Seq<char>,
)
    requires
        old(loader).wf(),
        call_ensures(Loader::register_entry_kind, (loader, kind), r),
    ensures
        ({
            let (before, after) = (old(loader).spec_kinds(), final(loader).spec_kinds());
            let taken = exists|i: int|
                0 <= i < before.len() && (#[trigger] before[i]).0 == kind.spec_name();
            &&& r is Err <==> taken
            &&& r matches Err(error) ==> error@ == LoadErrorView::DuplicateKind(kind.spec_name())
            &&& r is Err ==> after == before
            &&& r is Ok ==> found(after, name) == if name == kind.spec_name() {
                Some(kind)
            } else {
                found(before, name)
            }
            &&& final(loader).spec_mounted() == old(loader).spec_mounted()
        }),
{
    let before = old(loader).spec_kinds();
    lemma_found(before, kind.spec_name());
    if let Some(value) = found(before, kind.spec_name()) {
        let i = choose|i: int|
            0 <= i < before.len() && before[i] == (kind.spec_name(), value);
        assert(before[i].0 == kind.spec_name());
    }
    lemma_shelved(before, kind.spec_name(), kind);
}

/// The names of the kinds are handed out in order, each once, and so are the
/// ids of what is mounted; an id that is handed out has a fiber, and no other
/// has.
pub proof fn law_what_a_loader_lists(
    loader: Loader,
    names: Vec<String>,
    ids: Vec<String>,
    empty: bool,
    id: &str,
    fiber: Option<FiberId>,
)
    requires
        loader.wf(),
        call_ensures(Loader::kind_names, (&loader,), names),
        call_ensures(Loader::mounted_ids, (&loader,), ids),
        call_ensures(Loader::is_empty, (&loader,), empty),
        call_ensures(Loader::fiber_of, (&loader, id), fiber),
    ensures
        names@.len() == loader.spec_kinds().len(),
        forall|i: int|
            0 <= i < names@.len() ==> (#[trigger] names@[i])@ == loader.spec_kinds()[i].0,
        ids@.len() == loader.spec_mounted().len(),
        forall|i: int|
            0 <= i < ids@.len() ==> (#[trigger] ids@[i])@ == loader.spec_mounted()[i].0,
        forall|i: int, j: int|
            0 <= i < j < names@.len() ==> precedes((#[trigger] names@[i])@, (#[trigger] names@[j])@),
        forall|i: int, j: int|
            0 <= i < j < ids@.len() ==> precedes((#[trigger] ids@[i])@, (#[trigger] ids@[j])@),
        empty <==> ids@.len() == 0,
        fiber is Some <==> exists|i: int| 0 <= i < ids@.len() && (#[trigger] ids@[i])@ == id@,
        forall|i: int|
            0 <= i < ids@.len() && (#[trigger] ids@[i])@ == id@ ==> fiber == Some(
                loader.spec_mounted()[i].1.fiber,
            ),
{
    let kinds = loader.spec_kinds();
    let mounted = loader.spec_mounted();
    assert(texts_view(names@).len() == names@.len());
    assert(texts_view(ids@).len() == ids@.len());
    assert forall|i: int| 0 <= i < names@.len() implies (#[trigger] names@[i])@ == kinds[i].0 by {
        assert(texts_view(names@)[i] == keys_of(kinds)[i]);
    }
    assert forall|i: int| 0 <= i < ids@.len() implies (#[trigger] ids@[i])@ == mounted[i].0 by {
        assert(texts_view(ids@)[i] == keys_of(mounted)[i]);
    }
    lemma_found(mounted, id@);
    if let Some(m) = found(mounted, id@) {
        let i = choose|i: int| 0 <= i < mounted.len() && mounted[i] == (id@, m);
        assert(ids@[i]@ == id@);
    }
    assert forall|i: int| 0 <= i < ids@.len() && (#[trigger] ids@[i])@ == id@ implies fiber
        == Some(mounted[i].1.fiber) by {
        lemma_found_at(mounted, i);
    }
}

/// An entry is built from the kind that it names and from its own config,
/// where it has one, or from an empty object; a kind that is not there is
/// named.
pub proof fn law_entries_are_built_from_their_kind(
    loader: Loader,
    row: EntrySpec,
    r: Result<(&EntryKind, Json), LoadError>,
)
    requires
        loader.wf(),
        row.plugin is Some,
        call_ensures(Loader::build_entry, (&loader, &row), r),
    ensures
        ({
            let kinds = loader.spec_kinds();
            let kind = row.plugin->0@;
            &&& r is Ok <==> exists|i: int| 0 <= i < kinds.len() && (#[trigger] kinds[i]).0 == kind
            &&& r matches Ok(built) ==> exists|i: int|
                0 <= i < kinds.len() && #[trigger] kinds[i] == (kind, *built.0)
            &&& r matches Ok(built) ==> match row.config {
                Some(config) => built.1@ == config@,
                None => built.1@ == JsonView::Object(Seq::empty()),
            }
            &&& r matches Err(error) ==> error@ == LoadErrorView::UsesUnknownKind(row.id@, kind)
        }),
{
    let kinds = loader.spec_kinds();
    let kind = row.plugin->0@;
    lemma_found(kinds, kind);
    if let Ok(built) = r {
        let i = choose|i: int| 0 <= i < kinds.len() && kinds[i] == (kind, *built.0);
        assert(kinds[i].0 == kind);
    }
}

// ---- actions ----

/// What a list of actions registers, disposes and takes away is what its
/// parts do, one after the other.
pub proof fn law_actions_are_taken_one_by_one(
    a: Seq<(Seq<char>, ActionView)>,
    b: Seq<(Seq<char>, ActionView)>,
    id: Seq<char>,
    action: ActionView,
)
    ensures
        candidates(a + b) == candidates(a) + candidates(b),
        doomed(a + b) == doomed(a) + doomed(b),
        removals(a + b) == removals(a) + removals(b),
        candidates(seq![(id, action)]) == match action {
            ActionView::Create(row) => seq![(row, false)],
            ActionView::Replace(row, _) => seq![(row, true)],
            _ => Seq::empty(),
        },
        doomed(seq![(id, action)]) == match action {
            ActionView::Replace(_, fiber) => seq![fiber],
            ActionView::Remove(fiber) => seq![fiber],
            _ => Seq::empty(),
        },
        removals(seq![(id, action)]) == match action {
            ActionView::Remove(_) => seq![id],
            _ => Seq::empty(),
        },
    decreases b.len(),
{
    let one = seq![(id, action)];
    assert(one.drop_last() =~= Seq::<(Seq<char>, ActionView)>::empty());
    assert(one.last() == (id, action));
    let nothing = Seq::<(Seq<char>, ActionView)>::empty();
    assert(candidates(nothing).len() == 0 && doomed(nothing).len() == 0 && removals(nothing).len()
        == 0);
    assert(candidates(one) =~= match action {
        ActionView::Create(row) => seq![(row, false)],
        ActionView::Replace(row, _) => seq![(row, true)],
        _ => Seq::empty(),
    });
    assert(doomed(one) =~= match action {
        ActionView::Replace(_, fiber) => seq![fiber],
        ActionView::Remove(fiber) => seq![fiber],
        _ => Seq::empty(),
    });
    assert(removals(one) =~= match action {
        ActionView::Remove(_) => seq![id],
        _ => Seq::empty(),
    });
    if b.len() > 0 {
        assert((a + b).drop_last() =~= a + b.drop_last());
        assert((a + b).last() == b.last());
        law_actions_are_taken_one_by_one(a, b.drop_last(), id, action);
        assert(candidates(a + b) =~= candidates(a) + candidates(b));
        assert(doomed(a + b) =~= doomed(a) + doomed(b));
        assert(removals(a + b) =~= removals(a) + removals(b));
    } else {
        assert(a + b =~= a);
        assert(candidates(a) + candidates(b) =~= candidates(a));
        assert(doomed(a) + doomed(b) =~= doomed(a));
        assert(removals(a) + removals(b) =~= removals(a));
    }
}

/// The functions that take a plan apart do just that.
pub proof fn law_taking_a_plan_apart(
    actions: Vec<(String, Action)>,
    entries: Vec<(EntrySpec, bool)>,
    fibers: Vec<FiberId>,
    ids: Vec<String>,
)
    requires
        call_ensures(Loader::candidates, (&actions,), entries),
        call_ensures(Loader::doomed, (&actions,), fibers),
        call_ensures(Loader::removals, (&actions,), ids),
    ensures
        entry_pairs(entries@) == candidates(action_views(actions@)),
        fibers@ == doomed(action_views(actions@)),
        texts_view(ids@) == removals(action_views(actions@)),
{
}

} // verus!
