//! Facts on sequences.

use crate::fiber::FiberId;
use vstd::prelude::*;

verus! {

/// Filtering one element more.
pub proof fn lemma_filter_step<A>(s: Seq<A>, i: int, keep: spec_fn(A) -> bool)
    requires
        0 <= i < s.len(),
    ensures
        s.take(i + 1).filter(keep) == (if keep(s[i]) {
            s.take(i).filter(keep).push(s[i])
        } else {
            s.take(i).filter(keep)
        }),
{
    reveal(Seq::filter);
    assert(s.take(i + 1).drop_last() =~= s.take(i));
    assert(s.take(i + 1).last() == s[i]);
}

/// The first `0` elements, filtered.
pub proof fn lemma_filter_none<A>(s: Seq<A>, keep: spec_fn(A) -> bool)
    ensures
        s.take(0).filter(keep) == Seq::<A>::empty(),
{
    reveal(Seq::filter);
    assert(s.take(0).filter(keep) =~= Seq::<A>::empty());
}

/// A filtered sequence holds what was kept, and nothing else.
pub proof fn lemma_filter_contains<A>(s: Seq<A>, keep: spec_fn(A) -> bool)
    ensures
        forall|x: A| #[trigger] s.filter(keep).contains(x) <==> s.contains(x) && keep(x),
{
    broadcast use vstd::seq_lib::group_filter_ensures;
    assert forall|x: A| #[trigger] s.filter(keep).contains(x) implies s.contains(x) && keep(x) by {
        lemma_filter_origin(s, keep);
        let i = choose|i: int| 0 <= i < s.filter(keep).len() && s.filter(keep)[i] == x;
        assert(s.contains(s.filter(keep)[i]));
    }
}

/// What a filtered sequence holds was there before.
pub proof fn lemma_filter_origin<A>(s: Seq<A>, keep: spec_fn(A) -> bool)
    ensures
        forall|i: int| 0 <= i < s.filter(keep).len() ==> s.contains(#[trigger] s.filter(keep)[i]),
    decreases s.len(),
{
    reveal(Seq::filter);
    if s.len() > 0 {
        lemma_filter_origin(s.drop_last(), keep);
        let front = s.drop_last().filter(keep);
        assert forall|i: int| 0 <= i < s.filter(keep).len() implies s.contains(
            #[trigger] s.filter(keep)[i],
        ) by {
            if i < front.len() {
                assert(s.drop_last().contains(front[i]));
                let j = choose|j: int| 0 <= j < s.drop_last().len() && s.drop_last()[j] == front[i];
                assert(s[j] == front[i]);
            } else {
                assert(s.filter(keep)[i] == s.last());
            }
        }
    }
}

/// A relation that holds between every earlier and every later element holds
/// in the filtered sequence as well.
pub proof fn lemma_filter_ordered<A>(
    s: Seq<A>,
    keep: spec_fn(A) -> bool,
    before: spec_fn(A, A) -> bool,
)
    requires
        forall|i: int, j: int| 0 <= i < j < s.len() ==> #[trigger] before(s[i], s[j]),
    ensures
        forall|i: int, j: int|
            0 <= i < j < s.filter(keep).len() ==> #[trigger] before(
                s.filter(keep)[i],
                s.filter(keep)[j],
            ),
    decreases s.len(),
{
    reveal(Seq::filter);
    if s.len() > 0 {
        let front = s.drop_last();
        assert forall|i: int, j: int| 0 <= i < j < front.len() implies #[trigger] before(
            front[i],
            front[j],
        ) by {
            assert(before(s[i], s[j]));
        }
        lemma_filter_ordered(front, keep, before);
        lemma_filter_origin(front, keep);
        assert forall|i: int, j: int| 0 <= i < j < s.filter(keep).len() implies #[trigger] before(
            s.filter(keep)[i],
            s.filter(keep)[j],
        ) by {
            if j < front.filter(keep).len() {
                assert(before(front.filter(keep)[i], front.filter(keep)[j]));
            } else {
                assert(front.contains(front.filter(keep)[i]));
                let a = choose|a: int| 0 <= a < front.len() && front[a] == front.filter(keep)[i];
                assert(before(s[a], s[s.len() - 1]));
            }
        }
    }
}

/// Filtering keeps a sequence without duplicates.
pub proof fn lemma_filter_unique<A>(s: Seq<A>, keep: spec_fn(A) -> bool)
    requires
        s.no_duplicates(),
    ensures
        s.filter(keep).no_duplicates(),
{
    let differ = |a: A, b: A| a != b;
    lemma_filter_ordered(s, keep, differ);
    assert forall|i: int, j: int|
        0 <= i < s.filter(keep).len() && 0 <= j < s.filter(keep).len() && i != j implies s.filter(
        keep,
    )[i] != s.filter(keep)[j] by {
        if i < j {
            assert(differ(s.filter(keep)[i], s.filter(keep)[j]));
        } else {
            assert(differ(s.filter(keep)[j], s.filter(keep)[i]));
        }
    }
}

/// The fibers among the first `n` that satisfy `p`, in ascending order.
pub open spec fn ids_where(n: nat, p: spec_fn(FiberId) -> bool) -> Seq<FiberId>
    decreases n,
{
    if n == 0 {
        Seq::empty()
    } else {
        let front = ids_where((n - 1) as nat, p);
        let last = FiberId((n - 1) as u32);
        if p(last) {
            front.push(last)
        } else {
            front
        }
    }
}

/// `ids_where` holds exactly the fibers that satisfy `p`, each once, in
/// ascending order.
pub proof fn lemma_ids_where(n: nat, p: spec_fn(FiberId) -> bool)
    requires
        n <= u32::MAX,
    ensures
        forall|id: FiberId| #[trigger] ids_where(n, p).contains(id) <==> id.0 < n && p(id),
        forall|i: int, j: int|
            0 <= i < j < ids_where(n, p).len() ==> (#[trigger] ids_where(n, p)[i]).0 < (
            #[trigger] ids_where(n, p)[j]).0,
    decreases n,
{
    if n > 0 {
        let m = (n - 1) as nat;
        lemma_ids_where(m, p);
        let front = ids_where(m, p);
        let last = FiberId(m as u32);
        let all = ids_where(n, p);
        assert forall|id: FiberId| #[trigger] all.contains(id) <==> id.0 < n && p(id) by {
            if all.contains(id) {
                let i = choose|i: int| 0 <= i < all.len() && all[i] == id;
                if i < front.len() {
                    assert(front[i] == id);
                    assert(front.contains(id));
                }
            }
            if id.0 < n && p(id) {
                if id.0 < m {
                    assert(front.contains(id));
                    let i = choose|i: int| 0 <= i < front.len() && front[i] == id;
                    assert(all[i] == id);
                } else {
                    assert(id == last);
                    assert(all[front.len() as int] == id);
                }
            }
        }
        assert forall|i: int, j: int| 0 <= i < j < all.len() implies (#[trigger] all[i]).0 < (
        #[trigger] all[j]).0 by {
            if j == front.len() {
                assert(front.contains(front[i]));
            }
        }
    }
}

/// Filtering one element more, at the front.
pub proof fn lemma_filter_front<A>(s: Seq<A>, i: int, keep: spec_fn(A) -> bool)
    requires
        0 <= i < s.len(),
    ensures
        s.skip(i).filter(keep) == (if keep(s[i]) {
            seq![s[i]] + s.skip(i + 1).filter(keep)
        } else {
            s.skip(i + 1).filter(keep)
        }),
{
    let one = seq![s[i]];
    assert(s.skip(i) =~= one + s.skip(i + 1));
    Seq::filter_distributes_over_add(one, s.skip(i + 1), keep);
    assert(one.filter(keep) =~= (if keep(s[i]) {
        one
    } else {
        Seq::empty()
    })) by {
        reveal(Seq::filter);
        assert(one.drop_last() =~= Seq::<A>::empty());
        assert(one.drop_last().filter(keep) =~= Seq::<A>::empty());
    }
    assert(Seq::<A>::empty() + s.skip(i + 1).filter(keep) =~= s.skip(i + 1).filter(keep));
}

} // verus!
