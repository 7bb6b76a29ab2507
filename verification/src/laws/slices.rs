//! In which order a dispatch goes through the realms below its own.

use crate::context::{RealmId, RealmView, chain, kids, parent_of};
use crate::laws::asking::lemma_kids;
use crate::laws::dispatch::{depth, has_parent_in, law_the_slice_is_vertical, lemma_next_level};
use crate::model::tree_ok;
use crate::pipeline::{levels, next_level, slice};
use vstd::prelude::*;

verus! {

/// Whether, of two realms in a list, the parents stand in the list in the same
/// order, or are one and the realms in the order they were made.
pub open spec fn breadth_first(realms: Seq<RealmView>, all: Seq<RealmId>, i: int, j: int) -> bool {
    exists|p: int, q: int|
        {
            &&& 0 <= p <= q < all.len()
            &&& parent_of(realms, all[i]) == Some(#[trigger] all[p])
            &&& parent_of(realms, all[j]) == Some(#[trigger] all[q])
            &&& p == q ==> all[i].0 < all[j].0
        }
}

/// The next level follows the level above it.
proof fn lemma_follows_the_level(
    realms: Seq<RealmView>,
    level: Seq<RealmId>,
    a: int,
    b: int,
) -> (r: (int, int))
    requires
        tree_ok(realms),
        realms.len() <= u32::MAX,
        0 <= a < b < next_level(realms, level).len(),
    ensures
        0 <= r.0 <= r.1 < level.len(),
        parent_of(realms, next_level(realms, level)[a]) == Some(level[r.0]),
        parent_of(realms, next_level(realms, level)[b]) == Some(level[r.1]),
        r.0 == r.1 ==> next_level(realms, level)[a].0 < next_level(realms, level)[b].0,
    decreases level.len(),
{
    let front = level.drop_last();
    let last = level.last();
    let before = next_level(realms, front);
    let here = kids(realms, last);
    let all = next_level(realms, level);
    assert(all == before + here);
    lemma_kids(realms, last, realms.len());
    lemma_next_level(realms, front);
    if b < before.len() {
        let (p, q) = lemma_follows_the_level(realms, front, a, b);
        assert(front[p] == level[p] && front[q] == level[q]);
        (p, q)
    } else {
        let y = here[b - before.len()];
        assert(all[b] == y);
        assert(parent_of(realms, y) == Some(last));
        if a < before.len() {
            assert(before.contains(before[a]));
            assert(has_parent_in(realms, before[a], front));
            let parent = parent_of(realms, before[a])->0;
            let p = choose|p: int| 0 <= p < front.len() && front[p] == parent;
            assert(level[p] == parent);
            (p, level.len() - 1)
        } else {
            let x = here[a - before.len()];
            assert(all[a] == x);
            assert(parent_of(realms, x) == Some(last));
            (level.len() - 1, level.len() - 1)
        }
    }
}

/// Everything in a level that is `d` deep has its children `d + 1` deep.
proof fn lemma_one_deeper(realms: Seq<RealmView>, level: Seq<RealmId>, d: nat, i: int)
    requires
        realms.len() <= u32::MAX,
        forall|a: int| 0 <= a < level.len() ==> depth(realms, #[trigger] level[a]) == d,
        0 <= i < next_level(realms, level).len(),
    ensures
        depth(realms, next_level(realms, level)[i]) == d + 1,
{
    let x = next_level(realms, level)[i];
    lemma_next_level(realms, level);
    assert(next_level(realms, level).contains(x));
    assert(has_parent_in(realms, x, level));
    let parent = parent_of(realms, x)->0;
    let a = choose|a: int| 0 <= a < level.len() && level[a] == parent;
    assert(depth(realms, level[a]) == d);
    assert(chain(realms, x) == seq![x] + chain(realms, parent));
}

proof fn lemma_levels_follow(
    realms: Seq<RealmView>,
    level: Seq<RealmId>,
    n: nat,
    d: nat,
    i: int,
    j: int,
)
    requires
        tree_ok(realms),
        realms.len() <= u32::MAX,
        forall|a: int| 0 <= a < level.len() ==> depth(realms, #[trigger] level[a]) == d,
        0 <= i < j < levels(realms, level, n).len(),
        depth(realms, levels(realms, level, n)[i]) == depth(realms, levels(realms, level, n)[j]),
        depth(realms, levels(realms, level, n)[i]) > d,
    ensures
        breadth_first(realms, levels(realms, level, n), i, j),
    decreases n,
{
    let all = levels(realms, level, n);
    if n == 0 {
        assert(depth(realms, level[i]) == d);
    } else {
        let m = (n - 1) as nat;
        let below = next_level(realms, level);
        let rest = levels(realms, below, m);
        let k = level.len() as int;
        assert(all == level + rest);
        if i < k {
            assert(depth(realms, level[i]) == d);
        } else {
            assert(all[i] == rest[i - k] && all[j] == rest[j - k]);
            assert forall|a: int| 0 <= a < below.len() implies depth(realms, #[trigger] below[a])
                == d + 1 by {
                lemma_one_deeper(realms, level, d, a);
            }
            lemma_starts_with(realms, below, m);
            if depth(realms, all[i]) == d + 1 {
                lemma_shallow_is_first(realms, below, m, d + 1, i - k);
                lemma_shallow_is_first(realms, below, m, d + 1, j - k);
                let (p, q) = lemma_follows_the_level(realms, level, i - k, j - k);
                assert(all[p] == level[p] && all[q] == level[q]);
                assert(breadth_first(realms, all, i, j));
            } else {
                lemma_levels_follow(realms, below, m, d + 1, i - k, j - k);
                let (p, q) = choose|p: int, q: int|
                    {
                        &&& 0 <= p <= q < rest.len()
                        &&& parent_of(realms, rest[i - k]) == Some(#[trigger] rest[p])
                        &&& parent_of(realms, rest[j - k]) == Some(#[trigger] rest[q])
                        &&& p == q ==> rest[i - k].0 < rest[j - k].0
                    };
                assert(all[p + k] == rest[p] && all[q + k] == rest[q]);
                assert(breadth_first(realms, all, i, j));
            }
        }
    }
}

/// Levels start with the first.
proof fn lemma_starts_with(realms: Seq<RealmView>, level: Seq<RealmId>, n: nat)
    ensures
        level.is_prefix_of(levels(realms, level, n)),
{
    assert(levels(realms, level, n).subrange(0, level.len() as int) =~= level);
}

/// What is no deeper than a level stands in it.
proof fn lemma_shallow_is_first(
    realms: Seq<RealmView>,
    level: Seq<RealmId>,
    n: nat,
    d: nat,
    i: int,
)
    requires
        realms.len() <= u32::MAX,
        forall|a: int| 0 <= a < level.len() ==> depth(realms, #[trigger] level[a]) == d,
        0 <= i < levels(realms, level, n).len(),
        depth(realms, levels(realms, level, n)[i]) <= d,
    ensures
        i < level.len(),
        levels(realms, level, n)[i] == level[i],
    decreases n,
{
    if n > 0 {
        let below = next_level(realms, level);
        let rest = levels(realms, below, (n - 1) as nat);
        let all = levels(realms, level, n);
        assert(all == level + rest);
        if i >= level.len() {
            assert(all[i] == rest[i - level.len()]);
            assert forall|a: int| 0 <= a < below.len() implies depth(realms, #[trigger] below[a])
                == d + 1 by {
                lemma_one_deeper(realms, level, d, a);
            }
            lemma_shallow_is_first(realms, below, (n - 1) as nat, d + 1, i - level.len());
            lemma_one_deeper(realms, level, d, i - level.len());
        }
    }
}

/// The realms below a realm come level by level, breadth first: of two on the
/// same level the one whose parent comes first comes first, and of two with
/// the same parent the one that was made first.
pub proof fn law_slices_go_breadth_first(realms: Seq<RealmView>, realm: RealmId, i: int, j: int)
    requires
        tree_ok(realms),
        realms.len() <= u32::MAX,
        realm.0 < realms.len(),
        0 <= i < j < slice(realms, realm).len(),
        depth(realms, slice(realms, realm)[i]) == depth(realms, slice(realms, realm)[j]),
        depth(realms, slice(realms, realm)[i]) > depth(realms, realm),
    ensures
        breadth_first(realms, slice(realms, realm), i, j),
{
    let all = slice(realms, realm);
    let up = chain(realms, realm).reverse().drop_last();
    let level = seq![realm];
    let down = levels(realms, level, realms.len());
    let k = up.len() as int;
    assert(all == up + down);
    lemma_starts_with(realms, level, realms.len());
    assert(down[0] == level[0]);
    assert(all[k] == realm);
    law_the_slice_is_vertical(realms, realm);
    if i < k {
        assert(depth(realms, all[i]) <= depth(realms, all[k]));
    }
    assert(all[i] == down[i - k] && all[j] == down[j - k]);
    lemma_levels_follow(realms, level, realms.len(), depth(realms, realm), i - k, j - k);
    let (p, q) = choose|p: int, q: int|
        {
            &&& 0 <= p <= q < down.len()
            &&& parent_of(realms, down[i - k]) == Some(#[trigger] down[p])
            &&& parent_of(realms, down[j - k]) == Some(#[trigger] down[q])
            &&& p == q ==> down[i - k].0 < down[j - k].0
        };
    assert(all[p + k] == down[p] && all[q + k] == down[q]);
}

/// The realms above a realm come from the top down, each right before the
/// realm on the way to it, and the realm itself behind them.
pub proof fn law_slices_start_at_the_top(realms: Seq<RealmView>, realm: RealmId, i: int)
    requires
        0 <= i < chain(realms, realm).len(),
    ensures
        ({
            let up = chain(realms, realm);
            slice(realms, realm).len() >= up.len() && slice(realms, realm)[i] == up[up.len() - 1
                - i]
        }),
{
    let up = chain(realms, realm);
    let level = seq![realm];
    let down = levels(realms, level, realms.len());
    lemma_starts_with(realms, level, realms.len());
    assert(down[0] == level[0]);
    assert(up[0] == realm);
    assert(slice(realms, realm) == up.reverse().drop_last() + down);
}

} // verus!
