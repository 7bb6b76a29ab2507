//! A map from texts, kept in the order of its keys.

use crate::text::{
    lemma_precedes_irreflexive, lemma_precedes_total, lemma_precedes_transitive, lemma_texts_push,
    precedes, same_text, text_before, texts_view,
};
use vstd::prelude::*;

verus! {

/// A map from texts to values, in the order of the texts.
pub struct Shelf<V> {
    rows: Vec<(String, V)>,
}

/// Whether the rows are in the order of their keys, each key once.
pub open spec fn in_line<V>(rows: Seq<(Seq<char>, V)>) -> bool {
    forall|i: int, j: int|
        0 <= i < j < rows.len() ==> precedes((#[trigger] rows[i]).0, (#[trigger] rows[j]).0)
}

/// The value under a key.
pub open spec fn found<V>(rows: Seq<(Seq<char>, V)>, key: Seq<char>) -> Option<V>
    decreases rows.len(),
{
    if rows.len() == 0 {
        None
    } else if rows.last().0 == key {
        Some(rows.last().1)
    } else {
        found(rows.drop_last(), key)
    }
}

/// The rows, which are in order, with one more: it goes to its place, and
/// takes that of a row with the same key.
pub open spec fn shelved<V>(rows: Seq<(Seq<char>, V)>, key: Seq<char>, value: V) -> Seq<
    (Seq<char>, V),
>
    decreases rows.len(),
{
    if rows.len() == 0 {
        rows.push((key, value))
    } else if rows.last().0 == key {
        rows.drop_last().push((key, value))
    } else if precedes(key, rows.last().0) {
        shelved(rows.drop_last(), key, value).push(rows.last())
    } else {
        rows.push((key, value))
    }
}

/// The rows without a key.
pub open spec fn unshelved<V>(rows: Seq<(Seq<char>, V)>, key: Seq<char>) -> Seq<(Seq<char>, V)>
    decreases rows.len(),
{
    if rows.len() == 0 {
        rows
    } else if rows.last().0 == key {
        rows.drop_last()
    } else {
        unshelved(rows.drop_last(), key).push(rows.last())
    }
}

/// The keys of the rows.
pub open spec fn keys_of<V>(rows: Seq<(Seq<char>, V)>) -> Seq<Seq<char>> {
    rows.map_values(|row: (Seq<char>, V)| row.0)
}

/// A key is found exactly where a row has it.
pub proof fn lemma_found<V>(rows: Seq<(Seq<char>, V)>, key: Seq<char>)
    ensures
        match found(rows, key) {
            Some(value) => rows.contains((key, value)),
            None => forall|i: int| 0 <= i < rows.len() ==> (#[trigger] rows[i]).0 != key,
        },
    decreases rows.len(),
{
    if rows.len() > 0 {
        if rows.last().0 == key {
            assert(rows[rows.len() - 1] == (key, rows.last().1));
        } else {
            let front = rows.drop_last();
            lemma_found(front, key);
            match found(front, key) {
                Some(value) => {
                    let a = choose|a: int| 0 <= a < front.len() && front[a] == (key, value);
                    assert(rows[a] == (key, value));
                },
                None => {
                    assert forall|i: int| 0 <= i < rows.len() implies (#[trigger] rows[i]).0
                        != key by {
                        if i < front.len() {
                            assert(front[i].0 != key);
                        }
                    }
                },
            }
        }
    }
}

/// A row is found by its key.
pub proof fn lemma_found_at<V>(rows: Seq<(Seq<char>, V)>, i: int)
    requires
        in_line(rows),
        0 <= i < rows.len(),
    ensures
        found(rows, rows[i].0) == Some(rows[i].1),
    decreases rows.len(),
{
    if i < rows.len() - 1 {
        assert(precedes(rows[i].0, rows[rows.len() - 1].0));
        lemma_precedes_irreflexive(rows[i].0);
        lemma_front_in_line(rows);
        lemma_found_at(rows.drop_last(), i);
    }
}

proof fn lemma_front_in_line<V>(rows: Seq<(Seq<char>, V)>)
    requires
        in_line(rows),
        rows.len() > 0,
    ensures
        in_line(rows.drop_last()),
        forall|i: int|
            0 <= i < rows.len() - 1 ==> precedes(
                (#[trigger] rows.drop_last()[i]).0,
                rows.last().0,
            ),
{
    let front = rows.drop_last();
    assert forall|i: int, j: int| 0 <= i < j < front.len() implies precedes(
        (#[trigger] front[i]).0,
        (#[trigger] front[j]).0,
    ) by {
        assert(precedes(rows[i].0, rows[j].0));
    }
    assert forall|i: int| 0 <= i < front.len() implies precedes(
        (#[trigger] front[i]).0,
        rows.last().0,
    ) by {
        assert(precedes(rows[i].0, rows[rows.len() - 1].0));
    }
}

proof fn lemma_found_shelved<V>(
    rows: Seq<(Seq<char>, V)>,
    key: Seq<char>,
    value: V,
    k: Seq<char>,
)
    ensures
        found(shelved(rows, key, value), k) == (if k == key {
            Some(value)
        } else {
            found(rows, k)
        }),
    decreases rows.len(),
{
    let out = shelved(rows, key, value);
    if rows.len() > 0 && rows.last().0 != key && precedes(key, rows.last().0) {
        lemma_found_shelved(rows.drop_last(), key, value, k);
        assert(out.drop_last() =~= shelved(rows.drop_last(), key, value));
        assert(out.last() == rows.last());
    } else if rows.len() > 0 && rows.last().0 == key {
        assert(out.drop_last() =~= rows.drop_last());
        assert(out.last() == (key, value));
    } else {
        assert(out.drop_last() =~= rows);
        assert(out.last() == (key, value));
    }
}

proof fn lemma_found_unshelved<V>(rows: Seq<(Seq<char>, V)>, key: Seq<char>, k: Seq<char>)
    requires
        in_line(rows),
    ensures
        found(unshelved(rows, key), k) == (if k == key {
            None
        } else {
            found(rows, k)
        }),
    decreases rows.len(),
{
    if rows.len() > 0 {
        let front = rows.drop_last();
        let last = rows.last();
        lemma_front_in_line(rows);
        if last.0 == key {
            lemma_found(front, key);
            if let Some(value) = found(front, key) {
                let a = choose|a: int| 0 <= a < front.len() && front[a] == (key, value);
                assert(precedes(front[a].0, last.0));
                lemma_precedes_irreflexive(key);
            }
        } else {
            lemma_found_unshelved(front, key, k);
            let out = unshelved(rows, key);
            assert(out.drop_last() =~= unshelved(front, key));
            assert(out.last() == last);
        }
    }
}

/// What a row more comes to.
pub proof fn lemma_shelved<V>(rows: Seq<(Seq<char>, V)>, key: Seq<char>, value: V)
    requires
        in_line(rows),
    ensures
        in_line(shelved(rows, key, value)),
        forall|k: Seq<char>| #[trigger]
            found(shelved(rows, key, value), k) == (if k == key {
                Some(value)
            } else {
                found(rows, k)
            }),
        forall|i: int|
            0 <= i < shelved(rows, key, value).len() ==> (#[trigger] shelved(rows, key, value)[i])
                == (key, value) || rows.contains(shelved(rows, key, value)[i]),
    decreases rows.len(),
{
    let out = shelved(rows, key, value);
    assert forall|k: Seq<char>| #[trigger] found(out, k) == (if k == key {
        Some(value)
    } else {
        found(rows, k)
    }) by {
        lemma_found_shelved(rows, key, value, k);
    }
    if rows.len() > 0 {
        let front = rows.drop_last();
        let last = rows.last();
        lemma_front_in_line(rows);
        if last.0 == key {
            assert(out.drop_last() =~= front);
            assert forall|i: int| 0 <= i < out.len() implies (#[trigger] out[i]) == (key, value)
                || rows.contains(out[i]) by {
                if i < front.len() {
                    assert(rows[i] == out[i]);
                }
            }
            assert forall|i: int, j: int| 0 <= i < j < out.len() implies precedes(
                (#[trigger] out[i]).0,
                (#[trigger] out[j]).0,
            ) by {
                if j < front.len() {
                    assert(precedes(front[i].0, front[j].0));
                } else {
                    assert(precedes(front[i].0, last.0));
                }
            }
        } else if precedes(key, last.0) {
            lemma_shelved(front, key, value);
            let mid = shelved(front, key, value);
            assert(out.drop_last() =~= mid);
            assert forall|i: int| 0 <= i < mid.len() implies precedes(
                (#[trigger] mid[i]).0,
                last.0,
            ) by {
                if mid[i] != (key, value) {
                    let a = choose|a: int| 0 <= a < front.len() && front[a] == mid[i];
                    assert(precedes(front[a].0, last.0));
                }
            }
            assert forall|i: int, j: int| 0 <= i < j < out.len() implies precedes(
                (#[trigger] out[i]).0,
                (#[trigger] out[j]).0,
            ) by {
                if j < mid.len() {
                    assert(precedes(mid[i].0, mid[j].0));
                } else {
                    assert(precedes(mid[i].0, last.0));
                }
            }
            assert forall|i: int| 0 <= i < out.len() implies (#[trigger] out[i]) == (key, value)
                || rows.contains(out[i]) by {
                if i < mid.len() {
                    if mid[i] != (key, value) {
                        let a = choose|a: int| 0 <= a < front.len() && front[a] == mid[i];
                        assert(rows[a] == out[i]);
                    }
                } else {
                    assert(rows[rows.len() - 1] == out[i]);
                }
            }
            lemma_precedes_irreflexive(key);
        } else {
            lemma_precedes_total(key, last.0);
            assert(out.drop_last() =~= rows);
            assert forall|i: int, j: int| 0 <= i < j < out.len() implies precedes(
                (#[trigger] out[i]).0,
                (#[trigger] out[j]).0,
            ) by {
                if j < rows.len() {
                    assert(precedes(rows[i].0, rows[j].0));
                } else if i < front.len() {
                    assert(precedes(front[i].0, last.0));
                    lemma_precedes_transitive(front[i].0, last.0, key);
                }
            }
            assert forall|i: int| 0 <= i < out.len() implies (#[trigger] out[i]) == (key, value)
                || rows.contains(out[i]) by {
                if i < rows.len() {
                    assert(rows[i] == out[i]);
                }
            }
        }
    }
}

/// What a key less comes to.
pub proof fn lemma_unshelved<V>(rows: Seq<(Seq<char>, V)>, key: Seq<char>)
    requires
        in_line(rows),
    ensures
        in_line(unshelved(rows, key)),
        forall|k: Seq<char>| #[trigger]
            found(unshelved(rows, key), k) == (if k == key {
                None
            } else {
                found(rows, k)
            }),
        forall|i: int|
            0 <= i < unshelved(rows, key).len() ==> rows.contains(
                #[trigger] unshelved(rows, key)[i],
            ),
    decreases rows.len(),
{
    let out = unshelved(rows, key);
    assert forall|k: Seq<char>| #[trigger] found(out, k) == (if k == key {
        None
    } else {
        found(rows, k)
    }) by {
        lemma_found_unshelved(rows, key, k);
    }
    if rows.len() > 0 {
        let front = rows.drop_last();
        let last = rows.last();
        lemma_front_in_line(rows);
        if last.0 == key {
            assert forall|i: int| 0 <= i < out.len() implies rows.contains(#[trigger] out[i]) by {
                assert(rows[i] == out[i]);
            }
        } else {
            lemma_unshelved(front, key);
            let mid = unshelved(front, key);
            assert(out.drop_last() =~= mid);
            assert forall|i: int, j: int| 0 <= i < j < out.len() implies precedes(
                (#[trigger] out[i]).0,
                (#[trigger] out[j]).0,
            ) by {
                if j < mid.len() {
                    assert(precedes(mid[i].0, mid[j].0));
                } else {
                    assert(front.contains(mid[i]));
                    let a = choose|a: int| 0 <= a < front.len() && front[a] == mid[i];
                    assert(precedes(front[a].0, last.0));
                }
            }
            assert forall|i: int| 0 <= i < out.len() implies rows.contains(#[trigger] out[i]) by {
                if i < mid.len() {
                    assert(front.contains(mid[i]));
                    let a = choose|a: int| 0 <= a < front.len() && front[a] == mid[i];
                    assert(rows[a] == out[i]);
                } else {
                    assert(rows[rows.len() - 1] == out[i]);
                }
            }
        }
    }
}

impl<V> View for Shelf<V> {
    type V = Seq<(Seq<char>, V)>;

    closed spec fn view(&self) -> Seq<(Seq<char>, V)> {
        self.rows@.map_values(|row: (String, V)| (row.0@, row.1))
    }
}

impl<V> Shelf<V> {
    /// The rows are in order.
    pub open spec fn wf(&self) -> bool {
        in_line(self@)
    }

    /// An empty map.
    pub fn new() -> (r: Self)
        ensures
            r.wf(),
            r@ == Seq::<(Seq<char>, V)>::empty(),
    {
        let r = Shelf { rows: Vec::new() };
        assert(r@ =~= Seq::<(Seq<char>, V)>::empty());
        r
    }

    /// How many keys there are.
    pub fn len(&self) -> (r: usize)
        ensures
            r == self@.len(),
    {
        self.rows.len()
    }

    /// The key at a place.
    pub fn key_at(&self, i: usize) -> (r: &String)
        requires
            i < self@.len(),
        ensures
            r@ == self@[i as int].0,
    {
        &self.rows[i].0
    }

    /// The value at a place.
    pub fn at(&self, i: usize) -> (r: &V)
        requires
            i < self@.len(),
        ensures
            *r == self@[i as int].1,
    {
        &self.rows[i].1
    }

    /// Where a key stands.
    fn find(&self, key: &str) -> (r: Option<usize>)
        ensures
            match r {
                Some(i) => i < self@.len() && self@[i as int].0 == key@ && found(self@, key@)
                    == Some(self@[i as int].1) && unshelved(self@, key@) == self@.remove(i as int),
                None => found(self@, key@) is None && unshelved(self@, key@) == self@,
            },
    {
        let ghost all = self@;
        let mut i: usize = self.rows.len();
        proof {
            assert(all.take(i as int) =~= all);
            assert(unshelved(all.take(i as int), key@) + all.skip(i as int) =~= unshelved(
                all,
                key@,
            ));
        }
        while i > 0
            invariant
                i <= self.rows@.len(),
                all == self@,
                all.len() == self.rows@.len(),
                found(all.take(i as int), key@) == found(all, key@),
                unshelved(all.take(i as int), key@) + all.skip(i as int) == unshelved(all, key@),
            decreases i,
        {
            proof {
                let t = all.take(i as int);
                assert(t.last() == all[i - 1]);
                assert(t.drop_last() =~= all.take(i - 1));
                if all[i - 1].0 == key@ {
                    assert(unshelved(t, key@) + all.skip(i as int) =~= all.remove(i - 1));
                } else {
                    assert(unshelved(all.take(i - 1), key@) + all.skip(i - 1) =~= unshelved(
                        t,
                        key@,
                    ) + all.skip(i as int));
                }
            }
            if same_text(self.rows[i - 1].0.as_str(), key) {
                return Some(i - 1);
            }
            i = i - 1;
        }
        assert(unshelved(all.take(0), key@) + all.skip(0) =~= all);
        None
    }

    /// The value under a key.
    pub fn get(&self, key: &str) -> (r: Option<&V>)
        ensures
            match r {
                Some(value) => found(self@, key@) == Some(*value),
                None => found(self@, key@) is None,
            },
    {
        match self.find(key) {
            Some(i) => Some(&self.rows[i].1),
            None => None,
        }
    }

    /// Puts a value under a key; one that is there gives way.
    pub fn insert(&mut self, key: String, value: V)
        requires
            old(self).wf(),
        ensures
            final(self).wf(),
            final(self)@ == shelved(old(self)@, key@, value),
    {
        let ghost all = self@;
        let ghost k = key@;
        proof {
            lemma_shelved(all, k, value);
        }
        let mut i: usize = self.rows.len();
        proof {
            assert(all.take(i as int) =~= all);
            assert(shelved(all.take(i as int), k, value) + all.skip(i as int) =~= shelved(
                all,
                k,
                value,
            ));
        }
        while i > 0 && text_before(key.as_str(), self.rows[i - 1].0.as_str())
            invariant
                i <= self.rows@.len(),
                all == self@,
                all.len() == self.rows@.len(),
                k == key@,
                shelved(all.take(i as int), k, value) + all.skip(i as int) == shelved(
                    all,
                    k,
                    value,
                ),
            decreases i,
        {
            proof {
                let t = all.take(i as int);
                assert(t.last() == all[i - 1]);
                assert(t.drop_last() =~= all.take(i - 1));
                lemma_precedes_irreflexive(k);
                assert(shelved(all.take(i - 1), k, value) + all.skip(i - 1) =~= shelved(
                    t,
                    k,
                    value,
                ) + all.skip(i as int));
            }
            i = i - 1;
        }
        let ghost t = all.take(i as int);
        if i > 0 && self.rows[i - 1].0 == key {
            proof {
                assert(t.last() == all[i - 1]);
                assert(shelved(t, k, value) == t.drop_last().push((k, value)));
                assert(t.drop_last().push((k, value)) + all.skip(i as int) =~= all.update(
                    i - 1,
                    (k, value),
                ));
            }
            self.rows[i - 1] = (key, value);
            assert(self@ =~= all.update(i - 1, (k, value)));
        } else {
            proof {
                if i > 0 {
                    assert(t.last() == all[i - 1]);
                }
                assert(shelved(t, k, value) == t.push((k, value)));
                assert(t.push((k, value)) + all.skip(i as int) =~= all.insert(
                    i as int,
                    (k, value),
                ));
            }
            self.rows.insert(i, (key, value));
            assert(self@ =~= all.insert(i as int, (k, value)));
        }
    }

    /// Takes a key out.
    pub fn remove(&mut self, key: &str)
        requires
            old(self).wf(),
        ensures
            final(self).wf(),
            final(self)@ == unshelved(old(self)@, key@),
    {
        proof {
            lemma_unshelved(self@, key@);
        }
        if let Some(i) = self.find(key) {
            let _ = self.rows.remove(i);
            assert(self@ =~= old(self)@.remove(i as int));
        }
    }

    /// The keys, in order.
    pub fn keys(&self) -> (r: Vec<String>)
        ensures
            texts_view(r@) == keys_of(self@),
    {
        let ghost all = keys_of(self@);
        let mut out: Vec<String> = Vec::new();
        let mut i: usize = 0;
        while i < self.rows.len()
            invariant
                i <= self.rows@.len(),
                all == keys_of(self@),
                all.len() == self.rows@.len(),
                texts_view(out@) == all.take(i as int),
            decreases self.rows@.len() - i,
        {
            let key = self.rows[i].0.clone();
            proof {
                lemma_texts_push(out@, key);
                assert(all[i as int] == key@);
            }
            out.push(key);
            assert(texts_view(out@) =~= all.take(i + 1));
            i = i + 1;
        }
        assert(all.take(i as int) =~= all);
        out
    }
}

} // verus!
