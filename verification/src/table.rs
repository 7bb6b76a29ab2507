//! An insertion-ordered map over a small set of keys.

use vstd::prelude::*;

verus! {

/// A key that can be compared: `same` decides equality.
pub trait TableKey: Sized + Copy {
    fn same(&self, other: &Self) -> (r: bool)
        ensures
            r == (*self == *other),
    ;
}

/// A map kept as a list of rows in insertion order. No key occurs twice.
pub struct Table<K: TableKey, V> {
    pub rows: Vec<(K, V)>,
}

/// The map that a list of rows stands for.
pub open spec fn rows_map<K, V>(rows: Seq<(K, V)>) -> Map<K, V>
    decreases rows.len(),
{
    if rows.len() == 0 {
        Map::empty()
    } else {
        rows_map(rows.drop_last()).insert(rows.last().0, rows.last().1)
    }
}

/// No key occurs in two rows.
pub open spec fn rows_unique<K, V>(rows: Seq<(K, V)>) -> bool {
    forall|i: int, j: int|
        0 <= i < rows.len() && 0 <= j < rows.len() && i != j ==> (#[trigger] rows[i]).0 != (
        #[trigger] rows[j]).0
}

/// With unique keys, the map holds exactly the rows.
pub proof fn lemma_rows_map<K, V>(rows: Seq<(K, V)>)
    requires
        rows_unique(rows),
    ensures
        forall|k: K|
            #![trigger rows_map(rows).dom().contains(k)]
            rows_map(rows).dom().contains(k) <==> exists|i: int|
                0 <= i < rows.len() && (#[trigger] rows[i]).0 == k,
        forall|i: int|
            #![trigger rows[i]]
            0 <= i < rows.len() ==> rows_map(rows).dom().contains(rows[i].0) && rows_map(
                rows,
            )[rows[i].0] == rows[i].1,
        rows_map(rows).dom().finite(),
    decreases rows.len(),
{
    if rows.len() > 0 {
        let front = rows.drop_last();
        assert forall|i: int, j: int|
            0 <= i < front.len() && 0 <= j < front.len() && i != j implies (#[trigger] front[i]).0
            != (#[trigger] front[j]).0 by {
            assert(front[i] == rows[i] && front[j] == rows[j]);
        }
        lemma_rows_map(front);
        assert forall|i: int| #![trigger rows[i]] 0 <= i < rows.len() implies rows_map(
            rows,
        ).dom().contains(rows[i].0) && rows_map(rows)[rows[i].0] == rows[i].1 by {
            if i < rows.len() - 1 {
                assert(front[i] == rows[i]);
                assert(rows[i].0 != rows[rows.len() - 1].0);
            }
        }
        assert forall|k: K|
            #![trigger rows_map(rows).dom().contains(k)]
            rows_map(rows).dom().contains(k) implies exists|i: int|
            0 <= i < rows.len() && (#[trigger] rows[i]).0 == k by {
            if k == rows.last().0 {
                assert(rows[rows.len() - 1].0 == k);
            } else {
                assert(rows_map(front).dom().contains(k));
                let i = choose|i: int| 0 <= i < front.len() && (#[trigger] front[i]).0 == k;
                assert(rows[i].0 == k);
            }
        }
    }
}

/// Giving row `i` another value is an insertion under its key.
pub proof fn lemma_rows_update<K, V>(rows: Seq<(K, V)>, i: int, v: V)
    requires
        rows_unique(rows),
        0 <= i < rows.len(),
    ensures
        rows_unique(rows.update(i, (rows[i].0, v))),
        rows_map(rows.update(i, (rows[i].0, v))) == rows_map(rows).insert(rows[i].0, v),
{
    let after = rows.update(i, (rows[i].0, v));
    assert(rows_unique(after));
    lemma_rows_map(rows);
    lemma_rows_map(after);
    assert forall|k: K| rows_map(after).dom().contains(k) <==> rows_map(rows).insert(
        rows[i].0,
        v,
    ).dom().contains(k) by {
        if rows_map(after).dom().contains(k) {
            let j = choose|j: int| 0 <= j < after.len() && (#[trigger] after[j]).0 == k;
            assert(rows[j].0 == k);
        }
        if rows_map(rows).dom().contains(k) {
            let j = choose|j: int| 0 <= j < rows.len() && (#[trigger] rows[j]).0 == k;
            assert(after[j].0 == k);
        }
        assert(after[i].0 == rows[i].0);
    }
    assert forall|k: K| rows_map(after).dom().contains(k) implies rows_map(after)[k] == rows_map(
        rows,
    ).insert(rows[i].0, v)[k] by {
        let j = choose|j: int| 0 <= j < after.len() && (#[trigger] after[j]).0 == k;
        assert(rows[j].0 == k);
        assert(rows_map(after)[k] == after[j].1);
        if j != i {
            assert(rows[i].0 != rows[j].0);
        }
    }
    assert(rows_map(after) =~= rows_map(rows).insert(rows[i].0, v));
}

/// Taking row `i` out removes its key.
pub proof fn lemma_rows_remove<K, V>(rows: Seq<(K, V)>, i: int)
    requires
        rows_unique(rows),
        0 <= i < rows.len(),
    ensures
        rows_unique(rows.remove(i)),
        rows_map(rows.remove(i)) == rows_map(rows).remove(rows[i].0),
{
    let after = rows.remove(i);
    assert forall|a: int, b: int|
        0 <= a < after.len() && 0 <= b < after.len() && a != b implies (#[trigger] after[a]).0 != (
    #[trigger] after[b]).0 by {
        let a0 = if a < i { a } else { a + 1 };
        let b0 = if b < i { b } else { b + 1 };
        assert(rows[a0].0 != rows[b0].0);
    }
    lemma_rows_map(rows);
    lemma_rows_map(after);
    assert forall|k: K| rows_map(after).dom().contains(k) <==> rows_map(rows).remove(
        rows[i].0,
    ).dom().contains(k) by {
        if rows_map(after).dom().contains(k) {
            let j = choose|j: int| 0 <= j < after.len() && (#[trigger] after[j]).0 == k;
            let j0 = if j < i { j } else { j + 1 };
            assert(rows[j0].0 == k);
            assert(rows[j0].0 != rows[i].0);
        }
        if rows_map(rows).dom().contains(k) && k != rows[i].0 {
            let j = choose|j: int| 0 <= j < rows.len() && (#[trigger] rows[j]).0 == k;
            let j0 = if j < i { j } else { j - 1 };
            assert(after[j0].0 == k);
        }
    }
    assert forall|k: K| rows_map(after).dom().contains(k) implies rows_map(after)[k] == rows_map(
        rows,
    ).remove(rows[i].0)[k] by {
        let j = choose|j: int| 0 <= j < after.len() && (#[trigger] after[j]).0 == k;
        let j0 = if j < i { j } else { j + 1 };
        assert(rows[j0] == after[j]);
        assert(rows_map(after)[k] == after[j].1);
        assert(rows_map(rows)[k] == rows[j0].1);
    }
    assert(rows_map(after) =~= rows_map(rows).remove(rows[i].0));
}

/// Appending a row with a fresh key is an insertion.
pub proof fn lemma_rows_push<K, V>(rows: Seq<(K, V)>, k: K, v: V)
    requires
        rows_unique(rows),
        !rows_map(rows).dom().contains(k),
    ensures
        rows_unique(rows.push((k, v))),
        rows_map(rows.push((k, v))) == rows_map(rows).insert(k, v),
{
    let after = rows.push((k, v));
    lemma_rows_map(rows);
    assert(after.drop_last() =~= rows);
    assert forall|a: int, b: int|
        0 <= a < after.len() && 0 <= b < after.len() && a != b implies (#[trigger] after[a]).0 != (
    #[trigger] after[b]).0 by {
        if a < rows.len() {
            assert(rows_map(rows).dom().contains(rows[a].0));
        }
        if b < rows.len() {
            assert(rows_map(rows).dom().contains(rows[b].0));
        }
    }
}

impl<K: TableKey, V> View for Table<K, V> {
    type V = Map<K, V>;

    open spec fn view(&self) -> Map<K, V> {
        rows_map(self.rows@)
    }
}

impl<K: TableKey, V> Table<K, V> {
    /// No key occurs twice.
    pub open spec fn wf(&self) -> bool {
        rows_unique(self.rows@)
    }

    /// An empty table.
    pub fn new() -> (r: Self)
        ensures
            r.wf(),
            r@ == Map::<K, V>::empty(),
            r.rows@.len() == 0,
    {
        Table { rows: Vec::new() }
    }

    /// The row of `key`, if there is one.
    pub fn find(&self, key: &K) -> (r: Option<usize>)
        requires
            self.wf(),
        ensures
            match r {
                Some(i) => i < self.rows@.len() && self.rows@[i as int].0 == *key
                    && self@.dom().contains(*key) && self@[*key] == self.rows@[i as int].1,
                None => !self@.dom().contains(*key) && forall|i: int|
                    0 <= i < self.rows@.len() ==> (#[trigger] self.rows@[i]).0 != *key,
            },
    {
        proof {
            lemma_rows_map(self.rows@);
        }
        let mut i: usize = 0;
        while i < self.rows.len()
            invariant
                i <= self.rows@.len(),
                self.wf(),
                forall|j: int| 0 <= j < i ==> (#[trigger] self.rows@[j]).0 != *key,
            decreases self.rows@.len() - i,
        {
            if self.rows[i].0.same(key) {
                proof {
                    lemma_rows_map(self.rows@);
                }
                return Some(i);
            }
            i = i + 1;
        }
        None
    }

    /// The value under `key`.
    pub fn get(&self, key: &K) -> (r: Option<&V>)
        requires
            self.wf(),
        ensures
            match r {
                Some(v) => self@.dom().contains(*key) && self@[*key] == *v,
                None => !self@.dom().contains(*key),
            },
    {
        match self.find(key) {
            Some(i) => Some(&self.rows[i].1),
            None => None,
        }
    }

    /// Binds `key` to `value`; what it was bound to before comes back. A new
    /// key goes to the end.
    pub fn insert(&mut self, key: K, value: V) -> (r: Option<V>)
        requires
            old(self).wf(),
        ensures
            final(self).wf(),
            final(self)@ == old(self)@.insert(key, value),
            match r {
                Some(v) => old(self)@.dom().contains(key) && v == old(self)@[key] && exists|i: int|
                    0 <= i < old(self).rows@.len() && (#[trigger] old(self).rows@[i]).0 == key
                        && final(self).rows@ == old(self).rows@.update(i, (key, value)),
                None => !old(self)@.dom().contains(key) && final(self).rows@ == old(
                    self,
                ).rows@.push((key, value)),
            },
    {
        match self.find(&key) {
            Some(i) => {
                proof {
                    lemma_rows_update(self.rows@, i as int, value);
                }
                let mut row = (key, value);
                std::mem::swap(&mut self.rows[i], &mut row);
                assert(old(self).rows@[i as int].0 == key);
                Some(row.1)
            },
            None => {
                proof {
                    lemma_rows_push(self.rows@, key, value);
                }
                self.rows.push((key, value));
                None
            },
        }
    }

    /// Takes `key` out; the rows that stay keep their order.
    pub fn remove(&mut self, key: &K) -> (r: Option<V>)
        requires
            old(self).wf(),
        ensures
            final(self).wf(),
            final(self)@ == old(self)@.remove(*key),
            match r {
                Some(v) => old(self)@.dom().contains(*key) && v == old(self)@[*key] && exists|
                    i: int,
                |
                    0 <= i < old(self).rows@.len() && final(self).rows@ == #[trigger] old(
                        self,
                    ).rows@.remove(i),
                None => !old(self)@.dom().contains(*key) && final(self).rows@ == old(self).rows@,
            },
    {
        match self.find(key) {
            Some(i) => {
                proof {
                    lemma_rows_remove(self.rows@, i as int);
                }
                let row = self.rows.remove(i);
                Some(row.1)
            },
            None => {
                assert(self@.remove(*key) =~= self@);
                None
            },
        }
    }
}

} // verus!
