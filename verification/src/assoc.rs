//! An association list with unique keys, viewed as a mathematical map.
use vstd::prelude::*;

verus! {

/// A key of an [`AssocMap`]: two keys are the same key when their views agree.
pub trait MapKey: View + Sized {
    /// Tells whether two keys denote the same map key.
    fn same(&self, other: &Self) -> (r: bool)
        ensures
            r == (self@ == other@),
    ;

    /// Returns another key with the same view.
    fn dup(&self) -> (r: Self)
        ensures
            r@ == self@,
    ;
}

impl MapKey for String {
    fn same(&self, other: &Self) -> (r: bool) {
        *self == *other
    }

    fn dup(&self) -> (r: Self) {
        self.clone()
    }
}

impl MapKey for u64 {
    fn same(&self, other: &Self) -> (r: bool) {
        *self == *other
    }

    fn dup(&self) -> (r: Self) {
        *self
    }
}

/// Whether some row carries the key `k`.
pub open spec fn rows_has<K: View, V>(rows: Seq<(K, V)>, k: K::V) -> bool {
    exists|i: int| 0 <= i < rows.len() && (#[trigger] rows[i]).0@ == k
}

/// The position of a row that carries the key `k`.
pub open spec fn rows_index<K: View, V>(rows: Seq<(K, V)>, k: K::V) -> int {
    choose|i: int| 0 <= i < rows.len() && (#[trigger] rows[i]).0@ == k
}

/// The map that a list of rows denotes.
pub open spec fn rows_map<K: View, V>(rows: Seq<(K, V)>) -> Map<K::V, V> {
    Map::new(|k: K::V| rows_has(rows, k), |k: K::V| rows[rows_index(rows, k)].1)
}

/// No key occurs in two rows.
pub open spec fn rows_unique<K: View, V>(rows: Seq<(K, V)>) -> bool {
    forall|i: int, j: int|
        0 <= i < rows.len() && 0 <= j < rows.len() && i != j ==> (#[trigger] rows[i]).0@ != (
        #[trigger] rows[j]).0@
}

/// A row is found in the map under its own key.
pub proof fn lemma_row_in_map<K: View, V>(rows: Seq<(K, V)>, i: int)
    requires
        rows_unique(rows),
        0 <= i < rows.len(),
    ensures
        rows_map(rows).contains_key(rows[i].0@),
        rows_map(rows)[rows[i].0@] == rows[i].1,
        rows_index(rows, rows[i].0@) == i,
{
    let k = rows[i].0@;
    assert(rows_has(rows, k));
    let j = rows_index(rows, k);
    assert(0 <= j < rows.len() && rows[j].0@ == k);
    assert(j == i);
}

/// Every key of the map has a row.
pub proof fn lemma_map_has_row<K: View, V>(rows: Seq<(K, V)>, k: K::V) -> (i: int)
    requires
        rows_map(rows).contains_key(k),
    ensures
        0 <= i < rows.len(),
        rows[i].0@ == k,
        rows[i].1 == rows_map(rows)[k],
{
    rows_index(rows, k)
}

pub proof fn lemma_push<K: View, V>(rows: Seq<(K, V)>, row: (K, V))
    requires
        rows_unique(rows),
        !rows_has(rows, row.0@),
    ensures
        rows_unique(rows.push(row)),
        rows_map(rows.push(row)) == rows_map(rows).insert(row.0@, row.1),
{
    let next = rows.push(row);
    assert forall|i: int, j: int|
        0 <= i < next.len() && 0 <= j < next.len() && i != j implies (#[trigger] next[i]).0@ != (
    #[trigger] next[j]).0@ by {
        if i < rows.len() {
            assert(rows[i].0@ == next[i].0@);
        }
        if j < rows.len() {
            assert(rows[j].0@ == next[j].0@);
        }
    }
    let m = rows_map(rows).insert(row.0@, row.1);
    assert forall|k: K::V| #![auto] rows_map(next).contains_key(k) == m.contains_key(k) by {
        if rows_has(next, k) {
            let i = rows_index(next, k);
            if i < rows.len() {
                assert(rows[i].0@ == k);
            }
        }
        if rows_has(rows, k) {
            let i = rows_index(rows, k);
            assert(next[i].0@ == k);
        }
        if k == row.0@ {
            assert(next[rows.len() as int].0@ == k);
        }
    }
    assert forall|k: K::V| #![auto] rows_map(next).contains_key(k) implies rows_map(next)[k]
        == m[k] by {
        let i = lemma_map_has_row(next, k);
        if i < rows.len() {
            lemma_row_in_map(rows, i);
        }
    }
    assert(rows_map(next) =~= m);
}

proof fn lemma_set_value<K: View, V>(rows: Seq<(K, V)>, at: int, row: (K, V))
    requires
        rows_unique(rows),
        0 <= at < rows.len(),
        row.0@ == rows[at].0@,
    ensures
        rows_unique(rows.update(at, row)),
        rows_map(rows.update(at, row)) == rows_map(rows).insert(row.0@, row.1),
{
    let next = rows.update(at, row);
    assert forall|i: int, j: int|
        0 <= i < next.len() && 0 <= j < next.len() && i != j implies (#[trigger] next[i]).0@ != (
    #[trigger] next[j]).0@ by {
        assert(rows[i].0@ == next[i].0@);
        assert(rows[j].0@ == next[j].0@);
    }
    let m = rows_map(rows).insert(row.0@, row.1);
    assert forall|k: K::V| #![auto] rows_map(next).contains_key(k) == m.contains_key(k) by {
        if rows_has(next, k) {
            let i = rows_index(next, k);
            assert(rows[i].0@ == k);
        }
        if rows_has(rows, k) {
            let i = rows_index(rows, k);
            assert(next[i].0@ == k);
        }
        if k == row.0@ {
            assert(next[at].0@ == k);
        }
    }
    assert forall|k: K::V| #![auto] rows_map(next).contains_key(k) implies rows_map(next)[k]
        == m[k] by {
        let i = lemma_map_has_row(next, k);
        lemma_row_in_map(next, i);
        lemma_row_in_map(rows, i);
    }
    assert(rows_map(next) =~= m);
}

proof fn lemma_remove_row<K: View, V>(rows: Seq<(K, V)>, at: int)
    requires
        rows_unique(rows),
        0 <= at < rows.len(),
    ensures
        rows_unique(rows.remove(at)),
        rows_map(rows.remove(at)) == rows_map(rows).remove(rows[at].0@),
{
    let next = rows.remove(at);
    let gone = rows[at].0@;
    assert forall|i: int, j: int|
        0 <= i < next.len() && 0 <= j < next.len() && i != j implies (#[trigger] next[i]).0@ != (
    #[trigger] next[j]).0@ by {
        let i0 = if i < at { i } else { i + 1 };
        let j0 = if j < at { j } else { j + 1 };
        assert(rows[i0].0@ == next[i].0@);
        assert(rows[j0].0@ == next[j].0@);
    }
    let m = rows_map(rows).remove(gone);
    assert forall|k: K::V| #![auto] rows_map(next).contains_key(k) == m.contains_key(k) by {
        if rows_has(next, k) {
            let i = rows_index(next, k);
            let i0 = if i < at { i } else { i + 1 };
            assert(rows[i0].0@ == k);
            assert(rows[i0].0@ != rows[at].0@);
        }
        if rows_has(rows, k) && k != gone {
            let i = rows_index(rows, k);
            let i1 = if i < at { i } else { i - 1 };
            assert(next[i1].0@ == k);
        }
    }
    assert forall|k: K::V| #![auto] rows_map(next).contains_key(k) implies rows_map(next)[k]
        == m[k] by {
        let i = lemma_map_has_row(next, k);
        let i0 = if i < at { i } else { i + 1 };
        lemma_row_in_map(next, i);
        lemma_row_in_map(rows, i0);
    }
    assert(rows_map(next) =~= m);
}

/// There are as many keys as rows.
proof fn lemma_rows_dom<K: View, V>(rows: Seq<(K, V)>)
    requires
        rows_unique(rows),
    ensures
        rows_map(rows).dom().finite(),
        rows_map(rows).dom().len() == rows.len(),
    decreases rows.len(),
{
    if rows.len() == 0 {
        assert(rows_map(rows).dom() =~= Set::<K::V>::empty());
    } else {
        let before = rows.drop_last();
        let k = rows.last().0@;
        lemma_rows_dom(before);
        assert(!rows_has(before, k)) by {
            if rows_has(before, k) {
                let i = rows_index(before, k);
                assert(rows[i].0@ == rows[rows.len() - 1].0@);
            }
        }
        lemma_push(before, rows.last());
        assert(before.push(rows.last()) =~= rows);
        assert(rows_map(rows).dom() =~= rows_map(before).dom().insert(k));
    }
}

/// A map from keys to values, held as a list of rows in which no key occurs twice.
pub struct AssocMap<K: MapKey, V> {
    rows: Vec<(K, V)>,
}

impl<K: MapKey, V> View for AssocMap<K, V> {
    type V = Map<K::V, V>;

    closed spec fn view(&self) -> Map<K::V, V> {
        rows_map(self.rows@)
    }
}

impl<K: MapKey, V> AssocMap<K, V> {
    /// The rows in the order in which they are walked.
    pub closed spec fn rows(&self) -> Seq<(K, V)> {
        self.rows@
    }

    /// No key occurs twice.
    pub closed spec fn wf(&self) -> bool {
        rows_unique(self.rows@)
    }

    /// The map is the one that the rows denote.
    pub proof fn lemma_rows(&self)
        requires
            self.wf(),
        ensures
            self@ == rows_map(self.rows()),
            rows_unique(self.rows()),
    {
    }

    /// There are as many keys as rows.
    pub proof fn lemma_dom(&self)
        requires
            self.wf(),
        ensures
            self@.dom().finite(),
            self@.dom().len() == self.rows().len(),
    {
        lemma_rows_dom(self.rows@);
    }

    pub fn new() -> (r: Self)
        ensures
            r.wf(),
            r@ == Map::<K::V, V>::empty(),
            r.rows() == Seq::<(K, V)>::empty(),
    {
        let r = AssocMap { rows: Vec::new() };
        proof {
            assert forall|k: K::V| !rows_has(r.rows@, k) by {}
            assert(r@ =~= Map::<K::V, V>::empty());
            assert(r.rows@ =~= Seq::<(K, V)>::empty());
        }
        r
    }

    pub fn len(&self) -> (n: usize)
        ensures
            n == self.rows().len(),
    {
        self.rows.len()
    }

    /// The row at position `i`.
    pub fn row(&self, i: usize) -> (r: &(K, V))
        requires
            self.wf(),
            i < self.rows().len(),
        ensures
            *r == self.rows()[i as int],
            self@.contains_key(r.0@),
            self@[r.0@] == r.1,
    {
        proof {
            lemma_row_in_map(self.rows@, i as int);
        }
        &self.rows[i]
    }

    fn find(&self, k: &K) -> (r: Option<usize>)
        ensures
            match r {
                Some(i) => i < self.rows@.len() && self.rows@[i as int].0@ == k@,
                None => !rows_has(self.rows@, k@),
            },
    {
        let mut i: usize = 0;
        while i < self.rows.len()
            invariant
                i <= self.rows@.len(),
                forall|j: int| 0 <= j < i ==> (#[trigger] self.rows@[j]).0@ != k@,
            decreases self.rows@.len() - i,
        {
            if self.rows[i].0.same(k) {
                return Some(i);
            }
            i += 1;
        }
        None
    }

    pub fn contains_key(&self, k: &K) -> (r: bool)
        ensures
            r == self@.contains_key(k@),
    {
        self.find(k).is_some()
    }

    pub fn get(&self, k: &K) -> (r: Option<&V>)
        requires
            self.wf(),
        ensures
            match r {
                Some(v) => self@.contains_key(k@) && *v == self@[k@],
                None => !self@.contains_key(k@),
            },
    {
        match self.find(k) {
            Some(i) => {
                proof {
                    lemma_row_in_map(self.rows@, i as int);
                }
                Some(&self.rows[i].1)
            },
            None => None,
        }
    }

    /// Binds `k` to `v` and returns the value it replaces.
    pub fn insert(&mut self, k: K, v: V) -> (r: Option<V>)
        requires
            old(self).wf(),
        ensures
            final(self).wf(),
            final(self)@ == old(self)@.insert(k@, v),
            !old(self)@.contains_key(k@) ==> final(self).rows() == old(self).rows().push((k, v)),
            old(self)@.contains_key(k@) ==> exists|i: int|
                #![trigger old(self).rows()[i]]
                0 <= i < old(self).rows().len() && old(self).rows()[i].0@ == k@
                    && final(self).rows() == old(self).rows().update(i, (k, v)),
            match r {
                Some(prev) => old(self)@.contains_key(k@) && prev == old(self)@[k@],
                None => !old(self)@.contains_key(k@),
            },
    {
        let ghost before = self.rows@;
        match self.find(&k) {
            Some(i) => {
                proof {
                    lemma_row_in_map(before, i as int);
                    lemma_set_value(before, i as int, (k, v));
                }
                let mut row = (k, v);
                self.rows.set_and_swap(i, &mut row);
                assert(old(self).rows()[i as int].0@ == k@);
                Some(row.1)
            },
            None => {
                proof {
                    lemma_push(before, (k, v));
                }
                self.rows.push((k, v));
                None
            },
        }
    }

    /// Unbinds `k` and returns the value it had.
    pub fn remove(&mut self, k: &K) -> (r: Option<V>)
        requires
            old(self).wf(),
        ensures
            final(self).wf(),
            final(self)@ == old(self)@.remove(k@),
            !old(self)@.contains_key(k@) ==> *final(self) == *old(self),
            old(self)@.contains_key(k@) ==> exists|i: int|
                #![trigger old(self).rows()[i]]
                0 <= i < old(self).rows().len() && old(self).rows()[i].0@ == k@
                    && final(self).rows() == old(self).rows().remove(i),
            match r {
                Some(prev) => old(self)@.contains_key(k@) && prev == old(self)@[k@],
                None => !old(self)@.contains_key(k@),
            },
    {
        let ghost before = self.rows@;
        match self.find(k) {
            Some(i) => {
                proof {
                    lemma_row_in_map(before, i as int);
                    lemma_remove_row(before, i as int);
                }
                let row = self.rows.remove(i);
                assert(old(self).rows()[i as int].0@ == k@);
                Some(row.1)
            },
            None => {
                assert(self@.remove(k@) =~= self@);
                None
            },
        }
    }

    /// The rows themselves.
    pub fn into_rows(self) -> (r: Vec<(K, V)>)
        ensures
            r@ == self.rows(),
    {
        self.rows
    }
}

} // verus!
