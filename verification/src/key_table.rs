//! A table with one row per key, found through a hash index.
use dashmap::DashMap;
use vstd::prelude::*;

use crate::assoc::{
    lemma_map_has_row, lemma_row_in_map, rows_has, rows_index, rows_map, rows_unique,
};

verus! {

/// The concurrent hash map of the crate `dashmap`.
#[verifier::external_type_specification]
#[verifier::external_body]
#[verifier::reject_recursive_types(K)]
#[verifier::reject_recursive_types(V)]
#[verifier::reject_recursive_types(S)]
pub struct ExDashMap<K, V, S>(dashmap::DashMap<K, V, S>);

/// What a `DashMap` from names to numbers holds.
pub uninterp spec fn dash_contents(m: DashMap<String, usize>) -> Map<Seq<char>, usize>;

/// Makes a map with `DashMap::new`. Trusted: a new map holds nothing.
#[verifier::external_body]
fn dash_new() -> (m: DashMap<String, usize>)
    ensures
        forall|k: Seq<char>| !(#[trigger] dash_contents(m).contains_key(k)),
{
    DashMap::new()
}

/// Looks a name up with `DashMap::get`. Trusted: the number that was stored for the name comes
/// back, and nothing for a name that is not held.
#[verifier::external_body]
fn dash_get(m: &DashMap<String, usize>, key: &str) -> (r: Option<usize>)
    ensures
        r == if dash_contents(*m).contains_key(key@) {
            Some(dash_contents(*m)[key@])
        } else {
            None
        },
{
    match m.get(key) {
        Some(entry) => Some(*entry.value()),
        None => None,
    }
}

/// Stores a number under a name with `DashMap::insert`. Trusted: the name then has that number, and
/// all other names have what they had.
#[verifier::external_body]
fn dash_insert(m: &mut DashMap<String, usize>, key: String, value: usize)
    ensures
        dash_contents(*final(m)) == dash_contents(*old(m)).insert(key@, value),
{
    m.insert(key, value);
}

/// Takes a name out with `DashMap::remove`. Trusted: the name is no longer held, and all other
/// names have what they had.
#[verifier::external_body]
fn dash_remove(m: &mut DashMap<String, usize>, key: &str)
    ensures
        dash_contents(*final(m)) == dash_contents(*old(m)).remove(key@),
{
    m.remove(key);
}

/// The rows after one of them was replaced by the last.
spec fn swapped_out<V>(rows: Seq<(String, V)>, at: int) -> Seq<(String, V)> {
    rows.update(at, rows.last()).drop_last()
}

proof fn lemma_swapped_out<V>(rows: Seq<(String, V)>, at: int)
    requires
        rows_unique(rows),
        0 <= at < rows.len(),
    ensures
        rows_unique(swapped_out(rows, at)),
        rows_map(swapped_out(rows, at)) == rows_map(rows).remove(rows[at].0@),
{
    let next = swapped_out(rows, at);
    let last = rows.len() - 1;
    assert forall|i: int, j: int|
        0 <= i < next.len() && 0 <= j < next.len() && i != j implies (#[trigger] next[i]).0@ != (
    #[trigger] next[j]).0@ by {
        let i0 = if i == at {
            last
        } else {
            i
        };
        let j0 = if j == at {
            last
        } else {
            j
        };
        assert(rows[i0].0@ != rows[j0].0@);
    }
    let m = rows_map(rows).remove(rows[at].0@);
    assert forall|k: Seq<char>| #![auto] rows_map(next).contains_key(k) == m.contains_key(k) by {
        if rows_has(next, k) {
            let i = rows_index(next, k);
            let i0 = if i == at {
                last
            } else {
                i
            };
            assert(rows[i0].0@ == k);
            assert(rows[i0].0@ != rows[at].0@);
        }
        if rows_has(rows, k) && k != rows[at].0@ {
            let i = rows_index(rows, k);
            let i1 = if i == last {
                at
            } else {
                i
            };
            assert(next[i1].0@ == k);
        }
    }
    assert forall|k: Seq<char>| #![auto] rows_map(next).contains_key(k) implies rows_map(next)[k]
        == m[k] by {
        let i = lemma_map_has_row(next, k);
        let i0 = if i == at {
            last
        } else {
            i
        };
        lemma_row_in_map(next, i);
        lemma_row_in_map(rows, i0);
    }
    assert(rows_map(next) =~= m);
}

/// A table from names to values.
pub struct KeyTable<V> {
    index: DashMap<String, usize>,
    rows: Vec<(String, V)>,
}

impl<V> View for KeyTable<V> {
    type V = Map<Seq<char>, V>;

    closed spec fn view(&self) -> Map<Seq<char>, V> {
        rows_map(self.rows@)
    }
}

impl<V> KeyTable<V> {
    /// The rows in the order in which they are walked.
    pub closed spec fn rows(&self) -> Seq<(String, V)> {
        self.rows@
    }

    /// The index gives the place of every row.
    pub closed spec fn wf(&self) -> bool {
        &&& rows_unique(self.rows@)
        &&& forall|i: int|
            0 <= i < self.rows@.len() ==> dash_contents(self.index).contains_key(
                (#[trigger] self.rows@[i]).0@,
            ) && dash_contents(self.index)[self.rows@[i].0@] == i
        &&& forall|k: Seq<char>| #[trigger]
            dash_contents(self.index).contains_key(k) ==> rows_has(self.rows@, k)
    }

    /// The table is the one that the rows denote.
    pub proof fn lemma_rows(&self)
        requires
            self.wf(),
        ensures
            self@ == rows_map(self.rows()),
            rows_unique(self.rows()),
    {
    }

    pub fn new() -> (r: Self)
        ensures
            r.wf(),
            r@ == Map::<Seq<char>, V>::empty(),
    {
        let r = KeyTable { index: dash_new(), rows: Vec::new() };
        proof {
            assert forall|k: Seq<char>| !rows_has(r.rows@, k) by {}
            assert(r@ =~= Map::<Seq<char>, V>::empty());
        }
        r
    }

    pub fn len(&self) -> (n: usize)
        ensures
            n == self.rows().len(),
    {
        self.rows.len()
    }

    /// The row at position `i`.
    pub fn row(&self, i: usize) -> (r: &(String, V))
        requires
            self.wf(),
            i < self.rows().len(),
        ensures
            *r == self.rows()[i as int],
            self@.contains_key(r.0@),
            self@[r.0@] == r.1,
    {
        proof {
            lemma_row_in_map(self.rows@, i as int);
        }
        &self.rows[i]
    }

    fn find(&self, k: &str) -> (r: Option<usize>)
        requires
            self.wf(),
        ensures
            match r {
                Some(i) => i < self.rows@.len() && self.rows@[i as int].0@ == k@,
                None => !rows_has(self.rows@, k@),
            },
    {
        let r = dash_get(&self.index, k);
        proof {
            if rows_has(self.rows@, k@) {
                let i = rows_index(self.rows@, k@);
                assert(self.rows@[i].0@ == k@);
            }
        }
        r
    }

    pub fn contains_key(&self, k: &str) -> (r: bool)
        requires
            self.wf(),
        ensures
            r == self@.contains_key(k@),
    {
        self.find(k).is_some()
    }

    pub fn get(&self, k: &str) -> (r: Option<&V>)
        requires
            self.wf(),
        ensures
            match r {
                Some(v) => self@.contains_key(k@) && *v == self@[k@],
                None => !self@.contains_key(k@),
            },
    {
        match self.find(k) {
            Some(i) => {
                proof {
                    lemma_row_in_map(self.rows@, i as int);
                }
                Some(&self.rows[i].1)
            },
            None => None,
        }
    }

    /// Unbinds `k` and returns the value it had.
    pub fn remove(&mut self, k: &str) -> (r: Option<V>)
        requires
            old(self).wf(),
        ensures
            final(self).wf(),
            final(self)@ == old(self)@.remove(k@),
            match r {
                Some(prev) => old(self)@.contains_key(k@) && prev == old(self)@[k@],
                None => !old(self)@.contains_key(k@),
            },
    {
        let ghost before = self.rows@;
        let at: usize = match self.find(k) {
            Some(i) => i,
            None => {
                assert(self@.remove(k@) =~= self@);
                return None;
            },
        };
        proof {
            lemma_row_in_map(before, at as int);
            lemma_swapped_out(before, at as int);
        }
        let last: usize = self.rows.len() - 1;
        if at != last {
            let moved = self.rows[last].0.clone();
            dash_insert(&mut self.index, moved, at);
        }
        dash_remove(&mut self.index, k);
        let row = self.rows.swap_remove(at);
        proof {
            assert(self.rows@ == swapped_out(before, at as int));
            assert forall|i: int| 0 <= i < self.rows@.len() implies dash_contents(
                self.index,
            ).contains_key((#[trigger] self.rows@[i]).0@) && dash_contents(
                self.index,
            )[self.rows@[i].0@] == i by {
                let i0 = if i == at {
                    last as int
                } else {
                    i
                };
                assert(self.rows@[i].0@ == before[i0].0@);
                assert(before[i0].0@ != before[at as int].0@);
                if i != at {
                    assert(before[i0].0@ != before[last as int].0@);
                }
            }
            assert forall|q: Seq<char>| #[trigger]
                dash_contents(self.index).contains_key(q) implies rows_has(self.rows@, q) by {
                assert(rows_map(before).remove(k@).contains_key(q)) by {
                    if at != last && q == before[last as int].0@ {
                        assert(rows_has(before, q));
                    }
                }
            }
        }
        Some(row.1)
    }

    /// Binds `k` to `v` and returns the value it replaces.
    pub fn insert(&mut self, k: String, v: V) -> (r: Option<V>)
        requires
            old(self).wf(),
        ensures
            final(self).wf(),
            final(self)@ == old(self)@.insert(k@, v),
            match r {
                Some(prev) => old(self)@.contains_key(k@) && prev == old(self)@[k@],
                None => !old(self)@.contains_key(k@),
            },
    {
        let r = self.remove(k.as_str());
        let ghost before = self.rows@;
        let ghost index0 = dash_contents(self.index);
        let at: usize = self.rows.len();
        dash_insert(&mut self.index, k.clone(), at);
        proof {
            assert(!rows_has(before, k@)) by {
                assert(!self@.contains_key(k@));
            }
            crate::assoc::lemma_push(before, (k, v));
        }
        self.rows.push((k, v));
        proof {
            assert forall|i: int| 0 <= i < self.rows@.len() implies dash_contents(
                self.index,
            ).contains_key((#[trigger] self.rows@[i]).0@) && dash_contents(
                self.index,
            )[self.rows@[i].0@] == i by {
                if i < before.len() {
                    assert(self.rows@[i] == before[i]);
                    assert(before[i].0@ != k@);
                }
            }
            assert forall|q: Seq<char>| #[trigger]
                dash_contents(self.index).contains_key(q) implies rows_has(self.rows@, q) by {
                if q == k@ {
                    assert(self.rows@[before.len() as int].0@ == q);
                } else {
                    assert(index0.contains_key(q));
                    let i = rows_index(before, q);
                    assert(self.rows@[i].0@ == q);
                }
            }
            assert(old(self)@.remove(k@).insert(k@, v) =~= old(self)@.insert(k@, v));
        }
        r
    }
}

} // verus!
