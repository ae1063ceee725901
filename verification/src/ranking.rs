//! Putting counters in the order of reports: the largest first, equal ones by name.
use vstd::prelude::*;
use vstd::string::*;

verus! {

/// A name and its count.
pub type Count = (Seq<char>, u64);

/// One text stands before another in a dictionary.
pub open spec fn comes_before(a: Seq<char>, b: Seq<char>) -> bool
    decreases a.len(),
{
    if b.len() == 0 {
        false
    } else if a.len() == 0 {
        true
    } else if a[0] != b[0] {
        a[0] < b[0]
    } else {
        comes_before(a.skip(1), b.skip(1))
    }
}

/// One counter stands before another: it is larger, or as large and its name comes before.
pub open spec fn ranks_before(a: Count, b: Count) -> bool {
    ||| a.1 > b.1
    ||| a.1 == b.1 && comes_before(a.0, b.0)
}

/// No counter stands behind one that it ranks before.
pub open spec fn ranked(list: Seq<Count>) -> bool {
    forall|i: int, j: int|
        0 <= i < j < list.len() ==> !ranks_before(#[trigger] list[j], #[trigger] list[i])
}

/// The counters of a list.
pub open spec fn counts(rows: Seq<(String, u64)>) -> Seq<Count> {
    Seq::new(rows.len(), |i: int| (rows[i].0@, rows[i].1))
}

proof fn lemma_before_is_transitive(a: Seq<char>, b: Seq<char>, c: Seq<char>)
    requires
        comes_before(a, b),
        comes_before(b, c),
    ensures
        comes_before(a, c),
    decreases a.len(),
{
    if a.len() > 0 && a[0] == b[0] && b[0] == c[0] {
        lemma_before_is_transitive(a.skip(1), b.skip(1), c.skip(1));
    }
}

/// Of two different texts one comes before the other, and only one.
pub proof fn texts_are_ordered(a: Seq<char>, b: Seq<char>)
    ensures
        a != b ==> comes_before(a, b) != comes_before(b, a),
        !comes_before(a, a),
    decreases a.len(),
{
    if a.len() > 0 {
        texts_are_ordered(a.skip(1), b.skip(1));
        if b.len() > 0 && a != b && a[0] == b[0] {
            if a.skip(1) == b.skip(1) {
                assert(a =~= seq![a[0]] + a.skip(1));
                assert(b =~= seq![b[0]] + b.skip(1));
            }
        }
        if b.len() == 0 {
            assert(a.skip(1).len() >= 0);
        }
    } else if b.len() == 0 {
        assert(a =~= b);
    }
}

proof fn lemma_rank_is_transitive(a: Count, b: Count, c: Count)
    requires
        ranks_before(a, b),
        ranks_before(b, c),
    ensures
        ranks_before(a, c),
{
    if a.1 == b.1 && b.1 == c.1 {
        lemma_before_is_transitive(a.0, b.0, c.0);
    }
}

/// A ranked list of counters with different names tells their order: each ranks before all that stand
/// behind it.
pub proof fn ranking_is_strict(list: Seq<Count>, i: int, j: int)
    requires
        ranked(list),
        0 <= i < j < list.len(),
        list[i].0 != list[j].0,
    ensures
        ranks_before(list[i], list[j]),
{
    assert(!ranks_before(list[j], list[i]));
    texts_are_ordered(list[i].0, list[j].0);
}

fn text_before(a: &str, b: &str) -> (r: bool)
    ensures
        r == comes_before(a@, b@),
{
    let n: usize = a.unicode_len();
    let m: usize = b.unicode_len();
    let mut i: usize = 0;
    assert(a@.skip(0) =~= a@);
    assert(b@.skip(0) =~= b@);
    while i < n && i < m
        invariant
            n == a@.len(),
            m == b@.len(),
            i <= n,
            i <= m,
            comes_before(a@, b@) == comes_before(a@.skip(i as int), b@.skip(i as int)),
        decreases n - i,
    {
        let c = a.get_char(i);
        let d = b.get_char(i);
        if c != d {
            return c < d;
        }
        proof {
            assert(a@.skip(i as int).skip(1) =~= a@.skip(i + 1));
            assert(b@.skip(i as int).skip(1) =~= b@.skip(i + 1));
        }
        i += 1;
    }
    i < m
}

fn stands_before(a: &(String, u64), b: &(String, u64)) -> (r: bool)
    ensures
        r == ranks_before((a.0@, a.1), (b.0@, b.1)),
{
    a.1 > b.1 || a.1 == b.1 && text_before(a.0.as_str(), b.0.as_str())
}

/// Puts counters in order.
pub fn rank(rows: Vec<(String, u64)>) -> (r: Vec<(String, u64)>)
    ensures
        ranked(counts(r@)),
        counts(r@).to_multiset() == counts(rows@).to_multiset(),
{
    let mut sorted: Vec<(String, u64)> = Vec::new();
    let ghost all = counts(rows@);
    let n: usize = rows.len();
    let mut i: usize = 0;
    proof {
        assert(counts(sorted@) =~= all.take(0));
    }
    while i < n
        invariant
            n == rows@.len(),
            i <= n,
            all == counts(rows@),
            ranked(counts(sorted@)),
            counts(sorted@).to_multiset() == all.take(i as int).to_multiset(),
        decreases n - i,
    {
        let row = (rows[i].0.clone(), rows[i].1);
        let ghost new = (row.0@, row.1);
        let ghost before = counts(sorted@);
        let mut place: usize = 0;
        while place < sorted.len() && !stands_before(&row, &sorted[place])
            invariant
                place <= sorted@.len(),
                new == (row.0@, row.1),
                before == counts(sorted@),
                forall|j: int| 0 <= j < place ==> !ranks_before(new, #[trigger] before[j]),
            decreases sorted@.len() - place,
        {
            assert(before[place as int] == (sorted@[place as int].0@, sorted@[place as int].1));
            place += 1;
        }
        proof {
            if place < sorted@.len() {
                assert(before[place as int] == (sorted@[place as int].0@, sorted@[place as int].1));
            }
        }
        sorted.insert(place, row);
        proof {
            let after = counts(sorted@);
            assert(after =~= before.insert(place as int, new));
            vstd::seq_lib::to_multiset_insert(before, place as int, new);
            assert(all.take(i + 1) =~= all.take(i as int).push(new));
            vstd::seq_lib::to_multiset_build(all.take(i as int), new);
            lemma_inserted(before, place as int, new);
        }
        i += 1;
    }
    assert(all.take(n as int) =~= all);
    sorted
}

proof fn lemma_inserted(list: Seq<Count>, place: int, new: Count)
    requires
        ranked(list),
        0 <= place <= list.len(),
        forall|j: int| 0 <= j < place ==> !ranks_before(new, #[trigger] list[j]),
        place < list.len() ==> ranks_before(new, list[place]),
    ensures
        ranked(list.insert(place, new)),
{
    let after = list.insert(place, new);
    assert forall|i: int, j: int| 0 <= i < j < after.len() implies !ranks_before(
        #[trigger] after[j],
        #[trigger] after[i],
    ) by {
        if i == place {
            let b = list[j - 1];
            assert(after[j] == b);
            if ranks_before(b, new) {
                lemma_rank_is_transitive(b, new, list[place]);
                if j - 1 == place {
                    texts_are_ordered(b.0, b.0);
                }
            }
        } else if j == place {
            assert(after[i] == list[i]);
        } else {
            let a = if i < place {
                i
            } else {
                i - 1
            };
            let b = if j < place {
                j
            } else {
                j - 1
            };
            assert(after[i] == list[a] && after[j] == list[b]);
        }
    }
}

} // verus!
