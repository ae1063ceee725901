//! What holds of every ring buffer that operations lead to.
use vstd::prelude::*;
use vstd::set_lib::{lemma_int_range, lemma_len_subset, set_int_range};

use crate::align::{lemma_aligned_up, SSD_ALIGNMENT_BYTES};
use crate::assoc::{lemma_row_in_map, rows_map, rows_unique};
use crate::error::ArgumentError;
use crate::ssd_ring::{
    empty_ring, expire, lemma_allocate_inv, lemma_commit_inv, lemma_expire, lemma_first_stop,
    lemma_forget_inv, lemma_pin_inv, lemma_place_begin, lemma_place_inv, lemma_unpin_inv,
    a_value_is_read_as_written, live_values_share_no_bytes, read_back,
    writes_leave_other_values_alone, written, Disk, KeyId, KvSsdKey, RingModel, SsdEntryState,
    SsdIndexEntry, SsdPreparedWrite,
};

verus! {

/// An operation on a ring buffer.
pub enum RingOp {
    Prepare { key: KeyId, len: u64, allowed: Seq<usize> },
    Commit { key: KeyId, success: bool },
    Pin { key: KeyId },
    Unpin { key: KeyId },
    Remove { key: KeyId },
}

/// The operation leads from `a` to `b`.
pub open spec fn op_done(a: RingModel, op: RingOp, b: RingModel) -> bool {
    match op {
        RingOp::Prepare { key, len, allowed } => {
            &&& a.search_is_sound(key, allowed, len)
            &&& exists|r: Result<SsdPreparedWrite, ArgumentError>| #[trigger]
                a.prepared(key, len, allowed, r, b)
        },
        RingOp::Commit { key, success } => b == a.commit(key, success),
        RingOp::Pin { key } => match a.readable(key) {
            Some(entry) => {
                &&& a.pins.contains_key(key) ==> a.pins[key].count < usize::MAX
                &&& b == a.pin(key, entry)
            },
            None => b == a,
        },
        RingOp::Unpin { key } => a.pins.contains_key(key) && b == a.unpin(key),
        RingOp::Remove { key } => b == a.forget(key),
    }
}

/// Operations lead from empty rings of the given capacities through these states.
pub open spec fn ring_run(caps: Seq<u64>, ops: Seq<RingOp>, states: Seq<RingModel>) -> bool {
    &&& 0 < caps.len() <= usize::MAX
    &&& states.len() == ops.len() + 1
    &&& states[0] == empty_ring(caps)
    &&& forall|i: int|
        0 <= i < ops.len() ==> op_done(#[trigger] states[i], ops[i], states[i + 1])
}

/// The rings are of the given capacities.
pub open spec fn has_capacities(m: RingModel, caps: Seq<u64>) -> bool {
    &&& m.shards.len() == caps.len()
    &&& forall|s: int| 0 <= s < caps.len() ==> (#[trigger] m.shards[s]).capacity == caps[s]
}

/// What a request for room did: nothing, or the key was placed in a shard that has room.
proof fn lemma_prepared(a: RingModel, key: KeyId, len: u64, allowed: Seq<usize>, b: RingModel)
    requires
        a.inv(),
        op_done(a, RingOp::Prepare { key, len, allowed }, b),
    ensures
        b == a || exists|s: int|
            {
                &&& 0 <= s < a.shards.len()
                &&& !a.entries.contains_key(key)
                &&& a.fits(s, RingModel::ssd_len(len))
                &&& !a.blocked(s, RingModel::ssd_len(len))
                &&& b == #[trigger] a.place(key, s, len)
            },
{
    lemma_first_stop(a, allowed, RingModel::ssd_len(len), 0);
}

proof fn lemma_op(a: RingModel, op: RingOp, b: RingModel, caps: Seq<u64>)
    requires
        a.inv(),
        has_capacities(a, caps),
        caps.len() <= usize::MAX,
        op_done(a, op, b),
    ensures
        b.inv(),
        has_capacities(b, caps),
{
    match op {
        RingOp::Prepare { key, len, allowed } => {
            lemma_prepared(a, key, len, allowed, b);
            if b != a {
                let s = choose|s: int|
                    {
                        &&& 0 <= s < a.shards.len()
                        &&& !a.entries.contains_key(key)
                        &&& a.fits(s, RingModel::ssd_len(len))
                        &&& !a.blocked(s, RingModel::ssd_len(len))
                        &&& b == #[trigger] a.place(key, s, len)
                    };
                lemma_place_inv(a, key, s, len);
                assert forall|r: int| 0 <= r < caps.len() implies (
                #[trigger] b.shards[r]).capacity == caps[r] by {
                    assert(a.shards[r].capacity == caps[r]);
                }
            }
        },
        RingOp::Commit { key, success } => {
            lemma_commit_inv(a, key, success);
        },
        RingOp::Pin { key } => {
            if let Some(entry) = a.readable(key) {
                lemma_pin_inv(a, key, entry);
            }
        },
        RingOp::Unpin { key } => {
            lemma_unpin_inv(a, key);
        },
        RingOp::Remove { key } => {
            lemma_forget_inv(a, key);
        },
    }
}

/// Every state that operations lead to is consistent.
pub proof fn reached_rings_are_consistent(
    caps: Seq<u64>,
    ops: Seq<RingOp>,
    states: Seq<RingModel>,
    i: int,
)
    requires
        ring_run(caps, ops, states),
        0 <= i < states.len(),
    ensures
        states[i].inv(),
        has_capacities(states[i], caps),
    decreases i,
{
    if i == 0 {
        assert forall|s: int| 0 <= s < states[0].shards.len() implies #[trigger] states[0].shard_inv(
            s,
        ) by {}
    } else {
        reached_rings_are_consistent(caps, ops, states, i - 1);
        assert(op_done(states[i - 1], ops[i - 1], states[i - 1 + 1]));
        lemma_op(states[i - 1], ops[i - 1], states[i], caps);
    }
}

/// Whatever operations were made, two live values never share a byte of a shard file, and each lies
/// within its file.
pub proof fn live_values_never_overlap(
    caps: Seq<u64>,
    ops: Seq<RingOp>,
    states: Seq<RingModel>,
    i: int,
    k: KeyId,
    q: KeyId,
)
    requires
        ring_run(caps, ops, states),
        0 <= i < states.len(),
        k != q,
        states[i].entries.contains_key(k),
        states[i].entries.contains_key(q),
        states[i].offset_valid(states[i].entries[k].spec_entry()),
        states[i].offset_valid(states[i].entries[q].spec_entry()),
    ensures
        ({
            let a = states[i].entries[k].spec_entry();
            let b = states[i].entries[q].spec_entry();
            &&& a.file_apart(b)
            &&& a.file_offset + a.aligned_len <= caps[a.shard_id as int]
            &&& b.file_offset + b.aligned_len <= caps[b.shard_id as int]
        }),
{
    reached_rings_are_consistent(caps, ops, states, i);
    let m = states[i];
    live_values_share_no_bytes(m, k, q);
    assert(m.entry_inv(m.entries[k].spec_entry()));
    assert(m.entry_inv(m.entries[q].spec_entry()));
}

/// The logical positions of the live values of a shard among the first rows.
spec fn positions(m: RingModel, rows: Seq<(KvSsdKey, SsdEntryState)>, shard: int) -> Set<int> {
    Set::new(
        |p: int|
            exists|i: int|
                {
                    &&& 0 <= i < rows.len()
                    &&& (#[trigger] rows[i]).1.spec_entry().shard_id == shard
                    &&& m.offset_valid(rows[i].1.spec_entry())
                    &&& rows[i].1.spec_entry().begin <= p < rows[i].1.spec_entry().end()
                },
    )
}

proof fn lemma_positions(m: RingModel, rows: Seq<(KvSsdKey, SsdEntryState)>, shard: int)
    requires
        m.inv(),
        forall|i: int|
            0 <= i < rows.len() ==> m.entries.contains_key((#[trigger] rows[i]).0@)
                && m.entries[rows[i].0@] == rows[i].1,
        rows_unique(rows),
    ensures
        positions(m, rows, shard).finite(),
        positions(m, rows, shard).len() == crate::ssd_ring::used_bytes(m, rows, shard),
    decreases rows.len(),
{
    let all = positions(m, rows, shard);
    if rows.len() == 0 {
        assert(all =~= Set::<int>::empty());
    } else {
        let less = rows.drop_last();
        let last = rows.last();
        let e = last.1.spec_entry();
        assert forall|i: int| 0 <= i < less.len() implies m.entries.contains_key(
            (#[trigger] less[i]).0@,
        ) && m.entries[less[i].0@] == less[i].1 by {
            assert(less[i] == rows[i]);
        }
        assert forall|i: int, j: int|
            0 <= i < less.len() && 0 <= j < less.len() && i != j implies (
        #[trigger] less[i]).0@ != (#[trigger] less[j]).0@ by {
            assert(less[i] == rows[i] && less[j] == rows[j]);
        }
        lemma_positions(m, less, shard);
        let before = positions(m, less, shard);
        if e.shard_id == shard && m.offset_valid(e) {
            let own = set_int_range(e.begin as int, e.end());
            lemma_int_range(e.begin as int, e.end());
            assert(all =~= before.union(own)) by {
                assert forall|p: int| all.contains(p) == before.union(own).contains(p) by {
                    if all.contains(p) {
                        let i = choose|i: int|
                            {
                                &&& 0 <= i < rows.len()
                                &&& (#[trigger] rows[i]).1.spec_entry().shard_id == shard
                                &&& m.offset_valid(rows[i].1.spec_entry())
                                &&& rows[i].1.spec_entry().begin <= p
                                    < rows[i].1.spec_entry().end()
                            };
                        if i < less.len() {
                            assert(less[i] == rows[i]);
                        }
                    }
                    if before.contains(p) {
                        let i = choose|i: int|
                            {
                                &&& 0 <= i < less.len()
                                &&& (#[trigger] less[i]).1.spec_entry().shard_id == shard
                                &&& m.offset_valid(less[i].1.spec_entry())
                                &&& less[i].1.spec_entry().begin <= p
                                    < less[i].1.spec_entry().end()
                            };
                        assert(rows[i] == less[i]);
                    }
                    if own.contains(p) {
                        assert(rows[rows.len() - 1] == last);
                    }
                }
            }
            assert(before.disjoint(own)) by {
                assert forall|p: int| !(before.contains(p) && own.contains(p)) by {
                    if before.contains(p) && own.contains(p) {
                        let i = choose|i: int|
                            {
                                &&& 0 <= i < less.len()
                                &&& (#[trigger] less[i]).1.spec_entry().shard_id == shard
                                &&& m.offset_valid(less[i].1.spec_entry())
                                &&& less[i].1.spec_entry().begin <= p
                                    < less[i].1.spec_entry().end()
                            };
                        assert(rows[i] == less[i]);
                        assert(rows[i].0@ != rows[rows.len() - 1].0@);
                        assert(m.entries.contains_key(rows[i].0@));
                        assert(m.entries.contains_key(last.0@));
                        assert(m.entries[rows[i].0@].spec_entry().apart(
                            m.entries[last.0@].spec_entry(),
                        ));
                    }
                }
            }
            vstd::set_lib::lemma_set_disjoint_lens(before, own);
        } else {
            assert(all =~= before) by {
                assert forall|p: int| all.contains(p) == before.contains(p) by {
                    if all.contains(p) {
                        let i = choose|i: int|
                            {
                                &&& 0 <= i < rows.len()
                                &&& (#[trigger] rows[i]).1.spec_entry().shard_id == shard
                                &&& m.offset_valid(rows[i].1.spec_entry())
                                &&& rows[i].1.spec_entry().begin <= p
                                    < rows[i].1.spec_entry().end()
                            };
                        assert(i < less.len());
                        assert(less[i] == rows[i]);
                    }
                    if before.contains(p) {
                        let i = choose|i: int|
                            {
                                &&& 0 <= i < less.len()
                                &&& (#[trigger] less[i]).1.spec_entry().shard_id == shard
                                &&& m.offset_valid(less[i].1.spec_entry())
                                &&& less[i].1.spec_entry().begin <= p
                                    < less[i].1.spec_entry().end()
                            };
                        assert(rows[i] == less[i]);
                    }
                }
            }
        }
    }
}

/// The live values of a shard never take more bytes than the shard has.
pub proof fn used_bytes_fit_the_shard(
    m: RingModel,
    rows: Seq<(KvSsdKey, SsdEntryState)>,
    shard: int,
)
    requires
        m.inv(),
        rows_unique(rows),
        rows_map(rows) == m.entries,
        0 <= shard < m.shards.len(),
    ensures
        0 <= crate::ssd_ring::used_bytes(m, rows, shard) <= m.shards[shard].capacity,
{
    assert forall|i: int| 0 <= i < rows.len() implies m.entries.contains_key(
        (#[trigger] rows[i]).0@,
    ) && m.entries[rows[i].0@] == rows[i].1 by {
        lemma_row_in_map(rows, i);
    }
    lemma_positions(m, rows, shard);
    assert(m.shard_inv(shard));
    let ring = m.shards[shard];
    let window = set_int_range(ring.tail, ring.head);
    lemma_int_range(ring.tail, ring.head);
    let all = positions(m, rows, shard);
    assert forall|p: int| all.contains(p) implies window.contains(p) by {
        let i = choose|i: int|
            {
                &&& 0 <= i < rows.len()
                &&& (#[trigger] rows[i]).1.spec_entry().shard_id == shard
                &&& m.offset_valid(rows[i].1.spec_entry())
                &&& rows[i].1.spec_entry().begin <= p < rows[i].1.spec_entry().end()
            };
        assert(m.entries.contains_key(rows[i].0@));
        assert(m.entry_inv(m.entries[rows[i].0@].spec_entry()));
    }
    assert(all.subset_of(window));
    lemma_len_subset(all, window);
}

/// A key at the front of an order goes when the tail moves to `new_tail`: it has no entry, or one that
/// begins before.
pub open spec fn expires(entries: Map<KeyId, SsdEntryState>, k: KeyId, new_tail: int) -> bool {
    !(entries.contains_key(k) && entries[k].spec_entry().begin >= new_tail)
}

/// The key stands in the order, and it and all before it go when the tail moves.
pub open spec fn front_reaches(
    order: Seq<KeyId>,
    entries: Map<KeyId, SsdEntryState>,
    new_tail: int,
    k: KeyId,
) -> bool {
    exists|i: int|
        {
            &&& 0 <= i < order.len()
            &&& #[trigger] order[i] == k
            &&& forall|j: int| 0 <= j <= i ==> expires(entries, #[trigger] order[j], new_tail)
        }
}

/// Moving a tail drops exactly the entries of the keys at the front of the order that go.
proof fn lemma_expire_exact(
    order: Seq<KeyId>,
    entries: Map<KeyId, SsdEntryState>,
    new_tail: int,
    k: KeyId,
)
    requires
        entries.contains_key(k),
    ensures
        expire(order, entries, new_tail).entries.contains_key(k) <==> !front_reaches(
            order,
            entries,
            new_tail,
            k,
        ),
    decreases order.len(),
{
    if order.len() > 0 {
        let first = order[0];
        if !expires(entries, first, new_tail) {
            if front_reaches(order, entries, new_tail, k) {
                let i = choose|i: int|
                    {
                        &&& 0 <= i < order.len()
                        &&& #[trigger] order[i] == k
                        &&& forall|j: int|
                            0 <= j <= i ==> expires(entries, #[trigger] order[j], new_tail)
                    };
                assert(expires(entries, order[0], new_tail));
            }
        } else {
            let less = entries.remove(first);
            let rest = order.drop_first();
            if first == k {
                lemma_expire(rest, less, new_tail);
                assert(!expire(rest, less, new_tail).entries.contains_key(k)) by {
                    if expire(rest, less, new_tail).entries.contains_key(k) {
                        assert(less.contains_key(k));
                    }
                }
                assert(order[0] == k);
            } else {
                lemma_expire_exact(rest, less, new_tail, k);
                if front_reaches(rest, less, new_tail, k) {
                    let i = choose|i: int|
                        {
                            &&& 0 <= i < rest.len()
                            &&& #[trigger] rest[i] == k
                            &&& forall|j: int|
                                0 <= j <= i ==> expires(less, #[trigger] rest[j], new_tail)
                        };
                    assert(order[i + 1] == k);
                    assert forall|j: int| 0 <= j <= i + 1 implies expires(
                        entries,
                        #[trigger] order[j],
                        new_tail,
                    ) by {
                        if j > 0 {
                            assert(rest[j - 1] == order[j]);
                            assert(expires(less, rest[j - 1], new_tail));
                        }
                    }
                }
                if front_reaches(order, entries, new_tail, k) {
                    let i = choose|i: int|
                        {
                            &&& 0 <= i < order.len()
                            &&& #[trigger] order[i] == k
                            &&& forall|j: int|
                                0 <= j <= i ==> expires(entries, #[trigger] order[j], new_tail)
                        };
                    assert(rest[i - 1] == k);
                    assert forall|j: int| 0 <= j <= i - 1 implies expires(
                        less,
                        #[trigger] rest[j],
                        new_tail,
                    ) by {
                        assert(rest[j] == order[j + 1]);
                        assert(expires(entries, order[j + 1], new_tail));
                    }
                }
            }
        }
    }
}

/// What is left of an order is its end, and the keys that went have no entries any more. No key is
/// evicted twice.
proof fn lemma_expire_suffix(order: Seq<KeyId>, entries: Map<KeyId, SsdEntryState>, new_tail: int)
    ensures
        ({
            let gone = expire(order, entries, new_tail);
            let c = order.len() - gone.order.len();
            &&& 0 <= c <= order.len()
            &&& gone.order == order.skip(c)
            &&& forall|j: int| 0 <= j < c ==> !gone.entries.contains_key(#[trigger] order[j])
            &&& gone.evicted.no_duplicates()
            &&& forall|j: int|
                0 <= j < gone.evicted.len() ==> entries.contains_key(#[trigger] gone.evicted[j])
        }),
    decreases order.len(),
{
    let gone = expire(order, entries, new_tail);
    if order.len() == 0 || !expires(entries, order[0], new_tail) {
        assert(order.skip(0) =~= order);
    } else {
        let first = order[0];
        let less = entries.remove(first);
        let rest = order.drop_first();
        lemma_expire_suffix(rest, less, new_tail);
        lemma_expire(rest, less, new_tail);
        let g = expire(rest, less, new_tail);
        let c = rest.len() - g.order.len();
        assert(rest.skip(c) =~= order.skip(c + 1));
        assert forall|j: int| 0 <= j < c + 1 implies !gone.entries.contains_key(
            #[trigger] order[j],
        ) by {
            if j == 0 {
                if gone.entries.contains_key(first) {
                    assert(less.contains_key(first));
                }
            } else {
                assert(rest[j - 1] == order[j]);
            }
        }
        assert forall|j: int| 0 <= j < gone.evicted.len() implies entries.contains_key(
            #[trigger] gone.evicted[j],
        ) && (j > 0 || !(entries.contains_key(first) && entries[first] is Committed)
            ==> less.contains_key(gone.evicted[j])) by {
            if entries.contains_key(first) && entries[first] is Committed {
                if j > 0 {
                    assert(gone.evicted[j] == g.evicted[j - 1]);
                    assert(less.contains_key(g.evicted[j - 1]));
                }
            } else {
                assert(less.contains_key(g.evicted[j]));
            }
        }
        if entries.contains_key(first) && entries[first] is Committed {
            assert forall|i: int, j: int|
                0 <= i < gone.evicted.len() && 0 <= j < gone.evicted.len() && i
                    != j implies gone.evicted[i] != gone.evicted[j] by {
                if i > 0 && j > 0 {
                    assert(gone.evicted[i] == g.evicted[i - 1]);
                    assert(gone.evicted[j] == g.evicted[j - 1]);
                } else if i > 0 {
                    assert(less.contains_key(gone.evicted[i]));
                } else {
                    assert(less.contains_key(gone.evicted[j]));
                }
            }
        }
    }
}

/// The value is being written, or a reader has it pinned where it can be read.
pub open spec fn busy(m: RingModel, k: KeyId) -> bool {
    &&& m.entries.contains_key(k)
    &&& m.entries[k] is Writing || (m.pins.contains_key(k) && m.readable(k) == Some(
        m.pins[k].entry,
    ))
}

/// The key stands in the order of a shard in which it has no entry, and a write that moves the tail of
/// that shard comes across it.
pub open spec fn misplaced(m: RingModel, s: int, new_tail: int, k: KeyId) -> bool {
    &&& new_tail > m.shards[s].tail
    &&& m.entries[k].spec_entry().shard_id != s
    &&& front_reaches(m.shards[s].order, m.entries, new_tail, k)
}

/// While another key is given room, a value that is being written or read keeps its place, and what is
/// read can be read on. The one exception is a key that was given room in another shard before: the
/// tail of that shard takes it along.
pub proof fn busy_values_survive_writes(m: RingModel, k0: KeyId, s: int, len: u64, k: KeyId)
    requires
        m.inv(),
        0 <= s < m.shards.len() <= usize::MAX,
        !m.entries.contains_key(k0),
        m.fits(s, RingModel::ssd_len(len)),
        !m.blocked(s, RingModel::ssd_len(len)),
        busy(m, k),
    ensures
        ({
            let n = m.place(k0, s, len);
            let kept = n.entries.contains_key(k);
            &&& kept == !misplaced(m, s, m.place_tail(s, RingModel::ssd_len(len)), k)
            &&& kept ==> {
                &&& n.entries[k] == m.entries[k]
                &&& n.offset_valid(m.entries[k].spec_entry())
                &&& n.readable(k) == m.readable(k)
            }
        }),
{
    lemma_place_inv(m, k0, s, len);
    let n = m.place(k0, s, len);
    let size = RingModel::ssd_len(len);
    lemma_aligned_up(len as int, SSD_ALIGNMENT_BYTES as int);
    lemma_allocate_inv(m, s, size);
    let t = m.place_tail(s, size);
    let a = m.allocate(s, size);
    if t > m.shards[s].tail {
        lemma_expire_exact(m.shards[s].order, m.entries, t, k);
        if m.entries[k] is Writing {
            assert(!m.writing_before(k, s, t));
        } else {
            assert(!m.pinned_before(k, s, t));
        }
        if front_reaches(m.shards[s].order, m.entries, t, k) {
            assert(expires(m.entries, k, t));
        }
    }
    if n.entries.contains_key(k) {
        assert(a.entries.contains_key(k));
        if m.entries[k] is Writing {
            assert(n.offset_valid(n.entries[k].spec_entry()));
        } else {
            assert(n.pins.contains_key(k));
            assert(n.offset_valid(n.pins[k].entry));
        }
    }
}

/// No key stands in two orders or twice in one; every value stands in the order of its shard, in which
/// values follow one another as they lie in the ring; and no value lies before the tail.
pub open spec fn ring_regular(m: RingModel) -> bool {
    &&& forall|k: KeyId| #[trigger]
        m.entries.contains_key(k) ==> m.offset_valid(m.entries[k].spec_entry())
            && m.shards[m.entries[k].spec_entry().shard_id as int].order.contains(k)
    &&& forall|s: int| 0 <= s < m.shards.len() ==> (#[trigger] m.shards[s]).order.no_duplicates()
    &&& forall|s: int, r: int, k: KeyId|
        0 <= s < m.shards.len() && 0 <= r < m.shards.len() && s != r
            && #[trigger] m.shards[s].order.contains(k) ==> !#[trigger] m.shards[r].order.contains(k)
    &&& forall|s: int, i: int, j: int|
        0 <= s < m.shards.len() && 0 <= i < j < m.shards[s].order.len() && m.entries.contains_key(
            #[trigger] m.shards[s].order[i],
        ) && m.entries.contains_key(#[trigger] m.shards[s].order[j])
            ==> m.entries[m.shards[s].order[i]].spec_entry().begin
            <= m.entries[m.shards[s].order[j]].spec_entry().begin
}

/// A key that is given room stands in no order yet.
pub open spec fn is_fresh(m: RingModel, k: KeyId) -> bool {
    forall|s: int| 0 <= s < m.shards.len() ==> !(#[trigger] m.shards[s]).order.contains(k)
}

/// In a regular ring buffer, moving the tail of a shard drops exactly the values of that shard that
/// begin before it.
proof fn lemma_drops_exactly(m: RingModel, s: int, t: int, k: KeyId)
    requires
        m.inv(),
        ring_regular(m),
        0 <= s < m.shards.len(),
        m.entries.contains_key(k),
    ensures
        front_reaches(m.shards[s].order, m.entries, t, k) <==> m.entries[k].spec_entry().shard_id
            == s && m.entries[k].spec_entry().begin < t,
{
    let order = m.shards[s].order;
    let e = m.entries[k].spec_entry();
    if front_reaches(order, m.entries, t, k) {
        let i = choose|i: int|
            {
                &&& 0 <= i < order.len()
                &&& #[trigger] order[i] == k
                &&& forall|j: int| 0 <= j <= i ==> expires(m.entries, #[trigger] order[j], t)
            };
        assert(expires(m.entries, order[i], t));
        assert(m.shards[s].order.contains(k));
        assert(m.shards[e.shard_id as int].order.contains(k));
    }
    if e.shard_id == s && e.begin < t {
        assert(order.contains(k));
        let i = choose|i: int| 0 <= i < order.len() && order[i] == k;
        assert forall|j: int| 0 <= j <= i implies expires(m.entries, #[trigger] order[j], t) by {
            if m.entries.contains_key(order[j]) && j < i {
                assert(m.entries.contains_key(m.shards[s].order[i]));
                assert(m.entries[m.shards[s].order[j]].spec_entry().begin
                    <= m.entries[m.shards[s].order[i]].spec_entry().begin);
            }
        }
        assert(order[i] == k);
    }
}

/// In a regular ring buffer a write evicts exactly the committed values of its shard that begin before
/// the new tail, each once, and every other value stays as it is.
pub proof fn a_write_evicts_what_the_tail_passes(m: RingModel, s: int, size: int)
    requires
        m.inv(),
        ring_regular(m),
        0 <= s < m.shards.len(),
        0 <= size,
        size % SSD_ALIGNMENT_BYTES as int == 0,
        m.fits(s, size),
        !m.blocked(s, size),
    ensures
        ({
            let t = m.place_tail(s, size);
            let evicted = m.evicted_by(s, t);
            &&& evicted.no_duplicates()
            &&& forall|k: KeyId| #[trigger]
                evicted.contains(k) <==> m.entries.contains_key(k) && m.entries[k] is Committed
                    && m.entries[k].spec_entry().shard_id == s && m.entries[k].spec_entry().begin
                    < t
            &&& forall|k: KeyId| #[trigger]
                m.entries.contains_key(k) && !evicted.contains(k) ==> m.allocate(
                    s,
                    size,
                ).entries.contains_key(k) && m.allocate(s, size).entries[k] == m.entries[k]
        }),
{
    let t = m.place_tail(s, size);
    let evicted = m.evicted_by(s, t);
    let order = m.shards[s].order;
    assert(m.shard_inv(s));
    lemma_allocate_inv(m, s, size);
    if t > m.shards[s].tail {
        lemma_expire(order, m.entries, t);
        lemma_expire_suffix(order, m.entries, t);
        let gone = expire(order, m.entries, t);
        assert forall|k: KeyId| #[trigger]
            evicted.contains(k) <==> m.entries.contains_key(k) && m.entries[k] is Committed
                && m.entries[k].spec_entry().shard_id == s && m.entries[k].spec_entry().begin < t by {
            if evicted.contains(k) {
                let i = choose|i: int| 0 <= i < evicted.len() && evicted[i] == k;
                assert(m.entries.contains_key(gone.evicted[i]));
            }
            if m.entries.contains_key(k) {
                lemma_expire_exact(order, m.entries, t, k);
                lemma_drops_exactly(m, s, t, k);
            }
        }
        assert forall|k: KeyId| #[trigger]
            m.entries.contains_key(k) && !evicted.contains(k) implies m.allocate(
            s,
            size,
        ).entries.contains_key(k) && m.allocate(s, size).entries[k] == m.entries[k] by {
            lemma_expire_exact(order, m.entries, t, k);
            lemma_drops_exactly(m, s, t, k);
            if m.entries[k] is Writing {
                assert(!m.writing_before(k, s, t));
            }
        }
    } else {
        assert forall|k: KeyId| m.entries.contains_key(k) implies !(m.entries[k].spec_entry().shard_id
            == s && m.entries[k].spec_entry().begin < t) by {
            assert(m.offset_valid(m.entries[k].spec_entry()));
        }
    }
}

proof fn lemma_allocate_regular(m: RingModel, s: int, size: int)
    requires
        m.inv(),
        ring_regular(m),
        0 <= s < m.shards.len(),
        0 <= size,
        size % SSD_ALIGNMENT_BYTES as int == 0,
        m.fits(s, size),
        !m.blocked(s, size),
    ensures
        ring_regular(m.allocate(s, size)),
        forall|k: KeyId, r: int|
            0 <= r < m.shards.len() && #[trigger] m.allocate(s, size).shards[r].order.contains(k)
                ==> m.shards[r].order.contains(k),
{
    let n = m.allocate(s, size);
    let t = m.place_tail(s, size);
    let order = m.shards[s].order;
    lemma_allocate_inv(m, s, size);
    a_write_evicts_what_the_tail_passes(m, s, size);
    let c = order.len() - n.shards[s].order.len();
    if t > m.shards[s].tail {
        lemma_expire_suffix(order, m.entries, t);
    } else {
        assert(order.skip(0) =~= order);
    }
    assert(n.shards[s].order == order.skip(c));
    assert forall|r: int| 0 <= r < n.shards.len() && r != s implies #[trigger] n.shards[r]
        == m.shards[r] by {}
    assert forall|k: KeyId, r: int|
        0 <= r < m.shards.len() && #[trigger] n.shards[r].order.contains(k) implies m.shards[r].order.contains(
        k,
    ) by {
        if r == s {
            let i = choose|i: int|
                0 <= i < n.shards[s].order.len() && n.shards[s].order[i] == k;
            assert(order[i + c] == k);
        }
    }
    assert forall|k: KeyId| #[trigger] n.entries.contains_key(k) implies n.offset_valid(
        n.entries[k].spec_entry(),
    ) && n.shards[n.entries[k].spec_entry().shard_id as int].order.contains(k) by {
        assert(m.entries.contains_key(k));
        let e = m.entries[k].spec_entry();
        assert(m.offset_valid(e));
        assert(m.shards[e.shard_id as int].order.contains(k));
        if e.shard_id == s {
            let i = choose|i: int| 0 <= i < order.len() && order[i] == k;
            if t > m.shards[s].tail {
                lemma_expire_exact(order, m.entries, t, k);
                lemma_drops_exactly(m, s, t, k);
                assert(!(i < c));
            }
            assert(n.shards[s].order[i - c] == k);
        }
    }
    assert forall|r: int| 0 <= r < n.shards.len() implies (
    #[trigger] n.shards[r]).order.no_duplicates() by {
        assert(m.shards[r].order.no_duplicates());
        if r == s {
            assert forall|i: int, j: int|
                0 <= i < n.shards[s].order.len() && 0 <= j < n.shards[s].order.len() && i
                    != j implies n.shards[s].order[i] != n.shards[s].order[j] by {
                assert(n.shards[s].order[i] == order[i + c]);
                assert(n.shards[s].order[j] == order[j + c]);
            }
        }
    }
    assert forall|a: int, r: int, k: KeyId|
        0 <= a < n.shards.len() && 0 <= r < n.shards.len() && a != r
            && #[trigger] n.shards[a].order.contains(k) implies !#[trigger] n.shards[r].order.contains(
        k,
    ) by {
        assert(m.shards[a].order.contains(k));
        if n.shards[r].order.contains(k) {
            assert(m.shards[r].order.contains(k));
        }
    }
    assert forall|r: int, i: int, j: int|
        0 <= r < n.shards.len() && 0 <= i < j < n.shards[r].order.len() && n.entries.contains_key(
            #[trigger] n.shards[r].order[i],
        ) && n.entries.contains_key(
            #[trigger] n.shards[r].order[j],
        ) implies n.entries[n.shards[r].order[i]].spec_entry().begin
        <= n.entries[n.shards[r].order[j]].spec_entry().begin by {
        let a = if r == s {
            i + c
        } else {
            i
        };
        let b = if r == s {
            j + c
        } else {
            j
        };
        assert(n.shards[r].order[i] == m.shards[r].order[a]);
        assert(n.shards[r].order[j] == m.shards[r].order[b]);
        assert(m.entries.contains_key(m.shards[r].order[a]));
        assert(m.entries.contains_key(m.shards[r].order[b]));
    }
}

proof fn lemma_place_regular(m: RingModel, k0: KeyId, s: int, len: u64)
    requires
        m.inv(),
        ring_regular(m),
        is_fresh(m, k0),
        0 <= s < m.shards.len() <= usize::MAX,
        !m.entries.contains_key(k0),
        m.fits(s, RingModel::ssd_len(len)),
        !m.blocked(s, RingModel::ssd_len(len)),
    ensures
        ring_regular(m.place(k0, s, len)),
{
    let size = RingModel::ssd_len(len);
    lemma_aligned_up(len as int, SSD_ALIGNMENT_BYTES as int);
    lemma_allocate_inv(m, s, size);
    lemma_allocate_regular(m, s, size);
    lemma_place_begin(m, s, size);
    let a = m.allocate(s, size);
    let n = m.place(k0, s, len);
    let e0 = m.placed_entry(s, len);
    let old_order = a.shards[s].order;
    assert(m.shard_inv(s));
    assert(n.shards[s].order == old_order.push(k0));
    assert(n.shards[s].order[old_order.len() as int] == k0);
    assert forall|r: int| 0 <= r < n.shards.len() implies !(
    #[trigger] a.shards[r]).order.contains(k0) by {
        if a.shards[r].order.contains(k0) {
            assert(m.shards[r].order.contains(k0));
        }
    }
    assert forall|r: int, k: KeyId|
        0 <= r < n.shards.len() implies (#[trigger] n.shards[r].order.contains(k) == (
    a.shards[r].order.contains(k) || (r == s && k == k0))) by {
        if r == s {
            if a.shards[s].order.contains(k) {
                let i = choose|i: int| 0 <= i < old_order.len() && old_order[i] == k;
                assert(n.shards[s].order[i] == k);
            }
            if n.shards[s].order.contains(k) {
                let i = choose|i: int|
                    0 <= i < n.shards[s].order.len() && n.shards[s].order[i] == k;
                if i < old_order.len() {
                    assert(old_order[i] == k);
                }
            }
        }
    }
    assert forall|k: KeyId| #[trigger] n.entries.contains_key(k) implies n.offset_valid(
        n.entries[k].spec_entry(),
    ) && n.shards[n.entries[k].spec_entry().shard_id as int].order.contains(k) by {
        if k == k0 {
            assert(n.shards[s].order.contains(k0));
        } else {
            assert(a.entries.contains_key(k));
            let r = a.entries[k].spec_entry().shard_id as int;
            assert(a.shards[r].order.contains(k));
            assert(n.shards[r].order.contains(k));
        }
    }
    assert forall|r: int| 0 <= r < n.shards.len() implies (
    #[trigger] n.shards[r]).order.no_duplicates() by {
        assert(a.shards[r].order.no_duplicates());
        if r == s {
            assert forall|i: int, j: int|
                0 <= i < n.shards[s].order.len() && 0 <= j < n.shards[s].order.len() && i
                    != j implies n.shards[s].order[i] != n.shards[s].order[j] by {
                if i < old_order.len() && j < old_order.len() {
                    assert(old_order[i] != old_order[j]);
                } else if i < old_order.len() {
                    assert(old_order.contains(old_order[i]));
                    assert(!a.shards[s].order.contains(k0));
                } else {
                    assert(old_order.contains(old_order[j]));
                    assert(!a.shards[s].order.contains(k0));
                }
            }
        }
    }
    assert forall|b: int, r: int, k: KeyId|
        0 <= b < n.shards.len() && 0 <= r < n.shards.len() && b != r
            && #[trigger] n.shards[b].order.contains(k) implies !#[trigger] n.shards[r].order.contains(
        k,
    ) by {
        assert(!a.shards[b].order.contains(k0));
        assert(!a.shards[r].order.contains(k0));
        if a.shards[b].order.contains(k) {
            assert(!a.shards[r].order.contains(k));
        }
    }
    assert forall|r: int, i: int, j: int|
        0 <= r < n.shards.len() && 0 <= i < j < n.shards[r].order.len() && n.entries.contains_key(
            #[trigger] n.shards[r].order[i],
        ) && n.entries.contains_key(
            #[trigger] n.shards[r].order[j],
        ) implies n.entries[n.shards[r].order[i]].spec_entry().begin
        <= n.entries[n.shards[r].order[j]].spec_entry().begin by {
        let x = n.shards[r].order[i];
        let y = n.shards[r].order[j];
        assert(a.shards[r].order[i] == x);
        assert(a.shards[r].order.contains(x));
        assert(!a.shards[r].order.contains(k0));
        assert(a.entries.contains_key(x));
        if j < a.shards[r].order.len() {
            assert(a.shards[r].order[j] == y);
            assert(a.shards[r].order.contains(y));
            assert(a.entries.contains_key(y));
            assert(a.entries[a.shards[r].order[i]].spec_entry().begin
                <= a.entries[a.shards[r].order[j]].spec_entry().begin);
        } else {
            assert(r == s && y == k0);
            let e = a.entries[x].spec_entry();
            assert(m.entries.contains_key(x));
            assert(m.entry_inv(m.entries[x].spec_entry()));
            assert(a.shards[e.shard_id as int].order.contains(x));
            assert(e.shard_id == s);
        }
    }
}

/// Keys are only given room that stand in no order yet.
pub open spec fn op_regular(a: RingModel, op: RingOp) -> bool {
    op matches RingOp::Prepare { key, .. } ==> a.entries.contains_key(key) || is_fresh(a, key)
}

/// A ring buffer stays regular while no key is given room again that still stands in an order, as it
/// does after its value was removed or its write has failed.
pub proof fn regular_rings_stay_regular(a: RingModel, op: RingOp, b: RingModel)
    requires
        a.inv(),
        a.shards.len() <= usize::MAX,
        ring_regular(a),
        op_done(a, op, b),
        op_regular(a, op),
    ensures
        ring_regular(b),
{
    match op {
        RingOp::Prepare { key, len, allowed } => {
            lemma_prepared(a, key, len, allowed, b);
            if b != a {
                let s = choose|s: int|
                    {
                        &&& 0 <= s < a.shards.len()
                        &&& !a.entries.contains_key(key)
                        &&& a.fits(s, RingModel::ssd_len(len))
                        &&& !a.blocked(s, RingModel::ssd_len(len))
                        &&& b == #[trigger] a.place(key, s, len)
                    };
                lemma_place_regular(a, key, s, len);
            }
        },
        RingOp::Commit { key, success } => {
            lemma_fewer_entries_regular(a, b);
        },
        RingOp::Pin { key } => {
            lemma_fewer_entries_regular(a, b);
        },
        RingOp::Unpin { key } => {
            lemma_fewer_entries_regular(a, b);
        },
        RingOp::Remove { key } => {
            lemma_fewer_entries_regular(a, b);
        },
    }
}

proof fn lemma_fewer_entries_regular(a: RingModel, b: RingModel)
    requires
        ring_regular(a),
        b.shards == a.shards,
        forall|k: KeyId| #[trigger]
            b.entries.contains_key(k) ==> a.entries.contains_key(k) && b.entries[k].spec_entry()
                == a.entries[k].spec_entry(),
    ensures
        ring_regular(b),
{
    assert forall|k: KeyId| #[trigger] b.entries.contains_key(k) implies b.offset_valid(
        b.entries[k].spec_entry(),
    ) && b.shards[b.entries[k].spec_entry().shard_id as int].order.contains(k) by {
        assert(a.entries.contains_key(k));
        assert(a.offset_valid(a.entries[k].spec_entry()));
    }
    assert forall|s: int, i: int, j: int|
        0 <= s < b.shards.len() && 0 <= i < j < b.shards[s].order.len() && b.entries.contains_key(
            #[trigger] b.shards[s].order[i],
        ) && b.entries.contains_key(
            #[trigger] b.shards[s].order[j],
        ) implies b.entries[b.shards[s].order[i]].spec_entry().begin
        <= b.entries[b.shards[s].order[j]].spec_entry().begin by {
        assert(a.entries.contains_key(a.shards[s].order[i]));
        assert(a.entries.contains_key(a.shards[s].order[j]));
    }
}

/// While no key is given room again that still stands in an order, every state that operations lead to
/// is regular.
pub proof fn reached_rings_are_regular(
    caps: Seq<u64>,
    ops: Seq<RingOp>,
    states: Seq<RingModel>,
    i: int,
)
    requires
        ring_run(caps, ops, states),
        forall|j: int| 0 <= j < ops.len() ==> op_regular(#[trigger] states[j], ops[j]),
        0 <= i < states.len(),
    ensures
        ring_regular(states[i]),
    decreases i,
{
    if i > 0 {
        reached_rings_are_regular(caps, ops, states, i - 1);
        reached_rings_are_consistent(caps, ops, states, i - 1);
        assert(op_done(states[i - 1], ops[i - 1], states[i - 1 + 1]));
        assert(op_regular(states[i - 1], ops[i - 1]));
        regular_rings_stay_regular(states[i - 1], ops[i - 1], states[i]);
    }
}

/// In a regular ring buffer no write takes a value away that is being written or read.
pub proof fn regular_rings_keep_busy_values(m: RingModel, k0: KeyId, s: int, len: u64, k: KeyId)
    requires
        m.inv(),
        ring_regular(m),
        0 <= s < m.shards.len() <= usize::MAX,
        !m.entries.contains_key(k0),
        m.fits(s, RingModel::ssd_len(len)),
        !m.blocked(s, RingModel::ssd_len(len)),
        busy(m, k),
    ensures
        m.place(k0, s, len).entries.contains_key(k),
        m.place(k0, s, len).entries[k] == m.entries[k],
        m.place(k0, s, len).readable(k) == m.readable(k),
{
    busy_values_survive_writes(m, k0, s, len, k);
    lemma_drops_exactly(m, s, m.place_tail(s, RingModel::ssd_len(len)), k);
}

/// The ring buffer after a key was pinned `n` times at a place.
pub open spec fn pinned_times(m: RingModel, k: KeyId, entry: SsdIndexEntry, n: nat) -> RingModel
    decreases n,
{
    if n == 0 {
        m
    } else {
        pinned_times(m, k, entry, (n - 1) as nat).pin(k, entry)
    }
}

/// The ring buffer after a key was unpinned `n` times.
pub open spec fn unpinned_times(m: RingModel, k: KeyId, n: nat) -> RingModel
    decreases n,
{
    if n == 0 {
        m
    } else {
        unpinned_times(m, k, (n - 1) as nat).unpin(k)
    }
}

/// A key that no reader holds is pinned `n` times and unpinned `u` times: as many readers as are left
/// hold it, at `n` the ring buffer is as it was, and nothing else ever changes.
pub proof fn as_many_unpins_undo_the_pins(
    m: RingModel,
    k: KeyId,
    entry: SsdIndexEntry,
    n: nat,
    u: nat,
)
    requires
        !m.pins.contains_key(k),
        0 < n <= usize::MAX,
        u <= n,
    ensures
        ({
            let after = unpinned_times(pinned_times(m, k, entry, n), k, u);
            &&& u == n ==> after == m
            &&& u < n ==> after == RingModel {
                pins: m.pins.insert(
                    k,
                    crate::ssd_ring::SsdReadPinInfo { entry, count: (n - u) as usize },
                ),
                ..m
            }
        }),
    decreases u, n,
{
    let info = |c: int| crate::ssd_ring::SsdReadPinInfo { entry, count: c as usize };
    if u == 0 {
        if n == 1 {
            assert(pinned_times(m, k, entry, 0) == m);
            assert(pinned_times(m, k, entry, 1) =~= RingModel {
                pins: m.pins.insert(k, info(1)),
                ..m
            });
        } else {
            as_many_unpins_undo_the_pins(m, k, entry, (n - 1) as nat, 0);
            let before = pinned_times(m, k, entry, (n - 1) as nat);
            assert(unpinned_times(before, k, 0) == before);
            assert(before.pin(k, entry) =~= RingModel { pins: m.pins.insert(k, info(n as int)), ..m });
        }
    } else {
        as_many_unpins_undo_the_pins(m, k, entry, n, (u - 1) as nat);
        let before = unpinned_times(pinned_times(m, k, entry, n), k, (u - 1) as nat);
        if u == n {
            assert(before.unpin(k).pins =~= m.pins);
            assert(before.unpin(k) =~= m);
        } else {
            assert(before.unpin(k) =~= RingModel {
                pins: m.pins.insert(k, info(n - u)),
                ..m
            });
        }
    }
}

/// While a value keeps its place, the files change only by writes of other values that are under way.
pub open spec fn disk_run(
    states: Seq<RingModel>,
    disks: Seq<Disk>,
    k: KeyId,
    entry: SsdIndexEntry,
) -> bool {
    &&& states.len() == disks.len()
    &&& forall|i: int|
        0 <= i < states.len() ==> (#[trigger] states[i]).inv() && has_place(states[i], k, entry)
    &&& forall|i: int| 0 <= i < disks.len() - 1 ==> #[trigger] disk_step(states, disks, k, i)
}

/// The value has this place: its write is under way, or it is stored.
pub open spec fn has_place(m: RingModel, k: KeyId, entry: SsdIndexEntry) -> bool {
    m.live(k) && m.entries[k].spec_entry() == entry
}

/// The files stay as they are, or the bytes of another value are written whose write is under way.
pub open spec fn disk_step(states: Seq<RingModel>, disks: Seq<Disk>, k: KeyId, i: int) -> bool {
    ||| disks[i + 1] == disks[i]
    ||| exists|q: KeyId, bytes: Seq<u8>|
        {
            &&& q != k
            &&& states[i].entries.contains_key(q)
            &&& states[i].entries[q] is Writing
            &&& disks[i + 1] == #[trigger] written(
                disks[i],
                states[i].entries[q].spec_entry(),
                bytes,
            )
        }
}

/// A value that was written where it was given room, behind it padding, is read back byte for byte as
/// long as it keeps its place, whatever else is written meanwhile.
pub proof fn a_stored_value_is_read_back(
    states: Seq<RingModel>,
    disks: Seq<Disk>,
    k: KeyId,
    entry: SsdIndexEntry,
    disk: Disk,
    data: Seq<u8>,
    padding: Seq<u8>,
    i: int,
)
    requires
        disk_run(states, disks, k, entry),
        0 <= i < disks.len(),
        data.len() == entry.len,
        data.len() + padding.len() == entry.aligned_len,
        disks[0] == written(disk, entry, data + padding),
    ensures
        read_back(disks[i], entry) == data,
    decreases i,
{
    if i == 0 {
        a_value_is_read_as_written(disk, entry, data + padding);
        assert((data + padding).take(entry.len as int) =~= data);
    } else {
        a_stored_value_is_read_back(states, disks, k, entry, disk, data, padding, i - 1);
        assert(disk_step(states, disks, k, i - 1));
        let m = states[i - 1];
        assert(m.inv() && has_place(m, k, entry));
        if disks[i] != disks[i - 1] {
            let (q, bytes) = choose|q: KeyId, bytes: Seq<u8>|
                {
                    &&& q != k
                    &&& m.entries.contains_key(q)
                    &&& m.entries[q] is Writing
                    &&& disks[i] == #[trigger] written(
                        disks[i - 1],
                        m.entries[q].spec_entry(),
                        bytes,
                    )
                };
            assert(m.offset_valid(m.entries[q].spec_entry()));
            writes_leave_other_values_alone(m, k, q, disks[i - 1], bytes);
        }
    }
}

/// A key that room was never asked for has no entry.
pub proof fn unknown_keys_have_no_entry(
    caps: Seq<u64>,
    ops: Seq<RingOp>,
    states: Seq<RingModel>,
    i: int,
    k: KeyId,
)
    requires
        ring_run(caps, ops, states),
        0 <= i < states.len(),
        forall|j: int|
            0 <= j < i ==> !(#[trigger] ops[j] matches RingOp::Prepare { key, .. } && key == k),
    ensures
        !states[i].entries.contains_key(k),
        states[i].readable(k) is None,
    decreases i,
{
    if i > 0 {
        unknown_keys_have_no_entry(caps, ops, states, i - 1, k);
        reached_rings_are_consistent(caps, ops, states, i - 1);
        let (a, op, b) = (states[i - 1], ops[i - 1], states[i]);
        assert(op_done(states[i - 1], ops[i - 1], states[i - 1 + 1]));
        assert(!(ops[i - 1] matches RingOp::Prepare { key, .. } && key == k));
        match op {
            RingOp::Prepare { key, len, allowed } => {
                lemma_prepared(a, key, len, allowed, b);
                if b != a {
                    let s = choose|s: int|
                        {
                            &&& 0 <= s < a.shards.len()
                            &&& !a.entries.contains_key(key)
                            &&& a.fits(s, RingModel::ssd_len(len))
                            &&& !a.blocked(s, RingModel::ssd_len(len))
                            &&& b == #[trigger] a.place(key, s, len)
                        };
                    let tail = a.place_tail(s, RingModel::ssd_len(len));
                    lemma_expire(a.shards[s].order, a.entries, tail);
                }
            },
            _ => {},
        }
    }
}

} // verus!
