//! What holds of the SSD store whatever is persisted: values are spread over devices and shards, a write
//! takes the bytes that come next, and what was written can be read.
use vstd::arithmetic::div_mod::{
    lemma_fundamental_div_mod, lemma_fundamental_div_mod_converse, lemma_mod_bound, lemma_small_mod,
};
use vstd::prelude::*;

use crate::align::{lemma_aligned_up, SSD_ALIGNMENT_BYTES};
use crate::error::{ArgumentError, SsdError};
use crate::ssd_plan::{
    chunk_step, device_at, first_on_device, is_cut, range_planned, root_limits, root_shard_capacity,
    roots_kept, shard_specs, ChunkRequest, KvSsdStorageRootLimit, RangeRead, SsdDeviceRoot,
    SsdReadPath,
};
use crate::ssd_ring::{
    expire, key_ids, lemma_expire, lemma_first_stop, lemma_place_begin, read_back, Disk, KeyId,
    KvSsdKey, RingModel, SsdEntryState, SsdIndexEntry, SsdPreparedWrite,
};
use crate::ssd_ring_laws::{a_write_evicts_what_the_tail_passes, ring_regular};
use crate::ssd_storage::{
    capacity_sum, device_name, evictions_told, queue_stepped, read_ended, used_sum, write_ended,
    ChunkedLoadPlan, CloseAction, KvSsdStorage, KvSsdStorageDeviceUsage, LoadPlan, SsdDevice,
    SsdReplicaEviction, SsdWorkerCloseState, WriteQueueModel, WriteStep,
};
use crate::text::{decimal, decimal_notation_tells_its_number, lemma_decimal_digits};

verus! {

/// The shards of the device are large enough for `len` bytes in whole blocks.
pub open spec fn takes(device: SsdDevice, len: int) -> bool {
    (len + 511) / 512 * 512 <= device.max_shard_capacity
}

/// Every device is open and takes all the values.
pub open spec fn all_take(store: KvSsdStorage, lens: Seq<usize>) -> bool {
    &&& forall|d: int| 0 <= d < store.devices@.len() ==> (#[trigger] store.devices@[d]).open
    &&& forall|d: int, k: int|
        0 <= d < store.devices@.len() && 0 <= k < lens.len() ==> #[trigger] takes(
            store.devices@[d],
            lens[k] as int,
        )
}

/// Values are persisted one after another on the devices of an open store.
pub open spec fn persist_run(
    stores: Seq<KvSsdStorage>,
    keys: Seq<Seq<char>>,
    lens: Seq<usize>,
    answers: Seq<Result<usize, SsdError>>,
) -> bool {
    &&& stores.len() == answers.len() + 1
    &&& keys.len() == answers.len()
    &&& lens.len() == answers.len()
    &&& 2 * stores[0].devices@.len() <= usize::MAX
    &&& forall|i: int| 0 <= i < answers.len() ==> #[trigger] persist_step(stores, keys, lens, answers, i)
}

/// The `i`-th value is persisted: its key is not empty, nor is it.
pub open spec fn persist_step(
    stores: Seq<KvSsdStorage>,
    keys: Seq<Seq<char>>,
    lens: Seq<usize>,
    answers: Seq<Result<usize, SsdError>>,
    i: int,
) -> bool {
    &&& stores[i].wf()
    &&& stores[i].foyer is None
    &&& stores[i].admitting
    &&& stores[i].devices == stores[0].devices
    &&& keys[i].len() > 0
    &&& 0 < lens[i] <= usize::MAX - 511
    &&& stores[i].persist_answered(keys[i], lens[i], answers[i], stores[i + 1].next_write_device)
}

proof fn lemma_padded(len: usize)
    requires
        len <= usize::MAX - 511,
    ensures
        crate::align::aligned_up(len as int, SSD_ALIGNMENT_BYTES as int) == (len + 511) / 512 * 512,
{
    lemma_aligned_up(len as int, SSD_ALIGNMENT_BYTES as int);
    let a = crate::align::aligned_up(len as int, 512);
    assert(a % 512 == 0 && len <= a < len + 512);
    assert((len + 511) / 512 * 512 == a);
}

proof fn lemma_going_round(next: usize, offset: int, n: int)
    requires
        next < n,
        0 <= offset < n,
        2 * n <= usize::MAX,
    ensures
        device_at(next, offset, n) == if next + offset < n {
            next + offset
        } else {
            next + offset - n
        },
{
    if next + offset < n {
        lemma_small_mod((next + offset) as nat, n as nat);
    } else {
        lemma_fundamental_div_mod_converse(next + offset, n, 1, next + offset - n);
    }
}

/// A value is persisted wherever some device takes it: the answer names a device that does, unless that
/// device is closed. Only a value that no device takes is refused.
pub proof fn a_persist_finds_a_device(
    store: KvSsdStorage,
    key: Seq<char>,
    len: usize,
    r: Result<usize, SsdError>,
    next: usize,
)
    requires
        store.wf(),
        store.foyer is None,
        store.admitting,
        key.len() > 0,
        0 < len <= usize::MAX - 511,
        2 * store.devices@.len() <= usize::MAX,
        store.persist_answered(key, len, r, next),
    ensures
        r matches Ok(d) ==> d < store.devices@.len() && store.devices@[d as int].open && takes(
            store.devices@[d as int],
            len as int,
        ),
        (exists|d: int|
            0 <= d < store.devices@.len() && takes(#[trigger] store.devices@[d], len as int)) && (
        forall|d: int| 0 <= d < store.devices@.len() ==> (#[trigger] store.devices@[d]).open)
            ==> r is Ok,
        (forall|d: int|
            0 <= d < store.devices@.len() ==> !takes(#[trigger] store.devices@[d], len as int))
            ==> r is Err,
{
    let n = store.devices@.len() as int;
    let size = (len + 511) / 512 * 512;
    lemma_padded(len);
    if store.none_fits(size) {
        assert forall|d: int| 0 <= d < n implies !takes(#[trigger] store.devices@[d], len as int) by {
            let offset = if d >= store.next_write_device {
                d - store.next_write_device
            } else {
                d - store.next_write_device + n
            };
            lemma_going_round(store.next_write_device, offset, n);
            assert(device_at(store.next_write_device, offset, n) == d);
            assert(store.device_capacities()[d] < size);
        }
    } else {
        let offset = choose|offset: int|
            {
                let d = device_at(store.next_write_device, offset, n);
                &&& #[trigger] store.first_fitting(size, offset)
                &&& r == if store.devices@[d].open {
                    Ok::<usize, SsdError>(d as usize)
                } else {
                    Err(SsdError::SystemShutdown)
                }
            };
        lemma_going_round(store.next_write_device, offset, n);
        let d = device_at(store.next_write_device, offset, n);
        assert(takes(store.devices@[d], len as int));
    }
}

/// Two values in a row never go to the same device when another one takes the second.
pub proof fn two_persists_in_a_row_differ(
    stores: Seq<KvSsdStorage>,
    keys: Seq<Seq<char>>,
    lens: Seq<usize>,
    answers: Seq<Result<usize, SsdError>>,
    i: int,
    other: int,
)
    requires
        persist_run(stores, keys, lens, answers),
        0 <= i < answers.len() - 1,
        answers[i] is Ok,
        0 <= other < stores[0].devices@.len(),
        other != answers[i]->Ok_0,
        takes(stores[0].devices@[other], lens[i + 1] as int),
    ensures
        answers[i + 1] != answers[i],
{
    assert(persist_step(stores, keys, lens, answers, i));
    assert(persist_step(stores, keys, lens, answers, i + 1));
    let (a, b) = (stores[i], stores[i + 1]);
    let n = a.devices@.len() as int;
    lemma_padded(lens[i]);
    lemma_padded(lens[i + 1]);
    let (size_a, size_b) = ((lens[i] + 511) / 512 * 512, (lens[i + 1] + 511) / 512 * 512);
    assert(!a.none_fits(size_a));
    let o = choose|o: int|
        {
            let d = device_at(a.next_write_device, o, n);
            &&& #[trigger] a.first_fitting(size_a, o)
            &&& b.next_write_device == if d + 1 < n {
                d + 1
            } else {
                0
            }
            &&& answers[i] == if a.devices@[d].open {
                Ok::<usize, SsdError>(d as usize)
            } else {
                Err(SsdError::SystemShutdown)
            }
        };
    lemma_going_round(a.next_write_device, o, n);
    let d = device_at(a.next_write_device, o, n);
    let first = b.next_write_device;
    // The way from the device behind the last one to the other one does not reach the last one.
    let way = if other >= first {
        other - first
    } else {
        other - first + n
    };
    lemma_going_round(first, way, n);
    assert(device_at(first, way, n) == other);
    assert(way < n - 1);
    assert(b.device_capacities()[other] >= size_b);
    assert(!b.none_fits(size_b));
    let p = choose|p: int|
        {
            let e = device_at(first, p, n);
            &&& #[trigger] b.first_fitting(size_b, p)
            &&& answers[i + 1] == if b.devices@[e].open {
                Ok::<usize, SsdError>(e as usize)
            } else {
                Err(SsdError::SystemShutdown)
            }
        };
    lemma_going_round(first, p, n);
    if p > way {
        assert(b.device_capacities()[device_at(first, way, n)] < size_b);
    }
    assert(device_at(first, p, n) != d);
}

proof fn lemma_turn(
    stores: Seq<KvSsdStorage>,
    keys: Seq<Seq<char>>,
    lens: Seq<usize>,
    answers: Seq<Result<usize, SsdError>>,
    i: int,
)
    requires
        persist_run(stores, keys, lens, answers),
        0 <= i < answers.len(),
        all_take(stores[0], lens),
    ensures
        answers[i] == Ok::<usize, SsdError>(stores[i].next_write_device),
        stores[i].next_write_device < stores[0].devices@.len(),
        stores[i + 1].next_write_device == if stores[i].next_write_device + 1
            < stores[0].devices@.len() {
            stores[i].next_write_device + 1
        } else {
            0
        },
{
    assert(persist_step(stores, keys, lens, answers, i));
    let a = stores[i];
    let n = a.devices@.len() as int;
    let size = (lens[i] + 511) / 512 * 512;
    lemma_padded(lens[i]);
    lemma_going_round(a.next_write_device, 0, n);
    let here = device_at(a.next_write_device, 0, n);
    assert(takes(stores[0].devices@[here], lens[i] as int));
    assert(a.device_capacities()[here] >= size);
    assert(!a.none_fits(size));
    assert forall|o: int| #[trigger] a.first_fitting(size, o) implies o == 0 by {
        if o > 0 {
            assert(a.device_capacities()[device_at(a.next_write_device, 0, n)] < size);
        }
    }
}

/// Values are spread evenly: with `n` open devices that take all values, any `n` values in a row go to
/// `n` different devices.
pub proof fn persists_take_turns(
    stores: Seq<KvSsdStorage>,
    keys: Seq<Seq<char>>,
    lens: Seq<usize>,
    answers: Seq<Result<usize, SsdError>>,
    i: int,
    j: int,
)
    requires
        persist_run(stores, keys, lens, answers),
        all_take(stores[0], lens),
        0 <= i < j < answers.len(),
        j - i < stores[0].devices@.len(),
    ensures
        answers[i] is Ok,
        answers[j] is Ok,
        answers[i] != answers[j],
{
    lemma_turns(stores, keys, lens, answers, i, j);
}

/// The `j`-th value goes as many devices on from the `i`-th as it comes later.
proof fn lemma_turns(
    stores: Seq<KvSsdStorage>,
    keys: Seq<Seq<char>>,
    lens: Seq<usize>,
    answers: Seq<Result<usize, SsdError>>,
    i: int,
    j: int,
)
    requires
        persist_run(stores, keys, lens, answers),
        all_take(stores[0], lens),
        0 <= i <= j < answers.len(),
        j - i < stores[0].devices@.len(),
    ensures
        answers[i] is Ok,
        answers[j] is Ok,
        ({
            let n = stores[0].devices@.len();
            let (a, b) = (answers[i]->Ok_0, answers[j]->Ok_0);
            &&& a < n && b < n
            &&& b == stores[j].next_write_device
            &&& b == if a + (j - i) < n {
                a + (j - i)
            } else {
                a + (j - i) - n
            }
        }),
    decreases j - i,
{
    lemma_turn(stores, keys, lens, answers, j);
    if i < j {
        lemma_turns(stores, keys, lens, answers, i, j - 1);
        lemma_turn(stores, keys, lens, answers, j - 1);
    }
}

/// Two values in a row never go to the same shard when another one that is allowed has room for the
/// second.
pub proof fn shards_take_turns(
    a: RingModel,
    b: RingModel,
    c: RingModel,
    keys: (KeyId, KeyId),
    lens: (u64, u64),
    allowed: Seq<usize>,
    first: SsdPreparedWrite,
    second: SsdPreparedWrite,
    other: int,
)
    requires
        a.inv(),
        b.inv(),
        a.prepared(keys.0, lens.0, allowed, Ok(first), b),
        b.prepared(keys.1, lens.1, allowed, Ok(second), c),
        first is Ready,
        second is Ready,
        0 <= other < b.shards.len() <= usize::MAX,
        allowed.contains(other as usize),
        other != first->Ready_entry.shard_id,
        b.fits(other, (lens.1 + 511) / 512 * 512),
        !b.blocked(other, (lens.1 + 511) / 512 * 512),
    ensures
        second->Ready_entry.shard_id != first->Ready_entry.shard_id,
{
    let n = b.shards.len() as int;
    lemma_first_stop(a, allowed, RingModel::ssd_len(lens.0), 0);
    lemma_first_stop(b, allowed, RingModel::ssd_len(lens.1), 0);
    lemma_aligned_up(lens.1 as int, SSD_ALIGNMENT_BYTES as int);
    let size = RingModel::ssd_len(lens.1);
    assert(size == (lens.1 + 511) / 512 * 512);
    let s = first->Ready_entry.shard_id as int;
    assert(b.next_shard == if s + 1 < n {
        s + 1
    } else {
        0
    }) by {
        if s + 1 < n {
            lemma_small_mod((s + 1) as nat, n as nat);
        } else {
            lemma_fundamental_div_mod_converse(s + 1, n, 1, 0);
        }
    }
    let way = if other >= b.next_shard {
        other - b.next_shard
    } else {
        other - b.next_shard + n
    };
    lemma_stops_by(b, allowed, size, 0, way, s);
}

/// The search for room ends on the way to a shard that has some.
proof fn lemma_stops_by(
    m: RingModel,
    allowed: Seq<usize>,
    size: int,
    offset: int,
    way: int,
    last: int,
)
    requires
        0 <= offset <= way < m.shards.len() - 1,
        m.shards.len() <= usize::MAX,
        0 <= m.next_shard < m.shards.len(),
        0 <= last < m.shards.len(),
        m.next_shard == if last + 1 < m.shards.len() {
            last + 1
        } else {
            0
        },
        ({
            let other = if m.next_shard + way < m.shards.len() {
                m.next_shard + way
            } else {
                m.next_shard + way - m.shards.len()
            };
            allowed.contains(other as usize) && !m.blocked(other, size)
        }),
    ensures
        m.first_stop(allowed, size, offset) matches Some(s) && s != last,
    decreases way - offset,
{
    let n = m.shards.len() as int;
    let x = m.next_shard + offset;
    if x < n {
        lemma_small_mod(x as nat, n as nat);
    } else {
        lemma_fundamental_div_mod_converse(x, n, 1, x - n);
    }
    if offset < way {
        lemma_stops_by(m, allowed, size, offset + 1, way, last);
    }
}

/// A write takes the bytes that come next in its ring, in whole blocks and in one piece, and skips no
/// more than what is left before the end of the file when that is too little. Exactly the values go
/// whose bytes it reaches.
pub proof fn a_write_takes_the_next_bytes(
    m: RingModel,
    k: KeyId,
    len: u64,
    allowed: Seq<usize>,
    r: SsdPreparedWrite,
    next: RingModel,
)
    requires
        m.inv(),
        ring_regular(m),
        m.shards.len() <= usize::MAX,
        m.search_is_sound(k, allowed, len),
        m.prepared(k, len, allowed, Ok(r), next),
        r is Ready,
    ensures
        ({
            let entry = r->Ready_entry;
            let evicted = key_ids(r->Ready_evicted@);
            let s = entry.shard_id as int;
            let cap = m.shards[s].capacity;
            &&& 0 <= s < m.shards.len()
            &&& allowed.contains(entry.shard_id)
            &&& entry.len == len
            &&& entry.aligned_len == (len + 511) / 512 * 512
            &&& entry.file_offset == entry.begin as int % cap
            &&& entry.file_offset + entry.aligned_len <= cap
            &&& m.shards[s].head <= entry.begin
            &&& entry.begin > m.shards[s].head ==> entry.begin - m.shards[s].head
                < entry.aligned_len && entry.file_offset == 0
            &&& next.shards[s].head == entry.begin + entry.aligned_len
            &&& evicted.no_duplicates()
            &&& forall|q: KeyId| #[trigger]
                evicted.contains(q) <==> m.entries.contains_key(q) && m.entries[q] is Committed
                    && m.entries[q].spec_entry().shard_id == s && m.entries[q].spec_entry().begin
                    + cap < entry.begin + entry.aligned_len
            &&& forall|q: KeyId| #[trigger]
                m.entries.contains_key(q) && !evicted.contains(q) ==> next.entries.contains_key(q)
                    && next.entries[q] == m.entries[q]
            &&& forall|q: KeyId| #[trigger]
                next.entries.contains_key(q) && q != k ==> m.entries.contains_key(q)
                    && !evicted.contains(q)
            &&& next.entries.contains_key(k)
            &&& next.entries[k] == SsdEntryState::Writing(entry)
            &&& next.pins == m.pins
        }),
{
    let size = RingModel::ssd_len(len);
    lemma_aligned_up(len as int, SSD_ALIGNMENT_BYTES as int);
    assert(size == (len + 511) / 512 * 512);
    lemma_first_stop(m, allowed, size, 0);
    assert(!m.entries.contains_key(k));
    let s = m.first_stop(allowed, size, 0)->0;
    assert(m.shard_inv(s));
    lemma_place_begin(m, s, size);
    a_write_evicts_what_the_tail_passes(m, s, size);
    let cap = m.shards[s].capacity;
    let head = m.shards[s].head;
    let begin = m.place_begin(s, size);
    lemma_mod_bound(head, cap);
    lemma_fundamental_div_mod(head, cap);
    if begin > head {
        let turns = head / cap;
        assert(begin == (turns + 1) * cap) by (nonlinear_arith)
            requires
                begin == head + (cap - head % cap),
                head == cap * turns + head % cap,
        ;
        lemma_fundamental_div_mod_converse(begin, cap, turns + 1, 0);
    }
    let t = m.place_tail(s, size);
    let evicted = m.evicted_by(s, t);
    let entry = r->Ready_entry;
    assert(entry.begin == begin && entry.aligned_len == size);
    assert(evicted == key_ids(r->Ready_evicted@));
    assert(next.shards[s].head == begin + size);
    assert forall|q: KeyId| #[trigger] m.entries.contains_key(q) && !evicted.contains(q) implies
        next.entries.contains_key(q) && next.entries[q] == m.entries[q] by {
        assert(m.allocate(s, size).entries.contains_key(q));
    }
    assert forall|q: KeyId| #[trigger] evicted.contains(q) <==> m.entries.contains_key(q)
        && m.entries[q] is Committed && m.entries[q].spec_entry().shard_id == s
        && m.entries[q].spec_entry().begin + cap < begin + size by {}
    assert forall|q: KeyId| #[trigger] next.entries.contains_key(q) && q != k implies
        m.entries.contains_key(q) && !evicted.contains(q) by {
        if t > m.shards[s].tail {
            lemma_expire(m.shards[s].order, m.entries, t);
            if evicted.contains(q) {
                lemma_evicted_is_gone(m.shards[s].order, m.entries, t, q);
            }
        }
    }
}

/// What moving the tail evicts has no entry any more.
proof fn lemma_evicted_is_gone(
    order: Seq<KeyId>,
    entries: Map<KeyId, SsdEntryState>,
    t: int,
    q: KeyId,
)
    requires
        expire(order, entries, t).evicted.contains(q),
    ensures
        !expire(order, entries, t).entries.contains_key(q),
    decreases order.len(),
{
    if order.len() > 0 {
        let first = order[0];
        if !(entries.contains_key(first) && entries[first].spec_entry().begin >= t) {
            let rest = expire(order.drop_first(), entries.remove(first), t);
            lemma_expire(order.drop_first(), entries.remove(first), t);
            if rest.evicted.contains(q) {
                lemma_evicted_is_gone(order.drop_first(), entries.remove(first), t, q);
            } else {
                assert(q == first);
            }
        }
    }
}

/// A write waits only for values under way: where nothing is being written or read on the shards that
/// are allowed, a new value that is small enough for them all gets room.
pub proof fn a_write_waits_only_for_busy_values(
    m: RingModel,
    k: KeyId,
    len: u64,
    allowed: Seq<usize>,
    r: Result<SsdPreparedWrite, ArgumentError>,
    next: RingModel,
)
    requires
        m.inv(),
        m.prepared(k, len, allowed, r, next),
        m.search_is_sound(k, allowed, len),
        !m.entries.contains_key(k),
        len <= u64::MAX - 511,
        m.shards.len() <= usize::MAX,
        exists|s: int| 0 <= s < m.shards.len() && #[trigger] allowed.contains(s as usize),
        forall|s: int|
            0 <= s < m.shards.len() && #[trigger] allowed.contains(s as usize) ==> (len + 511) / 512
                * 512 <= m.shards[s].capacity,
        forall|q: KeyId| #[trigger]
            m.entries.contains_key(q) && m.entries[q] is Writing ==> !allowed.contains(
                m.entries[q].spec_entry().shard_id,
            ),
        forall|q: KeyId| #[trigger]
            m.pins.contains_key(q) ==> !allowed.contains(m.pins[q].entry.shard_id),
    ensures
        r matches Ok(answer) && answer is Ready,
{
    let size = RingModel::ssd_len(len);
    lemma_aligned_up(len as int, SSD_ALIGNMENT_BYTES as int);
    assert(size == (len + 511) / 512 * 512);
    let s = choose|s: int| 0 <= s < m.shards.len() && #[trigger] allowed.contains(s as usize);
    assert(m.some_allowed(allowed));
    assert(m.shards[s].capacity >= size);
    assert(m.some_large_enough(allowed, len));
    assert forall|c: int| #[trigger] m.is_max_capacity(allowed, c) implies size <= c by {}
    let way = if s >= m.next_shard {
        s - m.next_shard
    } else {
        s - m.next_shard + m.shards.len()
    };
    assert(!m.blocked(s, size));
    lemma_some_stop(m, allowed, size, 0, way);
}

proof fn lemma_some_stop(m: RingModel, allowed: Seq<usize>, size: int, offset: int, way: int)
    requires
        0 <= offset <= way < m.shards.len(),
        m.shards.len() <= usize::MAX,
        0 <= m.next_shard < m.shards.len(),
        ({
            let other = if m.next_shard + way < m.shards.len() {
                m.next_shard + way
            } else {
                m.next_shard + way - m.shards.len()
            };
            allowed.contains(other as usize) && !m.blocked(other, size)
        }),
    ensures
        m.first_stop(allowed, size, offset) is Some,
    decreases way - offset,
{
    let n = m.shards.len() as int;
    let x = m.next_shard + offset;
    if x < n {
        lemma_small_mod(x as nat, n as nat);
    } else {
        lemma_fundamental_div_mod_converse(x, n, 1, x - n);
    }
    if offset < way {
        lemma_some_stop(m, allowed, size, offset + 1, way);
    }
}

/// A write that has ended well is stored where it was given room, and stays pinned; one that failed
/// leaves nothing to read. Other values stay as they are.
pub proof fn a_finished_write_is_stored(
    m: RingModel,
    k: KeyId,
    entry: SsdIndexEntry,
    io_ok: bool,
    r: Result<(), SsdError>,
    next: RingModel,
)
    requires
        m.inv(),
        m.entries.contains_key(k),
        m.entries[k] == SsdEntryState::Writing(entry),
        write_ended(m, k, io_ok, r, next),
    ensures
        io_ok ==> {
            &&& r is Ok
            &&& next.entries.contains_key(k)
            &&& next.entries[k] == SsdEntryState::Committed(entry)
            &&& next.pins.contains_key(k)
            &&& next.shards[entry.shard_id as int].tail <= entry.begin
        },
        !io_ok ==> r is Err && !next.entries.contains_key(k),
        forall|q: KeyId|
            q != k ==> (#[trigger] next.entries.contains_key(q) <==> m.entries.contains_key(q)),
        forall|q: KeyId| q != k && #[trigger] m.entries.contains_key(q) ==> next.entries[q]
            == m.entries[q],
        next.shards == m.shards,
{
    assert(m.offset_valid(entry));
}

/// A read counts exactly if its bytes were still there at its end; a value that is still there stays
/// stored.
pub proof fn a_read_counts_while_the_value_is_there(
    m: RingModel,
    k: KeyId,
    entry: SsdIndexEntry,
    io_ok: bool,
    r: Result<(), SsdError>,
    next: RingModel,
)
    requires
        read_ended(m, k, entry, io_ok, r, next),
        entry.shard_id < m.shards.len(),
    ensures
        r is Ok <==> io_ok && m.shards[entry.shard_id as int].tail <= entry.begin,
        m.shards[entry.shard_id as int].tail <= entry.begin ==> next == m,
        forall|q: KeyId| q != k && #[trigger] m.entries.contains_key(q) ==> next.entries.contains_key(
            q,
        ) && next.entries[q] == m.entries[q],
        next.shards == m.shards && next.pins == m.pins,
{
}

/// A command is taken or waits: what the writer starts is the first command, with all its bytes, on a
/// shard of its own device.
pub proof fn writes_stay_on_their_device(
    q: WriteQueueModel,
    store: KvSsdStorage,
    r: WriteStep,
    after: WriteQueueModel,
    ring: RingModel,
)
    requires
        store.wf(),
        store.foyer is None,
        0 <= q.device_idx < store.devices@.len(),
        queue_stepped(q, store, r, after, ring),
        r is Start,
    ensures
        q.pending.len() > 0,
        r->Start_ticket == q.pending[0].0,
        r->Start_key@ == q.pending[0].1,
        r->Start_entry.len == q.pending[0].2,
        r->Start_entry.aligned_len == (q.pending[0].2 + 511) / 512 * 512,
        store.devices@[q.device_idx].shard_ids@.contains(r->Start_entry.shard_id),
        store.shard_to_device@[r->Start_entry.shard_id as int] == q.device_idx,
        ring.entries.contains_key(q.pending[0].1),
        ring.entries[q.pending[0].1] == SsdEntryState::Writing(r->Start_entry),
        after.inflight == q.inflight + 1,
        after.inflight <= q.max_inflight,
{
    let (t, k, len) = q.pending[0];
    let allowed = store.devices@[q.device_idx].shard_ids@;
    store.ring.lemma_wf();
    lemma_first_stop(store.ring@, allowed, RingModel::ssd_len(len), 0);
    lemma_aligned_up(len as int, SSD_ALIGNMENT_BYTES as int);
    assert(store.device_wf(q.device_idx));
    let s = r->Start_entry.shard_id;
    let i = choose|i: int| 0 <= i < allowed.len() && allowed[i] == s;
    assert(store.devices@[q.device_idx].shard_ids@[i] == s);
}

/// Something that happens to the queue of a writer.
pub enum QueueOp {
    Push { ticket: u64, key: KeyId, len: u64 },
    Step { store: KvSsdStorage, step: WriteStep, ring: RingModel },
    Completed,
}

/// What happens leads from one state of the queue to the next.
pub open spec fn queue_op_done(a: WriteQueueModel, op: QueueOp, b: WriteQueueModel) -> bool {
    match op {
        QueueOp::Push { ticket, key, len } => b == (WriteQueueModel {
            pending: a.pending.push((ticket, key, len)),
            ..a
        }),
        QueueOp::Step { store, step, ring } => queue_stepped(a, store, step, b, ring),
        QueueOp::Completed => a.inflight > 0 && b == (WriteQueueModel {
            inflight: a.inflight - 1,
            ..a
        }),
    }
}

/// The tickets of the commands, in order of arrival.
pub open spec fn arrived(ops: Seq<QueueOp>) -> Seq<u64>
    decreases ops.len(),
{
    if ops.len() == 0 {
        Seq::empty()
    } else {
        match ops.last() {
            QueueOp::Push { ticket, .. } => arrived(ops.drop_last()).push(ticket),
            _ => arrived(ops.drop_last()),
        }
    }
}

/// The tickets of the commands that were started or answered, in that order.
pub open spec fn served(ops: Seq<QueueOp>) -> Seq<u64>
    decreases ops.len(),
{
    if ops.len() == 0 {
        Seq::empty()
    } else {
        match serves(ops.last()) {
            Some(ticket) => served(ops.drop_last()).push(ticket),
            None => served(ops.drop_last()),
        }
    }
}

/// The tickets of commands that wait.
pub open spec fn waiting(q: WriteQueueModel) -> Seq<u64> {
    Seq::new(q.pending.len(), |i: int| q.pending[i].0)
}

/// What a command of a queue is served for, if one is.
pub open spec fn serves(op: QueueOp) -> Option<u64> {
    match op {
        QueueOp::Step { step: WriteStep::Start { ticket, .. }, .. } => Some(ticket),
        QueueOp::Step { step: WriteStep::Reply { ticket, .. }, .. } => Some(ticket),
        _ => None,
    }
}

proof fn lemma_queue_op(a: WriteQueueModel, op: QueueOp, b: WriteQueueModel)
    requires
        queue_op_done(a, op, b),
    ensures
        op matches QueueOp::Push { ticket, .. } ==> waiting(b) == waiting(a).push(ticket),
        !(op is Push) && serves(op) is None ==> waiting(b) == waiting(a),
        serves(op) matches Some(ticket) ==> waiting(a) == seq![ticket] + waiting(b),
{
    if op is Push {
        assert(waiting(b) =~= waiting(a).push(op->Push_ticket));
    } else if serves(op) is Some {
        assert(b.pending == a.pending.drop_first());
        assert(waiting(a) =~= seq![serves(op)->0] + waiting(b));
    } else {
        assert(waiting(b) =~= waiting(a));
    }
}

/// Commands are served in the order in which they arrive, none is lost and none is served twice: what
/// has arrived is what was served, followed by what waits.
pub proof fn commands_are_served_in_order(ops: Seq<QueueOp>, states: Seq<WriteQueueModel>)
    requires
        states.len() == ops.len() + 1,
        states[0].pending.len() == 0,
        forall|i: int|
            0 <= i < ops.len() ==> queue_op_done(#[trigger] states[i], ops[i], states[i + 1]),
    ensures
        arrived(ops) == served(ops) + waiting(states.last()),
    decreases ops.len(),
{
    if ops.len() == 0 {
        assert(arrived(ops) =~= served(ops) + waiting(states.last()));
    } else {
        let n = ops.len() - 1;
        assert forall|i: int| 0 <= i < n implies queue_op_done(
            #[trigger] states.drop_last()[i],
            ops.drop_last()[i],
            states.drop_last()[i + 1],
        ) by {
            assert(queue_op_done(states[i], ops[i], states[i + 1]));
        }
        commands_are_served_in_order(ops.drop_last(), states.drop_last());
        let (a, b) = (states[n as int], states[n + 1]);
        assert(queue_op_done(states[n as int], ops[n as int], states[n + 1]));
        assert(states.drop_last().last() == a);
        lemma_queue_op(a, ops.last(), b);
        assert(arrived(ops) =~= served(ops) + waiting(b));
    }
}

/// A value is loaded from the device that it was written to, and stays pinned while it is read. It goes
/// straight to its target only where whole blocks may be written there.
pub proof fn a_load_reads_the_right_place(
    store: KvSsdStorage,
    key: KvSsdKey,
    target_addr: u64,
    len: u64,
    target_len: u64,
    r: Result<LoadPlan, SsdError>,
    ring: RingModel,
)
    requires
        store.wf(),
        store.foyer is None,
        store.pin_room(key@),
        store.load_planned(key, target_addr, len, target_len, r, ring),
    ensures
        r is Err ==> ring == store.ring@,
        r matches Ok(plan) ==> {
            let e = plan.entry;
            &&& store.ring@.entries.contains_key(key@)
            &&& store.ring@.entries[key@] == SsdEntryState::Committed(e)
            &&& store.ring@.shards[e.shard_id as int].tail <= e.begin
            &&& e.len == len && 0 < len <= target_len
            &&& plan.device_idx < store.devices@.len()
            &&& store.devices@[plan.device_idx as int].shard_ids@.contains(e.shard_id)
            &&& store.devices@[plan.device_idx as int].open
            &&& plan.path == SsdReadPath::Direct <==> target_addr as int % 512 == 0
                && target_len >= e.aligned_len && e.file_offset as int % 512 == 0
            &&& ring.pins.contains_key(key@)
            &&& ring.pins[key@].count > 0
            &&& ring.entries == store.ring@.entries
        },
{
    store.ring.lemma_wf();
    if let Ok(plan) = r {
        let e = plan.entry;
        assert(store.ring@.entry_inv(store.ring@.entries[key@].spec_entry()));
        let d = store.shard_to_device@[e.shard_id as int];
        let ids = store.devices@[d as int].shard_ids@;
        assert(store.devices@[d as int].has_shard(e.shard_id));
    }
}

/// Chunks are as long as was asked for, in whole blocks.
pub proof fn chunks_are_whole_blocks(chunk_bytes: u64)
    ensures
        chunk_step(chunk_bytes) % 512 == 0,
        chunk_step(chunk_bytes) >= 512,
        chunk_bytes <= chunk_step(chunk_bytes),
        chunk_bytes > 0 ==> chunk_step(chunk_bytes) < chunk_bytes + 512,
        chunk_bytes > 0 && chunk_bytes as int % 512 == 0 ==> chunk_step(chunk_bytes) == chunk_bytes,
        chunk_bytes == 0 ==> chunk_step(chunk_bytes) == 512,
{
    let wanted = if chunk_bytes == 0 {
        1
    } else {
        chunk_bytes as int
    };
    lemma_aligned_up(wanted, SSD_ALIGNMENT_BYTES as int);
    let step = chunk_step(chunk_bytes);
    lemma_fundamental_div_mod(step, 512);
}

/// A value is loaded in chunks from the device that it was written to, and stays pinned while it is read;
/// the chunks, end to end, are the whole value.
pub proof fn a_chunked_load_reads_the_whole_value(
    store: KvSsdStorage,
    key: KvSsdKey,
    target_addr: u64,
    len: u64,
    target_len: u64,
    chunk_bytes: u64,
    r: Result<ChunkedLoadPlan, SsdError>,
    ring: RingModel,
    value: Seq<u8>,
)
    requires
        store.wf(),
        store.foyer is None,
        store.pin_room(key@),
        store.chunked_load_planned(key, target_addr, len, target_len, chunk_bytes, r, ring),
        value.len() == len,
    ensures
        r is Err ==> ring == store.ring@,
        !store.admitting ==> r is Err,
        store.ring@.readable(key@) is None ==> r is Err,
        len > target_len ==> r is Err,
        r matches Ok(plan) ==> {
            let e = plan.entry;
            &&& store.ring@.entries.contains_key(key@)
            &&& store.ring@.entries[key@] == SsdEntryState::Committed(e)
            &&& store.ring@.shards[e.shard_id as int].tail <= e.begin
            &&& e.len == len && len <= target_len
            &&& plan.device_idx < store.devices@.len()
            &&& store.devices@[plan.device_idx as int].shard_ids@.contains(e.shard_id)
            &&& store.devices@[plan.device_idx as int].open
            &&& ring.pins.contains_key(key@)
            &&& ring.pins[key@].count > 0
            &&& ring.entries == store.ring@.entries
            &&& assembled(value, plan.chunks@) == value
            &&& forall|i: int|
                0 <= i < plan.chunks@.len() ==> {
                    let c = #[trigger] plan.chunks@[i];
                    &&& c.stage_addr == target_addr + c.offset
                    &&& c.offset as int % 512 == 0
                    &&& c.offset + c.payload_len <= len
                }
        },
{
    store.ring.lemma_wf();
    if let Ok(plan) = r {
        let e = plan.entry;
        assert(store.ring@.entry_inv(store.ring@.entries[key@].spec_entry()));
        let d = store.shard_to_device@[e.shard_id as int];
        assert(store.devices@[d as int].has_shard(e.shard_id));
        let step = chunk_step(chunk_bytes);
        chunks_are_whole_blocks(chunk_bytes);
        chunks_make_up_the_value(
            value,
            plan.chunks@,
            step,
            target_addr as int,
            target_len as int,
        );
        assert forall|i: int| 0 <= i < plan.chunks@.len() implies {
            let c = #[trigger] plan.chunks@[i];
            &&& c.stage_addr == target_addr + c.offset
            &&& c.offset as int % 512 == 0
            &&& c.offset + c.payload_len <= len
        } by {
            let c = plan.chunks@[i];
            assert(crate::ssd_plan::is_chunk_of(
                c,
                step,
                len as int,
                target_addr as int,
                target_len as int,
            ));
            lemma_fundamental_div_mod(step, 512);
            let q = step / 512;
            assert(c.offset == 512 * (i * q)) by (nonlinear_arith)
                requires
                    c.offset == i * step,
                    step == 512 * q,
            ;
            lemma_fundamental_div_mod_converse(c.offset as int, 512, i * q, 0);
        }
    }
}

/// Of the roots on one device exactly the first is used, with its own limit, and every device is used.
pub proof fn one_root_stands_for_each_device(
    limits: Seq<KvSsdStorageRootLimit>,
    ids: Seq<u64>,
    roots: Seq<SsdDeviceRoot>,
    k: int,
)
    requires
        ids.len() == limits.len(),
        roots_kept(limits, ids, first_on_device(ids, ids.len() as int), roots),
        0 <= k < ids.len(),
    ensures
        forall|i: int, j: int|
            0 <= i < j < roots.len() ==> (#[trigger] roots[i]).device_id != (
            #[trigger] roots[j]).device_id,
        exists|i: int| 0 <= i < roots.len() && (#[trigger] roots[i]).device_id == ids[k],
        forall|i: int|
            0 <= i < roots.len() && (#[trigger] roots[i]).device_id == ids[k] && (forall|j: int|
                0 <= j < k ==> #[trigger] ids[j] != ids[k]) ==> roots[i].root_dir@
                == limits[k].root_dir@ && roots[i].limit_bytes == limits[k].limit_bytes,
{
    let n = ids.len() as int;
    let kept = first_on_device(ids, n);
    lemma_first_of_each(ids, n);
    assert forall|i: int, j: int| 0 <= i < j < roots.len() implies (#[trigger] roots[i]).device_id
        != (#[trigger] roots[j]).device_id by {
        assert(kept[i] < kept[j]);
    }
    lemma_some_first(ids, n, k);
    let i = choose|i: int| 0 <= i < kept.len() && ids[#[trigger] kept[i]] == ids[k];
    assert(roots[i].device_id == ids[k]);
    assert forall|i: int|
        0 <= i < roots.len() && (#[trigger] roots[i]).device_id == ids[k] && (forall|j: int|
            0 <= j < k ==> #[trigger] ids[j] != ids[k]) implies roots[i].root_dir@
        == limits[k].root_dir@ && roots[i].limit_bytes == limits[k].limit_bytes by {
        let h = kept[i];
        assert(ids[h] == ids[k]);
        if h > k {
            assert(ids[k] != ids[h]);
        }
    }
}

proof fn lemma_first_of_each(ids: Seq<u64>, n: int)
    requires
        0 <= n <= ids.len(),
    ensures
        ({
            let kept = first_on_device(ids, n);
            &&& forall|i: int| 0 <= i < kept.len() ==> 0 <= #[trigger] kept[i] < n
            &&& forall|i: int, j: int|
                0 <= i < kept.len() && 0 <= j < #[trigger] kept[i] ==> #[trigger] ids[j]
                    != ids[kept[i]]
            &&& forall|i: int, j: int|
                0 <= i < j < kept.len() ==> #[trigger] kept[i] < #[trigger] kept[j]
        }),
    decreases n,
{
    if n > 0 {
        lemma_first_of_each(ids, n - 1);
        let before = first_on_device(ids, n - 1);
        let kept = first_on_device(ids, n);
        assert forall|i: int, j: int|
            0 <= i < kept.len() && 0 <= j < #[trigger] kept[i] implies #[trigger] ids[j]
            != ids[kept[i]] by {
            if i < before.len() {
                assert(kept[i] == before[i]);
            }
        }
        assert forall|i: int, j: int| 0 <= i < j < kept.len() implies #[trigger] kept[i]
            < #[trigger] kept[j] by {
            assert(kept[i] == before[i]);
            if j < before.len() {
                assert(kept[j] == before[j]);
            }
        }
        assert forall|i: int| 0 <= i < kept.len() implies 0 <= #[trigger] kept[i] < n by {
            if i < before.len() {
                assert(kept[i] == before[i]);
            }
        }
    }
}

proof fn lemma_some_first(ids: Seq<u64>, n: int, k: int)
    requires
        0 <= k < n <= ids.len(),
    ensures
        exists|i: int|
            0 <= i < first_on_device(ids, n).len() && ids[#[trigger] first_on_device(ids, n)[i]]
                == ids[k],
    decreases n, k,
{
    let before = first_on_device(ids, n - 1);
    let kept = first_on_device(ids, n);
    if k < n - 1 {
        lemma_some_first(ids, n - 1, k);
        let i = choose|i: int| 0 <= i < before.len() && ids[#[trigger] before[i]] == ids[k];
        assert(kept[i] == before[i]);
    } else if forall|j: int| 0 <= j < n - 1 ==> #[trigger] ids[j] != ids[n - 1] {
        assert(kept[before.len() as int] == n - 1);
    } else {
        let j = choose|j: int| 0 <= j < n - 1 && #[trigger] ids[j] == ids[n - 1];
        lemma_some_first(ids, n - 1, j);
        let i = choose|i: int| 0 <= i < before.len() && ids[#[trigger] before[i]] == ids[j];
        assert(kept[i] == before[i]);
    }
}

/// A store that has stopped takes no more values and gives none out, but keeps what it has. When its workers
/// have ended, every further close is answered with how that went.
pub proof fn a_stopped_store_keeps_what_it_has(
    store: KvSsdStorage,
    stopped: KvSsdStorage,
    ok: bool,
    joined: KvSsdStorage,
    closed: CloseAction,
    after: KvSsdStorage,
    key: KvSsdKey,
    len: usize,
    persisted: Result<usize, SsdError>,
    next: usize,
    loaded: Result<LoadPlan, SsdError>,
    ring: RingModel,
)
    requires
        store.stops(stopped),
        stopped.joins(ok, joined),
        joined.close_answered(closed, after),
        stopped.persist_answered(key.key@, len, persisted, next),
        stopped.load_planned(key, 0, len as u64, len as u64, loaded, ring),
    ensures
        persisted is Err,
        loaded is Err,
        stopped.ring == store.ring && joined.ring == store.ring,
        stopped.devices == store.devices && joined.devices == store.devices,
        stopped.close_state == store.close_state,
        closed == CloseAction::Done(ok),
        !joined.admitting,
{
}

/// A value that is stored is loaded, if the store is open, the length is right and there is room for it. What is
/// refused is refused for what is wrong with it.
pub proof fn a_stored_value_is_loaded(
    store: KvSsdStorage,
    key: KvSsdKey,
    target_addr: u64,
    len: u64,
    target_len: u64,
    r: Result<LoadPlan, SsdError>,
    ring: RingModel,
)
    requires
        store.load_planned(key, target_addr, len, target_len, r, ring),
    ensures
        store.admitting && key.key@.len() > 0 && 0 < len <= target_len && (store.ring@.readable(
            key@,
        ) matches Some(e) && e.len == len
            && store.devices@[store.shard_to_device@[e.shard_id as int] as int].open) ==> r is Ok,
        !store.admitting ==> r == Err::<LoadPlan, SsdError>(SsdError::SystemShutdown),
        r matches Err(SsdError::KeyNotFound) ==> store.ring@.readable(key@) is None,
        store.admitting && key.key@.len() > 0 && len <= target_len && store.ring@.readable(key@)
            is None ==> r == Err::<LoadPlan, SsdError>(SsdError::KeyNotFound),
        store.admitting && key.key@.len() == 0 ==> r == Err::<LoadPlan, SsdError>(
            SsdError::InvalidArgument(ArgumentError::EmptyKey),
        ),
        store.admitting && key.key@.len() > 0 && len > target_len ==> r == Err::<
            LoadPlan,
            SsdError,
        >(SsdError::InvalidArgument(ArgumentError::TargetTooSmall { len, target_len })),
        store.admitting && key.key@.len() > 0 && len <= target_len && (store.ring@.readable(
            key@,
        ) matches Some(e) && e.len != len) ==> r == Err::<LoadPlan, SsdError>(
            SsdError::InvalidArgument(
                ArgumentError::StoredLengthMismatch {
                    stored_len: store.ring@.readable(key@)->0.len,
                    requested_len: len,
                },
            ),
        ),
{
}

/// A command waits at the head of its queue only while values on the shards of its device are being written or
/// read: where none is, a new value that is small enough for them is written at once.
pub proof fn a_command_waits_only_for_busy_values(
    q: WriteQueueModel,
    store: KvSsdStorage,
    r: WriteStep,
    after: WriteQueueModel,
    ring: RingModel,
)
    requires
        queue_stepped(q, store, r, after, ring),
        q.pending.len() > 0,
        q.inflight < q.max_inflight,
        ({
            let m = store.ring@;
            let (_, k, len) = q.pending[0];
            let allowed = store.devices@[q.device_idx].shard_ids@;
            &&& m.inv()
            &&& m.search_is_sound(k, allowed, len)
            &&& !m.entries.contains_key(k)
            &&& len <= u64::MAX - 511
            &&& m.shards.len() <= usize::MAX
            &&& exists|s: int| 0 <= s < m.shards.len() && #[trigger] allowed.contains(s as usize)
            &&& forall|s: int|
                0 <= s < m.shards.len() && #[trigger] allowed.contains(s as usize) ==> (len + 511)
                    / 512 * 512 <= m.shards[s].capacity
            &&& forall|x: KeyId| #[trigger]
                m.entries.contains_key(x) && m.entries[x] is Writing ==> !allowed.contains(
                    m.entries[x].spec_entry().shard_id,
                )
            &&& forall|x: KeyId| #[trigger]
                m.pins.contains_key(x) ==> !allowed.contains(m.pins[x].entry.shard_id)
        }),
    ensures
        r is Start,
        after.pending == q.pending.drop_first(),
        after.inflight == q.inflight + 1,
{
    let m = store.ring@;
    let (_, k, len) = q.pending[0];
    let allowed = store.devices@[q.device_idx].shard_ids@;
    match r {
        WriteStep::Start { .. } => {},
        WriteStep::Reply { result, .. } => {
            match result {
                Err(SsdError::InvalidArgument(e)) => {
                    a_write_waits_only_for_busy_values(m, k, len, allowed, Err(e), ring);
                },
                _ => {
                    a_write_waits_only_for_busy_values(
                        m,
                        k,
                        len,
                        allowed,
                        Ok(SsdPreparedWrite::Existing),
                        m,
                    );
                },
            }
        },
        WriteStep::Wait => {
            a_write_waits_only_for_busy_values(
                m,
                k,
                len,
                allowed,
                Ok(SsdPreparedWrite::BlockedByBusyIo),
                ring,
            );
        },
    }
}

/// The piece of the value that a chunk carries.
pub open spec fn piece(value: Seq<u8>, c: ChunkRequest) -> Seq<u8> {
    value.subrange(c.offset as int, c.offset + c.payload_len)
}

/// The pieces of a value, end to end.
pub open spec fn assembled(value: Seq<u8>, chunks: Seq<ChunkRequest>) -> Seq<u8>
    decreases chunks.len(),
{
    if chunks.len() == 0 {
        Seq::empty()
    } else {
        assembled(value, chunks.drop_last()) + piece(value, chunks.last())
    }
}

/// The chunks of a value, end to end, are the value: each goes to its place in the target, and no piece is
/// missing or comes twice.
pub proof fn chunks_make_up_the_value(
    value: Seq<u8>,
    chunks: Seq<ChunkRequest>,
    step: int,
    target_addr: int,
    target_len: int,
)
    requires
        step > 0,
        value.len() <= target_len,
        is_cut(chunks, step, value.len() as int, target_addr, target_len),
    ensures
        assembled(value, chunks) == value,
        forall|i: int|
            0 <= i < chunks.len() ==> {
                let c = #[trigger] chunks[i];
                &&& 0 < c.payload_len <= step
                &&& c.offset + c.payload_len <= value.len()
                &&& c.stage_addr == target_addr + c.offset
                &&& c.stage_addr + c.target_len == target_addr + target_len
            },
        forall|i: int|
            0 <= i < chunks.len() - 1 ==> (#[trigger] chunks[i]).offset + chunks[i].payload_len
                == chunks[i + 1].offset,
{
    lemma_assembled(value, chunks, value.len() as int);
    assert(value.take(value.len() as int) =~= value);
    assert forall|i: int| 0 <= i < chunks.len() implies {
        let c = #[trigger] chunks[i];
        &&& 0 < c.payload_len <= step
        &&& c.offset + c.payload_len <= value.len()
        &&& c.stage_addr == target_addr + c.offset
        &&& c.stage_addr + c.target_len == target_addr + target_len
    } by {
        assert(crate::ssd_plan::is_chunk_of(
            chunks[i],
            step,
            value.len() as int,
            target_addr,
            target_len,
        ));
    }
    assert forall|i: int| 0 <= i < chunks.len() - 1 implies (#[trigger] chunks[i]).offset
        + chunks[i].payload_len == chunks[i + 1].offset by {
        let (a, b) = (chunks[i], chunks[i + 1]);
        assert(crate::ssd_plan::is_chunk_of(a, step, value.len() as int, target_addr, target_len));
        assert(crate::ssd_plan::is_chunk_of(b, step, value.len() as int, target_addr, target_len));
        assert((i + 1) * step == i * step + step) by (nonlinear_arith);
    }
}

proof fn lemma_assembled(value: Seq<u8>, chunks: Seq<ChunkRequest>, len: int)
    requires
        0 <= len <= value.len(),
        crate::ssd_plan::covers(chunks, 0, len),
    ensures
        assembled(value, chunks) == value.take(len),
    decreases chunks.len(),
{
    if chunks.len() == 0 {
        assert(assembled(value, chunks) =~= value.take(len));
    } else {
        let c = chunks.last();
        lemma_assembled(value, chunks.drop_last(), c.offset as int);
        assert(value.take(c.offset as int) + piece(value, c) =~= value.take(len));
    }
}

/// The read of a part of a value stays within its entry and its target, and what is read begins with the
/// bytes that were asked for.
pub proof fn a_range_read_gives_the_bytes_asked_for(
    entry: SsdIndexEntry,
    offset: u64,
    payload_len: u64,
    target_addr: u64,
    target_len: u64,
    r: Result<RangeRead, ArgumentError>,
    disk: Disk,
)
    requires
        range_planned(entry, offset, payload_len, target_addr, target_len, r),
    ensures
        r matches Ok(plan) ==> {
            &&& 0 < payload_len && offset + payload_len <= entry.len
            &&& plan.read_len as int % 512 == 0
            &&& payload_len <= plan.read_len < payload_len + 512
            &&& plan.file_offset + plan.read_len <= entry.file_offset + entry.aligned_len
            &&& plan.read_len <= target_len
            &&& plan.target_addr == target_addr
            &&& plan.payload_len == payload_len && plan.offset == offset
            &&& plan.path == SsdReadPath::Direct <==> target_addr as int % 512 == 0
                && plan.file_offset as int % 512 == 0
            &&& forall|i: int|
                0 <= i < payload_len ==> #[trigger] disk(
                    (entry.shard_id as int, plan.file_offset + i),
                ) == read_back(disk, entry)[offset + i]
        },
        payload_len == 0 || offset + payload_len > entry.len ==> r is Err,
{
    lemma_aligned_up(payload_len as int, SSD_ALIGNMENT_BYTES as int);
    if let Ok(plan) = r {
        assert forall|i: int| 0 <= i < payload_len implies #[trigger] disk(
            (entry.shard_id as int, plan.file_offset + i),
        ) == read_back(disk, entry)[offset + i] by {
            assert(plan.file_offset + i == entry.file_offset + (offset + i));
        }
    }
}

/// Every value that had to go is announced once, in order, unless the store is shutting down.
pub proof fn evicted_values_are_announced(
    evicted: Seq<KvSsdKey>,
    r: Option<Vec<SsdReplicaEviction>>,
    k: KeyId,
)
    requires
        evictions_told(evicted, false, r),
    ensures
        key_ids(evicted).contains(k) <==> r is Some && exists|i: int|
            0 <= i < r->0@.len() && (#[trigger] r->0@[i]).key@ == k.0 && r->0@[i].put_id == k.1,
        r matches Some(out) ==> out@.len() == evicted.len(),
{
    let ids = key_ids(evicted);
    if ids.contains(k) {
        let i = choose|i: int| 0 <= i < ids.len() && ids[i] == k;
        assert(r->0@[i].key@ == k.0 && r->0@[i].put_id == k.1);
    }
    if r is Some && exists|i: int|
        0 <= i < r->0@.len() && (#[trigger] r->0@[i]).key@ == k.0 && r->0@[i].put_id == k.1 {
        let i = choose|i: int|
            0 <= i < r->0@.len() && (#[trigger] r->0@[i]).key@ == k.0 && r->0@[i].put_id == k.1;
        assert(ids[i] == k);
    }
}

/// A store that is being closed takes no more values; its workers are hung up on and joined once, and the
/// answer stays the same from then on.
pub proof fn a_closed_store_takes_nothing(
    store: KvSsdStorage,
    r: CloseAction,
    after: KvSsdStorage,
    key: Seq<char>,
    len: usize,
    persisted: Result<usize, SsdError>,
    next: usize,
)
    requires
        store.close_answered(r, after),
        after.persist_answered(key, len, persisted, next),
    ensures
        persisted is Err,
        r == CloseAction::JoinWorkers <==> store.close_state == SsdWorkerCloseState::Open,
        r == CloseAction::JoinWorkers ==> after.close_state == SsdWorkerCloseState::Closing
            && forall|d: int| 0 <= d < after.devices@.len() ==> !(#[trigger] after.devices@[d]).open,
        store.close_state matches SsdWorkerCloseState::Closed(ok) ==> r == CloseAction::Done(ok)
            && after.close_state == store.close_state,
        after.ring == store.ring,
        after.devices@.len() == store.devices@.len(),
        forall|d: int|
            0 <= d < store.devices@.len() ==> (#[trigger] after.devices@[d]).shard_ids
                == store.devices@[d].shard_ids && after.devices@[d].device_id
                == store.devices@[d].device_id,
{
}

proof fn lemma_shards_of(limits: Seq<u64>, d: int, j: int)
    requires
        4 * limits.len() <= usize::MAX,
        0 <= d < limits.len(),
        0 <= j < shard_specs(limits).len(),
    ensures
        shard_specs(limits)[j].shard_id == j,
        shard_specs(limits)[j].device_idx < limits.len(),
        shard_specs(limits).len() <= 4 * limits.len(),
        shard_specs(limits)[j].device_idx == d ==> shard_specs(limits)[j].capacity
            == root_shard_capacity(limits[d]),
    decreases limits.len(),
{
    let less = limits.drop_last();
    let before = shard_specs(less);
    let all = shard_specs(limits);
    lemma_shard_count(limits);
    lemma_shard_count(less);
    crate::ssd_plan::shards_keep_to_the_limit(limits.last());
    if j < before.len() {
        assert(all[j] == before[j]);
        lemma_shards_of(less, if d < less.len() { d } else { 0 }, j);
    }
}

proof fn lemma_shard_count(limits: Seq<u64>)
    ensures
        limits.len() <= shard_specs(limits).len() <= 4 * limits.len(),
    decreases limits.len(),
{
    if limits.len() > 0 {
        lemma_shard_count(limits.drop_last());
    }
}

/// A new store is empty and open; each of its shards is on one of the devices, in whole blocks and no
/// larger than the limit of its root.
pub proof fn a_new_store_keeps_to_its_roots(
    store: KvSsdStorage,
    roots: Seq<SsdDeviceRoot>,
    s: int,
)
    requires
        store.native_over(roots),
        store.fresh(),
        4 * roots.len() <= usize::MAX,
        0 <= s < store.ring@.shards.len(),
    ensures
        ({
            let d = store.shard_to_device@[s] as int;
            &&& store.devices@.len() == roots.len()
            &&& 0 <= d < roots.len()
            &&& store.devices@[d].device_id == roots[d].device_id
            &&& store.devices@[d].root_dir@ == roots[d].root_dir@
            &&& store.devices@[d].open
            &&& store.ring@.shards[s].capacity == store.devices@[d].max_shard_capacity
            &&& store.ring@.shards[s].capacity <= roots[d].limit_bytes
            &&& store.ring@.shards[s].capacity % 512 == 0
            &&& store.ring@.shards[s].head == 0 && store.ring@.shards[s].tail == 0
            &&& store.ring@.entries == Map::<KeyId, SsdEntryState>::empty()
            &&& store.admitting
            &&& store.foyer is None
            &&& store.root_dirs@.len() == roots.len()
            &&& store.root_dirs@[d]@ == roots[d].root_dir@
        }),
{
    let limits = root_limits(roots);
    let specs = shard_specs(limits);
    assert(specs.len() == store.ring@.shards.len());
    lemma_shard_count(limits);
    if limits.len() > 0 {
        lemma_shards_of(limits, 0, s);
        let d = specs[s].device_idx as int;
        lemma_shards_of(limits, d, s);
        crate::ssd_plan::shards_keep_to_the_limit(limits[d]);
        assert(store.devices@[d].open);
        assert(limits[d] == roots[d].limit_bytes);
    }
}

/// A request for room that is refused, or that has to wait, changes nothing. A new value is refused, where there are
/// shards for it, only if it is too long to be counted in blocks or larger than each of them.
pub proof fn a_value_is_refused_only_if_it_is_too_large(
    m: RingModel,
    k: KeyId,
    len: u64,
    allowed: Seq<usize>,
    r: Result<SsdPreparedWrite, ArgumentError>,
    next: RingModel,
    s: int,
)
    requires
        m.prepared(k, len, allowed, r, next),
        0 <= s < m.shards.len(),
        s <= usize::MAX,
        allowed.contains(s as usize),
    ensures
        r is Err ==> next == m,
        r matches Ok(answer) && !(answer is Ready) ==> next == m,
        r is Err && !m.entries.contains_key(k) && len + 511 <= u64::MAX ==> (len + 511) / 512 * 512
            > m.shards[s].capacity,
        len + 511 > u64::MAX && !m.entries.contains_key(k) ==> r == Err::<
            SsdPreparedWrite,
            ArgumentError,
        >(ArgumentError::AlignmentOverflow { value: len }),
{
    assert(allowed.len() > 0);
}

/// A value is stored once: one that is stored already is not written again, one whose write is under way
/// is waited for, and one of another length is refused. Nothing changes in either case.
pub proof fn a_value_is_stored_once(
    m: RingModel,
    k: KeyId,
    len: u64,
    allowed: Seq<usize>,
    r: Result<SsdPreparedWrite, ArgumentError>,
    next: RingModel,
)
    requires
        m.prepared(k, len, allowed, r, next),
        allowed.len() > 0,
        m.entries.contains_key(k),
    ensures
        next == m,
        m.entries[k] is Writing ==> (r matches Ok(answer) && answer is BlockedByBusyIo),
        m.entries[k] is Committed && m.entries[k].spec_entry().len == len ==> (r matches Ok(answer)
            && answer is Existing),
        m.entries[k] is Committed && m.entries[k].spec_entry().len != len ==> r is Err,
{
}

/// A command is answered well only if its value is stored with its length and pinned; a value that is new
/// is written first. The queue waits only for values under way, or for its own writes.
pub proof fn a_command_is_answered_well_only_if_its_value_is_stored(
    q: WriteQueueModel,
    store: KvSsdStorage,
    r: WriteStep,
    after: WriteQueueModel,
    ring: RingModel,
)
    requires
        store.wf(),
        store.foyer is None,
        0 <= q.device_idx < store.devices@.len(),
        queue_stepped(q, store, r, after, ring),
    ensures
        r matches WriteStep::Reply { result, .. } && result is Ok ==> {
            let k = q.pending[0].1;
            &&& store.ring@.entries.contains_key(k)
            &&& store.ring@.entries[k] is Committed
            &&& store.ring@.entries[k].spec_entry().len == q.pending[0].2
            &&& ring.pins.contains_key(k)
        },
        q.pending.len() > 0 && q.inflight < q.max_inflight
            && !store.ring@.entries.contains_key(q.pending[0].1) && r is Reply ==> r->Reply_result is Err,
        r is Wait ==> after == q,
        r is Reply ==> after.pending == q.pending.drop_first() && after.inflight == q.inflight,
{
    if r is Reply {
        let (t, k, len) = q.pending[0];
        let allowed = store.devices@[q.device_idx].shard_ids@;
        store.ring.lemma_wf();
        assert(store.device_wf(q.device_idx));
        lemma_first_stop(store.ring@, allowed, RingModel::ssd_len(len), 0);
    }
}

proof fn lemma_capacities_add_up(m: RingModel, a: Seq<usize>, b: Seq<usize>)
    ensures
        capacity_sum(m, a + b) == capacity_sum(m, a) + capacity_sum(m, b),
    decreases b.len(),
{
    if b.len() > 0 {
        lemma_capacities_add_up(m, a, b.drop_last());
        assert((a + b).drop_last() =~= a + b.drop_last());
    } else {
        assert(a + b =~= a);
    }
}

proof fn lemma_used_add_up(used: Seq<u64>, a: Seq<usize>, b: Seq<usize>)
    ensures
        used_sum(used, a + b) == used_sum(used, a) + used_sum(used, b),
    decreases b.len(),
{
    if b.len() > 0 {
        lemma_used_add_up(used, a, b.drop_last());
        assert((a + b).drop_last() =~= a + b.drop_last());
    } else {
        assert(a + b =~= a);
    }
}

/// The capacity of a device is that of its shards together, and so are the bytes in use.
pub proof fn shards_add_up(m: RingModel, used: Seq<u64>, a: Seq<usize>, b: Seq<usize>, s: usize)
    ensures
        capacity_sum(m, seq![s]) == m.shards[s as int].capacity,
        capacity_sum(m, a + b) == capacity_sum(m, a) + capacity_sum(m, b),
        used_sum(used, seq![s]) == used[s as int],
        used_sum(used, a + b) == used_sum(used, a) + used_sum(used, b),
{
    lemma_capacities_add_up(m, a, b);
    lemma_used_add_up(used, a, b);
    assert(seq![s].drop_last() =~= Seq::<usize>::empty());
    assert(capacity_sum(m, Seq::<usize>::empty()) == 0);
    assert(used_sum(used, Seq::<usize>::empty()) == 0);
}

proof fn lemma_no_fuller(m: RingModel, used: Seq<u64>, ids: Seq<usize>)
    requires
        used.len() == m.shards.len(),
        forall|s: int| 0 <= s < used.len() ==> #[trigger] used[s] <= m.shards[s].capacity,
        forall|i: int| 0 <= i < ids.len() ==> #[trigger] ids[i] < used.len(),
    ensures
        0 <= used_sum(used, ids) <= capacity_sum(m, ids),
    decreases ids.len(),
{
    if ids.len() > 0 {
        lemma_no_fuller(m, used, ids.drop_last());
        assert(ids[ids.len() - 1] < used.len());
    }
}

/// No device is fuller than it is large.
pub proof fn no_device_is_fuller_than_it_is_large(
    store: KvSsdStorage,
    d: int,
    used: Seq<u64>,
    u: KvSsdStorageDeviceUsage,
)
    requires
        store.shard_use(used),
        store.device_use(d, used, u),
        0 <= d < store.devices@.len(),
        forall|i: int|
            0 <= i < store.devices@[d].shard_ids@.len() ==> #[trigger] store.devices@[d].shard_ids@[i]
                < store.ring@.shards.len(),
    ensures
        u.used_bytes <= u.capacity_bytes,
{
    lemma_no_fuller(store.ring@, used, store.devices@[d].shard_ids@);
}

/// Two devices are named alike only if they are the same device at the same place.
pub proof fn names_tell_devices_apart(a: u64, b: u64, x: Seq<char>, y: Seq<char>)
    requires
        device_name(a, x) == device_name(b, y),
    ensures
        a == b,
        x == y,
{
    let (d, e) = (decimal(a as nat), decimal(b as nat));
    let (n, m) = (device_name(a, x), device_name(b, y));
    lemma_decimal_digits(a as nat);
    lemma_decimal_digits(b as nat);
    assert(n[4 + d.len() as int] == ':');
    assert(m[4 + e.len() as int] == ':');
    if d.len() < e.len() {
        assert(m[4 + d.len() as int] == e[d.len() as int]);
    } else if e.len() < d.len() {
        assert(n[4 + e.len() as int] == d[e.len() as int]);
    }
    assert forall|i: int| 0 <= i < d.len() implies d[i] == e[i] by {
        assert(n[4 + i] == d[i]);
        assert(m[4 + i] == e[i]);
    }
    assert(d =~= e);
    decimal_notation_tells_its_number(a as nat);
    decimal_notation_tells_its_number(b as nat);
    assert(n.len() == 5 + d.len() + x.len());
    assert(m.len() == 5 + e.len() + y.len());
    assert forall|i: int| 0 <= i < x.len() implies x[i] == y[i] by {
        assert(n[5 + d.len() + i] == x[i]);
        assert(m[5 + e.len() + i] == y[i]);
    }
    assert(x =~= y);
}

} // verus!
